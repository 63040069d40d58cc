use xml_schema::progress::ProgressEstimator;
use xml_schema::samples::BoundedSampleSet;
use xml_schema::truncate::truncate_next_with_ellipses;

fn cut(s: &str, limit: usize) -> String {
    let mut s = s.to_string();
    truncate_next_with_ellipses(&mut s, limit);
    s
}

#[test]
fn short_text_is_unchanged() {
    assert_eq!(cut("hello", 10), "hello");
    assert_eq!(cut("hello", 5), "hello");
    assert_eq!(cut("", 0), "");
}

#[test]
fn long_text_gets_marker() {
    assert_eq!(cut("hello world", 5), "hello...");
    assert_eq!(cut("abc", 0), "...");
    assert_eq!(cut(&"a".repeat(60), 50), format!("{}...", "a".repeat(50)));
}

#[test]
fn cut_moves_forward_to_char_boundary() {
    // "é" takes two bytes; a limit of 2 falls inside it.
    assert_eq!(cut("aébc", 2), "aé...");
    // "€" takes three bytes.
    assert_eq!(cut("€€", 1), "€...");
    // The boundary lands on the end: nothing is cut.
    assert_eq!(cut("a€", 2), "a€");
}

#[test]
fn sample_set_caps_and_dedups() {
    let mut s = BoundedSampleSet::new(5, 50);
    for i in 0..10 {
        s.insert(format!("v{}", i));
        assert!(s.size() <= 5);
    }
    assert_eq!(s.size(), 5);
    assert!(s.contains(&"v4".to_string()));
    assert!(!s.contains(&"v5".to_string()));
    assert_eq!(s.capacity(), 5);
}

#[test]
fn repeated_value_takes_one_slot() {
    let mut s = BoundedSampleSet::new(5, 3);
    s.insert("abcdef".to_string());
    s.insert("abcdef".to_string());
    s.insert("abcxyz".to_string());
    assert_eq!(s.size(), 1);
    assert_eq!(s.values(), &vec!["abc...".to_string()]);
}

#[test]
fn progress_takes_larger_and_never_falls() {
    let mut p = ProgressEstimator::new(1000, 100);
    assert_eq!(p.update(10, 50), 100);
    assert_eq!(p.update(20, 700), 700);
    assert_eq!(p.update(30, 10), 700);
    assert_eq!(p.update(100, 0), 1000);
    assert_eq!(p.position(), 1000);
}

#[test]
fn progress_with_zero_budget() {
    let mut p = ProgressEstimator::new(400, 0);
    assert_eq!(p.update(0, 5), 400);
}
