use xml_schema::element::ElementSchema;
use xml_schema::schema::XMLSchema;
use xml_schema::traversal::{HaltReason, RunState, Traversal, XmlEvent};

fn start(name: &str, attrs: &[(&str, &str)]) -> XmlEvent {
    XmlEvent::Start {
        name: name.to_string(),
        attributes: attrs.iter().map(|(k, v)| (k.to_string(), v.to_string())).collect(),
    }
}

fn empty(name: &str) -> XmlEvent {
    XmlEvent::Empty { name: name.to_string(), attributes: Vec::new() }
}

fn text(t: &str) -> XmlEvent {
    XmlEvent::Text(t.to_string())
}

fn entry<'a>(schema: &'a XMLSchema, name: &str) -> &'a ElementSchema {
    schema.get(&name.to_string()).expect("entry present")
}

fn subs(schema: &XMLSchema, name: &str) -> Vec<String> {
    let mut v = entry(schema, name).sub_elements.clone();
    v.sort();
    v
}

fn examples(schema: &XMLSchema, name: &str) -> Vec<String> {
    entry(schema, name).examples.values().clone()
}

fn attribute(schema: &XMLSchema, name: &str, key: &str) -> Vec<String> {
    let e = entry(schema, name);
    let a = e.attributes.iter().find(|a| a.key == key).expect("attribute present");
    a.samples.values().clone()
}

#[test]
fn nested_document_scenario() {
    let events = vec![
        start("a", &[("x", "1")]),
        start("b", &[]),
        text("hi"),
        XmlEvent::End,
        start("b", &[]),
        text("bye"),
        XmlEvent::End,
        XmlEvent::End,
        XmlEvent::Eof,
    ];
    let t = Traversal::run(&events, 10);
    assert_eq!(t.state(), RunState::Halted(HaltReason::EndOfInput));
    let s = t.schema();
    assert_eq!(subs(s, "a"), vec!["b".to_string()]);
    assert_eq!(attribute(s, "a", "x"), vec!["1".to_string()]);
    assert!(subs(s, "b").is_empty());
    assert_eq!(examples(s, "b"), vec!["hi".to_string(), "bye".to_string()]);
    assert_eq!(subs(s, "__Root__"), vec!["a".to_string()]);
}

#[test]
fn self_closing_tag_is_not_opened() {
    let events = vec![start("a", &[]), empty("c"), text("after"), XmlEvent::End, XmlEvent::Eof];
    let t = Traversal::run(&events, 100);
    let s = t.schema();
    assert_eq!(subs(s, "a"), vec!["c".to_string()]);
    assert_eq!(examples(s, "a"), vec!["after".to_string()]);
    assert!(examples(s, "c").is_empty());
}

#[test]
fn long_attribute_value_is_cut() {
    let value = "v".repeat(60);
    let events = vec![start("a", &[("k", value.as_str())]), XmlEvent::End, XmlEvent::Eof];
    let t = Traversal::run(&events, 100);
    let expected = format!("{}...", "v".repeat(50));
    assert_eq!(attribute(t.schema(), "a", "k"), vec![expected]);
}

#[test]
fn budget_of_two_events() {
    let events = vec![
        start("a", &[]),
        start("b", &[]),
        empty("c"),
        XmlEvent::End,
        XmlEvent::End,
        XmlEvent::Eof,
    ];
    let t = Traversal::run(&events, 2);
    assert_eq!(t.count(), 2);
    assert_eq!(t.state(), RunState::Halted(HaltReason::EventBudgetExhausted));
    let s = t.schema();
    assert_eq!(subs(s, "a"), vec!["b".to_string()]);
    assert!(s.contains(&"b".to_string()));
    assert!(!s.contains(&"c".to_string()));
    assert_eq!(t.depth(), 3);
}

#[test]
fn empty_document_keeps_root() {
    let t = Traversal::run(&Vec::new(), 10);
    assert_eq!(t.state(), RunState::Running);
    assert!(t.schema().contains(&"__Root__".to_string()));
    assert_eq!(t.schema().elements().len(), 1);
    assert_eq!(t.schema().root_string(), "__Root__");
}

#[test]
fn tokenizer_error_keeps_partial_results() {
    let events = vec![start("a", &[]), XmlEvent::Error, start("z", &[])];
    let t = Traversal::run(&events, 10);
    assert_eq!(t.state(), RunState::Halted(HaltReason::TokenizerError));
    assert_eq!(t.count(), 2);
    assert_eq!(subs(t.schema(), "__Root__"), vec!["a".to_string()]);
    assert!(!t.schema().contains(&"z".to_string()));
}

#[test]
fn zero_budget_handles_nothing() {
    let events = vec![start("a", &[])];
    let t = Traversal::run(&events, 0);
    assert_eq!(t.count(), 0);
    assert_eq!(t.state(), RunState::Halted(HaltReason::EventBudgetExhausted));
    assert!(!t.schema().contains(&"a".to_string()));
}

#[test]
fn unmatched_end_tag_is_ignored() {
    let events = vec![XmlEvent::End, start("a", &[]), XmlEvent::End, XmlEvent::End, text("top")];
    let t = Traversal::run(&events, 10);
    assert_eq!(t.depth(), 1);
    assert_eq!(examples(t.schema(), "__Root__"), vec!["top".to_string()]);
}

#[test]
fn children_fold_across_instances_and_cycles() {
    let events = vec![
        start("a", &[]),
        start("a", &[]),
        empty("b"),
        XmlEvent::End,
        start("c", &[]),
        start("a", &[]),
        XmlEvent::End,
        XmlEvent::End,
        XmlEvent::End,
    ];
    let t = Traversal::run(&events, 100);
    let s = t.schema();
    assert_eq!(subs(s, "a"), vec!["a".to_string(), "b".to_string(), "c".to_string()]);
    assert_eq!(subs(s, "c"), vec!["a".to_string()]);
    assert_eq!(subs(s, "__Root__"), vec!["a".to_string()]);
}

#[test]
fn text_samples_stop_at_five() {
    let mut events = vec![start("a", &[])];
    for i in 0..8 {
        events.push(text(&format!("t{}", i)));
    }
    events.push(text("t0"));
    let t = Traversal::run(&events, 100);
    assert_eq!(examples(t.schema(), "a"), vec!["t0", "t1", "t2", "t3", "t4"]);
}

#[test]
fn attribute_samples_are_distinct() {
    let events = vec![
        empty_with("e", &[("k", "1")]),
        empty_with("e", &[("k", "1"), ("j", "2")]),
        empty_with("e", &[("k", "3")]),
    ];
    let t = Traversal::run(&events, 100);
    assert_eq!(attribute(t.schema(), "e", "k"), vec!["1".to_string(), "3".to_string()]);
    assert_eq!(attribute(t.schema(), "e", "j"), vec!["2".to_string()]);
}

fn empty_with(name: &str, attrs: &[(&str, &str)]) -> XmlEvent {
    XmlEvent::Empty {
        name: name.to_string(),
        attributes: attrs.iter().map(|(k, v)| (k.to_string(), v.to_string())).collect(),
    }
}

#[test]
fn step_by_step_registry() {
    let mut s = XMLSchema::new();
    s.add_sub_element(&"p".to_string(), &"q".to_string());
    assert!(s.contains(&"p".to_string()));
    assert!(s.contains(&"q".to_string()));
    s.add_sub_element(&"p".to_string(), &"q".to_string());
    assert_eq!(subs(&s, "p"), vec!["q".to_string()]);
    s.add_text(&"q".to_string(), "x".repeat(120));
    assert_eq!(examples(&s, "q"), vec![format!("{}...", "x".repeat(100))]);
    s.ensure(&"r".to_string());
    assert!(subs(&s, "r").is_empty());
}

#[test]
fn other_events_count_but_record_nothing() {
    let events = vec![XmlEvent::Other, start("a", &[]), XmlEvent::Other, XmlEvent::End];
    let t = Traversal::run(&events, 3);
    assert_eq!(t.count(), 3);
    assert_eq!(t.state(), RunState::Halted(HaltReason::EventBudgetExhausted));
    assert!(examples(t.schema(), "a").is_empty());
    assert_eq!(t.depth(), 2);
}

#[test]
fn run_stops_at_first_end_of_input() {
    let events = vec![start("a", &[]), XmlEvent::Eof, start("late", &[])];
    let t = Traversal::run(&events, 100);
    assert_eq!(t.count(), 2);
    assert_eq!(t.state(), RunState::Halted(HaltReason::EndOfInput));
    assert!(!t.schema().contains(&"late".to_string()));
}
