use vstd::prelude::*;

verus! {

/// Number of bytes that the UTF-8 encoding of `c` takes.
pub open spec fn utf8_width(c: char) -> nat {
    if (c as u32) < 0x80 {
        1
    } else if (c as u32) < 0x800 {
        2
    } else if (c as u32) < 0x10000 {
        3
    } else {
        4
    }
}

/// Length in bytes of the UTF-8 encoding of `s`.
pub open spec fn utf8_len(s: Seq<char>) -> nat
    decreases s.len(),
{
    if s.len() == 0 {
        0
    } else {
        utf8_width(s[0]) + utf8_len(s.drop_first())
    }
}

/// The number of leading characters of `s` whose encoding first covers at
/// least `limit` bytes: the first character boundary at or after byte
/// `limit`, counted in characters (all of `s` when it is shorter).
pub open spec fn cut_point(s: Seq<char>, limit: nat) -> nat
    decreases s.len(),
{
    if limit == 0 || s.len() == 0 {
        0
    } else {
        let w = utf8_width(s[0]);
        1 + cut_point(s.drop_first(), if limit >= w { (limit - w) as nat } else { 0 })
    }
}

/// The marker appended after a cut.
pub open spec fn ellipsis() -> Seq<char> {
    seq!['.', '.', '.']
}

/// `s` cut at the first character boundary at or after byte `limit`, with the
/// marker appended; `s` itself when no character lies past that boundary.
pub open spec fn truncated(s: Seq<char>, limit: nat) -> Seq<char> {
    let k = cut_point(s, limit);
    if k < s.len() {
        s.take(k as int) + ellipsis()
    } else {
        s
    }
}

pub proof fn lemma_cut_point_bounds(s: Seq<char>, limit: nat)
    ensures
        cut_point(s, limit) <= s.len(),
        utf8_len(s.take(cut_point(s, limit) as int)) < limit + 4,
        cut_point(s, limit) < s.len() ==> utf8_len(s.take(cut_point(s, limit) as int)) >= limit,
        utf8_len(s) <= limit ==> cut_point(s, limit) == s.len(),
    decreases s.len(),
{
    if limit == 0 || s.len() == 0 {
        assert(s.take(0) =~= Seq::<char>::empty());
        if s.len() > 0 {
            assert(utf8_len(s) > 0);
        }
    } else {
        let w = utf8_width(s[0]);
        let rest = if limit >= w { (limit - w) as nat } else { 0 };
        lemma_cut_point_bounds(s.drop_first(), rest);
        let k = cut_point(s, limit);
        let t = s.take(k as int);
        assert(t.drop_first() =~= s.drop_first().take(k - 1));
        assert(t.len() > 0);
        assert(t[0] == s[0]);
    }
}

/// The truncated text is a character prefix of the input (so no character
/// is ever split) followed by the marker, and the prefix is no longer than
/// `limit` plus three bytes; an input of at most `limit` bytes comes back
/// unchanged, with no marker.
pub proof fn lemma_truncation_keeps_characters(s: Seq<char>, limit: nat)
    ensures
        truncated(s, limit) == s || exists|k: int|
            0 <= k < s.len() && truncated(s, limit) == s.take(k) + ellipsis() && utf8_len(
                s.take(k),
            ) < limit + 4,
        utf8_len(s) <= limit ==> truncated(s, limit) == s,
{
    lemma_cut_point_bounds(s, limit);
    let k = cut_point(s, limit) as int;
    if k < s.len() {
        assert(truncated(s, limit) == s.take(k) + ellipsis());
    }
}

fn char_width(c: char) -> (w: usize)
    ensures
        w == utf8_width(c),
{
    let u = c as u32;
    if u < 0x80 {
        1
    } else if u < 0x800 {
        2
    } else if u < 0x10000 {
        3
    } else {
        4
    }
}

/// Cuts `s` at the first character boundary at or after byte `limit` and
/// appends `"..."`, unless nothing lies past that boundary.
pub fn truncate_next_with_ellipses(s: &mut String, limit: usize)
    ensures
        final(s)@ == truncated(old(s)@, limit as nat),
{
    let n = s.as_str().unicode_len();
    let mut i: usize = 0;
    let mut remaining: usize = limit;
    assert(s@.skip(0) =~= s@);
    while i < n && remaining > 0
        invariant
            n == s@.len(),
            i <= n,
            cut_point(s@, limit as nat) == i + cut_point(s@.skip(i as int), remaining as nat),
        decreases n - i,
    {
        let c = s.as_str().get_char(i);
        let w = char_width(c);
        proof {
            let t = s@.skip(i as int);
            assert(t[0] == c);
            assert(t.drop_first() =~= s@.skip(i + 1));
        }
        remaining = if remaining >= w {
            remaining - w
        } else {
            0
        };
        i += 1;
    }
    proof {
        if i == n {
            assert(s@.skip(i as int).len() == 0);
        }
    }
    if i < n {
        let kept = s.as_str().substring_char(0, i);
        let mut t = String::from_str(kept);
        proof {
            reveal_strlit("...");
        }
        t.append("...");
        proof {
            assert("..."@ =~= ellipsis());
        }
        *s = t;
    }
}

} // verus!
