use vstd::prelude::*;
use crate::truncate::{truncated, truncate_next_with_ellipses};

verus! {

/// The texts held by a vector of strings, in order.
pub open spec fn texts(v: Seq<String>) -> Seq<Seq<char>> {
    v.map_values(|s: String| s@)
}

/// Index of an entry of `v` equal to `s`, if there is one.
pub fn position_of(v: &Vec<String>, s: &String) -> (r: Option<usize>)
    ensures
        match r {
            Some(i) => i < v.len() && v@[i as int]@ == s@,
            None => !texts(v@).contains(s@),
        },
{
    let mut i: usize = 0;
    while i < v.len()
        invariant
            i <= v.len(),
            forall|j: int| 0 <= j < i ==> v@[j]@ != s@,
        decreases v.len() - i,
    {
        if v[i] == *s {
            return Some(i);
        }
        i += 1;
    }
    assert forall|j: int| 0 <= j < texts(v@).len() implies texts(v@)[j] != s@ by {
        assert(texts(v@)[j] == v@[j]@);
    }
    None
}

/// What inserting `value` does to the samples: when there is room, the value
/// truncated to `max_bytes` is appended unless it is already held.
pub open spec fn sample_insert(
    samples: Seq<Seq<char>>,
    capacity: nat,
    max_bytes: nat,
    value: Seq<char>,
) -> Seq<Seq<char>> {
    let t = truncated(value, max_bytes);
    if samples.len() >= capacity || samples.contains(t) {
        samples
    } else {
        samples.push(t)
    }
}

/// A collection of at most `capacity` distinct strings, each truncated to
/// `max_bytes` before it is stored. Once full, it ignores further values.
pub struct BoundedSampleSet {
    values: Vec<String>,
    capacity: usize,
    max_bytes: usize,
}

impl View for BoundedSampleSet {
    type V = Seq<Seq<char>>;

    closed spec fn view(&self) -> Seq<Seq<char>> {
        texts(self.values@)
    }
}

impl BoundedSampleSet {
    pub closed spec fn spec_capacity(&self) -> nat {
        self.capacity as nat
    }

    pub closed spec fn spec_max_bytes(&self) -> nat {
        self.max_bytes as nat
    }

    /// The samples are distinct and there are no more than the capacity.
    pub open spec fn wf(&self) -> bool {
        self@.no_duplicates() && self@.len() <= self.spec_capacity()
    }

    pub fn new(capacity: usize, max_bytes: usize) -> (r: Self)
        ensures
            r.wf(),
            r@ == Seq::<Seq<char>>::empty(),
            r.spec_capacity() == capacity,
            r.spec_max_bytes() == max_bytes,
    {
        let r = BoundedSampleSet { values: Vec::new(), capacity, max_bytes };
        assert(r@ =~= Seq::<Seq<char>>::empty());
        r
    }

    pub fn insert(&mut self, value: String)
        requires
            old(self).wf(),
        ensures
            final(self).wf(),
            final(self)@ == sample_insert(
                old(self)@,
                old(self).spec_capacity(),
                old(self).spec_max_bytes(),
                value@,
            ),
            final(self).spec_capacity() == old(self).spec_capacity(),
            final(self).spec_max_bytes() == old(self).spec_max_bytes(),
    {
        if self.values.len() >= self.capacity {
            return;
        }
        let mut value = value;
        truncate_next_with_ellipses(&mut value, self.max_bytes);
        match position_of(&self.values, &value) {
            Some(i) => {
                assert(texts(self.values@)[i as int] == value@);
            },
            None => {
                let ghost before = self@;
                self.values.push(value);
                assert(self@ =~= before.push(value@));
            },
        }
    }

    pub fn size(&self) -> (r: usize)
        ensures
            r == self@.len(),
    {
        self.values.len()
    }

    pub fn contains(&self, value: &String) -> (r: bool)
        ensures
            r == self@.contains(value@),
    {
        match position_of(&self.values, value) {
            Some(i) => {
                assert(self@[i as int] == value@);
                true
            },
            None => false,
        }
    }

    pub fn capacity(&self) -> (r: usize)
        ensures
            r == self.spec_capacity(),
    {
        self.capacity
    }

    /// The samples, in the order in which they were first seen.
    pub fn values(&self) -> (r: &Vec<String>)
        ensures
            texts(r@) == self@,
    {
        &self.values
    }
}

/// An insertion never takes the samples past the capacity.
pub proof fn lemma_insert_within_capacity(
    samples: Seq<Seq<char>>,
    capacity: nat,
    max_bytes: nat,
    value: Seq<char>,
)
    requires
        samples.len() <= capacity,
    ensures
        sample_insert(samples, capacity, max_bytes, value).len() <= capacity,
{
}

/// A sample set that is well formed holds no more values than its capacity.
pub proof fn lemma_size_within_capacity(s: &BoundedSampleSet)
    requires
        s.wf(),
    ensures
        s@.len() <= s.spec_capacity(),
{
}

/// Inserting the same value a second time changes nothing.
pub proof fn lemma_insert_twice(
    samples: Seq<Seq<char>>,
    capacity: nat,
    max_bytes: nat,
    value: Seq<char>,
)
    ensures
        sample_insert(sample_insert(samples, capacity, max_bytes, value), capacity, max_bytes, value)
            == sample_insert(samples, capacity, max_bytes, value),
{
    let t = truncated(value, max_bytes);
    let once = sample_insert(samples, capacity, max_bytes, value);
    if !(samples.len() >= capacity || samples.contains(t)) {
        assert(once[samples.len() as int] == t);
        assert(once.contains(t));
    }
}

} // verus!
