use vstd::prelude::*;
use crate::samples::{position_of, sample_insert, texts, BoundedSampleSet};

verus! {

/// How many distinct samples are kept per attribute and per element's text.
pub const SAMPLE_CAPACITY: usize = 5;

/// Byte length past which an attribute value is cut before it is sampled.
pub const ATTRIBUTE_MAX_BYTES: usize = 50;

/// Byte length past which a text run is cut before it is sampled.
pub const TEXT_MAX_BYTES: usize = 100;

/// An index in a sequence without duplicates is the only one of its value.
pub proof fn lemma_index_of_unique<A>(s: Seq<A>, i: int)
    requires
        s.no_duplicates(),
        0 <= i < s.len(),
    ensures
        s.index_of(s[i]) == i,
{
    assert(s.contains(s[i]));
}

/// The samples held for `key`, empty when there are none yet.
pub open spec fn samples_for(m: Map<Seq<char>, Seq<Seq<char>>>, key: Seq<char>) -> Seq<Seq<char>> {
    if m.contains_key(key) {
        m[key]
    } else {
        Seq::empty()
    }
}

/// The sampled values of one attribute name.
pub struct AttributeSamples {
    pub key: String,
    pub samples: BoundedSampleSet,
}

/// What has been seen of one element name across the whole document.
pub struct ElementSchema {
    pub name: String,
    pub sub_elements: Vec<String>,
    pub attributes: Vec<AttributeSamples>,
    pub examples: BoundedSampleSet,
}

impl ElementSchema {
    pub open spec fn keys(&self) -> Seq<Seq<char>> {
        self.attributes@.map_values(|a: AttributeSamples| a.key@)
    }

    /// The names seen directly under this element.
    pub open spec fn sub_element_set(&self) -> Set<Seq<char>> {
        texts(self.sub_elements@).to_set()
    }

    /// Attribute name to the values sampled for it.
    pub open spec fn attribute_map(&self) -> Map<Seq<char>, Seq<Seq<char>>> {
        Map::new(
            |k: Seq<char>| self.keys().contains(k),
            |k: Seq<char>| self.attributes@[self.keys().index_of(k)].samples@,
        )
    }

    pub open spec fn wf(&self) -> bool {
        &&& texts(self.sub_elements@).no_duplicates()
        &&& self.keys().no_duplicates()
        &&& forall|i: int|
            0 <= i < self.attributes.len() ==> {
                &&& (#[trigger] self.attributes@[i]).samples.wf()
                &&& self.attributes@[i].samples.spec_capacity() == SAMPLE_CAPACITY
                &&& self.attributes@[i].samples.spec_max_bytes() == ATTRIBUTE_MAX_BYTES
            }
        &&& self.examples.wf()
        &&& self.examples.spec_capacity() == SAMPLE_CAPACITY
        &&& self.examples.spec_max_bytes() == TEXT_MAX_BYTES
    }

    /// Nothing has been recorded of this element yet.
    pub open spec fn is_blank(&self) -> bool {
        &&& self.sub_element_set() == Set::<Seq<char>>::empty()
        &&& self.attribute_map() == Map::<Seq<char>, Seq<Seq<char>>>::empty()
        &&& self.examples@ == Seq::<Seq<char>>::empty()
    }

    pub fn new(name: &String) -> (r: ElementSchema)
        ensures
            r.wf(),
            r.name@ == name@,
            r.is_blank(),
    {
        let r = ElementSchema {
            name: name.clone(),
            sub_elements: Vec::new(),
            attributes: Vec::new(),
            examples: BoundedSampleSet::new(SAMPLE_CAPACITY, TEXT_MAX_BYTES),
        };
        assert(r.sub_element_set() =~= Set::<Seq<char>>::empty());
        assert(r.attribute_map() =~= Map::<Seq<char>, Seq<Seq<char>>>::empty());
        r
    }

    pub fn add_sub_element(&mut self, sub: &String)
        requires
            old(self).wf(),
        ensures
            final(self).wf(),
            final(self).name == old(self).name,
            final(self).sub_element_set() == old(self).sub_element_set().insert(sub@),
            final(self).attributes == old(self).attributes,
            final(self).examples == old(self).examples,
    {
        match position_of(&self.sub_elements, sub) {
            Some(i) => {
                assert(texts(self.sub_elements@)[i as int] == sub@);
                assert(self.sub_element_set() =~= self.sub_element_set().insert(sub@));
            },
            None => {
                let ghost before = texts(self.sub_elements@);
                self.sub_elements.push(sub.clone());
                assert(texts(self.sub_elements@) =~= before.push(sub@));
                proof {
                    before.lemma_push_to_set_commute(sub@);
                }
                assert(self.sub_element_set() =~= before.to_set().insert(sub@));
            },
        }
    }

    fn attribute_position(&self, key: &String) -> (r: Option<usize>)
        ensures
            match r {
                Some(i) => i < self.attributes.len() && self.attributes@[i as int].key@ == key@,
                None => !self.keys().contains(key@),
            },
    {
        let mut i: usize = 0;
        while i < self.attributes.len()
            invariant
                i <= self.attributes.len(),
                forall|j: int| 0 <= j < i ==> self.attributes@[j].key@ != key@,
            decreases self.attributes.len() - i,
        {
            if self.attributes[i].key == *key {
                return Some(i);
            }
            i += 1;
        }
        assert forall|j: int| 0 <= j < self.keys().len() implies self.keys()[j] != key@ by {
            assert(self.keys()[j] == self.attributes@[j].key@);
        }
        None
    }

    /// Samples `value` (cut to the attribute limit) under the attribute `key`.
    pub fn add_attribute(&mut self, key: String, value: String)
        requires
            old(self).wf(),
        ensures
            final(self).wf(),
            final(self).name == old(self).name,
            final(self).sub_elements == old(self).sub_elements,
            final(self).examples == old(self).examples,
            final(self).attribute_map() == old(self).attribute_map().insert(
                key@,
                sample_insert(
                    samples_for(old(self).attribute_map(), key@),
                    SAMPLE_CAPACITY as nat,
                    ATTRIBUTE_MAX_BYTES as nat,
                    value@,
                ),
            ),
    {
        let ghost old_keys = self.keys();
        let ghost old_map = self.attribute_map();
        match self.attribute_position(&key) {
            Some(i) => {
                proof {
                    assert(old_keys[i as int] == key@);
                    lemma_index_of_unique(old_keys, i as int);
                }
                self.attributes[i].samples.insert(value);
                assert(self.keys() =~= old_keys);
                assert forall|j: int| 0 <= j < self.attributes.len() && j != i implies
                    self.attributes@[j] == old(self).attributes@[j] by {}
                assert forall|k: Seq<char>| #[trigger] self.keys().contains(k) && k != key@ implies
                    self.attributes@[self.keys().index_of(k)] == old(self).attributes@[old_keys.index_of(k)] by {
                    let j = old_keys.index_of(k);
                    assert(old_keys[j] == k);
                }
                assert(self.attribute_map() =~= old_map.insert(
                    key@,
                    sample_insert(samples_for(old_map, key@), SAMPLE_CAPACITY as nat, ATTRIBUTE_MAX_BYTES as nat, value@),
                ));
            },
            None => {
                let mut samples = BoundedSampleSet::new(SAMPLE_CAPACITY, ATTRIBUTE_MAX_BYTES);
                samples.insert(value);
                let ghost n = self.attributes.len();
                self.attributes.push(AttributeSamples { key, samples });
                assert(self.keys() =~= old_keys.push(key@));
                proof {
                    lemma_index_of_unique(self.keys(), n as int);
                }
                assert forall|k: Seq<char>| #[trigger] self.keys().contains(k) && k != key@ implies
                    self.keys().index_of(k) == old_keys.index_of(k)
                        && self.attributes@[self.keys().index_of(k)] == old(self).attributes@[old_keys.index_of(k)] by {
                    let j = self.keys().index_of(k);
                    assert(self.keys()[j] == k);
                    assert(j < n);
                    assert(old_keys[j] == k);
                    lemma_index_of_unique(old_keys, j);
                }
                assert(!old_map.contains_key(key@));
                assert forall|k: Seq<char>| #[trigger] self.keys().contains(k) <==> (old_keys.contains(k) || k == key@) by {
                    if old_keys.contains(k) {
                        let j = old_keys.index_of(k);
                        assert(self.keys()[j] == k);
                    }
                    if k == key@ {
                        assert(self.keys()[n as int] == k);
                    }
                    if self.keys().contains(k) && k != key@ {
                        let j = self.keys().index_of(k);
                        assert(old_keys[j] == k);
                    }
                }
                assert(self.attributes@[n as int].samples@ == sample_insert(Seq::empty(), SAMPLE_CAPACITY as nat, ATTRIBUTE_MAX_BYTES as nat, value@));
                assert(self.attribute_map() =~= old_map.insert(
                    key@,
                    sample_insert(samples_for(old_map, key@), SAMPLE_CAPACITY as nat, ATTRIBUTE_MAX_BYTES as nat, value@),
                ));
            },
        }
    }

    /// Samples `text` (cut to the text limit) among this element's text.
    pub fn add_text(&mut self, text: String)
        requires
            old(self).wf(),
        ensures
            final(self).wf(),
            final(self).name == old(self).name,
            final(self).sub_elements == old(self).sub_elements,
            final(self).attributes == old(self).attributes,
            final(self).examples@ == sample_insert(
                old(self).examples@,
                SAMPLE_CAPACITY as nat,
                TEXT_MAX_BYTES as nat,
                text@,
            ),
    {
        self.examples.insert(text);
    }
}

} // verus!
