use vstd::prelude::*;
use crate::element::{
    lemma_index_of_unique, samples_for, ElementSchema, ATTRIBUTE_MAX_BYTES, SAMPLE_CAPACITY,
    TEXT_MAX_BYTES,
};
use crate::samples::sample_insert;

verus! {

/// Name of the sentinel entry that stands for the document itself.
pub open spec fn root_label() -> Seq<char> {
    seq!['_', '_', 'R', 'o', 'o', 't', '_', '_']
}

pub open spec fn element_names(elems: Seq<ElementSchema>) -> Seq<Seq<char>> {
    elems.map_values(|e: ElementSchema| e.name@)
}

pub open spec fn lookup(elems: Seq<ElementSchema>, n: Seq<char>) -> ElementSchema {
    elems[element_names(elems).index_of(n)]
}

/// The attribute samples after recording `pairs` in order, from `m`.
pub open spec fn record_pairs(
    m: Map<Seq<char>, Seq<Seq<char>>>,
    pairs: Seq<(String, String)>,
) -> Map<Seq<char>, Seq<Seq<char>>>
    decreases pairs.len(),
{
    if pairs.len() == 0 {
        m
    } else {
        let before = record_pairs(m, pairs.drop_last());
        let (k, v) = pairs.last();
        before.insert(
            k@,
            sample_insert(
                samples_for(before, k@),
                SAMPLE_CAPACITY as nat,
                ATTRIBUTE_MAX_BYTES as nat,
                v@,
            ),
        )
    }
}

/// Changing one entry of a registry without renaming it leaves every other
/// name looking up the same entry.
proof fn lemma_update_at(a: Seq<ElementSchema>, b: Seq<ElementSchema>, i: int)
    requires
        element_names(a).no_duplicates(),
        a.len() == b.len(),
        0 <= i < a.len(),
        b[i].name == a[i].name,
        forall|j: int| 0 <= j < a.len() && j != i ==> b[j] == a[j],
    ensures
        element_names(b) == element_names(a),
        lookup(b, a[i].name@) == b[i],
        forall|n: Seq<char>|
            element_names(a).contains(n) && n != a[i].name@ ==> lookup(b, n) == lookup(a, n),
{
    assert(element_names(b) =~= element_names(a));
    lemma_index_of_unique(element_names(a), i);
    assert forall|n: Seq<char>|
        element_names(a).contains(n) && n != a[i].name@ implies lookup(b, n) == lookup(a, n) by {
        let j = element_names(a).index_of(n);
        assert(element_names(a)[j] == n);
    }
}

/// The sentinel entry is in every well-formed registry.
pub proof fn lemma_root_present(s: &XMLSchema)
    requires
        s.wf(),
    ensures
        s.has(root_label()),
{
    assert(element_names(s.elements@)[0] == root_label());
}

/// Every element name seen so far, each with what was recorded of it, plus the
/// sentinel entry for the document itself.
pub struct XMLSchema {
    elements: Vec<ElementSchema>,
    root_name: String,
}

impl XMLSchema {
    pub closed spec fn wf(&self) -> bool {
        &&& element_names(self.elements@).no_duplicates()
        &&& self.elements.len() > 0
        &&& self.elements@[0].name@ == root_label()
        &&& self.root_name@ == root_label()
        &&& forall|i: int| 0 <= i < self.elements.len() ==> (#[trigger] self.elements@[i]).wf()
    }

    pub closed spec fn has(&self, n: Seq<char>) -> bool {
        element_names(self.elements@).contains(n)
    }

    pub closed spec fn element(&self, n: Seq<char>) -> ElementSchema {
        lookup(self.elements@, n)
    }

    /// The names seen directly under `n`; empty for a name not seen.
    pub open spec fn sub_elements_of(&self, n: Seq<char>) -> Set<Seq<char>> {
        if self.has(n) {
            self.element(n).sub_element_set()
        } else {
            Set::empty()
        }
    }

    /// The attribute samples of `n`; empty for a name not seen.
    pub open spec fn attributes_of(&self, n: Seq<char>) -> Map<Seq<char>, Seq<Seq<char>>> {
        if self.has(n) {
            self.element(n).attribute_map()
        } else {
            Map::empty()
        }
    }

    /// The text samples of `n`; empty for a name not seen.
    pub open spec fn examples_of(&self, n: Seq<char>) -> Seq<Seq<char>> {
        if self.has(n) {
            self.element(n).examples@
        } else {
            Seq::empty()
        }
    }

    /// `self` and `other` record the same of `n`.
    pub open spec fn same_at(&self, other: &XMLSchema, n: Seq<char>) -> bool {
        &&& self.sub_elements_of(n) == other.sub_elements_of(n)
        &&& self.attributes_of(n) == other.attributes_of(n)
        &&& self.examples_of(n) == other.examples_of(n)
    }

    pub fn new() -> (r: XMLSchema)
        ensures
            r.wf(),
            forall|n: Seq<char>| r.has(n) <==> n == root_label(),
            r.sub_elements_of(root_label()) == Set::<Seq<char>>::empty(),
            r.attributes_of(root_label()) == Map::<Seq<char>, Seq<Seq<char>>>::empty(),
            r.examples_of(root_label()) == Seq::<Seq<char>>::empty(),
    {
        let root_name = String::from_str("__Root__");
        proof {
            reveal_strlit("__Root__");
            assert(root_name@ =~= root_label());
        }
        let root = ElementSchema::new(&root_name);
        let mut elements = Vec::new();
        elements.push(root);
        let r = XMLSchema { elements, root_name };
        assert(element_names(r.elements@) =~= seq![root_label()]);
        proof {
            lemma_index_of_unique(element_names(r.elements@), 0);
        }
        r
    }

    /// The name of the sentinel entry, the base of every traversal.
    pub fn root_string(&self) -> (r: String)
        requires
            self.wf(),
        ensures
            r@ == root_label(),
    {
        self.root_name.clone()
    }

    /// The entry of `name`, if it has one.
    pub fn get(&self, name: &String) -> (r: Option<&ElementSchema>)
        requires
            self.wf(),
        ensures
            match r {
                Some(e) => self.has(name@) && *e == self.element(name@) && e.name@ == name@,
                None => !self.has(name@),
            },
    {
        match self.find(name) {
            Some(i) => {
                proof {
                    lemma_index_of_unique(element_names(self.elements@), i as int);
                }
                Some(&self.elements[i])
            },
            None => None,
        }
    }

    /// All entries, the sentinel first; each name once.
    pub fn elements(&self) -> (r: &Vec<ElementSchema>)
        requires
            self.wf(),
        ensures
            element_names(r@).no_duplicates(),
            forall|n: Seq<char>| self.has(n) <==> element_names(r@).contains(n),
            forall|i: int| 0 <= i < r.len() ==> #[trigger] self.element(r@[i].name@) == r@[i],
    {
        proof {
            assert forall|i: int| 0 <= i < self.elements.len() implies #[trigger] self.element(self.elements@[i].name@) == self.elements@[i] by {
                assert(element_names(self.elements@)[i] == self.elements@[i].name@);
                lemma_index_of_unique(element_names(self.elements@), i);
            }
        }
        &self.elements
    }

    fn find(&self, name: &String) -> (r: Option<usize>)
        requires
            self.wf(),
        ensures
            match r {
                Some(i) => i < self.elements.len() && self.elements@[i as int].name@ == name@,
                None => !self.has(name@),
            },
    {
        let mut i: usize = 0;
        while i < self.elements.len()
            invariant
                i <= self.elements.len(),
                forall|j: int| 0 <= j < i ==> self.elements@[j].name@ != name@,
            decreases self.elements.len() - i,
        {
            if self.elements[i].name == *name {
                return Some(i);
            }
            i += 1;
        }
        assert forall|j: int| 0 <= j < self.elements.len() implies element_names(self.elements@)[j] != name@ by {
            assert(element_names(self.elements@)[j] == self.elements@[j].name@);
        }
        None
    }

    pub fn contains(&self, name: &String) -> (r: bool)
        requires
            self.wf(),
        ensures
            r == self.has(name@),
    {
        match self.find(name) {
            Some(i) => {
                assert(element_names(self.elements@)[i as int] == name@);
                true
            },
            None => false,
        }
    }

    fn ensure_index(&mut self, name: &String) -> (i: usize)
        requires
            old(self).wf(),
        ensures
            final(self).wf(),
            i < final(self).elements.len(),
            final(self).elements@[i as int].name@ == name@,
            final(self).element(name@) == final(self).elements@[i as int],
            forall|n: Seq<char>| final(self).has(n) <==> (old(self).has(n) || n == name@),
            forall|n: Seq<char>| #[trigger] old(self).has(n) ==> final(self).element(n) == old(self).element(n),
            !old(self).has(name@) ==> final(self).element(name@).is_blank(),
    {
        match self.find(name) {
            Some(i) => {
                proof {
                    lemma_index_of_unique(element_names(self.elements@), i as int);
                }
                i
            },
            None => {
                let ghost before = element_names(self.elements@);
                let ghost old_elems = self.elements@;
                let i = self.elements.len();
                self.elements.push(ElementSchema::new(name));
                let ghost after = element_names(self.elements@);
                assert(after =~= before.push(name@));
                proof {
                    lemma_index_of_unique(after, i as int);
                }
                assert forall|n: Seq<char>| self.has(n) <==> (old(self).has(n) || n == name@) by {
                    if before.contains(n) {
                        let j = before.index_of(n);
                        assert(after[j] == n);
                    }
                    if n == name@ {
                        assert(after[i as int] == n);
                    }
                    if after.contains(n) && n != name@ {
                        let j = after.index_of(n);
                        assert(before[j] == n);
                    }
                }
                assert forall|n: Seq<char>| #[trigger] old(self).has(n) implies self.element(n) == old(self).element(n) by {
                    let j = before.index_of(n);
                    assert(before[j] == n);
                    assert(after[j] == n);
                    lemma_index_of_unique(after, j);
                }
                assert forall|k: int| 0 <= k < self.elements.len() implies (#[trigger] self.elements@[k]).wf() by {
                    if k < i {
                        assert(self.elements@[k] == old_elems[k]);
                    }
                }
                i
            },
        }
    }

    /// Makes sure that `name` has an entry, blank if it is new.
    pub fn ensure(&mut self, name: &String)
        requires
            old(self).wf(),
        ensures
            final(self).wf(),
            forall|n: Seq<char>| final(self).has(n) <==> (old(self).has(n) || n == name@),
            forall|n: Seq<char>| #[trigger] final(self).same_at(&old(self), n),
    {
        self.ensure_index(name);
    }
    /// Records `sub` as seen directly under `parent`; both get an entry.
    pub fn add_sub_element(&mut self, parent: &String, sub: &String)
        requires
            old(self).wf(),
        ensures
            final(self).wf(),
            forall|n: Seq<char>|
                final(self).has(n) <==> (old(self).has(n) || n == parent@ || n == sub@),
            final(self).sub_elements_of(parent@) == old(self).sub_elements_of(parent@).insert(sub@),
            forall|n: Seq<char>|
                n != parent@ ==> #[trigger] final(self).sub_elements_of(n) == old(self).sub_elements_of(n),
            forall|n: Seq<char>| #[trigger] final(self).attributes_of(n) == old(self).attributes_of(n),
            forall|n: Seq<char>| #[trigger] final(self).examples_of(n) == old(self).examples_of(n),
    {
        self.ensure_index(sub);
        let ghost first = *self;
        let p = self.ensure_index(parent);
        let ghost mid = *self;
        assert forall|n: Seq<char>| #[trigger] mid.same_at(&old(self), n) by {
            if first.has(n) && !old(self).has(n) {
                assert(first.element(n).is_blank());
            }
            if mid.has(n) && !first.has(n) {
                assert(mid.element(n).is_blank());
            }
        }
        self.elements[p].add_sub_element(sub);
        proof {
            lemma_update_at(mid.elements@, self.elements@, p as int);
            assert forall|k: int| 0 <= k < self.elements.len() implies (#[trigger] self.elements@[k]).wf() by {
                if k != p {
                    assert(self.elements@[k] == mid.elements@[k]);
                }
            }
            assert forall|n: Seq<char>| #[trigger] self.has(n) <==> mid.has(n) by {}
            assert forall|n: Seq<char>| n != parent@ implies #[trigger] self.same_at(&mid, n) by {
                if mid.has(n) {
                    assert(self.element(n) == mid.element(n));
                }
            }
            assert(self.element(parent@) == self.elements@[p as int]);
        }
    }

    /// Samples each attribute pair, in order, under the element `name`, which
    /// gets an entry.
    pub fn add_attributes(&mut self, name: &String, attributes: &Vec<(String, String)>)
        requires
            old(self).wf(),
        ensures
            final(self).wf(),
            forall|n: Seq<char>| final(self).has(n) <==> (old(self).has(n) || n == name@),
            final(self).attributes_of(name@) == record_pairs(old(self).attributes_of(name@), attributes@),
            forall|n: Seq<char>|
                n != name@ ==> #[trigger] final(self).attributes_of(n) == old(self).attributes_of(n),
            forall|n: Seq<char>| #[trigger] final(self).sub_elements_of(n) == old(self).sub_elements_of(n),
            forall|n: Seq<char>| #[trigger] final(self).examples_of(n) == old(self).examples_of(n),
    {
        let i = self.ensure_index(name);
        let ghost mid = *self;
        assert forall|n: Seq<char>| #[trigger] mid.same_at(&old(self), n) by {
            if mid.has(n) && !old(self).has(n) {
                assert(mid.element(n).is_blank());
            }
        }
        let mut j: usize = 0;
        assert(attributes@.take(0) =~= Seq::<(String, String)>::empty());
        while j < attributes.len()
            invariant
                i < self.elements.len(),
                self.elements.len() == mid.elements.len(),
                self.root_name == mid.root_name,
                j <= attributes.len(),
                self.elements@[i as int].wf(),
                self.elements@[i as int].name == mid.elements@[i as int].name,
                self.elements@[i as int].sub_elements == mid.elements@[i as int].sub_elements,
                self.elements@[i as int].examples == mid.elements@[i as int].examples,
                self.elements@[i as int].attribute_map() == record_pairs(
                    mid.elements@[i as int].attribute_map(),
                    attributes@.take(j as int),
                ),
                forall|k: int| 0 <= k < self.elements.len() && k != i ==> self.elements@[k] == mid.elements@[k],
            decreases attributes.len() - j,
        {
            let key = attributes[j].0.clone();
            let value = attributes[j].1.clone();
            self.elements[i].add_attribute(key, value);
            assert(attributes@.take(j + 1).drop_last() =~= attributes@.take(j as int));
            j += 1;
        }
        assert(attributes@.take(j as int) =~= attributes@);
        proof {
            lemma_update_at(mid.elements@, self.elements@, i as int);
            assert forall|k: int| 0 <= k < self.elements.len() implies (#[trigger] self.elements@[k]).wf() by {
                if k != i {
                    assert(self.elements@[k] == mid.elements@[k]);
                }
            }
            assert forall|n: Seq<char>| #[trigger] self.has(n) <==> mid.has(n) by {}
            assert forall|n: Seq<char>| n != name@ implies #[trigger] self.same_at(&mid, n) by {
                if mid.has(n) {
                    assert(self.element(n) == mid.element(n));
                }
            }
            assert(self.element(name@) == self.elements@[i as int]);
            assert(mid.element(name@) == mid.elements@[i as int]);
        }
    }

    /// Samples `text` among the text of the element `name`, which gets an
    /// entry.
    pub fn add_text(&mut self, name: &String, text: String)
        requires
            old(self).wf(),
        ensures
            final(self).wf(),
            forall|n: Seq<char>| final(self).has(n) <==> (old(self).has(n) || n == name@),
            final(self).examples_of(name@) == sample_insert(
                old(self).examples_of(name@),
                SAMPLE_CAPACITY as nat,
                TEXT_MAX_BYTES as nat,
                text@,
            ),
            forall|n: Seq<char>|
                n != name@ ==> #[trigger] final(self).examples_of(n) == old(self).examples_of(n),
            forall|n: Seq<char>| #[trigger] final(self).sub_elements_of(n) == old(self).sub_elements_of(n),
            forall|n: Seq<char>| #[trigger] final(self).attributes_of(n) == old(self).attributes_of(n),
    {
        let i = self.ensure_index(name);
        let ghost mid = *self;
        assert forall|n: Seq<char>| #[trigger] mid.same_at(&old(self), n) by {
            if mid.has(n) && !old(self).has(n) {
                assert(mid.element(n).is_blank());
            }
        }
        self.elements[i].add_text(text);
        proof {
            lemma_update_at(mid.elements@, self.elements@, i as int);
            assert forall|k: int| 0 <= k < self.elements.len() implies (#[trigger] self.elements@[k]).wf() by {
                if k != i {
                    assert(self.elements@[k] == mid.elements@[k]);
                }
            }
            assert forall|n: Seq<char>| #[trigger] self.has(n) <==> mid.has(n) by {}
            assert forall|n: Seq<char>| n != name@ implies #[trigger] self.same_at(&mid, n) by {
                if mid.has(n) {
                    assert(self.element(n) == mid.element(n));
                }
            }
            assert(self.element(name@) == self.elements@[i as int]);
        }
    }
}

} // verus!
