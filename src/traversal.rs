use vstd::prelude::*;
use crate::element::{SAMPLE_CAPACITY, TEXT_MAX_BYTES};
use crate::samples::{sample_insert, texts};
use crate::schema::{record_pairs, root_label, XMLSchema};

verus! {

/// One structural event of the token stream, with its text already decoded.
pub enum XmlEvent {
    /// An opening tag, with its attributes as (name, value) pairs.
    Start { name: String, attributes: Vec<(String, String)> },
    /// A self-closing tag, with its attributes as (name, value) pairs.
    Empty { name: String, attributes: Vec<(String, String)> },
    /// A run of text.
    Text(String),
    /// A closing tag.
    End,
    /// The end of the input.
    Eof,
    /// Markup that the tokenizer could not read.
    Error,
    /// Anything else the tokenizer reports (a comment, a declaration): it
    /// counts against the budget and records nothing.
    Other,
}

/// Why a traversal stopped.
#[derive(PartialEq, Eq, Structural, Clone, Copy, Debug)]
pub enum HaltReason {
    EventBudgetExhausted,
    EndOfInput,
    TokenizerError,
}

#[derive(PartialEq, Eq, Structural, Clone, Copy, Debug)]
pub enum RunState {
    Running,
    Halted(HaltReason),
}

/// The state after an event has been counted: the event itself may halt the
/// run, and otherwise the run halts once `count` reaches `budget`.
pub open spec fn next_state(event: XmlEvent, count: nat, budget: nat) -> RunState {
    match event {
        XmlEvent::Eof => RunState::Halted(HaltReason::EndOfInput),
        XmlEvent::Error => RunState::Halted(HaltReason::TokenizerError),
        _ => if count >= budget {
            RunState::Halted(HaltReason::EventBudgetExhausted)
        } else {
            RunState::Running
        },
    }
}

/// `new` is `old` with `name` recorded under `parent` and its attributes
/// sampled, and nothing else changed.
pub open spec fn records_tag(
    old: XMLSchema,
    new: XMLSchema,
    parent: Seq<char>,
    name: Seq<char>,
    pairs: Seq<(String, String)>,
) -> bool {
    &&& forall|n: Seq<char>| new.has(n) <==> (old.has(n) || n == name)
    &&& new.sub_elements_of(parent) == old.sub_elements_of(parent).insert(name)
    &&& forall|n: Seq<char>|
        n != parent ==> #[trigger] new.sub_elements_of(n) == old.sub_elements_of(n)
    &&& new.attributes_of(name) == record_pairs(old.attributes_of(name), pairs)
    &&& forall|n: Seq<char>| n != name ==> #[trigger] new.attributes_of(n) == old.attributes_of(n)
    &&& forall|n: Seq<char>| #[trigger] new.examples_of(n) == old.examples_of(n)
}

/// `new` is `old` with `text` sampled under `name`, and nothing else changed.
pub open spec fn records_text(old: XMLSchema, new: XMLSchema, name: Seq<char>, text: Seq<char>) -> bool {
    &&& forall|n: Seq<char>| new.has(n) <==> old.has(n)
    &&& new.examples_of(name) == sample_insert(
        old.examples_of(name),
        SAMPLE_CAPACITY as nat,
        TEXT_MAX_BYTES as nat,
        text,
    )
    &&& forall|n: Seq<char>| n != name ==> #[trigger] new.examples_of(n) == old.examples_of(n)
    &&& forall|n: Seq<char>| #[trigger] new.sub_elements_of(n) == old.sub_elements_of(n)
    &&& forall|n: Seq<char>| #[trigger] new.attributes_of(n) == old.attributes_of(n)
}

/// An event that ends the run by itself.
pub open spec fn is_halting(event: XmlEvent) -> bool {
    match event {
        XmlEvent::Eof => true,
        XmlEvent::Error => true,
        _ => false,
    }
}

/// The names of the open elements after `evs`, the sentinel first; a closing
/// tag with only the sentinel open changes nothing.
pub open spec fn stack_after(evs: Seq<XmlEvent>) -> Seq<Seq<char>>
    decreases evs.len(),
{
    if evs.len() == 0 {
        seq![root_label()]
    } else {
        let s = stack_after(evs.drop_last());
        match evs.last() {
            XmlEvent::Start { name, attributes: _ } => s.push(name@),
            XmlEvent::End => if s.len() > 1 {
                s.drop_last()
            } else {
                s
            },
            _ => s,
        }
    }
}

/// The names of the tags in `evs` that stand directly under an element named
/// `parent` (the sentinel for the top level).
pub open spec fn children_in(evs: Seq<XmlEvent>, parent: Seq<char>) -> Set<Seq<char>>
    decreases evs.len(),
{
    if evs.len() == 0 {
        Set::empty()
    } else {
        let before = children_in(evs.drop_last(), parent);
        let under = stack_after(evs.drop_last()).last() == parent;
        match evs.last() {
            XmlEvent::Start { name, attributes: _ } => if under {
                before.insert(name@)
            } else {
                before
            },
            XmlEvent::Empty { name, attributes: _ } => if under {
                before.insert(name@)
            } else {
                before
            },
            _ => before,
        }
    }
}

/// The names of all tags in `evs`.
pub open spec fn tags_in(evs: Seq<XmlEvent>) -> Set<Seq<char>>
    decreases evs.len(),
{
    if evs.len() == 0 {
        Set::empty()
    } else {
        let before = tags_in(evs.drop_last());
        match evs.last() {
            XmlEvent::Start { name, attributes: _ } => before.insert(name@),
            XmlEvent::Empty { name, attributes: _ } => before.insert(name@),
            _ => before,
        }
    }
}

/// The attribute samples of the element named `n` after `evs`.
pub open spec fn attributes_in(evs: Seq<XmlEvent>, n: Seq<char>) -> Map<Seq<char>, Seq<Seq<char>>>
    decreases evs.len(),
{
    if evs.len() == 0 {
        Map::empty()
    } else {
        let before = attributes_in(evs.drop_last(), n);
        match evs.last() {
            XmlEvent::Start { name, attributes } => if name@ == n {
                record_pairs(before, attributes@)
            } else {
                before
            },
            XmlEvent::Empty { name, attributes } => if name@ == n {
                record_pairs(before, attributes@)
            } else {
                before
            },
            _ => before,
        }
    }
}

/// The text samples of the element named `n` after `evs`.
pub open spec fn examples_in(evs: Seq<XmlEvent>, n: Seq<char>) -> Seq<Seq<char>>
    decreases evs.len(),
{
    if evs.len() == 0 {
        Seq::empty()
    } else {
        let before = examples_in(evs.drop_last(), n);
        match evs.last() {
            XmlEvent::Text(text) => if stack_after(evs.drop_last()).last() == n {
                sample_insert(before, SAMPLE_CAPACITY as nat, TEXT_MAX_BYTES as nat, text@)
            } else {
                before
            },
            _ => before,
        }
    }
}

/// One pass over a token stream: the registry being filled, the names of the
/// open elements from the sentinel up, and the count of events against the
/// budget.
pub struct Traversal {
    schema: XMLSchema,
    stack: Vec<String>,
    count: u64,
    budget: u64,
    state: RunState,
}

impl Traversal {
    pub closed spec fn spec_schema(&self) -> XMLSchema {
        self.schema
    }

    /// The open elements, the sentinel first.
    pub closed spec fn spec_stack(&self) -> Seq<Seq<char>> {
        texts(self.stack@)
    }

    pub closed spec fn spec_count(&self) -> nat {
        self.count as nat
    }

    pub closed spec fn spec_budget(&self) -> nat {
        self.budget as nat
    }

    pub closed spec fn spec_state(&self) -> RunState {
        self.state
    }

    /// The element that text and attributes go to.
    pub open spec fn top(&self) -> Seq<char> {
        self.spec_stack().last()
    }

    pub open spec fn wf(&self) -> bool {
        &&& self.spec_schema().wf()
        &&& self.spec_stack().len() >= 1
        &&& self.spec_stack()[0] == root_label()
        &&& forall|i: int|
            0 <= i < self.spec_stack().len() ==> self.spec_schema().has(#[trigger] self.spec_stack()[i])
        &&& self.spec_count() <= self.spec_budget()
        &&& (self.spec_state() == RunState::Running ==> self.spec_count() < self.spec_budget())
    }

    /// A traversal that has seen nothing, with at most `budget` events to go.
    pub fn new(budget: u64) -> (r: Traversal)
        ensures
            r.wf(),
            r.spec_stack() == seq![root_label()],
            r.spec_count() == 0,
            r.spec_budget() == budget,
            r.spec_state() == (if budget == 0 {
                RunState::Halted(HaltReason::EventBudgetExhausted)
            } else {
                RunState::Running
            }),
            forall|n: Seq<char>| r.spec_schema().has(n) <==> n == root_label(),
            r.spec_schema().sub_elements_of(root_label()) == Set::<Seq<char>>::empty(),
            r.spec_schema().attributes_of(root_label()) == Map::<Seq<char>, Seq<Seq<char>>>::empty(),
            r.spec_schema().examples_of(root_label()) == Seq::<Seq<char>>::empty(),
    {
        let schema = XMLSchema::new();
        let mut stack = Vec::new();
        stack.push(schema.root_string());
        let state = if budget == 0 {
            RunState::Halted(HaltReason::EventBudgetExhausted)
        } else {
            RunState::Running
        };
        let r = Traversal { schema, stack, count: 0, budget, state };
        assert(r.spec_stack() =~= seq![root_label()]);
        r
    }

    /// Handles one event: a tag is recorded under the open element (and an
    /// opening tag becomes the open element), text is sampled under it, a
    /// closing tag closes it unless only the sentinel is left, and the end of
    /// the input or an error halts the run.
    pub fn step(&mut self, event: &XmlEvent)
        requires
            old(self).wf(),
            old(self).spec_state() == RunState::Running,
        ensures
            final(self).wf(),
            final(self).spec_count() == old(self).spec_count() + 1,
            final(self).spec_budget() == old(self).spec_budget(),
            final(self).spec_state() == next_state(*event, final(self).spec_count(), final(self).spec_budget()),
            match *event {
                XmlEvent::Start { name, attributes } => {
                    &&& records_tag(old(self).spec_schema(), final(self).spec_schema(), old(self).top(), name@, attributes@)
                    &&& final(self).spec_stack() == old(self).spec_stack().push(name@)
                },
                XmlEvent::Empty { name, attributes } => {
                    &&& records_tag(old(self).spec_schema(), final(self).spec_schema(), old(self).top(), name@, attributes@)
                    &&& final(self).spec_stack() == old(self).spec_stack()
                },
                XmlEvent::Text(text) => {
                    &&& records_text(old(self).spec_schema(), final(self).spec_schema(), old(self).top(), text@)
                    &&& final(self).spec_stack() == old(self).spec_stack()
                },
                XmlEvent::End => {
                    &&& final(self).spec_schema() == old(self).spec_schema()
                    &&& final(self).spec_stack() == if old(self).spec_stack().len() > 1 {
                        old(self).spec_stack().drop_last()
                    } else {
                        old(self).spec_stack()
                    }
                },
                _ => {
                    &&& final(self).spec_schema() == old(self).spec_schema()
                    &&& final(self).spec_stack() == old(self).spec_stack()
                },
            },
    {
        self.count = self.count + 1;
        let top = self.stack[self.stack.len() - 1].clone();
        assert(top@ == old(self).top());
        let ghost stack0 = self.spec_stack();
        match event {
            XmlEvent::Start { name, attributes } => {
                self.schema.add_sub_element(&top, name);
                self.schema.add_attributes(name, attributes);
                self.stack.push(name.clone());
                assert(self.spec_stack() =~= stack0.push(name@));
            },
            XmlEvent::Empty { name, attributes } => {
                self.schema.add_sub_element(&top, name);
                self.schema.add_attributes(name, attributes);
            },
            XmlEvent::Text(text) => {
                self.schema.add_text(&top, text.clone());
            },
            XmlEvent::End => {
                if self.stack.len() > 1 {
                    self.stack.pop();
                    assert(self.spec_stack() =~= stack0.drop_last());
                }
            },
            XmlEvent::Eof => {
                self.state = RunState::Halted(HaltReason::EndOfInput);
            },
            XmlEvent::Error => {
                self.state = RunState::Halted(HaltReason::TokenizerError);
            },
            XmlEvent::Other => {},
        }
        if self.state == RunState::Running && self.count >= self.budget {
            self.state = RunState::Halted(HaltReason::EventBudgetExhausted);
        }
    }
    pub fn is_running(&self) -> (r: bool)
        ensures
            r == (self.spec_state() == RunState::Running),
    {
        self.state == RunState::Running
    }

    pub fn state(&self) -> (r: RunState)
        ensures
            r == self.spec_state(),
    {
        self.state
    }

    /// The number of events handled so far.
    pub fn count(&self) -> (r: u64)
        ensures
            r == self.spec_count(),
    {
        self.count
    }

    pub fn budget(&self) -> (r: u64)
        ensures
            r == self.spec_budget(),
    {
        self.budget
    }

    /// How many elements are open, the sentinel included.
    pub fn depth(&self) -> (r: usize)
        ensures
            r == self.spec_stack().len(),
    {
        self.stack.len()
    }

    pub fn schema(&self) -> (r: &XMLSchema)
        ensures
            *r == self.spec_schema(),
    {
        &self.schema
    }

    /// Hands the registry over once the run is done.
    pub fn into_schema(self) -> (r: XMLSchema)
        ensures
            r == self.spec_schema(),
    {
        self.schema
    }

    /// Runs a traversal over `events` with an event budget of `budget`, until
    /// the budget is spent, a halting event has been handled, or the events
    /// run out. The registry then holds, for the handled events, every tag
    /// name and, for every name, exactly the names seen directly under it,
    /// and the attribute and text samples that those events give;
    /// with a budget larger than the events and no halting event among them,
    /// every event is handled.
    pub fn run(events: &Vec<XmlEvent>, budget: u64) -> (r: Traversal)
        ensures
            r.wf(),
            r.spec_budget() == budget,
            r.spec_count() <= events.len(),
            r.spec_stack() == stack_after(events@.take(r.spec_count() as int)),
            forall|p: Seq<char>|
                #[trigger] r.spec_schema().sub_elements_of(p) == children_in(events@.take(r.spec_count() as int), p),
            forall|n: Seq<char>|
                #[trigger] r.spec_schema().has(n) <==> (n == root_label() || tags_in(events@.take(r.spec_count() as int)).contains(n)),
            forall|n: Seq<char>|
                #[trigger] r.spec_schema().attributes_of(n) == attributes_in(events@.take(r.spec_count() as int), n),
            forall|n: Seq<char>|
                #[trigger] r.spec_schema().examples_of(n) == examples_in(events@.take(r.spec_count() as int), n),
            r.spec_state() == RunState::Running ==> r.spec_count() == events.len(),
            budget > 0 && events.len() > 0 ==> r.spec_count() > 0,
            forall|j: int| 0 <= j < r.spec_count() - 1 ==> !is_halting(#[trigger] events@[j]),
            r.spec_count() > 0 ==> r.spec_state() == next_state(events@[r.spec_count() - 1], r.spec_count(), budget as nat),
            (events.len() < budget && forall|j: int| 0 <= j < events.len() ==> !is_halting(#[trigger] events@[j]))
                ==> r.spec_count() == events.len() && r.spec_state() == RunState::Running,
    {
        let mut t = Traversal::new(budget);
        let mut i: usize = 0;
        assert(events@.take(0) =~= Seq::<XmlEvent>::empty());
        assert forall|p: Seq<char>| #[trigger] t.spec_schema().sub_elements_of(p) == children_in(events@.take(0), p)
            && t.spec_schema().attributes_of(p) == attributes_in(events@.take(0), p)
            && t.spec_schema().examples_of(p) == examples_in(events@.take(0), p) by {
            if p != root_label() {
                assert(!t.spec_schema().has(p));
            }
        }
        while i < events.len() && t.is_running()
            invariant
                t.wf(),
                i <= events.len(),
                t.spec_count() == i,
                t.spec_budget() == budget,
                t.spec_stack() == stack_after(events@.take(i as int)),
                forall|p: Seq<char>|
                    #[trigger] t.spec_schema().sub_elements_of(p) == children_in(events@.take(i as int), p),
                forall|n: Seq<char>|
                    #[trigger] t.spec_schema().has(n) <==> (n == root_label() || tags_in(events@.take(i as int)).contains(n)),
                forall|n: Seq<char>|
                    #[trigger] t.spec_schema().attributes_of(n) == attributes_in(events@.take(i as int), n),
                forall|n: Seq<char>|
                    #[trigger] t.spec_schema().examples_of(n) == examples_in(events@.take(i as int), n),
                i == 0 ==> t.spec_state() == RunState::Running || budget == 0,
                i > 0 ==> t.spec_state() == next_state(events@[i - 1], i as nat, budget as nat),
                forall|j: int| 0 <= j < i - 1 ==> !is_halting(#[trigger] events@[j]),
            decreases events.len() - i,
        {
            let ghost before = events@.take(i as int);
            let ghost t0 = t;
            t.step(&events[i]);
            let ghost after = events@.take(i + 1);
            assert(after.drop_last() =~= before);
            assert(after.last() == events@[i as int]);
            assert forall|p: Seq<char>|
                #[trigger] t.spec_schema().sub_elements_of(p) == children_in(after, p) by {
                assert(t0.spec_schema().sub_elements_of(p) == children_in(before, p));
            }
            assert forall|n: Seq<char>|
                #[trigger] t.spec_schema().has(n) <==> (n == root_label() || tags_in(after).contains(n)) by {
                assert(t0.spec_schema().has(n) <==> (n == root_label() || tags_in(before).contains(n)));
            }
            assert forall|n: Seq<char>|
                #[trigger] t.spec_schema().attributes_of(n) == attributes_in(after, n) by {
                assert(t0.spec_schema().attributes_of(n) == attributes_in(before, n));
            }
            assert forall|n: Seq<char>|
                #[trigger] t.spec_schema().examples_of(n) == examples_in(after, n) by {
                assert(t0.spec_schema().examples_of(n) == examples_in(before, n));
            }
            i += 1;
        }
        t
    }
}

} // verus!
