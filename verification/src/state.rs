//! Game states: finite sets of ground facts.

use crate::model::facts_distinct;
use crate::semantics::{facts_ground, facts_set};
use crate::sentence::{sentence_ground, Sentence, SentenceV};
use crate::solver::{facts_contain, lemma_facts_set_push};
use vstd::prelude::*;

verus! {

/// A state: the set of the ground facts that hold in it. The order in
/// which facts were added does not matter, and a fact added twice is
/// held once.
#[derive(Debug)]
pub struct State {
    props: Vec<Sentence>,
}

impl View for State {
    type V = Set<SentenceV>;

    closed spec fn view(&self) -> Set<SentenceV> {
        facts_set(self.props@)
    }
}

impl State {
    /// Every fact of the state is ground, and none is held twice.
    pub closed spec fn wf(&self) -> bool {
        facts_ground(self.props@) && facts_distinct(self.props@)
    }

    /// The facts of the state, listed.
    pub closed spec fn listed(&self) -> Seq<Sentence> {
        self.props@
    }

    /// The state in which nothing holds.
    pub fn empty() -> (r: State)
        ensures
            r.wf(),
            r@ == Set::<SentenceV>::empty(),
    {
        let r = State { props: Vec::new() };
        assert(r@ =~= Set::empty());
        r
    }

    /// The state in which the given facts hold, if all of them are ground.
    pub fn new(props: Vec<Sentence>) -> (r: Option<State>)
        ensures
            r is Some <==> facts_ground(props@),
            r is Some ==> r->Some_0.wf() && r->Some_0@ == facts_set(props@),
    {
        let mut state = State::empty();
        let mut i: usize = 0;
        while i < props.len()
            invariant
                i <= props.len(),
                state.wf(),
                forall|k: int| 0 <= k < i ==> sentence_ground((#[trigger] props[k])@),
                forall|f: SentenceV|
                    #[trigger] state@.contains(f) <==> exists|k: int|
                        0 <= k < i && (#[trigger] props[k])@ == f,
            decreases props.len() - i,
        {
            let ghost before = state@;
            if !state.add_prop(props[i].duplicate()) {
                return None;
            }
            proof {
                assert forall|f: SentenceV|
                    #[trigger] state@.contains(f) <==> exists|k: int|
                        0 <= k < i + 1 && (#[trigger] props[k])@ == f by {
                    if exists|k: int| 0 <= k < i + 1 && (#[trigger] props[k])@ == f {
                        let k = choose|k: int| 0 <= k < i + 1 && (#[trigger] props[k])@ == f;
                        if k < i {
                            assert(before.contains(f));
                        }
                    }
                    if before.contains(f) {
                        let k = choose|k: int| 0 <= k < i && (#[trigger] props[k])@ == f;
                        assert(props[k]@ == f);
                    }
                }
            }
            i += 1;
        }
        assert(state@ =~= facts_set(props@));
        Some(state)
    }

    /// Adds a fact to the state. A fact that is not ground is refused,
    /// and the state stays as it is.
    pub fn add_prop(&mut self, prop: Sentence) -> (r: bool)
        requires
            old(self).wf(),
        ensures
            final(self).wf(),
            r == sentence_ground(prop@),
            r ==> final(self)@ == old(self)@.insert(prop@),
            !r ==> final(self)@ == old(self)@,
    {
        if !prop.is_ground() {
            return false;
        }
        let ghost before = self.props@;
        assert(before.take(before.len() as int) =~= before);
        if !facts_contain(&self.props, self.props.len(), &prop) {
            proof {
                lemma_facts_set_push(before, prop);
                assert forall|a: int| 0 <= a < before.len() implies (#[trigger] before[a])@
                    != prop@ by {
                    if before[a]@ == prop@ {
                        assert(facts_set(before).contains(prop@));
                    }
                }
            }
            self.props.push(prop);
        }
        assert(self@ =~= old(self)@.insert(prop@));
        true
    }

    /// Whether the fact holds in the state.
    pub fn contains(&self, prop: &Sentence) -> (r: bool)
        ensures
            r == self@.contains(prop@),
    {
        assert(self.props@.take(self.props@.len() as int) =~= self.props@);
        facts_contain(&self.props, self.props.len(), prop)
    }

    /// The number of facts that hold in the state.
    pub fn len(&self) -> (r: usize)
        requires
            self.wf(),
        ensures
            self@.finite(),
            r == self@.len(),
            r == self.listed().len(),
    {
        proof {
            lemma_facts_count(self.props@);
        }
        self.props.len()
    }

    /// The facts of the state: ground, and none of them twice.
    pub fn props(&self) -> (r: &Vec<Sentence>)
        requires
            self.wf(),
        ensures
            r@ == self.listed(),
            facts_set(r@) == self@,
            facts_ground(r@),
            facts_distinct(r@),
    {
        &self.props
    }

    /// A copy of the state.
    pub fn duplicate(&self) -> (r: State)
        requires
            self.wf(),
        ensures
            r.wf(),
            r@ == self@,
    {
        let mut out: Vec<Sentence> = Vec::new();
        let mut i: usize = 0;
        while i < self.props.len()
            invariant
                i <= self.props.len(),
                out.len() == i,
                forall|k: int| 0 <= k < i ==> (#[trigger] out[k])@ == self.props[k]@,
            decreases self.props.len() - i,
        {
            out.push(self.props[i].duplicate());
            i += 1;
        }
        proof {
            lemma_same_facts(out@, self.props@);
        }
        State { props: out }
    }
}

/// Two lists with the same values in the same places hold the same
/// facts, and one is ground or free of repetition where the other is.
pub proof fn lemma_same_facts(a: Seq<Sentence>, b: Seq<Sentence>)
    requires
        a.len() == b.len(),
        forall|k: int| 0 <= k < a.len() ==> (#[trigger] a[k])@ == b[k]@,
    ensures
        facts_set(a) == facts_set(b),
        facts_ground(b) ==> facts_ground(a),
        facts_distinct(b) ==> facts_distinct(a),
{
    assert forall|f: SentenceV| facts_set(a).contains(f) <==> facts_set(b).contains(f) by {
        if facts_set(a).contains(f) {
            let i = choose|i: int| 0 <= i < a.len() && (#[trigger] a[i])@ == f;
            assert(b[i]@ == f);
        }
        if facts_set(b).contains(f) {
            let i = choose|i: int| 0 <= i < b.len() && (#[trigger] b[i])@ == f;
            assert(a[i]@ == f);
        }
    }
    assert(facts_set(a) =~= facts_set(b));
    if facts_ground(b) {
        assert forall|i: int| 0 <= i < a.len() implies sentence_ground((#[trigger] a[i])@) by {
            assert(sentence_ground(b[i]@));
        }
    }
    if facts_distinct(b) {
        assert forall|i: int, j: int| 0 <= i < j < a.len() implies (#[trigger] a[i])@ != (
        #[trigger] a[j])@ by {
            assert(b[i]@ != b[j]@);
        }
    }
}

/// A list without repetition holds as many facts as it is long.
pub proof fn lemma_facts_count(facts: Seq<Sentence>)
    requires
        facts_distinct(facts),
    ensures
        facts_set(facts).finite(),
        facts_set(facts).len() == facts.len(),
    decreases facts.len(),
{
    if facts.len() == 0 {
        assert(facts_set(facts) =~= Set::empty());
    } else {
        let rest = facts.drop_last();
        let last = facts.last();
        assert forall|i: int, j: int| 0 <= i < j < rest.len() implies (#[trigger] rest[i])@ != (
        #[trigger] rest[j])@ by {
            assert(facts[i]@ != facts[j]@);
        }
        lemma_facts_count(rest);
        lemma_facts_set_push(rest, last);
        assert(rest.push(last) =~= facts);
        if facts_set(rest).contains(last@) {
            let k = choose|k: int| 0 <= k < rest.len() && (#[trigger] rest[k])@ == last@;
            assert(facts[k]@ != facts[facts.len() - 1]@);
        }
        assert(facts_set(facts) =~= facts_set(rest).insert(last@));
    }
}

} // verus!
