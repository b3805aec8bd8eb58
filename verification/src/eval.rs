//! The rule evaluator: whether a query holds in a state under a rule
//! base, and which facts of a relation do.

use crate::error::{ConfigError, EvalError};
use crate::model::{
    closed_under, facts_distinct, lemma_stratum_model_least, model_upto, saturate_all,
};
use crate::safety::{literal_is_safe, rule_is_safe};
use crate::semantics::{
    all_sat, derives_from, derives_under, facts_ground, facts_set, goals_safe, literal_safe,
    literal_sat, rule_derives, rule_safe, subst_sentence,
};
use crate::sentence::{
    rules_view, sentence_ground, sentence_name, Literal, LiteralV, Rule, RuleV, Sentence,
    SentenceV,
};
use crate::solver::{goals_view, solve};
use crate::state::{lemma_same_facts, State};
use crate::strata::{levels_below, levels_le, levels_least, stratifiable, stratified, stratify};
use crate::subst::{extends, ground_subst, Binding, Subst};
use vstd::prelude::*;

verus! {

/// The mathematical value of a rule base: its rules, the stratum of each
/// rule, and the number of strata.
pub struct RuleBaseV {
    pub rules: Seq<RuleV>,
    pub levels: Seq<usize>,
    pub depth: nat,
}

/// A rule base is valid when its rules are safe and its levels are the
/// least stratification of them, with `depth` one more than the highest.
pub open spec fn rule_base_valid(v: RuleBaseV) -> bool {
    &&& forall|i: int| 0 <= i < v.rules.len() ==> rule_safe(#[trigger] v.rules[i])
    &&& stratified(v.rules, v.levels)
    &&& levels_least(v.rules, v.levels)
    &&& levels_below(v.levels, v.depth as int)
    &&& v.depth == 0 || exists|i: int| 0 <= i < v.levels.len() && #[trigger] v.levels[i] + 1 == v.depth
}

/// The facts that hold where the facts `given` are given: what the rules
/// derive from them, stratum by stratum.
pub open spec fn model(v: RuleBaseV, given: Set<SentenceV>) -> Set<SentenceV> {
    model_upto(v.rules, v.levels, v.depth, given)
}

/// Some ground instance of the query is satisfied by the facts.
pub open spec fn query_holds(query: LiteralV, facts: Set<SentenceV>) -> bool {
    exists|m: Binding| ground_subst(m) && #[trigger] literal_sat(query, m, facts, facts)
}

/// Some ground substitution satisfies every literal of the body.
pub open spec fn body_holds(body: Seq<LiteralV>, facts: Set<SentenceV>) -> bool {
    exists|m: Binding| ground_subst(m) && #[trigger] all_sat(body, m, facts, facts)
}

/// A proposition that stands for "the body holds".
pub open spec fn marker() -> SentenceV {
    SentenceV::Prop(Seq::empty())
}

/// What `holds` answers: the query is refused where it reaches a
/// negation or a distinct-constraint with a variable unbound, and else
/// holds exactly when one of its ground instances is satisfied by the
/// facts that hold in the state.
pub open spec fn holds_spec(
    query: LiteralV,
    state: Set<SentenceV>,
    rules: RuleBaseV,
) -> Result<bool, EvalError> {
    if literal_safe(query, Set::empty()) {
        Ok(query_holds(query, model(rules, state)))
    } else {
        Err(EvalError::UnsafeQuery)
    }
}

/// The levels of a valid rule base are determined by its rules.
pub proof fn lemma_rule_base_determined(a: RuleBaseV, b: RuleBaseV)
    requires
        rule_base_valid(a),
        rule_base_valid(b),
        a.rules == b.rules,
    ensures
        a == b,
{
    assert(levels_le(a.levels, b.levels));
    assert(levels_le(b.levels, a.levels));
    assert(a.levels =~= b.levels);
    if a.depth != b.depth {
        if a.depth > 0 {
            let i = choose|i: int| 0 <= i < a.levels.len() && #[trigger] a.levels[i] + 1 == a.depth;
            assert(b.levels[i] < b.depth);
        }
        if b.depth > 0 {
            let i = choose|i: int| 0 <= i < b.levels.len() && #[trigger] b.levels[i] + 1 == b.depth;
            assert(a.levels[i] < a.depth);
        }
    }
}

/// What holds in a state was given, or is an instance of the head of a rule.
pub proof fn lemma_model_names(
    rules: Seq<RuleV>,
    levels: Seq<usize>,
    k: nat,
    given: Set<SentenceV>,
    f: SentenceV,
)
    requires
        model_upto(rules, levels, k, given).contains(f),
    ensures
        given.contains(f) || exists|i: int|
            0 <= i < rules.len() && sentence_name(f) == sentence_name((#[trigger] rules[i]).head),
    decreases k,
{
    if k > 0 {
        let base = model_upto(rules, levels, (k - 1) as nat, given);
        let x = Set::new(
            |g: SentenceV|
                given.contains(g) || exists|i: int|
                    0 <= i < rules.len() && sentence_name(g) == sentence_name(
                        (#[trigger] rules[i]).head,
                    ),
        );
        assert forall|g: SentenceV| base.contains(g) implies x.contains(g) by {
            lemma_model_names(rules, levels, (k - 1) as nat, given, g);
        }
        assert forall|i: int, g: SentenceV|
            0 <= i < rules.len() && levels[i] == k - 1 && #[trigger] rule_derives(
                rules[i],
                x,
                base,
                g,
            ) implies x.contains(g) by {
            let m = choose|m: Binding|
                derives_under(m, Map::empty(), rules[i].body, rules[i].head, x, base, g);
            assert(sentence_name(g) == sentence_name(rules[i].head));
        }
        assert(closed_under(rules, levels, k - 1, x, base));
        lemma_stratum_model_least(rules, levels, k - 1, base, x);
        assert(x.contains(f));
    }
}

/// Where no rule defines a relation and no given fact is of it, no fact
/// of it holds.
pub proof fn lemma_undefined_relation_empty(
    v: RuleBaseV,
    given: Set<SentenceV>,
    relation: Seq<char>,
)
    requires
        forall|i: int| 0 <= i < v.rules.len() ==> sentence_name((#[trigger] v.rules[i]).head) != relation,
        forall|f: SentenceV| given.contains(f) ==> sentence_name(f) != relation,
    ensures
        forall|f: SentenceV| model(v, given).contains(f) ==> sentence_name(f) != relation,
{
    assert forall|f: SentenceV| model(v, given).contains(f) implies sentence_name(f)
        != relation by {
        lemma_model_names(v.rules, v.levels, v.depth, given, f);
    }
}

/// Whatever was given holds.
pub proof fn lemma_model_holds_given(
    rules: Seq<RuleV>,
    levels: Seq<usize>,
    k: nat,
    given: Set<SentenceV>,
)
    ensures
        given.subset_of(model_upto(rules, levels, k, given)),
    decreases k,
{
    if k > 0 {
        lemma_model_holds_given(rules, levels, (k - 1) as nat, given);
        crate::model::lemma_stratum_model_closed(
            rules,
            levels,
            k - 1,
            model_upto(rules, levels, (k - 1) as nat, given),
        );
    }
}

/// A rule base: safe rules, laid out in strata.
#[derive(Debug)]
pub struct RuleBase {
    rules: Vec<Rule>,
    levels: Vec<usize>,
    depth: usize,
}

impl View for RuleBase {
    type V = RuleBaseV;

    closed spec fn view(&self) -> RuleBaseV {
        RuleBaseV {
            rules: rules_view(self.rules@),
            levels: self.levels@,
            depth: self.depth as nat,
        }
    }
}

/// What `RuleBase::new` answers for the given rules.
pub open spec fn rule_base_fault(rules: Seq<RuleV>) -> Option<ConfigError> {
    if exists|i: int| 0 <= i < rules.len() && !rule_safe(#[trigger] rules[i]) {
        Some(ConfigError::UnsafeRule)
    } else if !stratifiable(rules) {
        Some(ConfigError::Unstratified)
    } else {
        None
    }
}

impl RuleBase {
    /// The rule base is valid.
    pub open spec fn wf(&self) -> bool {
        rule_base_valid(self@)
    }

    /// The rule base of the given rules. It is refused where a rule is
    /// not safe, and where the rules cannot be stratified.
    pub fn new(rules: Vec<Rule>) -> (r: Result<RuleBase, ConfigError>)
        ensures
            match r {
                Ok(rb) => rb.wf() && rb@.rules == rules_view(rules@) && rule_base_fault(
                    rules_view(rules@),
                ) is None,
                Err(e) => rule_base_fault(rules_view(rules@)) == Some(e),
            },
    {
        let ghost rv = rules_view(rules@);
        let mut i: usize = 0;
        while i < rules.len()
            invariant
                i <= rules.len(),
                rv == rules_view(rules@),
                forall|k: int| 0 <= k < i ==> rule_safe(#[trigger] rv[k]),
            decreases rules.len() - i,
        {
            assert(rv[i as int] == rules[i as int]@);
            if !rule_is_safe(&rules[i]) {
                return Err(ConfigError::UnsafeRule);
            }
            i += 1;
        }
        match stratify(&rules) {
            None => Err(ConfigError::Unstratified),
            Some(levels) => {
                let mut depth: usize = 0;
                let mut j: usize = 0;
                while j < levels.len()
                    invariant
                        j <= levels.len(),
                        levels.len() == rules.len(),
                        levels_below(levels@, rules.len() as int),
                        forall|k: int| 0 <= k < j ==> #[trigger] levels[k] < depth,
                        depth == 0 || exists|k: int|
                            0 <= k < levels.len() && #[trigger] levels[k] + 1 == depth,
                    decreases levels.len() - j,
                {
                    if levels[j] >= depth {
                        depth = levels[j] + 1;
                    }
                    j += 1;
                }
                let rb = RuleBase { rules, levels, depth };
                Ok(rb)
            },
        }
    }

    /// The rules.
    pub fn rules(&self) -> (r: &Vec<Rule>)
        ensures
            rules_view(r@) == self@.rules,
    {
        &self.rules
    }

    /// The facts that hold where the facts `given` are given. The given
    /// facts come first, in their order; none is listed twice.
    pub fn facts_from(&self, given: &Vec<Sentence>) -> (r: Vec<Sentence>)
        requires
            self.wf(),
            facts_ground(given@),
            facts_distinct(given@),
        ensures
            facts_ground(r@),
            facts_distinct(r@),
            facts_set(r@) == model(self@, facts_set(given@)),
    {
        let mut facts: Vec<Sentence> = Vec::new();
        let mut i: usize = 0;
        while i < given.len()
            invariant
                i <= given.len(),
                facts.len() == i,
                forall|k: int| 0 <= k < i ==> (#[trigger] facts[k])@ == given[k]@,
            decreases given.len() - i,
        {
            facts.push(given[i].duplicate());
            i += 1;
        }
        proof {
            lemma_same_facts(facts@, given@);
            assert forall|k: int| 0 <= k < self.rules.len() implies rule_safe(
                (#[trigger] self.rules[k])@,
            ) by {
                assert(self@.rules[k] == self.rules[k]@);
            }
        }
        saturate_all(&self.rules, &self.levels, self.depth, &mut facts);
        facts
    }
}

/// Whether some ground substitution satisfies all the goals against the facts.
pub fn satisfiable<'a>(goals: &Vec<&'a Literal>, facts: &Vec<Sentence>) -> (r: bool)
    requires
        goals_safe(goals_view(goals@), Set::empty(), marker()),
        facts_ground(facts@),
    ensures
        r == body_holds(goals_view(goals@), facts_set(facts@)),
{
    let head = Sentence::Prop(String::new());
    let s = Subst::new();
    let mut out: Vec<Sentence> = Vec::new();
    let ghost gs = goals_view(goals@);
    let ghost pos = facts_set(facts@);
    proof {
        assert(gs.skip(0) =~= gs);
        assert(s@.dom() =~= Set::empty());
        assert(facts@.take(facts.len() as int) =~= facts@);
        assert(head@ == marker());
    }
    solve(goals, 0, s, &head, facts, facts.len(), &mut out);
    proof {
        let empty = Map::<Seq<char>, crate::term::TermV>::empty();
        assert(!facts_set(Seq::<Sentence>::empty()).contains(marker()));
        if out.len() > 0 {
            assert(facts_set(out@).contains(out[0]@));
            assert(derives_from(empty, gs, marker(), pos, pos, out[0]@));
            let m = choose|m: Binding| derives_under(m, empty, gs, marker(), pos, pos, out[0]@);
            assert(all_sat(gs, m, pos, pos));
        }
        if body_holds(gs, pos) {
            let m = choose|m: Binding| ground_subst(m) && #[trigger] all_sat(gs, m, pos, pos);
            assert(extends(m, empty));
            assert(subst_sentence(m, marker()) == marker());
            assert(crate::term::terms_closed(Seq::empty(), Set::empty()));
            assert(sentence_ground(marker()));
            assert(derives_under(m, empty, gs, marker(), pos, pos, marker()));
            assert(derives_from(empty, gs, marker(), pos, pos, marker()));
            assert(facts_set(out@).contains(marker()));
        }
    }
    out.len() > 0
}

/// Whether the query holds in the state under the rules.
pub fn holds(query: &Literal, state: &State, rules: &RuleBase) -> (r: Result<bool, EvalError>)
    requires
        state.wf(),
        rules.wf(),
    ensures
        r == holds_spec(query@, state@, rules@),
{
    let none: Vec<String> = Vec::new();
    assert(crate::term::names_set(none@) =~= Set::empty());
    if !literal_is_safe(query, &none) {
        return Err(EvalError::UnsafeQuery);
    }
    let facts = rules.facts_from(state.props());
    let mut goals: Vec<&Literal> = Vec::new();
    goals.push(query);
    let ghost gs = goals_view(goals@);
    let ghost pos = facts_set(facts@);
    proof {
        assert(gs[0] == query@);
        assert(gs.drop_first() =~= Seq::empty());
        assert(crate::term::terms_closed(Seq::empty(), Set::empty()));
        assert(goals_safe(gs.drop_first(), crate::semantics::bound_after(gs[0], Set::empty()), marker()));
        assert(goals_safe(gs, Set::empty(), marker()));
    }
    let r = satisfiable(&goals, &facts);
    proof {
        if body_holds(gs, pos) {
            let m = choose|m: Binding| ground_subst(m) && #[trigger] all_sat(gs, m, pos, pos);
            assert(literal_sat(gs[0], m, pos, pos));
        }
        if query_holds(query@, pos) {
            let m = choose|m: Binding|
                ground_subst(m) && #[trigger] literal_sat(query@, m, pos, pos);
            assert(all_sat(gs, m, pos, pos));
        }
    }
    Ok(r)
}

/// The facts of the given relation that hold in the state under the
/// rules: ground, and none of them twice. Where nothing of the relation
/// holds there are none.
pub fn derive_all(relation: &String, state: &State, rules: &RuleBase) -> (r: Vec<Sentence>)
    requires
        state.wf(),
        rules.wf(),
    ensures
        facts_ground(r@),
        facts_distinct(r@),
        forall|f: SentenceV|
            #[trigger] facts_set(r@).contains(f) <==> (model(rules@, state@).contains(f)
                && sentence_name(f) == relation@),
{
    let facts = rules.facts_from(state.props());
    select_relation(relation, &facts)
}

/// Those of the facts that are of the given relation, in their order.
pub fn select_relation(relation: &String, facts: &Vec<Sentence>) -> (r: Vec<Sentence>)
    requires
        facts_ground(facts@),
        facts_distinct(facts@),
    ensures
        facts_ground(r@),
        facts_distinct(r@),
        forall|f: SentenceV|
            #[trigger] facts_set(r@).contains(f) <==> (facts_set(facts@).contains(f)
                && sentence_name(f) == relation@),
{
    let mut out: Vec<Sentence> = Vec::new();
    let mut i: usize = 0;
    while i < facts.len()
        invariant
            i <= facts.len(),
            facts_ground(facts@),
            facts_distinct(facts@),
            facts_ground(out@),
            facts_distinct(out@),
            forall|f: SentenceV|
                #[trigger] facts_set(out@).contains(f) <==> (sentence_name(f) == relation@
                    && exists|k: int| 0 <= k < i && (#[trigger] facts[k])@ == f),
        decreases facts.len() - i,
    {
        let ghost before = out@;
        if *facts[i].name() == *relation {
            let copy = facts[i].duplicate();
            proof {
                crate::solver::lemma_facts_set_push(before, copy);
                assert forall|a: int| 0 <= a < before.len() implies (#[trigger] before[a])@
                    != copy@ by {
                    if before[a]@ == copy@ {
                        assert(facts_set(before).contains(copy@));
                        let k = choose|k: int| 0 <= k < i && (#[trigger] facts[k])@ == copy@;
                        assert(facts[k]@ != facts[i as int]@);
                    }
                }
            }
            out.push(copy);
        }
        proof {
            assert forall|f: SentenceV|
                #[trigger] facts_set(out@).contains(f) <==> (sentence_name(f) == relation@
                    && exists|k: int| 0 <= k < i + 1 && (#[trigger] facts[k])@ == f) by {
                if exists|k: int| 0 <= k < i + 1 && (#[trigger] facts[k])@ == f {
                    let k = choose|k: int| 0 <= k < i + 1 && (#[trigger] facts[k])@ == f;
                    if k < i && sentence_name(f) == relation@ {
                        assert(facts_set(before).contains(f));
                    }
                }
                if facts_set(before).contains(f) {
                    let k = choose|k: int| 0 <= k < i && (#[trigger] facts[k])@ == f;
                    assert(facts[k]@ == f);
                }
            }
        }
        i += 1;
    }
    out
}

impl Rule {
    /// Whether the body of the rule holds in the state, read against the
    /// facts of the state alone: whether some ground substitution
    /// satisfies every literal of it. The rule is refused where its body
    /// reaches a negation or a distinct-constraint with a variable unbound.
    pub fn is_true(&self, state: &State) -> (r: Result<bool, EvalError>)
        requires
            state.wf(),
        ensures
            r == (if goals_safe(self@.body, Set::empty(), marker()) {
                Ok::<bool, EvalError>(body_holds(self@.body, state@))
            } else {
                Err::<bool, EvalError>(EvalError::UnsafeQuery)
            }),
    {
        let probe = Rule { head: Sentence::Prop(String::new()), body: crate::sentence::literals_duplicate(&self.body) };
        let none: Vec<String> = Vec::new();
        assert(crate::term::names_set(none@) =~= Set::empty());
        assert(probe@.head == marker());
        if !crate::safety::goals_are_safe(&probe, none) {
            return Err(EvalError::UnsafeQuery);
        }
        let goals = crate::model::body_goals(&self.body);
        Ok(satisfiable(&goals, state.props()))
    }
}

} // verus!
