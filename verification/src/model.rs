//! The facts that hold in a state under a rule base: the rules are taken
//! stratum by stratum, each stratum applied until nothing new is derived.

use crate::semantics::{facts_ground, facts_set, lemma_derives_mono, rule_derives, rule_safe};
use crate::sentence::{literals_view, rules_view, Literal, Rule, RuleV, Sentence, SentenceV};
use crate::solver::{facts_contain, goals_view, lemma_facts_set_push, solve};
use crate::subst::Subst;
use vstd::prelude::*;

verus! {

/// No fact occurs twice in the list.
pub open spec fn facts_distinct(facts: Seq<Sentence>) -> bool {
    forall|i: int, j: int|
        0 <= i < j < facts.len() ==> (#[trigger] facts[i])@ != (#[trigger] facts[j])@
}

/// The set `x` holds whatever the rules of stratum `k` derive from it,
/// negations being read against `neg`.
pub open spec fn closed_under(
    rules: Seq<RuleV>,
    levels: Seq<usize>,
    k: int,
    x: Set<SentenceV>,
    neg: Set<SentenceV>,
) -> bool {
    forall|i: int, f: SentenceV|
        0 <= i < rules.len() && levels[i] == k && #[trigger] rule_derives(rules[i], x, neg, f)
            ==> x.contains(f)
}

/// The least set of facts that holds `base` and whatever the rules of
/// stratum `k` derive from it, negations being read against `base`.
pub open spec fn stratum_model(
    rules: Seq<RuleV>,
    levels: Seq<usize>,
    k: int,
    base: Set<SentenceV>,
) -> Set<SentenceV> {
    Set::new(
        |f: SentenceV|
            forall|x: Set<SentenceV>|
                base.subset_of(x) && #[trigger] closed_under(rules, levels, k, x, base)
                    ==> x.contains(f),
    )
}

/// The facts that hold once the strata below `k` have been applied to
/// the facts `given`, the lowest stratum first.
pub open spec fn model_upto(
    rules: Seq<RuleV>,
    levels: Seq<usize>,
    k: nat,
    given: Set<SentenceV>,
) -> Set<SentenceV>
    decreases k,
{
    if k == 0 {
        given
    } else {
        stratum_model(rules, levels, k - 1, model_upto(rules, levels, (k - 1) as nat, given))
    }
}

/// The least model of a stratum holds its base and is closed under the
/// stratum's rules.
pub proof fn lemma_stratum_model_closed(
    rules: Seq<RuleV>,
    levels: Seq<usize>,
    k: int,
    base: Set<SentenceV>,
)
    ensures
        base.subset_of(stratum_model(rules, levels, k, base)),
        closed_under(rules, levels, k, stratum_model(rules, levels, k, base), base),
{
    let lm = stratum_model(rules, levels, k, base);
    assert forall|i: int, f: SentenceV|
        0 <= i < rules.len() && levels[i] == k && #[trigger] rule_derives(
            rules[i],
            lm,
            base,
            f,
        ) implies lm.contains(f) by {
        assert forall|x: Set<SentenceV>|
            base.subset_of(x) && #[trigger] closed_under(
                rules,
                levels,
                k,
                x,
                base,
            ) implies x.contains(f) by {
            assert(lm.subset_of(x));
            lemma_derives_mono(rules[i], lm, x, base, f);
        }
    }
}

/// A set that holds the base and is closed under the stratum's rules
/// holds the stratum's least model.
pub proof fn lemma_stratum_model_least(
    rules: Seq<RuleV>,
    levels: Seq<usize>,
    k: int,
    base: Set<SentenceV>,
    x: Set<SentenceV>,
)
    requires
        base.subset_of(x),
        closed_under(rules, levels, k, x, base),
    ensures
        stratum_model(rules, levels, k, base).subset_of(x),
{
}

/// References to the literals of a rule body, in order.
pub fn body_goals<'a>(body: &'a Vec<Literal>) -> (r: Vec<&'a Literal>)
    ensures
        goals_view(r@) == literals_view(body@),
{
    let mut out: Vec<&'a Literal> = Vec::new();
    let mut i: usize = 0;
    while i < body.len()
        invariant
            i <= body.len(),
            out.len() == i,
            forall|t: int| 0 <= t < i ==> out[t]@ == body[t]@,
        decreases body.len() - i,
    {
        out.push(&body[i]);
        i += 1;
    }
    assert(goals_view(out@) =~= literals_view(body@));
    out
}

/// The facts that a safe rule derives from `facts`, negations being read
/// against the first `limit` of them.
pub fn fire(rule: &Rule, facts: &Vec<Sentence>, limit: usize) -> (r: Vec<Sentence>)
    requires
        limit <= facts.len(),
        rule_safe(rule@),
        facts_ground(facts@),
    ensures
        facts_ground(r@),
        forall|f: SentenceV|
            #[trigger] facts_set(r@).contains(f) <==> rule_derives(
                rule@,
                facts_set(facts@),
                facts_set(facts@.take(limit as int)),
                f,
            ),
{
    let goals = body_goals(&rule.body);
    let mut out: Vec<Sentence> = Vec::new();
    let s = Subst::new();
    proof {
        assert(goals_view(goals@).skip(0) =~= rule@.body);
        assert(s@.dom() =~= Set::empty());
    }
    solve(&goals, 0, s, &rule.head, facts, limit, &mut out);
    out
}

/// Adds to `facts` those of `more` that it does not hold yet.
pub fn absorb(facts: &mut Vec<Sentence>, more: &Vec<Sentence>)
    requires
        facts_ground(old(facts)@),
        facts_ground(more@),
        facts_distinct(old(facts)@),
    ensures
        facts_ground(final(facts)@),
        facts_distinct(final(facts)@),
        old(facts)@.len() <= final(facts)@.len(),
        final(facts)@.take(old(facts)@.len() as int) == old(facts)@,
        forall|f: SentenceV|
            #[trigger] facts_set(final(facts)@).contains(f) <==> (facts_set(old(facts)@).contains(
                f,
            ) || facts_set(more@).contains(f)),
        final(facts)@.len() == old(facts)@.len() ==> facts_set(more@).subset_of(
            facts_set(old(facts)@),
        ),
{
    let ghost start = facts@;
    let mut j: usize = 0;
    while j < more.len()
        invariant
            j <= more.len(),
            facts_ground(facts@),
            facts_ground(more@),
            facts_distinct(facts@),
            start.len() <= facts@.len(),
            facts@.take(start.len() as int) == start,
            forall|f: SentenceV|
                #[trigger] facts_set(facts@).contains(f) <==> (facts_set(start).contains(f)
                    || exists|t: int| 0 <= t < j && (#[trigger] more[t])@ == f),
        decreases more.len() - j,
    {
        let ghost before = facts@;
        assert(before.take(before.len() as int) =~= before);
        if !facts_contain(facts, facts.len(), &more[j]) {
            let copy = more[j].duplicate();
            proof {
                lemma_facts_set_push(before, copy);
                assert forall|a: int| 0 <= a < before.len() implies (#[trigger] before[a])@
                    != copy@ by {
                    if before[a]@ == copy@ {
                        assert(facts_set(before).contains(copy@));
                    }
                }
            }
            facts.push(copy);
            assert(facts@.take(start.len() as int) =~= start);
        }
        proof {
            assert forall|f: SentenceV|
                #[trigger] facts_set(facts@).contains(f) <==> (facts_set(start).contains(f)
                    || exists|t: int| 0 <= t < j + 1 && (#[trigger] more[t])@ == f) by {
                assert(facts_set(facts@).contains(f) <==> (facts_set(before).contains(f) || f
                    == more[j as int]@));
                if exists|t: int| 0 <= t < j + 1 && (#[trigger] more[t])@ == f {
                    let t = choose|t: int| 0 <= t < j + 1 && (#[trigger] more[t])@ == f;
                    if t < j {
                        assert(facts_set(before).contains(f));
                    }
                }
            }
        }
        j += 1;
    }
    proof {
        assert(start.take(start.len() as int) =~= start);
        if facts@.len() == start.len() {
            assert(facts@ =~= start);
        }
    }
}

/// Applies the rules of stratum `k` to `facts` until nothing new is
/// derived. What was there stays in front, in its order; what is derived
/// follows it.
pub fn saturate(rules: &Vec<Rule>, levels: &Vec<usize>, k: usize, facts: &mut Vec<Sentence>)
    requires
        levels.len() == rules.len(),
        forall|i: int| 0 <= i < rules.len() ==> rule_safe((#[trigger] rules[i])@),
        facts_ground(old(facts)@),
        facts_distinct(old(facts)@),
    ensures
        facts_ground(final(facts)@),
        facts_distinct(final(facts)@),
        old(facts)@.len() <= final(facts)@.len(),
        final(facts)@.take(old(facts)@.len() as int) == old(facts)@,
        facts_set(final(facts)@) == stratum_model(
            rules_view(rules@),
            levels@,
            k as int,
            facts_set(old(facts)@),
        ),
{
    let ghost start = facts@;
    let ghost base = facts_set(start);
    let ghost rv = rules_view(rules@);
    let ghost lm = stratum_model(rv, levels@, k as int, base);
    let limit = facts.len();
    let mut done = false;
    proof {
        lemma_stratum_model_closed(rv, levels@, k as int, base);
        assert(start.take(start.len() as int) =~= start);
    }
    while !done
        invariant
            levels.len() == rules.len(),
            forall|i: int| 0 <= i < rules.len() ==> rule_safe((#[trigger] rules[i])@),
            rv == rules_view(rules@),
            base == facts_set(start),
            lm == stratum_model(rv, levels@, k as int, base),
            base.subset_of(lm),
            closed_under(rv, levels@, k as int, lm, base),
            limit == start.len(),
            limit <= facts.len(),
            facts@.take(limit as int) == start,
            facts_ground(facts@),
            facts_distinct(facts@),
            facts_set(facts@).subset_of(lm),
            done ==> closed_under(rv, levels@, k as int, facts_set(facts@), base),
        decreases usize::MAX - facts.len() + (if done { 0int } else { 1int }),
    {
        let ghost pass_start = facts@;
        let pass_len = facts.len();
        let mut r: usize = 0;
        while r < rules.len()
            invariant
                r <= rules.len(),
                levels.len() == rules.len(),
                forall|i: int| 0 <= i < rules.len() ==> rule_safe((#[trigger] rules[i])@),
                rv == rules_view(rules@),
                base == facts_set(start),
                base.subset_of(lm),
                closed_under(rv, levels@, k as int, lm, base),
                limit == start.len(),
                limit <= facts.len(),
                pass_len == pass_start.len(),
                pass_len <= facts.len(),
                facts@.take(limit as int) == start,
                facts@.take(pass_len as int) == pass_start,
                facts_ground(facts@),
                facts_distinct(facts@),
                facts_set(facts@).subset_of(lm),
                facts.len() == pass_len ==> forall|i: int, f: SentenceV|
                    0 <= i < r && levels[i] == k && #[trigger] rule_derives(
                        rv[i],
                        facts_set(facts@),
                        base,
                        f,
                    ) ==> facts_set(facts@).contains(f),
            decreases rules.len() - r,
        {
            if levels[r] == k {
                let ghost before = facts@;
                let derived = fire(&rules[r], facts, limit);
                proof {
                    assert(rv[r as int] == rules[r as int]@);
                    assert forall|f: SentenceV| facts_set(derived@).contains(f) implies lm.contains(
                        f,
                    ) by {
                        lemma_derives_mono(rv[r as int], facts_set(before), lm, base, f);
                    }
                }
                absorb(facts, &derived);
                proof {
                    assert(facts@.take(limit as int) =~= before.take(limit as int));
                    assert(facts@.take(pass_len as int) =~= before.take(pass_len as int));
                    if facts.len() == pass_len {
                        assert(before.take(pass_len as int) =~= before);
                        assert(facts@.take(pass_len as int) =~= facts@);
                    }
                }
            }
            r += 1;
        }
        if facts.len() == pass_len {
            done = true;
        }
    }
    proof {
        lemma_stratum_model_least(rv, levels@, k as int, base, facts_set(facts@));
        assert(facts_set(facts@) =~= lm);
    }
}

/// The facts that hold in a state: the facts `given`, then what each
/// stratum below `depth` derives, the lowest stratum first.
pub fn saturate_all(rules: &Vec<Rule>, levels: &Vec<usize>, depth: usize, facts: &mut Vec<Sentence>)
    requires
        levels.len() == rules.len(),
        forall|i: int| 0 <= i < rules.len() ==> rule_safe((#[trigger] rules[i])@),
        facts_ground(old(facts)@),
        facts_distinct(old(facts)@),
    ensures
        facts_ground(final(facts)@),
        facts_distinct(final(facts)@),
        old(facts)@.len() <= final(facts)@.len(),
        final(facts)@.take(old(facts)@.len() as int) == old(facts)@,
        facts_set(final(facts)@) == model_upto(
            rules_view(rules@),
            levels@,
            depth as nat,
            facts_set(old(facts)@),
        ),
{
    let ghost start = facts@;
    let mut k: usize = 0;
    proof {
        assert(start.take(start.len() as int) =~= start);
    }
    while k < depth
        invariant
            k <= depth,
            levels.len() == rules.len(),
            forall|i: int| 0 <= i < rules.len() ==> rule_safe((#[trigger] rules[i])@),
            facts_ground(facts@),
            facts_distinct(facts@),
            start.len() <= facts@.len(),
            facts@.take(start.len() as int) == start,
            facts_set(facts@) == model_upto(
                rules_view(rules@),
                levels@,
                k as nat,
                facts_set(start),
            ),
        decreases depth - k,
    {
        let ghost before = facts@;
        saturate(rules, levels, k, facts);
        proof {
            assert(facts@.take(start.len() as int) =~= before.take(start.len() as int));
        }
        k += 1;
    }
}

} // verus!
