//! Stratification: the rules are laid out in levels so that a rule reads
//! under a negation only relations of lower levels, and reads elsewhere
//! no relation of a higher level.

use crate::sentence::{
    lemma_or_view, literals_view, rules_view, sentence_name, Literal, LiteralV, Rule, RuleV,
};
use vstd::prelude::*;

verus! {

/// Whether relation `q` occurs in the literal, under a negation where
/// `negated` is set and outside every negation where it is not. `inside`
/// says whether the literal itself stands under a negation.
pub open spec fn literal_occurs(l: LiteralV, q: Seq<char>, negated: bool, inside: bool) -> bool
    decreases l,
{
    match l {
        LiteralV::Prop(n) => n == q && inside == negated,
        LiteralV::Rel(n, _) => n == q && inside == negated,
        LiteralV::Not(inner) => literal_occurs(*inner, q, negated, true),
        LiteralV::Or(ls) => some_occurs(ls, q, negated, inside),
        LiteralV::Distinct(_, _) => false,
    }
}

/// Whether relation `q` occurs so in one of the literals.
pub open spec fn some_occurs(ls: Seq<LiteralV>, q: Seq<char>, negated: bool, inside: bool) -> bool
    decreases ls,
{
    exists|i: int| #![trigger ls[i]] 0 <= i < ls.len() && literal_occurs(ls[i], q, negated, inside)
}

/// The rule `user` reads the relation that `used` defines under a
/// negation: `used` must lie strictly below it.
pub open spec fn needs_below(user: RuleV, used: RuleV) -> bool {
    some_occurs(user.body, sentence_name(used.head), true, false)
}

/// The rule `user` defines the same relation as `used`, or reads it
/// outside every negation: `used` must not lie above it.
pub open spec fn needs_not_above(user: RuleV, used: RuleV) -> bool {
    sentence_name(user.head) == sentence_name(used.head) || some_occurs(
        user.body,
        sentence_name(used.head),
        false,
        false,
    )
}

/// The levels of rules `i` and `j` respect what rule `i` reads of rule `j`.
pub open spec fn pair_ok(rules: Seq<RuleV>, levels: Seq<usize>, i: int, j: int) -> bool {
    &&& needs_below(rules[i], rules[j]) ==> levels[j] < levels[i]
    &&& needs_not_above(rules[i], rules[j]) ==> levels[j] <= levels[i]
}

/// The levels, one for each rule, are a stratification of the rules.
pub open spec fn stratified(rules: Seq<RuleV>, levels: Seq<usize>) -> bool {
    &&& levels.len() == rules.len()
    &&& forall|i: int, j: int|
        0 <= i < rules.len() && 0 <= j < rules.len() ==> #[trigger] pair_ok(rules, levels, i, j)
}

/// Every level lies below `bound`.
pub open spec fn levels_below(levels: Seq<usize>, bound: int) -> bool {
    forall|i: int| 0 <= i < levels.len() ==> #[trigger] levels[i] < bound
}

/// The rules have a stratification.
pub open spec fn stratifiable(rules: Seq<RuleV>) -> bool {
    exists|levels: Seq<usize>| #[trigger] stratified(rules, levels)
}

/// The levels that lie below `v`.
pub open spec fn levels_under(levels: Seq<usize>, v: usize) -> Set<usize> {
    levels.to_set().filter(|w: usize| w < v)
}

/// The levels with each replaced by the number of different levels
/// below it: the same order of the rules, without gaps.
pub open spec fn compressed(levels: Seq<usize>) -> Seq<usize> {
    Seq::new(levels.len(), |i: int| levels_under(levels, levels[i]).len() as usize)
}

proof fn lemma_levels_under(levels: Seq<usize>, a: int, b: int)
    requires
        0 <= a < levels.len(),
        0 <= b < levels.len(),
    ensures
        levels_under(levels, levels[a]).finite(),
        levels_under(levels, levels[a]).len() < levels.len(),
        levels[a] <= levels[b] ==> levels_under(levels, levels[a]).len() <= levels_under(
            levels,
            levels[b],
        ).len(),
        levels[a] < levels[b] ==> levels_under(levels, levels[a]).len() < levels_under(
            levels,
            levels[b],
        ).len(),
{
    let all = levels.to_set();
    let ua = levels_under(levels, levels[a]);
    let ub = levels_under(levels, levels[b]);
    vstd::seq_lib::seq_to_set_is_finite(levels);
    levels.lemma_cardinality_of_set();
    assert(levels.contains(levels[a]));
    assert(levels.contains(levels[b]));
    assert(all.contains(levels[a]));
    assert(ua.subset_of(all));
    assert(ub.subset_of(all));
    vstd::set_lib::lemma_len_subset(ua, all);
    vstd::set_lib::lemma_len_subset(ub, all);
    ua.lemma_subset_not_in_lt(all, levels[a]);
    if levels[a] <= levels[b] {
        assert(ua.subset_of(ub));
        vstd::set_lib::lemma_len_subset(ua, ub);
    }
    if levels[a] < levels[b] {
        assert(ub.contains(levels[a]));
        ua.lemma_subset_not_in_lt(ub, levels[a]);
    }
}

/// Rules that have a stratification have one with fewer levels than rules.
pub proof fn lemma_compressed(rules: Seq<RuleV>, levels: Seq<usize>)
    requires
        stratified(rules, levels),
        rules.len() <= usize::MAX,
    ensures
        stratified(rules, compressed(levels)),
        levels_below(compressed(levels), rules.len() as int),
{
    let c = compressed(levels);
    assert forall|i: int| 0 <= i < c.len() implies #[trigger] c[i] < rules.len() by {
        lemma_levels_under(levels, i, i);
    }
    assert forall|i: int, j: int| 0 <= i < rules.len() && 0 <= j < rules.len() implies #[trigger] pair_ok(
        rules,
        c,
        i,
        j,
    ) by {
        assert(pair_ok(rules, levels, i, j));
        lemma_levels_under(levels, j, i);
        lemma_levels_under(levels, i, i);
        lemma_levels_under(levels, j, j);
    }
}

/// No level of `low` lies above the level that `high` gives the same rule.
pub open spec fn levels_le(low: Seq<usize>, high: Seq<usize>) -> bool {
    low.len() == high.len() && forall|i: int| 0 <= i < low.len() ==> #[trigger] low[i] <= high[i]
}

/// The levels are below every stratification of the rules.
pub open spec fn levels_least(rules: Seq<RuleV>, levels: Seq<usize>) -> bool {
    forall|other: Seq<usize>| #[trigger] stratified(rules, other) ==> levels_le(levels, other)
}

/// The levels, added up.
pub open spec fn levels_total(levels: Seq<usize>) -> int
    decreases levels.len(),
{
    if levels.len() == 0 {
        0
    } else {
        levels_total(levels.drop_last()) + levels.last()
    }
}

proof fn lemma_total_update(levels: Seq<usize>, i: int, v: usize)
    requires
        0 <= i < levels.len(),
    ensures
        levels_total(levels.update(i, v)) == levels_total(levels) - levels[i] + v,
    decreases levels.len(),
{
    let after = levels.update(i, v);
    if i == levels.len() - 1 {
        assert(after.drop_last() =~= levels.drop_last());
    } else {
        assert(after.drop_last() =~= levels.drop_last().update(i, v));
        lemma_total_update(levels.drop_last(), i, v);
    }
}

proof fn lemma_total_bound(levels: Seq<usize>, bound: int)
    requires
        forall|i: int| 0 <= i < levels.len() ==> #[trigger] levels[i] <= bound,
        0 <= bound,
    ensures
        0 <= levels_total(levels) <= levels.len() * bound,
    decreases levels.len(),
{
    if levels.len() > 0 {
        let rest = levels.drop_last();
        assert forall|i: int| 0 <= i < rest.len() implies #[trigger] rest[i] <= bound by {
            assert(rest[i] == levels[i]);
        }
        lemma_total_bound(rest, bound);
        assert(rest.len() * bound + bound == levels.len() * bound) by (nonlinear_arith)
            requires
                rest.len() + 1 == levels.len(),
        ;
    } else {
        assert(levels.len() * bound == 0) by (nonlinear_arith)
            requires
                levels.len() == 0,
        ;
    }
}

/// Whether relation `q` occurs in the literal, under a negation or
/// outside every negation as `negated` says.
pub fn literal_has(l: &Literal, q: &String, negated: bool, inside: bool) -> (r: bool)
    ensures
        r == literal_occurs(l@, q@, negated, inside),
    decreases l,
{
    match l {
        Literal::Prop(n) => *n == *q && inside == negated,
        Literal::Rel(n, _) => *n == *q && inside == negated,
        Literal::Not(inner) => literal_has(inner, q, negated, true),
        Literal::Or(ls) => {
            proof {
                lemma_or_view(*l);
            }
            some_has(ls, q, negated, inside)
        },
        Literal::Distinct(_, _) => false,
    }
}

/// Whether relation `q` occurs so in one of the literals.
pub fn some_has(ls: &Vec<Literal>, q: &String, negated: bool, inside: bool) -> (r: bool)
    ensures
        r == some_occurs(literals_view(ls@), q@, negated, inside),
    decreases ls,
{
    let ghost lv = literals_view(ls@);
    let mut i: usize = 0;
    while i < ls.len()
        invariant
            i <= ls.len(),
            lv == literals_view(ls@),
            forall|k: int|
                #![trigger lv[k]]
                0 <= k < i ==> !literal_occurs(lv[k], q@, negated, inside),
        decreases ls.len() - i,
    {
        assert(lv[i as int] == ls[i as int]@);
        if literal_has(&ls[i], q, negated, inside) {
            assert(literal_occurs(lv[i as int], q@, negated, inside));
            return true;
        }
        i += 1;
    }
    false
}

/// The least stratification of the rules, if they have one. It has
/// fewer levels than there are rules.
pub fn stratify(rules: &Vec<Rule>) -> (r: Option<Vec<usize>>)
    ensures
        r is Some <==> stratifiable(rules_view(rules@)),
        match r {
            Some(levels) => {
                &&& stratified(rules_view(rules@), levels@)
                &&& levels_below(levels@, rules.len() as int)
                &&& levels_least(rules_view(rules@), levels@)
            },
            None => true,
        },
{
    let ghost rv = rules_view(rules@);
    let n = rules.len();
    let mut levels: Vec<usize> = Vec::new();
    let mut t: usize = 0;
    while t < n
        invariant
            t <= n,
            levels.len() == t,
            forall|i: int| 0 <= i < t ==> levels[i] == 0,
        decreases n - t,
    {
        levels.push(0);
        t += 1;
    }
    assert(levels_least(rv, levels@));
    let mut done = false;
    proof {
        if n > 0 {
            lemma_total_bound(levels@, n as int - 1);
        } else {
            assert(stratified(rv, levels@));
        }
        assert(n * n >= 0) by (nonlinear_arith);
    }
    if n == 0 {
        return Some(levels);
    }
    while !done
        invariant
            n == rules.len(),
            n > 0,
            rv == rules_view(rules@),
            levels.len() == n,
            levels_below(levels@, n as int),
            levels_least(rv, levels@),
            0 <= levels_total(levels@) <= n * (n - 1),
            done ==> stratified(rv, levels@),
        decreases n * (n - 1) - levels_total(levels@) + (if done { 0int } else { 1int }),
    {
        let ghost pass_start = levels@;
        let mut changed = false;
        let mut i: usize = 0;
        while i < n
            invariant
                i <= n,
                n == rules.len(),
                n > 0,
                rv == rules_view(rules@),
                levels.len() == n,
                levels_below(levels@, n as int),
                levels_least(rv, levels@),
                0 <= levels_total(levels@) <= n * (n - 1),
                levels_total(pass_start) <= levels_total(levels@),
                changed ==> levels_total(pass_start) < levels_total(levels@),
                !changed ==> levels@ == pass_start,
                !changed ==> forall|a: int, b: int|
                    0 <= a < i && 0 <= b < n ==> #[trigger] pair_ok(rv, levels@, a, b),
            decreases n - i,
        {
            let mut j: usize = 0;
            while j < n
                invariant
                    i < n,
                    j <= n,
                    n == rules.len(),
                    n > 0,
                    rv == rules_view(rules@),
                    levels.len() == n,
                    levels_below(levels@, n as int),
                    levels_least(rv, levels@),
                    0 <= levels_total(levels@) <= n * (n - 1),
                    levels_total(pass_start) <= levels_total(levels@),
                    changed ==> levels_total(pass_start) < levels_total(levels@),
                    !changed ==> levels@ == pass_start,
                    !changed ==> forall|a: int, b: int|
                        0 <= a < i && 0 <= b < n ==> #[trigger] pair_ok(rv, levels@, a, b),
                    !changed ==> forall|b: int|
                        0 <= b < j ==> #[trigger] pair_ok(rv, levels@, i as int, b),
                decreases n - j,
            {
                assert(rv[i as int] == rules[i as int]@);
                assert(rv[j as int] == rules[j as int]@);
                let used = rules[j].head.name();
                let below = some_has(&rules[i].body, used, true, false);
                let user = rules[i].head.name();
                let not_above = *user == *used || some_has(&rules[i].body, used, false, false);
                assert(below == needs_below(rv[i as int], rv[j as int]));
                assert(not_above == needs_not_above(rv[i as int], rv[j as int]));
                assert(levels[j as int] < n);
                let mut need: usize = 0;
                if below {
                    need = levels[j] + 1;
                } else if not_above {
                    need = levels[j];
                }
                if need > levels[i] {
                    if need >= n {
                        proof {
                            assert forall|other: Seq<usize>| !#[trigger] stratified(rv, other) by {
                                if stratified(rv, other) {
                                    lemma_compressed(rv, other);
                                    let tight = compressed(other);
                                    assert(levels_le(levels@, tight));
                                    assert(pair_ok(rv, tight, i as int, j as int));
                                    assert(tight[j as int] >= levels[j as int]);
                                    assert(tight[i as int] >= n);
                                }
                            }
                        }
                        return None;
                    }
                    let ghost before = levels@;
                    levels.set(i, need);
                    changed = true;
                    proof {
                        lemma_total_update(before, i as int, need);
                        assert forall|k: int| 0 <= k < levels@.len() implies #[trigger] levels@[k]
                            <= n - 1 by {}
                        lemma_total_bound(levels@, n as int - 1);
                        assert forall|other: Seq<usize>| #[trigger]
                            stratified(rv, other) implies levels_le(levels@, other) by {
                            assert(levels_le(before, other));
                            assert(pair_ok(rv, other, i as int, j as int));
                            assert(other[j as int] >= before[j as int]);
                        }
                    }
                }
                j += 1;
            }
            i += 1;
        }
        if !changed {
            done = true;
        }
    }
    proof {
        assert(stratifiable(rv));
    }
    Some(levels)
}

} // verus!
