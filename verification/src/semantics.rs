//! What a rule base means: when a literal is satisfied, which facts a
//! rule derives, and the least set of facts closed under a set of rules.

use crate::sentence::{
    literal_closed, literals_closed, sentence_closed, sentence_ground, LiteralV, RuleV,
    Sentence, SentenceV,
};
use crate::subst::{
    extends, ground_subst, lemma_subst_extends, lemma_subst_terms_extends,
    lemma_subst_terms_ground, subst_term, subst_terms, Binding,
};
use crate::term::{lemma_closed_has_var, term_closed, terms_closed, terms_have_var};
use vstd::prelude::*;

verus! {

/// The set of the facts in a list.
pub open spec fn facts_set(facts: Seq<Sentence>) -> Set<SentenceV> {
    Set::new(|f: SentenceV| exists|i: int| 0 <= i < facts.len() && (#[trigger] facts[i])@ == f)
}

/// Every fact of the list is ground.
pub open spec fn facts_ground(facts: Seq<Sentence>) -> bool {
    forall|i: int| 0 <= i < facts.len() ==> sentence_ground((#[trigger] facts[i])@)
}

/// The sentence with each bound variable replaced by what it is bound to.
pub open spec fn subst_sentence(m: Binding, s: SentenceV) -> SentenceV {
    match s {
        SentenceV::Prop(_) => s,
        SentenceV::Rel(n, args) => SentenceV::Rel(n, subst_terms(m, args)),
    }
}

/// The literal with each bound variable replaced by what it is bound to.
pub open spec fn subst_literal(m: Binding, l: LiteralV) -> LiteralV
    decreases l,
{
    match l {
        LiteralV::Prop(_) => l,
        LiteralV::Rel(n, args) => LiteralV::Rel(n, subst_terms(m, args)),
        LiteralV::Not(inner) => LiteralV::Not(Box::new(subst_literal(m, *inner))),
        LiteralV::Or(ls) => LiteralV::Or(subst_literals(m, ls)),
        LiteralV::Distinct(a, b) => LiteralV::Distinct(subst_term(m, a), subst_term(m, b)),
    }
}

/// The literals with each bound variable replaced, in order.
pub open spec fn subst_literals(m: Binding, ls: Seq<LiteralV>) -> Seq<LiteralV>
    decreases ls,
{
    Seq::new(
        ls.len(),
        |i: int|
            if 0 <= i < ls.len() {
                subst_literal(m, ls[i])
            } else {
                LiteralV::Or(Seq::empty())
            },
    )
}

/// Whether the literal is satisfied under the substitution `m`. A
/// proposition or relation is satisfied when its instance is among the
/// facts `pos`. Whatever stands under a negation is read against the
/// facts `neg` alone. A disjunction is satisfied when one of its branches
/// is, and a distinct-constraint when its two terms differ.
pub open spec fn literal_sat(
    l: LiteralV,
    m: Binding,
    pos: Set<SentenceV>,
    neg: Set<SentenceV>,
) -> bool
    decreases l,
{
    match l {
        LiteralV::Prop(n) => pos.contains(SentenceV::Prop(n)),
        LiteralV::Rel(n, args) => pos.contains(SentenceV::Rel(n, subst_terms(m, args))),
        LiteralV::Not(inner) => !literal_sat(*inner, m, neg, neg),
        LiteralV::Or(ls) => some_sat(ls, m, pos, neg),
        LiteralV::Distinct(a, b) => subst_term(m, a) != subst_term(m, b),
    }
}

/// Whether one of the literals is satisfied.
pub open spec fn some_sat(
    ls: Seq<LiteralV>,
    m: Binding,
    pos: Set<SentenceV>,
    neg: Set<SentenceV>,
) -> bool
    decreases ls,
{
    exists|i: int| #![trigger ls[i]] 0 <= i < ls.len() && literal_sat(ls[i], m, pos, neg)
}

/// Whether every literal is satisfied.
pub open spec fn all_sat(
    ls: Seq<LiteralV>,
    m: Binding,
    pos: Set<SentenceV>,
    neg: Set<SentenceV>,
) -> bool {
    forall|i: int| #![trigger ls[i]] 0 <= i < ls.len() ==> literal_sat(ls[i], m, pos, neg)
}

/// `m` is a ground substitution that extends `base`, satisfies every
/// goal and turns `head` into the ground fact `f`.
pub open spec fn derives_under(
    m: Binding,
    base: Binding,
    goals: Seq<LiteralV>,
    head: SentenceV,
    pos: Set<SentenceV>,
    neg: Set<SentenceV>,
    f: SentenceV,
) -> bool {
    &&& ground_subst(m)
    &&& extends(m, base)
    &&& all_sat(goals, m, pos, neg)
    &&& f == subst_sentence(m, head)
    &&& sentence_ground(f)
}

/// Some ground substitution that extends `base` satisfies every goal and
/// turns `head` into the fact `f`.
pub open spec fn derives_from(
    base: Binding,
    goals: Seq<LiteralV>,
    head: SentenceV,
    pos: Set<SentenceV>,
    neg: Set<SentenceV>,
    f: SentenceV,
) -> bool {
    exists|m: Binding| derives_under(m, base, goals, head, pos, neg, f)
}

/// The rule derives the fact `f`: some ground instance of the rule has
/// `f` as its head and a body that is satisfied.
pub open spec fn rule_derives(
    rule: RuleV,
    pos: Set<SentenceV>,
    neg: Set<SentenceV>,
    f: SentenceV,
) -> bool {
    derives_from(Map::empty(), rule.body, rule.head, pos, neg, f)
}

/// Whether the literal, once satisfied, has certainly bound variable `v`.
pub open spec fn literal_binds(l: LiteralV, v: Seq<char>) -> bool
    decreases l,
{
    match l {
        LiteralV::Rel(_, args) => terms_have_var(args, v),
        LiteralV::Or(ls) => ls.len() > 0 && all_bind(ls, v),
        _ => false,
    }
}

/// Whether each of the literals, once satisfied, has bound variable `v`.
pub open spec fn all_bind(ls: Seq<LiteralV>, v: Seq<char>) -> bool
    decreases ls,
{
    forall|i: int| #![trigger ls[i]] 0 <= i < ls.len() ==> literal_binds(ls[i], v)
}

/// The variables that are bound once the literal is satisfied, given
/// those bound before it.
pub open spec fn bound_after(l: LiteralV, bound: Set<Seq<char>>) -> Set<Seq<char>> {
    Set::new(|v: Seq<char>| bound.contains(v) || literal_binds(l, v))
}

/// Whether the literal can be evaluated once the variables in `bound`
/// are bound: a negation or a distinct-constraint holds no other variable.
pub open spec fn literal_safe(l: LiteralV, bound: Set<Seq<char>>) -> bool
    decreases l,
{
    match l {
        LiteralV::Prop(_) => true,
        LiteralV::Rel(_, _) => true,
        LiteralV::Not(inner) => literal_closed(*inner, bound),
        LiteralV::Or(ls) => all_safe(ls, bound),
        LiteralV::Distinct(a, b) => term_closed(a, bound) && term_closed(b, bound),
    }
}

/// Whether each of the literals can be evaluated with `bound` bound.
pub open spec fn all_safe(ls: Seq<LiteralV>, bound: Set<Seq<char>>) -> bool
    decreases ls,
{
    forall|i: int| #![trigger ls[i]] 0 <= i < ls.len() ==> literal_safe(ls[i], bound)
}

/// Whether the goals can be evaluated from left to right, starting with
/// `bound` bound, and leave every variable of `head` bound.
pub open spec fn goals_safe(goals: Seq<LiteralV>, bound: Set<Seq<char>>, head: SentenceV) -> bool
    decreases goals.len(),
{
    if goals.len() == 0 {
        sentence_closed(head, bound)
    } else {
        literal_safe(goals[0], bound) && goals_safe(
            goals.drop_first(),
            bound_after(goals[0], bound),
            head,
        )
    }
}

/// A rule is safe when its body can be evaluated from left to right and
/// binds every variable of its head.
pub open spec fn rule_safe(rule: RuleV) -> bool {
    goals_safe(rule.body, Set::empty(), rule.head)
}

/// A measure of the goals that shrinks when a goal is dropped or a
/// disjunction is replaced by one of its branches.
pub open spec fn literal_size(l: LiteralV) -> nat
    decreases l,
{
    match l {
        LiteralV::Or(ls) => 1 + literals_size(ls),
        _ => 1,
    }
}

/// The sizes of the literals, added up.
pub open spec fn literals_size(ls: Seq<LiteralV>) -> nat
    decreases ls,
{
    if ls.len() == 0 {
        0
    } else {
        literal_size(ls[0]) + literals_size(ls.drop_first())
    }
}

/// A literal of a list is no larger than the list.
pub proof fn lemma_size_member(ls: Seq<LiteralV>, i: int)
    requires
        0 <= i < ls.len(),
    ensures
        literal_size(ls[i]) <= literals_size(ls),
    decreases ls.len(),
{
    if i > 0 {
        lemma_size_member(ls.drop_first(), i - 1);
    }
}

/// Safety of a literal grows with the set of bound variables.
pub proof fn lemma_literal_safe_mono(l: LiteralV, small: Set<Seq<char>>, large: Set<Seq<char>>)
    requires
        literal_safe(l, small),
        small.subset_of(large),
    ensures
        literal_safe(l, large),
    decreases l,
{
    match l {
        LiteralV::Not(inner) => {
            crate::sentence::lemma_literal_closed_mono(*inner, small, large);
        },
        LiteralV::Or(ls) => {
            assert(all_safe(ls, small));
            assert forall|i: int| 0 <= i < ls.len() implies literal_safe(
                #[trigger] ls[i],
                large,
            ) by {
                lemma_literal_safe_mono(ls[i], small, large);
            }
            assert(all_safe(ls, large));
        },
        LiteralV::Distinct(a, b) => {
            crate::term::lemma_closed_mono(a, small, large);
            crate::term::lemma_closed_mono(b, small, large);
        },
        _ => {},
    }
}

/// Safety of goals grows with the set of bound variables.
pub proof fn lemma_goals_safe_mono(
    goals: Seq<LiteralV>,
    small: Set<Seq<char>>,
    large: Set<Seq<char>>,
    head: SentenceV,
)
    requires
        goals_safe(goals, small, head),
        small.subset_of(large),
    ensures
        goals_safe(goals, large, head),
    decreases goals.len(),
{
    if goals.len() == 0 {
        let args = crate::sentence::sentence_args(head);
        assert forall|i: int| 0 <= i < args.len() implies term_closed(
            #[trigger] args[i],
            large,
        ) by {
            crate::term::lemma_closed_mono(args[i], small, large);
        }
    } else {
        lemma_literal_safe_mono(goals[0], small, large);
        assert(bound_after(goals[0], small).subset_of(bound_after(goals[0], large)));
        lemma_goals_safe_mono(
            goals.drop_first(),
            bound_after(goals[0], small),
            bound_after(goals[0], large),
            head,
        );
    }
}

/// A substitution and one that extends it agree on a literal whose
/// variables the smaller one binds.
pub proof fn lemma_sat_extends(
    l: LiteralV,
    small: Binding,
    big: Binding,
    pos: Set<SentenceV>,
    neg: Set<SentenceV>,
)
    requires
        literal_closed(l, small.dom()),
        extends(big, small),
    ensures
        literal_sat(l, big, pos, neg) == literal_sat(l, small, pos, neg),
    decreases l,
{
    match l {
        LiteralV::Prop(_) => {},
        LiteralV::Rel(_, args) => {
            lemma_subst_terms_extends(args, small, big);
        },
        LiteralV::Not(inner) => {
            lemma_sat_extends(*inner, small, big, neg, neg);
        },
        LiteralV::Or(ls) => {
            assert(literals_closed(ls, small.dom()));
            assert forall|i: int| 0 <= i < ls.len() implies literal_sat(
                #[trigger] ls[i],
                big,
                pos,
                neg,
            ) == literal_sat(ls[i], small, pos, neg) by {
                lemma_sat_extends(ls[i], small, big, pos, neg);
            }
            assert(some_sat(ls, big, pos, neg) == some_sat(ls, small, pos, neg));
        },
        LiteralV::Distinct(a, b) => {
            lemma_subst_extends(a, small, big);
            lemma_subst_extends(b, small, big);
        },
    }
}

/// Satisfaction of a literal grows with the facts it is read against,
/// as long as those under negations stay the same.
pub proof fn lemma_sat_mono(
    l: LiteralV,
    m: Binding,
    small: Set<SentenceV>,
    large: Set<SentenceV>,
    neg: Set<SentenceV>,
)
    requires
        literal_sat(l, m, small, neg),
        small.subset_of(large),
    ensures
        literal_sat(l, m, large, neg),
    decreases l,
{
    match l {
        LiteralV::Or(ls) => {
            assert(some_sat(ls, m, small, neg));
            let i = choose|i: int|
                #![trigger ls[i]]
                0 <= i < ls.len() && literal_sat(ls[i], m, small, neg);
            lemma_sat_mono(ls[i], m, small, large, neg);
            assert(some_sat(ls, m, large, neg));
        },
        _ => {},
    }
}

/// What a rule derives grows with the facts its body is read against.
pub proof fn lemma_derives_mono(
    rule: RuleV,
    small: Set<SentenceV>,
    large: Set<SentenceV>,
    neg: Set<SentenceV>,
    f: SentenceV,
)
    requires
        rule_derives(rule, small, neg, f),
        small.subset_of(large),
    ensures
        rule_derives(rule, large, neg, f),
{
    let m = choose|m: Binding|
        derives_under(m, Map::empty(), rule.body, rule.head, small, neg, f);
    assert forall|i: int| #![trigger rule.body[i]] 0 <= i < rule.body.len() implies literal_sat(
        rule.body[i],
        m,
        large,
        neg,
    ) by {
        lemma_sat_mono(rule.body[i], m, small, large, neg);
    }
    assert(derives_under(m, Map::empty(), rule.body, rule.head, large, neg, f));
}

/// With no goal left, exactly the instance of the head is derived.
pub proof fn lemma_derives_done(
    base: Binding,
    head: SentenceV,
    pos: Set<SentenceV>,
    neg: Set<SentenceV>,
)
    requires
        ground_subst(base),
        sentence_closed(head, base.dom()),
    ensures
        sentence_ground(subst_sentence(base, head)),
        forall|f: SentenceV|
            #[trigger] derives_from(base, Seq::empty(), head, pos, neg, f) <==> f
                == subst_sentence(base, head),
{
    let inst = subst_sentence(base, head);
    match head {
        SentenceV::Rel(_, args) => {
            lemma_subst_terms_ground(args, base);
        },
        _ => {},
    }
    assert forall|f: SentenceV|
        #[trigger] derives_from(base, Seq::empty(), head, pos, neg, f) <==> f == inst by {
        if derives_from(base, Seq::empty(), head, pos, neg, f) {
            let m = choose|m: Binding| derives_under(m, base, Seq::empty(), head, pos, neg, f);
            match head {
                SentenceV::Rel(_, args) => {
                    lemma_subst_terms_extends(args, base, m);
                },
                _ => {},
            }
        }
        if f == inst {
            assert(derives_under(base, base, Seq::empty(), head, pos, neg, f));
        }
    }
}

/// A goal that holds no unbound variable either fails, and nothing is
/// derived, or holds, and what is derived is what the goals after it derive.
pub proof fn lemma_derives_closed_goal(
    base: Binding,
    goals: Seq<LiteralV>,
    head: SentenceV,
    pos: Set<SentenceV>,
    neg: Set<SentenceV>,
)
    requires
        goals.len() > 0,
        literal_closed(goals[0], base.dom()),
    ensures
        forall|f: SentenceV|
            #[trigger] derives_from(base, goals, head, pos, neg, f) <==> (literal_sat(
                goals[0],
                base,
                pos,
                neg,
            ) && derives_from(base, goals.drop_first(), head, pos, neg, f)),
{
    let rest = goals.drop_first();
    assert forall|f: SentenceV|
        #[trigger] derives_from(base, goals, head, pos, neg, f) <==> (literal_sat(
            goals[0],
            base,
            pos,
            neg,
        ) && derives_from(base, rest, head, pos, neg, f)) by {
        if derives_from(base, goals, head, pos, neg, f) {
            let m = choose|m: Binding| derives_under(m, base, goals, head, pos, neg, f);
            lemma_sat_extends(goals[0], base, m, pos, neg);
            assert(literal_sat(goals[0], m, pos, neg));
            assert forall|i: int| #![trigger rest[i]] 0 <= i < rest.len() implies literal_sat(
                rest[i],
                m,
                pos,
                neg,
            ) by {
                assert(rest[i] == goals[i + 1]);
            }
            assert(derives_under(m, base, rest, head, pos, neg, f));
        }
        if literal_sat(goals[0], base, pos, neg) && derives_from(base, rest, head, pos, neg, f) {
            let m = choose|m: Binding| derives_under(m, base, rest, head, pos, neg, f);
            lemma_sat_extends(goals[0], base, m, pos, neg);
            assert forall|i: int| #![trigger goals[i]] 0 <= i < goals.len() implies literal_sat(
                goals[i],
                m,
                pos,
                neg,
            ) by {
                if i > 0 {
                    assert(goals[i] == rest[i - 1]);
                }
            }
            assert(derives_under(m, base, goals, head, pos, neg, f));
        }
    }
}

/// Some ground substitution extends `base`, turns the relation
/// `name(args)` into `fact`, satisfies the goals `rest` and turns `head`
/// into `f`.
pub open spec fn derives_via(
    base: Binding,
    name: Seq<char>,
    args: Seq<crate::term::TermV>,
    fact: SentenceV,
    rest: Seq<LiteralV>,
    head: SentenceV,
    pos: Set<SentenceV>,
    neg: Set<SentenceV>,
    f: SentenceV,
) -> bool {
    exists|m: Binding|
        derives_under(m, base, rest, head, pos, neg, f) && SentenceV::Rel(
            name,
            subst_terms(m, args),
        ) == fact
}

/// With a relation as the first goal, a fact is derived exactly when it
/// is derived by way of one of the facts the relation is read against.
pub proof fn lemma_derives_relation(
    base: Binding,
    goals: Seq<LiteralV>,
    head: SentenceV,
    facts: Seq<Sentence>,
    neg: Set<SentenceV>,
)
    requires
        goals.len() > 0,
        goals[0] is Rel,
    ensures
        forall|f: SentenceV|
            #[trigger] derives_from(base, goals, head, facts_set(facts), neg, f) <==> exists|
                k: int,
            |
                0 <= k < facts.len() && #[trigger] derives_via(
                    base,
                    goals[0]->Rel_0,
                    goals[0]->Rel_1,
                    facts[k]@,
                    goals.drop_first(),
                    head,
                    facts_set(facts),
                    neg,
                    f,
                ),
{
    let rest = goals.drop_first();
    let pos = facts_set(facts);
    let name = goals[0]->Rel_0;
    let args = goals[0]->Rel_1;
    assert forall|f: SentenceV|
        #[trigger] derives_from(base, goals, head, pos, neg, f) <==> exists|k: int|
            0 <= k < facts.len() && #[trigger] derives_via(
                base,
                name,
                args,
                facts[k]@,
                rest,
                head,
                pos,
                neg,
                f,
            ) by {
        if derives_from(base, goals, head, pos, neg, f) {
            let m = choose|m: Binding| derives_under(m, base, goals, head, pos, neg, f);
            assert(literal_sat(goals[0], m, pos, neg));
            let inst = SentenceV::Rel(name, subst_terms(m, args));
            assert(pos.contains(inst));
            let k = choose|k: int| 0 <= k < facts.len() && (#[trigger] facts[k])@ == inst;
            assert forall|i: int| #![trigger rest[i]] 0 <= i < rest.len() implies literal_sat(
                rest[i],
                m,
                pos,
                neg,
            ) by {
                assert(rest[i] == goals[i + 1]);
            }
            assert(derives_under(m, base, rest, head, pos, neg, f));
            assert(derives_via(base, name, args, facts[k]@, rest, head, pos, neg, f));
        }
        if exists|k: int|
            0 <= k < facts.len() && #[trigger] derives_via(
                base,
                name,
                args,
                facts[k]@,
                rest,
                head,
                pos,
                neg,
                f,
            ) {
            let k = choose|k: int|
                0 <= k < facts.len() && #[trigger] derives_via(
                    base,
                    name,
                    args,
                    facts[k]@,
                    rest,
                    head,
                    pos,
                    neg,
                    f,
                );
            let m = choose|m: Binding|
                derives_under(m, base, rest, head, pos, neg, f) && SentenceV::Rel(
                    name,
                    subst_terms(m, args),
                ) == facts[k]@;
            assert(pos.contains(facts[k]@));
            assert forall|i: int| #![trigger goals[i]] 0 <= i < goals.len() implies literal_sat(
                goals[i],
                m,
                pos,
                neg,
            ) by {
                if i > 0 {
                    assert(goals[i] == rest[i - 1]);
                }
            }
            assert(derives_under(m, base, goals, head, pos, neg, f));
        }
    }
}

/// Where the substitutions that turn the relation into the fact are
/// those that extend `next`, what is derived by way of the fact is what
/// the remaining goals derive from `next`.
pub proof fn lemma_via_matched(
    base: Binding,
    next: Binding,
    name: Seq<char>,
    args: Seq<crate::term::TermV>,
    vals: Seq<crate::term::TermV>,
    rest: Seq<LiteralV>,
    head: SentenceV,
    pos: Set<SentenceV>,
    neg: Set<SentenceV>,
)
    requires
        forall|m: Binding| #[trigger]
            extends(m, next) <==> crate::subst::matches_terms(m, base, args, vals),
    ensures
        forall|f: SentenceV|
            #[trigger] derives_via(
                base,
                name,
                args,
                SentenceV::Rel(name, vals),
                rest,
                head,
                pos,
                neg,
                f,
            ) <==> derives_from(next, rest, head, pos, neg, f),
{
    let fact = SentenceV::Rel(name, vals);
    assert forall|f: SentenceV|
        #[trigger] derives_via(base, name, args, fact, rest, head, pos, neg, f) <==> derives_from(
            next,
            rest,
            head,
            pos,
            neg,
            f,
        ) by {
        if derives_via(base, name, args, fact, rest, head, pos, neg, f) {
            let m = choose|m: Binding|
                derives_under(m, base, rest, head, pos, neg, f) && SentenceV::Rel(
                    name,
                    subst_terms(m, args),
                ) == fact;
            assert(crate::subst::matches_terms(m, base, args, vals));
            assert(extends(m, next));
            assert(derives_under(m, next, rest, head, pos, neg, f));
        }
        if derives_from(next, rest, head, pos, neg, f) {
            let m = choose|m: Binding| derives_under(m, next, rest, head, pos, neg, f);
            assert(extends(m, next));
            assert(crate::subst::matches_terms(m, base, args, vals));
            assert(derives_under(m, base, rest, head, pos, neg, f));
            assert(SentenceV::Rel(name, subst_terms(m, args)) == fact);
        }
    }
}

/// With a disjunction as the first goal, a fact is derived exactly when
/// it is derived with one of the branches in the disjunction's place.
pub proof fn lemma_derives_branches(
    base: Binding,
    goals: Seq<LiteralV>,
    head: SentenceV,
    pos: Set<SentenceV>,
    neg: Set<SentenceV>,
)
    requires
        goals.len() > 0,
        goals[0] is Or,
    ensures
        forall|f: SentenceV|
            #[trigger] derives_from(base, goals, head, pos, neg, f) <==> exists|k: int|
                0 <= k < goals[0]->Or_0.len() && #[trigger] derives_from(
                    base,
                    branch_goals(goals, k),
                    head,
                    pos,
                    neg,
                    f,
                ),
{
    let ls = goals[0]->Or_0;
    let rest = goals.drop_first();
    assert forall|f: SentenceV|
        #[trigger] derives_from(base, goals, head, pos, neg, f) <==> exists|k: int|
            0 <= k < ls.len() && #[trigger] derives_from(
                base,
                branch_goals(goals, k),
                head,
                pos,
                neg,
                f,
            ) by {
        if derives_from(base, goals, head, pos, neg, f) {
            let m = choose|m: Binding| derives_under(m, base, goals, head, pos, neg, f);
            assert(literal_sat(goals[0], m, pos, neg));
            assert(some_sat(ls, m, pos, neg));
            let k = choose|k: int|
                #![trigger ls[k]]
                0 <= k < ls.len() && literal_sat(ls[k], m, pos, neg);
            let bg = branch_goals(goals, k);
            assert forall|i: int| #![trigger bg[i]] 0 <= i < bg.len() implies literal_sat(
                bg[i],
                m,
                pos,
                neg,
            ) by {
                if i > 0 {
                    assert(bg[i] == goals[i]);
                }
            }
            assert(derives_under(m, base, bg, head, pos, neg, f));
            assert(derives_from(base, branch_goals(goals, k), head, pos, neg, f));
        }
        if exists|k: int|
            0 <= k < ls.len() && #[trigger] derives_from(
                base,
                branch_goals(goals, k),
                head,
                pos,
                neg,
                f,
            ) {
            let k = choose|k: int|
                0 <= k < ls.len() && #[trigger] derives_from(
                    base,
                    branch_goals(goals, k),
                    head,
                    pos,
                    neg,
                    f,
                );
            let bg = branch_goals(goals, k);
            let m = choose|m: Binding| derives_under(m, base, bg, head, pos, neg, f);
            assert(literal_sat(bg[0], m, pos, neg));
            assert(bg[0] == ls[k]);
            assert(literal_sat(ls[k], m, pos, neg));
            assert(some_sat(ls, m, pos, neg));
            assert(literal_sat(goals[0], m, pos, neg));
            assert forall|i: int| #![trigger goals[i]] 0 <= i < goals.len() implies literal_sat(
                goals[i],
                m,
                pos,
                neg,
            ) by {
                if i > 0 {
                    assert(goals[i] == bg[i]);
                }
            }
            assert(derives_under(m, base, goals, head, pos, neg, f));
        }
    }
}

/// The goals with the disjunction at their front replaced by its branch `k`.
pub open spec fn branch_goals(goals: Seq<LiteralV>, k: int) -> Seq<LiteralV> {
    goals.update(0, goals[0]->Or_0[k])
}

/// Replacing a disjunction by one of its branches keeps the goals safe
/// and makes them smaller.
pub proof fn lemma_branch_goals(
    goals: Seq<LiteralV>,
    k: int,
    bound: Set<Seq<char>>,
    head: SentenceV,
)
    requires
        goals.len() > 0,
        goals[0] is Or,
        0 <= k < goals[0]->Or_0.len(),
        goals_safe(goals, bound, head),
    ensures
        goals_safe(branch_goals(goals, k), bound, head),
        literals_size(branch_goals(goals, k)) < literals_size(goals),
{
    let ls = goals[0]->Or_0;
    let bg = branch_goals(goals, k);
    assert(bg.drop_first() =~= goals.drop_first());
    assert(all_safe(ls, bound));
    assert(literal_safe(ls[k], bound));
    assert forall|v: Seq<char>| bound_after(goals[0], bound).contains(v) implies bound_after(
        ls[k],
        bound,
    ).contains(v) by {
        if !bound.contains(v) {
            assert(all_bind(ls, v));
            assert(literal_binds(ls[k], v));
        }
    }
    lemma_goals_safe_mono(
        goals.drop_first(),
        bound_after(goals[0], bound),
        bound_after(ls[k], bound),
        head,
    );
    lemma_size_member(ls, k);
    assert(literal_size(goals[0]) == 1 + literals_size(ls));
    assert(literals_size(goals) == literal_size(goals[0]) + literals_size(goals.drop_first()));
    assert(literals_size(bg) == literal_size(bg[0]) + literals_size(bg.drop_first()));
}

/// After a relation has been matched, the goals that follow it are safe
/// under the bindings that the match made.
pub proof fn lemma_goals_safe_matched(
    goals: Seq<LiteralV>,
    before: Set<Seq<char>>,
    after: Set<Seq<char>>,
    head: SentenceV,
)
    requires
        goals.len() > 0,
        goals[0] is Rel,
        goals_safe(goals, before, head),
        before.subset_of(after),
        terms_closed(goals[0]->Rel_1, after),
    ensures
        goals_safe(goals.drop_first(), after, head),
{
    let args = goals[0]->Rel_1;
    assert forall|v: Seq<char>| bound_after(goals[0], before).contains(v) implies after.contains(
        v,
    ) by {
        if !before.contains(v) {
            assert(terms_have_var(args, v));
            let i = choose|i: int|
                #![trigger args[i]]
                0 <= i < args.len() && crate::term::term_has_var(args[i], v);
            lemma_closed_has_var(args[i], after, v);
        }
    }
    lemma_goals_safe_mono(goals.drop_first(), bound_after(goals[0], before), after, head);
}

/// After a goal that binds nothing, the goals that follow it are safe
/// under the same bindings.
pub proof fn lemma_goals_safe_closed(goals: Seq<LiteralV>, bound: Set<Seq<char>>, head: SentenceV)
    requires
        goals.len() > 0,
        !(goals[0] is Rel),
        !(goals[0] is Or),
        goals_safe(goals, bound, head),
    ensures
        goals_safe(goals.drop_first(), bound, head),
        literal_closed(goals[0], bound),
{
    assert(bound_after(goals[0], bound) =~= bound);
}

} // verus!
