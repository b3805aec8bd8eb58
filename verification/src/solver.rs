//! The evaluation of rule bodies: literals are taken from left to right,
//! each under the bindings that the earlier ones made, and every way of
//! satisfying them all yields one instance of the head.

use crate::semantics::{
    branch_goals, derives_from, derives_via, facts_ground, facts_set, lemma_branch_goals,
    lemma_derives_branches, lemma_derives_closed_goal, lemma_derives_done,
    lemma_derives_relation, lemma_goals_safe_closed, lemma_goals_safe_matched,
    lemma_via_matched, goals_safe, literal_sat, literals_size, some_sat, subst_sentence,
};
use crate::sentence::{lemma_or_view, literals_view, Literal, LiteralV, Sentence, SentenceV};
use crate::subst::{extends, ground_subst, match_terms, matches_terms, Binding, Subst};
use crate::term::terms_view;
use vstd::prelude::*;

verus! {

/// The values of the literals that a list of goals refers to, in order.
pub open spec fn goals_view(goals: Seq<&Literal>) -> Seq<LiteralV> {
    Seq::new(goals.len(), |i: int| goals[i]@)
}

/// Adding a fact to a list adds it to the set of its facts.
pub proof fn lemma_facts_set_push(facts: Seq<Sentence>, x: Sentence)
    ensures
        forall|f: SentenceV|
            #[trigger] facts_set(facts.push(x)).contains(f) <==> (facts_set(facts).contains(f)
                || f == x@),
{
    let more = facts.push(x);
    assert forall|f: SentenceV|
        #[trigger] facts_set(more).contains(f) <==> (facts_set(facts).contains(f) || f
            == x@) by {
        if facts_set(more).contains(f) {
            let i = choose|i: int| 0 <= i < more.len() && (#[trigger] more[i])@ == f;
            if i < facts.len() {
                assert(facts[i]@ == f);
            }
        }
        if facts_set(facts).contains(f) {
            let i = choose|i: int| 0 <= i < facts.len() && (#[trigger] facts[i])@ == f;
            assert(more[i]@ == f);
        }
        if f == x@ {
            assert(more[facts.len() as int]@ == f);
        }
    }
}

/// The sentence with each variable that `s` binds replaced.
pub fn apply_sentence(s: &Subst, sentence: &Sentence) -> (r: Sentence)
    ensures
        r@ == subst_sentence(s@, sentence@),
{
    match sentence {
        Sentence::Prop(n) => Sentence::Prop(n.clone()),
        Sentence::Rel(n, args) => Sentence::Rel(n.clone(), s.apply_all(args)),
    }
}

/// The literal with each variable that `s` binds replaced.
pub fn apply_literal(s: &Subst, l: &Literal) -> (r: Literal)
    ensures
        r@ == crate::semantics::subst_literal(s@, l@),
    decreases l,
{
    match l {
        Literal::Prop(n) => Literal::Prop(n.clone()),
        Literal::Rel(n, args) => Literal::Rel(n.clone(), s.apply_all(args)),
        Literal::Not(inner) => Literal::Not(Box::new(apply_literal(s, inner))),
        Literal::Or(ls) => {
            let r = Literal::Or(apply_literals(s, ls));
            proof {
                lemma_or_view(*l);
                lemma_or_view(r);
            }
            r
        },
        Literal::Distinct(a, b) => Literal::Distinct(s.apply(a), s.apply(b)),
    }
}

/// The literals with each variable that `s` binds replaced, in order.
pub fn apply_literals(s: &Subst, ls: &Vec<Literal>) -> (r: Vec<Literal>)
    ensures
        literals_view(r@) == crate::semantics::subst_literals(s@, literals_view(ls@)),
    decreases ls,
{
    let mut out: Vec<Literal> = Vec::new();
    let mut i: usize = 0;
    while i < ls.len()
        invariant
            i <= ls.len(),
            out.len() == i,
            forall|k: int|
                0 <= k < i ==> (#[trigger] out[k])@ == crate::semantics::subst_literal(
                    s@,
                    ls[k]@,
                ),
        decreases ls.len() - i,
    {
        out.push(apply_literal(s, &ls[i]));
        i += 1;
    }
    assert(literals_view(out@) =~= crate::semantics::subst_literals(s@, literals_view(ls@)));
    out
}

/// Whether the fact is among the first `limit` facts of the list.
pub fn facts_contain(facts: &Vec<Sentence>, limit: usize, f: &Sentence) -> (r: bool)
    requires
        limit <= facts.len(),
    ensures
        r == facts_set(facts@.take(limit as int)).contains(f@),
{
    let ghost part = facts@.take(limit as int);
    let mut i: usize = 0;
    while i < limit
        invariant
            i <= limit <= facts.len(),
            part == facts@.take(limit as int),
            forall|k: int| 0 <= k < i ==> (#[trigger] part[k])@ != f@,
        decreases limit - i,
    {
        if facts[i].equals(f) {
            assert(part[i as int]@ == f@);
            return true;
        }
        i += 1;
    }
    false
}

/// Whether the literal is satisfied under the bindings of `s`, read
/// against the first `limit` facts, and under negations against the
/// first `neg_limit` facts.
pub fn eval_literal(
    l: &Literal,
    s: &Subst,
    facts: &Vec<Sentence>,
    limit: usize,
    neg_limit: usize,
) -> (r: bool)
    requires
        limit <= facts.len(),
        neg_limit <= facts.len(),
    ensures
        r == literal_sat(
            l@,
            s@,
            facts_set(facts@.take(limit as int)),
            facts_set(facts@.take(neg_limit as int)),
        ),
    decreases l,
{
    match l {
        Literal::Prop(n) => {
            let inst = Sentence::Prop(n.clone());
            facts_contain(facts, limit, &inst)
        },
        Literal::Rel(n, args) => {
            let inst = Sentence::Rel(n.clone(), s.apply_all(args));
            facts_contain(facts, limit, &inst)
        },
        Literal::Not(inner) => !eval_literal(inner, s, facts, neg_limit, neg_limit),
        Literal::Or(ls) => {
            proof {
                lemma_or_view(*l);
            }
            eval_some(ls, s, facts, limit, neg_limit)
        },
        Literal::Distinct(a, b) => {
            let x = s.apply(a);
            let y = s.apply(b);
            !x.equals(&y)
        },
    }
}

/// Whether one of the literals is satisfied.
pub fn eval_some(
    ls: &Vec<Literal>,
    s: &Subst,
    facts: &Vec<Sentence>,
    limit: usize,
    neg_limit: usize,
) -> (r: bool)
    requires
        limit <= facts.len(),
        neg_limit <= facts.len(),
    ensures
        r == some_sat(
            literals_view(ls@),
            s@,
            facts_set(facts@.take(limit as int)),
            facts_set(facts@.take(neg_limit as int)),
        ),
    decreases ls,
{
    let ghost lv = literals_view(ls@);
    let ghost pos = facts_set(facts@.take(limit as int));
    let ghost neg = facts_set(facts@.take(neg_limit as int));
    let mut i: usize = 0;
    while i < ls.len()
        invariant
            i <= ls.len(),
            limit <= facts.len(),
            neg_limit <= facts.len(),
            lv == literals_view(ls@),
            pos == facts_set(facts@.take(limit as int)),
            neg == facts_set(facts@.take(neg_limit as int)),
            forall|k: int| #![trigger lv[k]] 0 <= k < i ==> !literal_sat(lv[k], s@, pos, neg),
        decreases ls.len() - i,
    {
        assert(lv[i as int] == ls[i as int]@);
        if eval_literal(&ls[i], s, facts, limit, neg_limit) {
            assert(literal_sat(lv[i as int], s@, pos, neg));
            return true;
        }
        i += 1;
    }
    false
}

/// Some fact among the first `k` leads to `f`.
pub open spec fn via_upto(
    base: Binding,
    l: LiteralV,
    facts: Seq<Sentence>,
    k: int,
    rest: Seq<LiteralV>,
    head: SentenceV,
    neg: Set<SentenceV>,
    f: SentenceV,
) -> bool {
    exists|j: int|
        0 <= j < k && #[trigger] derives_via(
            base,
            l->Rel_0,
            l->Rel_1,
            facts[j]@,
            rest,
            head,
            facts_set(facts),
            neg,
            f,
        )
}

/// Some branch among the first `k` leads to `f`.
pub open spec fn branches_upto(
    base: Binding,
    goals: Seq<LiteralV>,
    k: int,
    head: SentenceV,
    pos: Set<SentenceV>,
    neg: Set<SentenceV>,
    f: SentenceV,
) -> bool {
    exists|j: int|
        0 <= j < k && #[trigger] derives_from(base, branch_goals(goals, j), head, pos, neg, f)
}

/// Adds to `out` every instance of `head` that the goals from index
/// `from` on derive under the bindings of `s`. Positive literals are read
/// against all of `facts`, what stands under a negation against the
/// first `limit` of them.
pub fn solve<'a>(
    goals: &Vec<&'a Literal>,
    from: usize,
    s: Subst,
    head: &Sentence,
    facts: &Vec<Sentence>,
    limit: usize,
    out: &mut Vec<Sentence>,
)
    requires
        from <= goals.len(),
        limit <= facts.len(),
        ground_subst(s@),
        goals_safe(goals_view(goals@).skip(from as int), s@.dom(), head@),
        facts_ground(facts@),
        facts_ground(old(out)@),
    ensures
        facts_ground(final(out)@),
        forall|f: SentenceV|
            #[trigger] facts_set(final(out)@).contains(f) <==> (facts_set(old(out)@).contains(f)
                || derives_from(
                s@,
                goals_view(goals@).skip(from as int),
                head@,
                facts_set(facts@),
                facts_set(facts@.take(limit as int)),
                f,
            )),
    decreases literals_size(goals_view(goals@).skip(from as int)),
{
    let ghost gs = goals_view(goals@).skip(from as int);
    let ghost pos = facts_set(facts@);
    let ghost neg = facts_set(facts@.take(limit as int));
    let ghost out0 = out@;
    let ghost base = s@;
    if from == goals.len() {
        proof {
            assert(gs =~= Seq::empty());
            lemma_derives_done(base, head@, pos, neg);
        }
        let inst = apply_sentence(&s, head);
        proof {
            lemma_facts_set_push(out0, inst);
        }
        out.push(inst);
        return ;
    }
    let goal: &Literal = goals[from];
    let ghost rest = goals_view(goals@).skip(from as int + 1);
    proof {
        assert(gs[0] == goal@);
        assert(gs.drop_first() =~= rest);
        assert(literals_size(gs) == crate::semantics::literal_size(gs[0]) + literals_size(rest));
    }
    match goal {
        Literal::Rel(name, args) => {
            let mut k: usize = 0;
            while k < facts.len()
                invariant
                    k <= facts.len(),
                    from < goals.len(),
                    limit <= facts.len(),
                    gs == goals_view(goals@).skip(from as int),
                    rest == goals_view(goals@).skip(from as int + 1),
                    gs.len() > 0,
                    gs.drop_first() == rest,
                    gs[0] == LiteralV::Rel(name@, terms_view(args@)),
                    literals_size(rest) < literals_size(gs),
                    pos == facts_set(facts@),
                    neg == facts_set(facts@.take(limit as int)),
                    base == s@,
                    ground_subst(base),
                    goals_safe(gs, base.dom(), head@),
                    facts_ground(facts@),
                    facts_ground(out@),
                    forall|f: SentenceV|
                        #[trigger] facts_set(out@).contains(f) <==> (facts_set(out0).contains(f)
                            || via_upto(base, gs[0], facts@, k as int, rest, head@, neg, f)),
                decreases facts.len() - k,
            {
                let ghost before = out@;
                let ghost fact = facts[k as int]@;
                let mut matched: Option<Subst> = None;
                match &facts[k] {
                    Sentence::Rel(fname, fargs) => {
                        if *fname == *name {
                            matched = match_terms(args, fargs, s.duplicate());
                            proof {
                                if matched is Some {
                                    lemma_via_matched(
                                        base,
                                        matched->Some_0@,
                                        name@,
                                        terms_view(args@),
                                        terms_view(fargs@),
                                        rest,
                                        head@,
                                        pos,
                                        neg,
                                    );
                                } else {
                                    assert forall|f: SentenceV| !#[trigger] derives_via(
                                        base,
                                        name@,
                                        terms_view(args@),
                                        fact,
                                        rest,
                                        head@,
                                        pos,
                                        neg,
                                        f,
                                    ) by {
                                        if derives_via(
                                            base,
                                            name@,
                                            terms_view(args@),
                                            fact,
                                            rest,
                                            head@,
                                            pos,
                                            neg,
                                            f,
                                        ) {
                                            let m = choose|m: Binding|
                                                crate::semantics::derives_under(
                                                    m,
                                                    base,
                                                    rest,
                                                    head@,
                                                    pos,
                                                    neg,
                                                    f,
                                                ) && SentenceV::Rel(
                                                    name@,
                                                    crate::subst::subst_terms(
                                                        m,
                                                        terms_view(args@),
                                                    ),
                                                ) == fact;
                                            assert(matches_terms(
                                                m,
                                                base,
                                                terms_view(args@),
                                                terms_view(fargs@),
                                            ));
                                        }
                                    }
                                }
                            }
                        }
                    },
                    _ => {},
                }
                match matched {
                    Some(s2) => {
                        proof {
                            assert(extends(s2@, s2@));
                            assert(matches_terms(
                                s2@,
                                base,
                                terms_view(args@),
                                crate::sentence::sentence_args(fact),
                            ));
                            assert(base.dom().subset_of(s2@.dom()));
                            lemma_goals_safe_matched(gs, base.dom(), s2@.dom(), head@);
                        }
                        solve(goals, from + 1, s2, head, facts, limit, out);
                    },
                    None => {
                        assert(forall|f: SentenceV| !#[trigger] derives_via(
                            base,
                            name@,
                            terms_view(args@),
                            fact,
                            rest,
                            head@,
                            pos,
                            neg,
                            f,
                        ));
                    },
                }
                proof {
                    assert forall|f: SentenceV|
                        #[trigger] facts_set(out@).contains(f) <==> (facts_set(out0).contains(f)
                            || via_upto(base, gs[0], facts@, k as int + 1, rest, head@, neg, f)) by {
                        let via_k = derives_via(
                            base,
                            name@,
                            terms_view(args@),
                            fact,
                            rest,
                            head@,
                            pos,
                            neg,
                            f,
                        );
                        assert(facts_set(out@).contains(f) <==> (facts_set(before).contains(f)
                            || via_k));
                        assert(facts_set(before).contains(f) <==> (facts_set(out0).contains(f)
                            || via_upto(base, gs[0], facts@, k as int, rest, head@, neg, f)));
                        if via_upto(base, gs[0], facts@, k as int + 1, rest, head@, neg, f) {
                            let j = choose|j: int|
                                0 <= j < k + 1 && #[trigger] derives_via(
                                    base,
                                    gs[0]->Rel_0,
                                    gs[0]->Rel_1,
                                    facts@[j]@,
                                    rest,
                                    head@,
                                    facts_set(facts@),
                                    neg,
                                    f,
                                );
                            if j < k {
                                assert(via_upto(base, gs[0], facts@, k as int, rest, head@, neg, f));
                            }
                        }
                    }
                }
                k += 1;
            }
            proof {
                lemma_derives_relation(base, gs, head@, facts@, neg);
            }
        },
        Literal::Or(ls) => {
            proof {
                lemma_or_view(*goal);
            }
            let mut k: usize = 0;
            while k < ls.len()
                invariant
                    k <= ls.len(),
                    from < goals.len(),
                    limit <= facts.len(),
                    gs == goals_view(goals@).skip(from as int),
                    gs.len() > 0,
                    gs[0] == LiteralV::Or(literals_view(ls@)),
                    goals[from as int] == goal,
                    *goal == Literal::Or(*ls),
                    pos == facts_set(facts@),
                    neg == facts_set(facts@.take(limit as int)),
                    base == s@,
                    ground_subst(base),
                    goals_safe(gs, base.dom(), head@),
                    facts_ground(facts@),
                    facts_ground(out@),
                    forall|f: SentenceV|
                        #[trigger] facts_set(out@).contains(f) <==> (facts_set(out0).contains(f)
                            || branches_upto(base, gs, k as int, head@, pos, neg, f)),
                decreases ls.len() - k,
            {
                let ghost before = out@;
                let mut branch: Vec<&'a Literal> = Vec::new();
                branch.push(&ls[k]);
                let mut i: usize = from + 1;
                while i < goals.len()
                    invariant
                        from < i <= goals.len(),
                        branch.len() == i - from,
                        k < ls.len(),
                        branch[0]@ == ls[k as int]@,
                        forall|t: int| 1 <= t < branch.len() ==> branch[t]@ == goals[from + t]@,
                    decreases goals.len() - i,
                {
                    branch.push(goals[i]);
                    i += 1;
                }
                proof {
                    assert(goals_view(branch@).skip(0) =~= branch_goals(gs, k as int));
                    lemma_branch_goals(gs, k as int, base.dom(), head@);
                }
                solve(&branch, 0, s.duplicate(), head, facts, limit, out);
                proof {
                    assert forall|f: SentenceV|
                        #[trigger] facts_set(out@).contains(f) <==> (facts_set(out0).contains(f)
                            || branches_upto(base, gs, k as int + 1, head@, pos, neg, f)) by {
                        let via_k = derives_from(
                            base,
                            branch_goals(gs, k as int),
                            head@,
                            pos,
                            neg,
                            f,
                        );
                        assert(facts_set(out@).contains(f) <==> (facts_set(before).contains(f)
                            || via_k));
                        assert(facts_set(before).contains(f) <==> (facts_set(out0).contains(f)
                            || branches_upto(base, gs, k as int, head@, pos, neg, f)));
                        if branches_upto(base, gs, k as int + 1, head@, pos, neg, f) {
                            let j = choose|j: int|
                                0 <= j < k + 1 && #[trigger] derives_from(
                                    base,
                                    branch_goals(gs, j),
                                    head@,
                                    pos,
                                    neg,
                                    f,
                                );
                            if j < k {
                                assert(branches_upto(base, gs, k as int, head@, pos, neg, f));
                            }
                        }
                    }
                }
                k += 1;
            }
            proof {
                lemma_derives_branches(base, gs, head@, pos, neg);
            }
        },
        _ => {
            proof {
                lemma_goals_safe_closed(gs, base.dom(), head@);
                lemma_derives_closed_goal(base, gs, head@, pos, neg);
                assert(facts@.take(facts.len() as int) =~= facts@);
            }
            if eval_literal(goal, &s, facts, facts.len(), limit) {
                solve(goals, from + 1, s, head, facts, limit, out);
            }
        },
    }
}

} // verus!
