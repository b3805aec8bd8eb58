//! The check that a rule can be evaluated from left to right: that every
//! negation and distinct-constraint is reached with its variables bound,
//! and that the body binds every variable of the head.

use crate::semantics::{
    all_bind, all_safe, bound_after, goals_safe, literal_binds, literal_safe, rule_safe,
};
use crate::sentence::{lemma_or_view, literals_view, Literal, Rule};
use crate::term::{
    lemma_func_view, names_contain, names_set, term_has_var, terms_have_var, terms_view, Term,
};
use vstd::prelude::*;

verus! {

/// Adding a name to a list adds it to the set of its names.
pub proof fn lemma_names_set_push(names: Seq<String>, x: String)
    ensures
        forall|v: Seq<char>|
            #[trigger] names_set(names.push(x)).contains(v) <==> (names_set(names).contains(v)
                || v == x@),
{
    let more = names.push(x);
    assert forall|v: Seq<char>|
        #[trigger] names_set(more).contains(v) <==> (names_set(names).contains(v) || v
            == x@) by {
        if names_set(more).contains(v) {
            let i = choose|i: int| 0 <= i < more.len() && #[trigger] more[i]@ == v;
            if i < names.len() {
                assert(names[i]@ == v);
            }
        }
        if names_set(names).contains(v) {
            let i = choose|i: int| 0 <= i < names.len() && #[trigger] names[i]@ == v;
            assert(more[i]@ == v);
        }
        if v == x@ {
            assert(more[names.len() as int]@ == v);
        }
    }
}

/// Adds the variables of the term to `acc`.
pub fn collect_vars(t: &Term, acc: &mut Vec<String>)
    ensures
        forall|v: Seq<char>|
            #[trigger] names_set(final(acc)@).contains(v) <==> (names_set(old(acc)@).contains(v)
                || term_has_var(t@, v)),
    decreases t,
{
    match t {
        Term::Var(n) => {
            proof {
                lemma_names_set_push(acc@, *n);
            }
            acc.push(n.clone());
        },
        Term::Const(_) => {},
        Term::Func(_, args) => {
            proof {
                lemma_func_view(*t);
            }
            collect_vars_all(args, acc);
        },
    }
}

/// Adds the variables of the terms to `acc`.
pub fn collect_vars_all(ts: &Vec<Term>, acc: &mut Vec<String>)
    ensures
        forall|v: Seq<char>|
            #[trigger] names_set(final(acc)@).contains(v) <==> (names_set(old(acc)@).contains(v)
                || terms_have_var(terms_view(ts@), v)),
    decreases ts,
{
    let ghost start = acc@;
    let ghost tv = terms_view(ts@);
    let mut i: usize = 0;
    while i < ts.len()
        invariant
            i <= ts.len(),
            tv == terms_view(ts@),
            forall|v: Seq<char>|
                #[trigger] names_set(acc@).contains(v) <==> (names_set(start).contains(v)
                    || exists|k: int| #![trigger tv[k]] 0 <= k < i && term_has_var(tv[k], v)),
        decreases ts.len() - i,
    {
        let ghost before = acc@;
        assert(tv[i as int] == ts[i as int]@);
        collect_vars(&ts[i], acc);
        proof {
            assert forall|v: Seq<char>|
                #[trigger] names_set(acc@).contains(v) <==> (names_set(start).contains(v)
                    || exists|k: int|
                    #![trigger tv[k]]
                    0 <= k < i + 1 && term_has_var(tv[k], v)) by {
                assert(names_set(acc@).contains(v) <==> (names_set(before).contains(v)
                    || term_has_var(tv[i as int], v)));
                if exists|k: int| #![trigger tv[k]] 0 <= k < i + 1 && term_has_var(tv[k], v) {
                    let k = choose|k: int|
                        #![trigger tv[k]]
                        0 <= k < i + 1 && term_has_var(tv[k], v);
                    if k < i {
                        assert(names_set(before).contains(v));
                    }
                }
            }
        }
        i += 1;
    }
}

/// The names that are in both lists.
pub fn names_common(a: &Vec<String>, b: &Vec<String>) -> (r: Vec<String>)
    ensures
        forall|v: Seq<char>|
            #[trigger] names_set(r@).contains(v) <==> (names_set(a@).contains(v) && names_set(
                b@,
            ).contains(v)),
{
    let mut out: Vec<String> = Vec::new();
    let mut i: usize = 0;
    while i < a.len()
        invariant
            i <= a.len(),
            forall|v: Seq<char>|
                #[trigger] names_set(out@).contains(v) <==> (names_set(b@).contains(v)
                    && exists|k: int| 0 <= k < i && #[trigger] a[k]@ == v),
        decreases a.len() - i,
    {
        let ghost before = out@;
        if names_contain(b, &a[i]) {
            proof {
                lemma_names_set_push(before, a[i as int]);
            }
            out.push(a[i].clone());
        }
        proof {
            assert forall|v: Seq<char>|
                #[trigger] names_set(out@).contains(v) <==> (names_set(b@).contains(v)
                    && exists|k: int| 0 <= k < i + 1 && #[trigger] a[k]@ == v) by {
                if exists|k: int| 0 <= k < i + 1 && #[trigger] a[k]@ == v {
                    let k = choose|k: int| 0 <= k < i + 1 && #[trigger] a[k]@ == v;
                    if k < i && names_set(b@).contains(v) {
                        assert(names_set(before).contains(v));
                    }
                }
                if names_set(before).contains(v) {
                    let k = choose|k: int| 0 <= k < i && #[trigger] a[k]@ == v;
                    assert(a[k]@ == v);
                }
            }
        }
        i += 1;
    }
    out
}

/// The variables that are certainly bound once the literal is satisfied.
pub fn literal_binding(l: &Literal) -> (r: Vec<String>)
    ensures
        forall|v: Seq<char>| #[trigger] names_set(r@).contains(v) <==> literal_binds(l@, v),
    decreases l,
{
    let mut out: Vec<String> = Vec::new();
    match l {
        Literal::Rel(_, args) => {
            collect_vars_all(args, &mut out);
            out
        },
        Literal::Or(ls) => {
            proof {
                lemma_or_view(*l);
            }
            branches_binding(ls)
        },
        _ => out,
    }
}

/// The variables that every branch of a disjunction binds.
pub fn branches_binding(ls: &Vec<Literal>) -> (r: Vec<String>)
    ensures
        forall|v: Seq<char>|
            #[trigger] names_set(r@).contains(v) <==> (ls.len() > 0 && all_bind(
                literals_view(ls@),
                v,
            )),
    decreases ls,
{
    let ghost lv = literals_view(ls@);
    if ls.len() == 0 {
        return Vec::new();
    }
    assert(lv[0] == ls[0]@);
    let mut acc = literal_binding(&ls[0]);
    let mut i: usize = 1;
    while i < ls.len()
        invariant
            1 <= i <= ls.len(),
            lv == literals_view(ls@),
            forall|v: Seq<char>|
                #[trigger] names_set(acc@).contains(v) <==> (forall|k: int|
                    #![trigger lv[k]]
                    0 <= k < i ==> literal_binds(lv[k], v)),
        decreases ls.len() - i,
    {
        let ghost before = acc@;
        assert(lv[i as int] == ls[i as int]@);
        let next = literal_binding(&ls[i]);
        acc = names_common(&acc, &next);
        proof {
            assert forall|v: Seq<char>|
                #[trigger] names_set(acc@).contains(v) <==> (forall|k: int|
                    #![trigger lv[k]]
                    0 <= k < i + 1 ==> literal_binds(lv[k], v)) by {
                assert(names_set(acc@).contains(v) <==> (names_set(before).contains(v)
                    && literal_binds(lv[i as int], v)));
                if names_set(acc@).contains(v) {
                    assert forall|k: int| #![trigger lv[k]] 0 <= k < i + 1 implies literal_binds(
                        lv[k],
                        v,
                    ) by {
                        if k < i {
                        }
                    }
                }
            }
        }
        i += 1;
    }
    acc
}

/// Whether the literal can be evaluated once the variables in `bound`
/// are bound.
pub fn literal_is_safe(l: &Literal, bound: &Vec<String>) -> (r: bool)
    ensures
        r == literal_safe(l@, names_set(bound@)),
    decreases l,
{
    match l {
        Literal::Prop(_) => true,
        Literal::Rel(_, _) => true,
        Literal::Not(inner) => inner.closed_in(bound),
        Literal::Or(ls) => {
            proof {
                lemma_or_view(*l);
            }
            all_are_safe(ls, bound)
        },
        Literal::Distinct(a, b) => a.closed_in(bound) && b.closed_in(bound),
    }
}

/// Whether each of the literals can be evaluated with `bound` bound.
pub fn all_are_safe(ls: &Vec<Literal>, bound: &Vec<String>) -> (r: bool)
    ensures
        r == all_safe(literals_view(ls@), names_set(bound@)),
    decreases ls,
{
    let ghost lv = literals_view(ls@);
    let mut i: usize = 0;
    while i < ls.len()
        invariant
            i <= ls.len(),
            lv == literals_view(ls@),
            forall|k: int| #![trigger lv[k]] 0 <= k < i ==> literal_safe(lv[k], names_set(bound@)),
        decreases ls.len() - i,
    {
        assert(lv[i as int] == ls[i as int]@);
        if !literal_is_safe(&ls[i], bound) {
            assert(!literal_safe(lv[i as int], names_set(bound@)));
            return false;
        }
        i += 1;
    }
    true
}

/// Adds the names of `more` to `names`.
pub fn names_extend(names: &mut Vec<String>, more: &Vec<String>)
    ensures
        forall|v: Seq<char>|
            #[trigger] names_set(final(names)@).contains(v) <==> (names_set(
                old(names)@,
            ).contains(v) || names_set(more@).contains(v)),
{
    let ghost start = names@;
    let mut i: usize = 0;
    while i < more.len()
        invariant
            i <= more.len(),
            forall|v: Seq<char>|
                #[trigger] names_set(names@).contains(v) <==> (names_set(start).contains(v)
                    || exists|k: int| 0 <= k < i && #[trigger] more[k]@ == v),
        decreases more.len() - i,
    {
        let ghost before = names@;
        proof {
            lemma_names_set_push(before, more[i as int]);
        }
        names.push(more[i].clone());
        proof {
            assert forall|v: Seq<char>|
                #[trigger] names_set(names@).contains(v) <==> (names_set(start).contains(v)
                    || exists|k: int| 0 <= k < i + 1 && #[trigger] more[k]@ == v) by {
                if exists|k: int| 0 <= k < i + 1 && #[trigger] more[k]@ == v {
                    let k = choose|k: int| 0 <= k < i + 1 && #[trigger] more[k]@ == v;
                    if k < i {
                        assert(names_set(before).contains(v));
                    }
                }
                if names_set(before).contains(v) && !names_set(start).contains(v) {
                    let k = choose|k: int| 0 <= k < i && #[trigger] more[k]@ == v;
                    assert(more[k]@ == v);
                }
            }
        }
        i += 1;
    }
}

/// Whether the goals can be evaluated from left to right with the names
/// of `bound` bound at the start, and leave every variable of the head bound.
pub fn goals_are_safe(rule: &Rule, bound: Vec<String>) -> (r: bool)
    ensures
        r == goals_safe(rule@.body, names_set(bound@), rule@.head),
{
    let ghost body = rule@.body;
    let ghost head = rule@.head;
    let ghost start = names_set(bound@);
    let mut cur = bound;
    let mut i: usize = 0;
    proof {
        assert(body.skip(0) =~= body);
    }
    while i < rule.body.len()
        invariant
            i <= rule.body.len(),
            body == rule@.body,
            head == rule@.head,
            start == names_set(bound@),
            goals_safe(body, start, head) == goals_safe(
                body.skip(i as int),
                names_set(cur@),
                head,
            ),
        decreases rule.body.len() - i,
    {
        let ghost rest = body.skip(i as int);
        assert(rest[0] == rule.body[i as int]@);
        assert(rest.drop_first() =~= body.skip(i as int + 1));
        if !literal_is_safe(&rule.body[i], &cur) {
            assert(!goals_safe(rest, names_set(cur@), head));
            return false;
        }
        let ghost before = names_set(cur@);
        let more = literal_binding(&rule.body[i]);
        names_extend(&mut cur, &more);
        assert(names_set(cur@) =~= bound_after(rest[0], before));
        i += 1;
    }
    assert(body.skip(i as int) =~= Seq::empty());
    rule.head.closed_in(&cur)
}

/// Whether the rule is safe.
pub fn rule_is_safe(rule: &Rule) -> (r: bool)
    ensures
        r == rule_safe(rule@),
{
    let none: Vec<String> = Vec::new();
    assert(names_set(none@) =~= Set::empty());
    goals_are_safe(rule, none)
}

} // verus!
