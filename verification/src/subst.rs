//! Substitutions: finite maps from variable names to terms, their
//! application, and the matching of a pattern against a ground term.

use crate::term::{
    lemma_closed_mono, lemma_func_view, term_closed, term_ground, terms_closed, terms_ground,
    terms_view, Term, TermV,
};
use vstd::prelude::*;

verus! {

/// The mathematical value of a substitution.
pub type Binding = Map<Seq<char>, TermV>;

/// The map that a list of bindings stands for; a later pair wins.
pub open spec fn bindings(pairs: Seq<(String, Term)>) -> Binding
    decreases pairs.len(),
{
    if pairs.len() == 0 {
        Map::empty()
    } else {
        bindings(pairs.drop_last()).insert(pairs.last().0@, pairs.last().1@)
    }
}

/// Every variable is bound to a ground term.
pub open spec fn ground_subst(m: Binding) -> bool {
    forall|n: Seq<char>| m.dom().contains(n) ==> term_ground(#[trigger] m[n])
}

/// `big` binds every variable of `small`, and to the same term.
pub open spec fn extends(big: Binding, small: Binding) -> bool {
    small.submap_of(big)
}

/// The term with each bound variable replaced by what it is bound to.
pub open spec fn subst_term(m: Binding, t: TermV) -> TermV
    decreases t,
{
    match t {
        TermV::Var(n) => if m.dom().contains(n) {
            m[n]
        } else {
            t
        },
        TermV::Const(_) => t,
        TermV::Func(f, args) => TermV::Func(f, subst_terms(m, args)),
    }
}

/// The terms with each bound variable replaced, in order.
pub open spec fn subst_terms(m: Binding, ts: Seq<TermV>) -> Seq<TermV>
    decreases ts,
{
    Seq::new(
        ts.len(),
        |i: int|
            if 0 <= i < ts.len() {
                subst_term(m, ts[i])
            } else {
                TermV::Const(Seq::empty())
            },
    )
}

/// A substitution and one that extends it agree on a term whose variables
/// the smaller one binds.
pub proof fn lemma_subst_extends(t: TermV, small: Binding, big: Binding)
    requires
        term_closed(t, small.dom()),
        extends(big, small),
    ensures
        subst_term(big, t) == subst_term(small, t),
    decreases t,
{
    match t {
        TermV::Func(f, args) => {
            assert forall|i: int| 0 <= i < args.len() implies subst_term(big, args[i])
                == subst_term(small, args[i]) by {
                lemma_subst_extends(args[i], small, big);
            }
            assert(subst_terms(big, args) =~= subst_terms(small, args));
        },
        _ => {},
    }
}

/// The same, for a sequence of terms.
pub proof fn lemma_subst_terms_extends(ts: Seq<TermV>, small: Binding, big: Binding)
    requires
        terms_closed(ts, small.dom()),
        extends(big, small),
    ensures
        subst_terms(big, ts) == subst_terms(small, ts),
{
    assert forall|i: int| 0 <= i < ts.len() implies subst_term(big, ts[i]) == subst_term(
        small,
        ts[i],
    ) by {
        lemma_subst_extends(ts[i], small, big);
    }
    assert(subst_terms(big, ts) =~= subst_terms(small, ts));
}

/// A substitution leaves a ground term as it is.
pub proof fn lemma_subst_of_ground(t: TermV, m: Binding)
    requires
        term_ground(t),
    ensures
        subst_term(m, t) == t,
    decreases t,
{
    match t {
        TermV::Func(f, args) => {
            assert forall|i: int| 0 <= i < args.len() implies subst_term(m, #[trigger] args[i])
                == args[i] by {
                lemma_subst_of_ground(args[i], m);
            }
            assert(subst_terms(m, args) =~= args);
        },
        _ => {},
    }
}

/// A substitution leaves ground terms as they are.
pub proof fn lemma_subst_of_ground_terms(ts: Seq<TermV>, m: Binding)
    requires
        terms_ground(ts),
    ensures
        subst_terms(m, ts) == ts,
{
    assert forall|i: int| 0 <= i < ts.len() implies subst_term(m, #[trigger] ts[i]) == ts[i] by {
        lemma_subst_of_ground(ts[i], m);
    }
    assert(subst_terms(m, ts) =~= ts);
}

/// A ground substitution that binds every variable of a term makes it ground.
pub proof fn lemma_subst_ground(t: TermV, m: Binding)
    requires
        term_closed(t, m.dom()),
        ground_subst(m),
    ensures
        term_ground(subst_term(m, t)),
    decreases t,
{
    match t {
        TermV::Func(f, args) => {
            let out = subst_terms(m, args);
            assert forall|i: int| 0 <= i < out.len() implies term_closed(
                #[trigger] out[i],
                Set::empty(),
            ) by {
                lemma_subst_ground(args[i], m);
            }
            assert(terms_closed(out, Set::empty()));
        },
        _ => {},
    }
}

/// The same, for a sequence of terms.
pub proof fn lemma_subst_terms_ground(ts: Seq<TermV>, m: Binding)
    requires
        terms_closed(ts, m.dom()),
        ground_subst(m),
    ensures
        terms_ground(subst_terms(m, ts)),
{
    let out = subst_terms(m, ts);
    assert forall|i: int| 0 <= i < out.len() implies term_closed(
        #[trigger] out[i],
        Set::empty(),
    ) by {
        lemma_subst_ground(ts[i], m);
    }
}

proof fn lemma_bindings_found(pairs: Seq<(String, Term)>, i: int, n: Seq<char>)
    requires
        0 <= i < pairs.len(),
        pairs[i].0@ == n,
        forall|k: int| i < k < pairs.len() ==> (#[trigger] pairs[k]).0@ != n,
    ensures
        bindings(pairs).dom().contains(n),
        bindings(pairs)[n] == pairs[i].1@,
    decreases pairs.len(),
{
    if i < pairs.len() - 1 {
        let rest = pairs.drop_last();
        assert(rest[i] == pairs[i]);
        assert forall|k: int| i < k < rest.len() implies (#[trigger] rest[k]).0@ != n by {
            assert(rest[k] == pairs[k]);
        }
        lemma_bindings_found(rest, i, n);
        assert(pairs.last() == pairs[pairs.len() - 1]);
    }
}

proof fn lemma_bindings_absent(pairs: Seq<(String, Term)>, n: Seq<char>)
    requires
        forall|k: int| 0 <= k < pairs.len() ==> (#[trigger] pairs[k]).0@ != n,
    ensures
        !bindings(pairs).dom().contains(n),
    decreases pairs.len(),
{
    if pairs.len() > 0 {
        let rest = pairs.drop_last();
        assert forall|k: int| 0 <= k < rest.len() implies (#[trigger] rest[k]).0@ != n by {
            assert(rest[k] == pairs[k]);
        }
        lemma_bindings_absent(rest, n);
        assert(pairs.last() == pairs[pairs.len() - 1]);
    }
}

proof fn lemma_bindings_same(a: Seq<(String, Term)>, b: Seq<(String, Term)>)
    requires
        a.len() == b.len(),
        forall|k: int|
            0 <= k < a.len() ==> (#[trigger] a[k]).0@ == b[k].0@ && a[k].1@ == b[k].1@,
    ensures
        bindings(a) == bindings(b),
    decreases a.len(),
{
    if a.len() > 0 {
        let ra = a.drop_last();
        let rb = b.drop_last();
        assert forall|k: int| 0 <= k < ra.len() implies (#[trigger] ra[k]).0@ == rb[k].0@
            && ra[k].1@ == rb[k].1@ by {
            assert(ra[k] == a[k]);
            assert(rb[k] == b[k]);
        }
        lemma_bindings_same(ra, rb);
        assert(a.last() == a[a.len() - 1]);
        assert(b.last() == b[b.len() - 1]);
    }
}

/// A substitution: variable names with the terms they are bound to.
#[derive(Debug)]
pub struct Subst {
    pairs: Vec<(String, Term)>,
}

impl View for Subst {
    type V = Binding;

    closed spec fn view(&self) -> Binding {
        bindings(self.pairs@)
    }
}

impl Subst {
    /// The substitution that binds nothing.
    pub fn new() -> (r: Subst)
        ensures
            r@ == Map::<Seq<char>, TermV>::empty(),
    {
        Subst { pairs: Vec::new() }
    }

    /// The term bound to `name`, if any.
    pub fn lookup(&self, name: &String) -> (r: Option<&Term>)
        ensures
            match r {
                Some(t) => self@.dom().contains(name@) && self@[name@] == t@,
                None => !self@.dom().contains(name@),
            },
    {
        let mut i: usize = self.pairs.len();
        while i > 0
            invariant
                i <= self.pairs.len(),
                forall|k: int| i <= k < self.pairs.len() ==> (#[trigger] self.pairs[k]).0@ != name@,
            decreases i,
        {
            i -= 1;
            if self.pairs[i].0 == *name {
                proof {
                    lemma_bindings_found(self.pairs@, i as int, name@);
                }
                return Some(&self.pairs[i].1);
            }
        }
        proof {
            lemma_bindings_absent(self.pairs@, name@);
        }
        None
    }

    /// Binds `name` to `term`; an earlier binding of the name gives way.
    pub fn bind(&mut self, name: String, term: Term)
        ensures
            final(self)@ == old(self)@.insert(name@, term@),
    {
        let ghost before = self.pairs@;
        self.pairs.push((name, term));
        assert(self.pairs@.drop_last() =~= before);
    }

    /// A copy with the same value.
    pub fn duplicate(&self) -> (r: Subst)
        ensures
            r@ == self@,
    {
        let mut out: Vec<(String, Term)> = Vec::new();
        let mut i: usize = 0;
        while i < self.pairs.len()
            invariant
                i <= self.pairs.len(),
                out.len() == i,
                forall|k: int|
                    0 <= k < i ==> (#[trigger] out[k]).0@ == self.pairs[k].0@ && out[k].1@
                        == self.pairs[k].1@,
            decreases self.pairs.len() - i,
        {
            out.push((self.pairs[i].0.clone(), self.pairs[i].1.duplicate()));
            i += 1;
        }
        proof {
            lemma_bindings_same(out@, self.pairs@);
        }
        Subst { pairs: out }
    }

    /// The term with each bound variable replaced by what it is bound to.
    pub fn apply(&self, t: &Term) -> (r: Term)
        ensures
            r@ == subst_term(self@, t@),
        decreases t,
    {
        match t {
            Term::Var(n) => match self.lookup(n) {
                Some(v) => v.duplicate(),
                None => t.duplicate(),
            },
            Term::Const(_) => t.duplicate(),
            Term::Func(f, args) => {
                let r = Term::Func(f.clone(), self.apply_all(args));
                proof {
                    lemma_func_view(*t);
                    lemma_func_view(r);
                }
                r
            },
        }
    }

    /// The terms with each bound variable replaced, in order.
    pub fn apply_all(&self, ts: &Vec<Term>) -> (r: Vec<Term>)
        ensures
            terms_view(r@) == subst_terms(self@, terms_view(ts@)),
        decreases ts,
    {
        let mut out: Vec<Term> = Vec::new();
        let mut i: usize = 0;
        while i < ts.len()
            invariant
                i <= ts.len(),
                out.len() == i,
                forall|k: int| 0 <= k < i ==> out[k]@ == subst_term(self@, ts[k]@),
            decreases ts.len() - i,
        {
            out.push(self.apply(&ts[i]));
            i += 1;
        }
        assert(terms_view(out@) =~= subst_terms(self@, terms_view(ts@)));
        out
    }
}

/// `m` extends `base` and turns the pattern into the given term.
pub open spec fn matches_term(m: Binding, base: Binding, pat: TermV, val: TermV) -> bool {
    extends(m, base) && subst_term(m, pat) == val
}

/// `m` extends `base` and turns the patterns into the given terms.
pub open spec fn matches_terms(
    m: Binding,
    base: Binding,
    pats: Seq<TermV>,
    vals: Seq<TermV>,
) -> bool {
    extends(m, base) && subst_terms(m, pats) == vals
}

/// `m` extends `base` and turns the first `upto` patterns into the first
/// `upto` of the given terms.
pub open spec fn matches_prefix(
    m: Binding,
    base: Binding,
    pats: Seq<TermV>,
    vals: Seq<TermV>,
    upto: int,
) -> bool {
    extends(m, base) && forall|k: int|
        #![trigger pats[k]]
        0 <= k < upto ==> subst_term(m, pats[k]) == vals[k]
}

/// Binding a fresh variable to a ground term gives the least substitution
/// that turns the variable into that term.
proof fn lemma_match_bind(s: Binding, n: Seq<char>, val: TermV)
    requires
        !s.dom().contains(n),
        term_ground(val),
    ensures
        forall|m: Binding| #[trigger]
            extends(m, s.insert(n, val)) <==> matches_term(m, s, TermV::Var(n), val),
{
    let s2 = s.insert(n, val);
    assert forall|m: Binding| #[trigger]
        extends(m, s2) <==> matches_term(m, s, TermV::Var(n), val) by {
        if extends(m, s2) {
            assert(s2.dom().contains(n));
            assert(m.dom().contains(n) && m[n] == val);
            assert forall|k: Seq<char>| s.dom().contains(k) implies #[trigger] m.dom().contains(k)
                && s[k] == m[k] by {
                assert(s2.dom().contains(k));
                assert(s2[k] == s[k]);
            }
            assert(s.submap_of(m));
        }
        if matches_term(m, s, TermV::Var(n), val) {
            assert(s.submap_of(m));
            assert(m.dom().contains(n));
            assert forall|k: Seq<char>| s2.dom().contains(k) implies #[trigger] m.dom().contains(
                k,
            ) && s2[k] == m[k] by {
                if k != n {
                    assert(s.dom().contains(k));
                }
            }
            assert(s2.submap_of(m));
        }
    }
}

/// Where the substitution already turns the pattern into some term, the
/// substitutions that extend it turn the pattern into that term and no other.
proof fn lemma_match_settled(s: Binding, pat: TermV, val: TermV)
    requires
        term_closed(pat, s.dom()),
    ensures
        subst_term(s, pat) == val ==> forall|m: Binding| #[trigger]
            extends(m, s) <==> matches_term(m, s, pat, val),
        subst_term(s, pat) != val ==> forall|m: Binding| !#[trigger] matches_term(m, s, pat, val),
{
    assert forall|m: Binding| extends(m, s) implies subst_term(m, pat) == subst_term(s, pat) by {
        lemma_subst_extends(pat, s, m);
    }
}

/// Matches a pattern against a ground term, starting from the bindings
/// of `s`. On success the result is the least substitution that extends
/// `s` and turns the pattern into the term: the substitutions that do so
/// are those that extend the result. There is no result exactly when no
/// substitution does so.
pub fn match_term(pat: &Term, val: &Term, s: Subst) -> (r: Option<Subst>)
    requires
        term_ground(val@),
        ground_subst(s@),
    ensures
        match r {
            Some(s2) => {
                &&& ground_subst(s2@)
                &&& term_closed(pat@, s2@.dom())
                &&& forall|m: Binding| #[trigger]
                    extends(m, s2@) <==> matches_term(m, s@, pat@, val@)
            },
            None => forall|m: Binding| !#[trigger] matches_term(m, s@, pat@, val@),
        },
    decreases pat,
{
    match pat {
        Term::Var(n) => {
            let found = match s.lookup(n) {
                Some(t) => Some(t.equals(val)),
                None => None,
            };
            match found {
                Some(eq) => {
                    proof {
                        lemma_match_settled(s@, pat@, val@);
                    }
                    if eq {
                        Some(s)
                    } else {
                        None
                    }
                },
                None => {
                    let mut s2 = s;
                    s2.bind(n.clone(), val.duplicate());
                    proof {
                        lemma_match_bind(s@, n@, val@);
                        assert(term_ground(s2@[n@]));
                    }
                    Some(s2)
                },
            }
        },
        Term::Const(c) => {
            proof {
                lemma_match_settled(s@, pat@, val@);
            }
            match val {
                Term::Const(d) => if *c == *d {
                    Some(s)
                } else {
                    None
                },
                _ => None,
            }
        },
        Term::Func(f, args) => match val {
            Term::Func(g, vargs) => {
                proof {
                    lemma_func_view(*pat);
                    lemma_func_view(*val);
                }
                proof {
                    assert forall|m: Binding|
                        matches_term(m, s@, pat@, val@) <==> (f@ == g@ && #[trigger] matches_terms(
                            m,
                            s@,
                            terms_view(args@),
                            terms_view(vargs@),
                        )) by {
                        assert(subst_term(m, pat@) == TermV::Func(
                            f@,
                            subst_terms(m, terms_view(args@)),
                        ));
                    }
                }
                if *f == *g {
                    let r = match_terms(args, vargs, s);
                    proof {
                        match &r {
                            Some(s2) => {
                                assert forall|m: Binding| #[trigger]
                                    extends(m, s2@) <==> matches_term(m, s@, pat@, val@) by {
                                    assert(extends(m, s2@) <==> matches_terms(
                                        m,
                                        s@,
                                        terms_view(args@),
                                        terms_view(vargs@),
                                    ));
                                }
                            },
                            None => {
                                assert forall|m: Binding| !#[trigger] matches_term(
                                    m,
                                    s@,
                                    pat@,
                                    val@,
                                ) by {
                                    assert(!matches_terms(
                                        m,
                                        s@,
                                        terms_view(args@),
                                        terms_view(vargs@),
                                    ));
                                }
                            },
                        }
                    }
                    r
                } else {
                    assert forall|m: Binding| !#[trigger] matches_term(m, s@, pat@, val@) by {
                        assert(!(f@ == g@ && matches_terms(
                            m,
                            s@,
                            terms_view(args@),
                            terms_view(vargs@),
                        )));
                    }
                    None
                }
            },
            _ => {
                proof {
                    lemma_func_view(*pat);
                }
                None
            },
        },
    }
}

/// Matches patterns against ground terms, one after the other, each
/// under the bindings that the earlier ones made.
pub fn match_terms(pats: &Vec<Term>, vals: &Vec<Term>, s: Subst) -> (r: Option<Subst>)
    requires
        terms_ground(terms_view(vals@)),
        ground_subst(s@),
    ensures
        match r {
            Some(s2) => {
                &&& ground_subst(s2@)
                &&& terms_closed(terms_view(pats@), s2@.dom())
                &&& forall|m: Binding| #[trigger]
                    extends(m, s2@) <==> matches_terms(
                        m,
                        s@,
                        terms_view(pats@),
                        terms_view(vals@),
                    )
            },
            None => forall|m: Binding| !#[trigger] matches_terms(
                m,
                s@,
                terms_view(pats@),
                terms_view(vals@),
            ),
        },
    decreases pats,
{
    let ghost ps = terms_view(pats@);
    let ghost vs = terms_view(vals@);
    let ghost base = s@;
    if pats.len() != vals.len() {
        assert forall|m: Binding| !#[trigger] matches_terms(m, base, ps, vs) by {
            assert(subst_terms(m, ps).len() != vs.len());
        }
        return None;
    }
    let mut cur = s;
    let mut i: usize = 0;
    while i < pats.len()
        invariant
            i <= pats.len(),
            pats.len() == vals.len(),
            ps == terms_view(pats@),
            vs == terms_view(vals@),
            base == s@,
            terms_ground(vs),
            ground_subst(cur@),
            forall|k: int| #![trigger ps[k]] 0 <= k < i ==> term_closed(ps[k], cur@.dom()),
            forall|m: Binding| #[trigger] extends(m, cur@) <==> matches_prefix(m, base, ps, vs, i as int),
        decreases pats.len() - i,
    {
        let ghost before = cur@;
        assert(ps[i as int] == pats[i as int]@);
        assert(vs[i as int] == vals[i as int]@);
        assert(term_ground(vs[i as int]));
        match match_term(&pats[i], &vals[i], cur) {
            Some(next) => {
                proof {
                    assert(extends(next@, next@));
                    assert(matches_term(next@, before, ps[i as int], vs[i as int]));
                    assert forall|k: int| #![trigger ps[k]] 0 <= k < i + 1 implies term_closed(
                        ps[k],
                        next@.dom(),
                    ) by {
                        if k < i {
                            lemma_closed_mono(ps[k], before.dom(), next@.dom());
                        }
                    }
                    assert forall|m: Binding| #[trigger]
                        extends(m, next@) <==> matches_prefix(m, base, ps, vs, i + 1) by {
                        if extends(m, next@) {
                            assert(matches_term(m, before, ps[i as int], vs[i as int]));
                            assert(extends(m, before));
                            assert(matches_prefix(m, base, ps, vs, i as int));
                        }
                        if matches_prefix(m, base, ps, vs, i + 1) {
                            assert(matches_prefix(m, base, ps, vs, i as int));
                            assert(extends(m, before));
                            assert(subst_term(m, ps[i as int]) == vs[i as int]);
                            assert(matches_term(m, before, ps[i as int], vs[i as int]));
                        }
                    }
                }
                cur = next;
            },
            None => {
                proof {
                    assert forall|m: Binding| !#[trigger] matches_terms(m, base, ps, vs) by {
                        if matches_terms(m, base, ps, vs) {
                            assert forall|k: int| #![trigger ps[k]] 0 <= k < i + 1 implies subst_term(
                                m,
                                ps[k],
                            ) == vs[k] by {
                                assert(subst_terms(m, ps)[k] == subst_term(m, ps[k]));
                            }
                            assert(matches_prefix(m, base, ps, vs, i as int));
                            assert(extends(m, before));
                            assert(matches_term(m, before, ps[i as int], vs[i as int]));
                        }
                    }
                }
                return None;
            },
        }
        i += 1;
    }
    proof {
        assert forall|m: Binding| #[trigger]
            extends(m, cur@) <==> matches_terms(m, base, ps, vs) by {
            if extends(m, cur@) {
                assert(matches_prefix(m, base, ps, vs, i as int));
                assert forall|k: int| 0 <= k < ps.len() implies subst_terms(m, ps)[k] == vs[k] by {
                    assert(subst_term(m, ps[k]) == vs[k]);
                }
                assert(subst_terms(m, ps) =~= vs);
            }
            if matches_terms(m, base, ps, vs) {
                assert forall|k: int| #![trigger ps[k]] 0 <= k < i implies subst_term(m, ps[k])
                    == vs[k] by {
                    assert(subst_terms(m, ps)[k] == subst_term(m, ps[k]));
                }
                assert(matches_prefix(m, base, ps, vs, i as int));
            }
        }
    }
    Some(cur)
}

} // verus!
