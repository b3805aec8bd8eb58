//! Terms and sentences of the description language: the data, its
//! mathematical value, structural equality, copying and groundness.

use vstd::prelude::*;

verus! {

/// The mathematical value of a term.
pub enum TermV {
    Var(Seq<char>),
    Const(Seq<char>),
    Func(Seq<char>, Seq<TermV>),
}

/// A term: a variable, a constant, or a function symbol applied to terms.
#[derive(Debug, PartialEq, Eq)]
pub enum Term {
    Var(String),
    Const(String),
    Func(String, Vec<Term>),
}

impl View for Term {
    type V = TermV;

    open spec fn view(&self) -> TermV
        decreases self,
    {
        match self {
            Term::Var(n) => TermV::Var(n@),
            Term::Const(n) => TermV::Const(n@),
            Term::Func(n, args) => TermV::Func(
                n@,
                Seq::new(
                    args.len() as nat,
                    |i: int|
                        if 0 <= i < args.len() {
                            args[i].view()
                        } else {
                            TermV::Const(Seq::empty())
                        },
                ),
            ),
        }
    }
}

/// The values of a sequence of terms, in order.
pub open spec fn terms_view(ts: Seq<Term>) -> Seq<TermV> {
    Seq::new(ts.len(), |i: int| ts[i]@)
}

/// The value of a compound term is its symbol applied to the values of its arguments.
pub proof fn lemma_func_view(t: Term)
    requires
        t is Func,
    ensures
        t@ == TermV::Func(t->Func_0@, terms_view(t->Func_1@)),
{
    assert(t@->Func_1 =~= terms_view(t->Func_1@));
}

/// Whether variable `v` occurs in the term.
pub open spec fn term_has_var(t: TermV, v: Seq<char>) -> bool
    decreases t,
{
    match t {
        TermV::Var(n) => n == v,
        TermV::Const(_) => false,
        TermV::Func(_, args) => terms_have_var(args, v),
    }
}

/// Whether variable `v` occurs in one of the terms.
pub open spec fn terms_have_var(ts: Seq<TermV>, v: Seq<char>) -> bool
    decreases ts,
{
    exists|i: int| #![trigger ts[i]] 0 <= i < ts.len() && term_has_var(ts[i], v)
}

/// Whether every variable of the term lies in `bound`.
pub open spec fn term_closed(t: TermV, bound: Set<Seq<char>>) -> bool
    decreases t,
{
    match t {
        TermV::Var(n) => bound.contains(n),
        TermV::Const(_) => true,
        TermV::Func(_, args) => terms_closed(args, bound),
    }
}

/// Whether every variable of every term lies in `bound`.
pub open spec fn terms_closed(ts: Seq<TermV>, bound: Set<Seq<char>>) -> bool
    decreases ts,
{
    forall|i: int| #![trigger ts[i]] 0 <= i < ts.len() ==> term_closed(ts[i], bound)
}

/// A ground term holds no variable.
pub open spec fn term_ground(t: TermV) -> bool {
    term_closed(t, Set::empty())
}

/// Ground terms, all of them.
pub open spec fn terms_ground(ts: Seq<TermV>) -> bool {
    terms_closed(ts, Set::empty())
}

/// A term whose variables lie in `bound` has no variable outside it.
pub proof fn lemma_closed_has_var(t: TermV, bound: Set<Seq<char>>, v: Seq<char>)
    requires
        term_closed(t, bound),
        term_has_var(t, v),
    ensures
        bound.contains(v),
    decreases t,
{
    match t {
        TermV::Func(_, args) => {
            let i = choose|i: int| #![trigger args[i]] 0 <= i < args.len() && term_has_var(args[i], v);
            lemma_closed_has_var(args[i], bound, v);
        },
        _ => {},
    }
}

/// Closedness grows with the set of bound variables.
pub proof fn lemma_closed_mono(t: TermV, small: Set<Seq<char>>, large: Set<Seq<char>>)
    requires
        term_closed(t, small),
        small.subset_of(large),
    ensures
        term_closed(t, large),
    decreases t,
{
    match t {
        TermV::Func(_, args) => {
            assert forall|i: int| 0 <= i < args.len() implies term_closed(
                #[trigger] args[i],
                large,
            ) by {
                lemma_closed_mono(args[i], small, large);
            }
        },
        _ => {},
    }
}

/// Whether two sequences of terms have the same values.
pub fn terms_equal(xs: &Vec<Term>, ys: &Vec<Term>) -> (r: bool)
    ensures
        r == (terms_view(xs@) == terms_view(ys@)),
    decreases xs,
{
    if xs.len() != ys.len() {
        assert(terms_view(xs@).len() != terms_view(ys@).len());
        return false;
    }
    let mut i: usize = 0;
    while i < xs.len()
        invariant
            i <= xs.len(),
            xs.len() == ys.len(),
            forall|k: int| 0 <= k < i ==> xs[k]@ == ys[k]@,
        decreases xs.len() - i,
    {
        if !xs[i].equals(&ys[i]) {
            assert(terms_view(xs@)[i as int] != terms_view(ys@)[i as int]);
            return false;
        }
        i += 1;
    }
    assert(terms_view(xs@) =~= terms_view(ys@));
    true
}

/// A copy of a sequence of terms.
pub fn terms_duplicate(xs: &Vec<Term>) -> (r: Vec<Term>)
    ensures
        terms_view(r@) == terms_view(xs@),
    decreases xs,
{
    let mut out: Vec<Term> = Vec::new();
    let mut i: usize = 0;
    while i < xs.len()
        invariant
            i <= xs.len(),
            out.len() == i,
            forall|k: int| 0 <= k < i ==> out[k]@ == xs[k]@,
        decreases xs.len() - i,
    {
        out.push(xs[i].duplicate());
        i += 1;
    }
    assert(terms_view(out@) =~= terms_view(xs@));
    out
}

/// Whether every variable of the terms is among `bound`.
pub fn terms_closed_in(xs: &Vec<Term>, bound: &Vec<String>) -> (r: bool)
    ensures
        r == terms_closed(terms_view(xs@), names_set(bound@)),
    decreases xs,
{
    let mut i: usize = 0;
    while i < xs.len()
        invariant
            i <= xs.len(),
            forall|k: int| 0 <= k < i ==> term_closed(xs[k]@, names_set(bound@)),
        decreases xs.len() - i,
    {
        if !xs[i].closed_in(bound) {
            assert(!term_closed(terms_view(xs@)[i as int], names_set(bound@)));
            return false;
        }
        i += 1;
    }
    assert forall|k: int| 0 <= k < terms_view(xs@).len() implies term_closed(
        #[trigger] terms_view(xs@)[k],
        names_set(bound@),
    ) by {
        assert(terms_view(xs@)[k] == xs[k]@);
    }
    true
}

/// The set of the names in a list.
pub open spec fn names_set(names: Seq<String>) -> Set<Seq<char>> {
    Set::new(|n: Seq<char>| exists|i: int| 0 <= i < names.len() && #[trigger] names[i]@ == n)
}

/// Whether `name` is in the list.
pub fn names_contain(names: &Vec<String>, name: &String) -> (r: bool)
    ensures
        r == names_set(names@).contains(name@),
{
    let mut i: usize = 0;
    while i < names.len()
        invariant
            i <= names.len(),
            forall|k: int| 0 <= k < i ==> names[k]@ != name@,
        decreases names.len() - i,
    {
        if names[i] == *name {
            return true;
        }
        i += 1;
    }
    false
}

impl Term {
    /// Structural equality.
    pub fn equals(&self, other: &Term) -> (r: bool)
        ensures
            r == (self@ == other@),
        decreases self,
    {
        match self {
            Term::Var(a) => match other {
                Term::Var(b) => *a == *b,
                _ => false,
            },
            Term::Const(a) => match other {
                Term::Const(b) => *a == *b,
                _ => false,
            },
            Term::Func(f, xs) => match other {
                Term::Func(g, ys) => {
                    proof {
                        lemma_func_view(*self);
                        lemma_func_view(*other);
                    }
                    *f == *g && terms_equal(xs, ys)
                },
                _ => false,
            },
        }
    }

    /// A copy with the same value.
    pub fn duplicate(&self) -> (r: Term)
        ensures
            r@ == self@,
        decreases self,
    {
        match self {
            Term::Var(a) => Term::Var(a.clone()),
            Term::Const(a) => Term::Const(a.clone()),
            Term::Func(f, xs) => {
                let r = Term::Func(f.clone(), terms_duplicate(xs));
                proof {
                    lemma_func_view(*self);
                    lemma_func_view(r);
                }
                r
            },
        }
    }

    /// Whether every variable of the term is among `bound`.
    pub fn closed_in(&self, bound: &Vec<String>) -> (r: bool)
        ensures
            r == term_closed(self@, names_set(bound@)),
        decreases self,
    {
        match self {
            Term::Var(a) => names_contain(bound, a),
            Term::Const(_) => true,
            Term::Func(_, xs) => {
                proof {
                    lemma_func_view(*self);
                }
                terms_closed_in(xs, bound)
            },
        }
    }

    /// Whether the term holds no variable.
    pub fn is_ground(&self) -> (r: bool)
        ensures
            r == term_ground(self@),
    {
        let none: Vec<String> = Vec::new();
        assert(names_set(none@) =~= Set::empty());
        self.closed_in(&none)
    }
}

} // verus!
