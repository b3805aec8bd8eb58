//! Sentences, literals and rules: the data, its mathematical value,
//! structural equality, copying and the variables that occur in it.

use crate::term::{
    lemma_closed_mono, names_set, term_closed, terms_closed, terms_closed_in, terms_duplicate,
    terms_equal, terms_view, Term, TermV,
};
use vstd::prelude::*;

verus! {

/// The mathematical value of a sentence.
pub enum SentenceV {
    Prop(Seq<char>),
    Rel(Seq<char>, Seq<TermV>),
}

/// A sentence: a proposition, or a relation applied to terms. It is what
/// a fact states and what the head of a rule derives.
#[derive(Debug, PartialEq, Eq)]
pub enum Sentence {
    Prop(String),
    Rel(String, Vec<Term>),
}

impl View for Sentence {
    type V = SentenceV;

    open spec fn view(&self) -> SentenceV {
        match self {
            Sentence::Prop(n) => SentenceV::Prop(n@),
            Sentence::Rel(n, args) => SentenceV::Rel(n@, terms_view(args@)),
        }
    }
}

/// The relation or proposition symbol of a sentence.
pub open spec fn sentence_name(s: SentenceV) -> Seq<char> {
    match s {
        SentenceV::Prop(n) => n,
        SentenceV::Rel(n, _) => n,
    }
}

/// The arguments of a sentence; a proposition has none.
pub open spec fn sentence_args(s: SentenceV) -> Seq<TermV> {
    match s {
        SentenceV::Prop(_) => Seq::empty(),
        SentenceV::Rel(_, args) => args,
    }
}

/// Whether every variable of the sentence lies in `bound`.
pub open spec fn sentence_closed(s: SentenceV, bound: Set<Seq<char>>) -> bool {
    terms_closed(sentence_args(s), bound)
}

/// A ground sentence holds no variable.
pub open spec fn sentence_ground(s: SentenceV) -> bool {
    sentence_closed(s, Set::empty())
}

impl Sentence {
    /// The relation or proposition symbol.
    pub fn name(&self) -> (r: &String)
        ensures
            r@ == sentence_name(self@),
    {
        match self {
            Sentence::Prop(n) => n,
            Sentence::Rel(n, _) => n,
        }
    }

    /// Structural equality.
    pub fn equals(&self, other: &Sentence) -> (r: bool)
        ensures
            r == (self@ == other@),
    {
        match self {
            Sentence::Prop(a) => match other {
                Sentence::Prop(b) => *a == *b,
                _ => false,
            },
            Sentence::Rel(a, xs) => match other {
                Sentence::Rel(b, ys) => *a == *b && terms_equal(xs, ys),
                _ => false,
            },
        }
    }

    /// A copy with the same value.
    pub fn duplicate(&self) -> (r: Sentence)
        ensures
            r@ == self@,
    {
        match self {
            Sentence::Prop(a) => Sentence::Prop(a.clone()),
            Sentence::Rel(a, xs) => Sentence::Rel(a.clone(), terms_duplicate(xs)),
        }
    }

    /// Whether every variable of the sentence is among `bound`.
    pub fn closed_in(&self, bound: &Vec<String>) -> (r: bool)
        ensures
            r == sentence_closed(self@, names_set(bound@)),
    {
        match self {
            Sentence::Prop(_) => true,
            Sentence::Rel(_, xs) => terms_closed_in(xs, bound),
        }
    }

    /// Whether the sentence holds no variable.
    pub fn is_ground(&self) -> (r: bool)
        ensures
            r == sentence_ground(self@),
    {
        let none: Vec<String> = Vec::new();
        assert(names_set(none@) =~= Set::empty());
        self.closed_in(&none)
    }
}

/// The mathematical value of a literal.
pub enum LiteralV {
    Prop(Seq<char>),
    Rel(Seq<char>, Seq<TermV>),
    Not(Box<LiteralV>),
    Or(Seq<LiteralV>),
    Distinct(TermV, TermV),
}

/// A literal of a rule body: a proposition, a relation, the negation of a
/// literal, a disjunction of literals, or the constraint that two terms
/// differ.
#[derive(Debug, PartialEq, Eq)]
pub enum Literal {
    Prop(String),
    Rel(String, Vec<Term>),
    Not(Box<Literal>),
    Or(Vec<Literal>),
    Distinct(Term, Term),
}

impl View for Literal {
    type V = LiteralV;

    open spec fn view(&self) -> LiteralV
        decreases self,
    {
        match self {
            Literal::Prop(n) => LiteralV::Prop(n@),
            Literal::Rel(n, args) => LiteralV::Rel(n@, terms_view(args@)),
            Literal::Not(inner) => LiteralV::Not(Box::new((**inner).view())),
            Literal::Or(ls) => LiteralV::Or(
                Seq::new(
                    ls.len() as nat,
                    |i: int|
                        if 0 <= i < ls.len() {
                            ls[i].view()
                        } else {
                            LiteralV::Or(Seq::empty())
                        },
                ),
            ),
            Literal::Distinct(a, b) => LiteralV::Distinct(a@, b@),
        }
    }
}

/// The values of a sequence of literals, in order.
pub open spec fn literals_view(ls: Seq<Literal>) -> Seq<LiteralV> {
    Seq::new(ls.len(), |i: int| ls[i]@)
}

/// The value of a disjunction is the disjunction of the values of its branches.
pub proof fn lemma_or_view(l: Literal)
    requires
        l is Or,
    ensures
        l@ == LiteralV::Or(literals_view(l->Or_0@)),
{
    assert(l@->Or_0 =~= literals_view(l->Or_0@));
}

/// Whether every variable of the literal lies in `bound`.
pub open spec fn literal_closed(l: LiteralV, bound: Set<Seq<char>>) -> bool
    decreases l,
{
    match l {
        LiteralV::Prop(_) => true,
        LiteralV::Rel(_, args) => terms_closed(args, bound),
        LiteralV::Not(inner) => literal_closed(*inner, bound),
        LiteralV::Or(ls) => literals_closed(ls, bound),
        LiteralV::Distinct(a, b) => term_closed(a, bound) && term_closed(b, bound),
    }
}

/// Whether every variable of every literal lies in `bound`.
pub open spec fn literals_closed(ls: Seq<LiteralV>, bound: Set<Seq<char>>) -> bool
    decreases ls,
{
    forall|i: int| #![trigger ls[i]] 0 <= i < ls.len() ==> literal_closed(ls[i], bound)
}

/// Closedness of a literal grows with the set of bound variables.
pub proof fn lemma_literal_closed_mono(
    l: LiteralV,
    small: Set<Seq<char>>,
    large: Set<Seq<char>>,
)
    requires
        literal_closed(l, small),
        small.subset_of(large),
    ensures
        literal_closed(l, large),
    decreases l,
{
    match l {
        LiteralV::Prop(_) => {},
        LiteralV::Rel(_, args) => {
            assert forall|i: int| 0 <= i < args.len() implies term_closed(
                #[trigger] args[i],
                large,
            ) by {
                lemma_closed_mono(args[i], small, large);
            }
        },
        LiteralV::Not(inner) => {
            lemma_literal_closed_mono(*inner, small, large);
        },
        LiteralV::Or(ls) => {
            assert(literals_closed(ls, small));
            assert forall|i: int| 0 <= i < ls.len() implies literal_closed(
                #[trigger] ls[i],
                large,
            ) by {
                lemma_literal_closed_mono(ls[i], small, large);
            }
            assert(literals_closed(ls, large));
        },
        LiteralV::Distinct(a, b) => {
            lemma_closed_mono(a, small, large);
            lemma_closed_mono(b, small, large);
        },
    }
}

/// A copy of a sequence of literals.
pub fn literals_duplicate(ls: &Vec<Literal>) -> (r: Vec<Literal>)
    ensures
        literals_view(r@) == literals_view(ls@),
    decreases ls,
{
    let mut out: Vec<Literal> = Vec::new();
    let mut i: usize = 0;
    while i < ls.len()
        invariant
            i <= ls.len(),
            out.len() == i,
            forall|k: int| 0 <= k < i ==> out[k]@ == ls[k]@,
        decreases ls.len() - i,
    {
        out.push(ls[i].duplicate());
        i += 1;
    }
    assert(literals_view(out@) =~= literals_view(ls@));
    out
}

/// Whether every variable of the literals is among `bound`.
pub fn literals_closed_in(ls: &Vec<Literal>, bound: &Vec<String>) -> (r: bool)
    ensures
        r == literals_closed(literals_view(ls@), names_set(bound@)),
    decreases ls,
{
    let mut i: usize = 0;
    while i < ls.len()
        invariant
            i <= ls.len(),
            forall|k: int| 0 <= k < i ==> literal_closed(ls[k]@, names_set(bound@)),
        decreases ls.len() - i,
    {
        if !ls[i].closed_in(bound) {
            assert(!literal_closed(literals_view(ls@)[i as int], names_set(bound@)));
            return false;
        }
        i += 1;
    }
    assert forall|k: int| 0 <= k < literals_view(ls@).len() implies literal_closed(
        #[trigger] literals_view(ls@)[k],
        names_set(bound@),
    ) by {
        assert(literals_view(ls@)[k] == ls[k]@);
    }
    true
}

impl Literal {
    /// A copy with the same value.
    pub fn duplicate(&self) -> (r: Literal)
        ensures
            r@ == self@,
        decreases self,
    {
        match self {
            Literal::Prop(n) => Literal::Prop(n.clone()),
            Literal::Rel(n, args) => Literal::Rel(n.clone(), terms_duplicate(args)),
            Literal::Not(inner) => Literal::Not(Box::new(inner.duplicate())),
            Literal::Or(ls) => {
                let r = Literal::Or(literals_duplicate(ls));
                proof {
                    lemma_or_view(*self);
                    lemma_or_view(r);
                }
                r
            },
            Literal::Distinct(a, b) => Literal::Distinct(a.duplicate(), b.duplicate()),
        }
    }

    /// Whether every variable of the literal is among `bound`.
    pub fn closed_in(&self, bound: &Vec<String>) -> (r: bool)
        ensures
            r == literal_closed(self@, names_set(bound@)),
        decreases self,
    {
        match self {
            Literal::Prop(_) => true,
            Literal::Rel(_, args) => terms_closed_in(args, bound),
            Literal::Not(inner) => inner.closed_in(bound),
            Literal::Or(ls) => {
                proof {
                    lemma_or_view(*self);
                }
                literals_closed_in(ls, bound)
            },
            Literal::Distinct(a, b) => a.closed_in(bound) && b.closed_in(bound),
        }
    }
}

/// The mathematical value of a rule.
pub struct RuleV {
    pub head: SentenceV,
    pub body: Seq<LiteralV>,
}

/// A rule: the head holds wherever every literal of the body holds. A fact
/// is a rule with an empty body.
#[derive(Debug, PartialEq, Eq)]
pub struct Rule {
    pub head: Sentence,
    pub body: Vec<Literal>,
}

impl View for Rule {
    type V = RuleV;

    open spec fn view(&self) -> RuleV {
        RuleV { head: self.head@, body: literals_view(self.body@) }
    }
}

/// The values of a sequence of rules, in order.
pub open spec fn rules_view(rs: Seq<Rule>) -> Seq<RuleV> {
    Seq::new(rs.len(), |i: int| rs[i]@)
}

impl Rule {
    /// The rule with the given head and body.
    pub fn new(head: Sentence, body: Vec<Literal>) -> (r: Rule)
        ensures
            r.head == head,
            r.body == body,
    {
        Rule { head, body }
    }

    /// A copy with the same value.
    pub fn duplicate(&self) -> (r: Rule)
        ensures
            r@ == self@,
    {
        Rule { head: self.head.duplicate(), body: literals_duplicate(&self.body) }
    }
}

} // verus!
