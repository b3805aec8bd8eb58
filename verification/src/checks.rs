//! What is asked of the clauses of a game description besides safety and
//! stratification: the keywords take their number of arguments, roles
//! and initial facts are declared by ground facts, and every relation
//! that a body reads is defined.

use crate::sentence::{
    lemma_or_view, literals_view, rules_view, sentence_args, sentence_name, Literal, LiteralV,
    Rule, RuleV, Sentence, SentenceV,
};
use crate::term::{term_ground, Term};
use vstd::prelude::*;
use vstd::string::StringExecFns;

verus! {

/// The words of the description language that the engine knows.
pub struct Keywords {
    pub role: String,
    pub base: String,
    pub input: String,
    pub init: String,
    pub legal: String,
    pub next: String,
    pub terminal: String,
    pub goal: String,
    pub truth: String,
    pub does: String,
}

impl Keywords {
    /// Each field holds its word.
    pub open spec fn wf(&self) -> bool {
        &&& self.role@ == "role"@
        &&& self.base@ == "base"@
        &&& self.input@ == "input"@
        &&& self.init@ == "init"@
        &&& self.legal@ == "legal"@
        &&& self.next@ == "next"@
        &&& self.terminal@ == "terminal"@
        &&& self.goal@ == "goal"@
        &&& self.truth@ == "true"@
        &&& self.does@ == "does"@
    }

    /// The words.
    pub fn new() -> (r: Keywords)
        ensures
            r.wf(),
    {
        Keywords {
            role: String::from_str("role"),
            base: String::from_str("base"),
            input: String::from_str("input"),
            init: String::from_str("init"),
            legal: String::from_str("legal"),
            next: String::from_str("next"),
            terminal: String::from_str("terminal"),
            goal: String::from_str("goal"),
            truth: String::from_str("true"),
            does: String::from_str("does"),
        }
    }
}

/// Whether a proposition or relation of the given name may have the
/// given number of arguments: `terminal` is a proposition; `role`,
/// `base`, `init`, `next` and `true` take one argument; `input`,
/// `legal`, `goal` and `does` take two; any other name is free.
pub open spec fn atom_arity_ok(name: Seq<char>, is_prop: bool, nargs: nat) -> bool {
    if name == "terminal"@ {
        is_prop
    } else if name == "role"@ || name == "base"@ || name == "init"@ || name == "next"@ || name
        == "true"@ {
        !is_prop && nargs == 1
    } else if name == "input"@ || name == "legal"@ || name == "goal"@ || name == "does"@ {
        !is_prop && nargs == 2
    } else {
        true
    }
}

/// Whether the sentence gives its keyword, if it has one, the right
/// number of arguments.
pub open spec fn sentence_arity_ok(s: SentenceV) -> bool {
    atom_arity_ok(sentence_name(s), s is Prop, sentence_args(s).len())
}

/// Whether every proposition and relation of the literal does.
pub open spec fn literal_arity_ok(l: LiteralV) -> bool
    decreases l,
{
    match l {
        LiteralV::Prop(n) => atom_arity_ok(n, true, 0),
        LiteralV::Rel(n, args) => atom_arity_ok(n, false, args.len()),
        LiteralV::Not(inner) => literal_arity_ok(*inner),
        LiteralV::Or(ls) => literals_arity_ok(ls),
        LiteralV::Distinct(_, _) => true,
    }
}

/// Whether every proposition and relation of the literals does.
pub open spec fn literals_arity_ok(ls: Seq<LiteralV>) -> bool
    decreases ls,
{
    forall|i: int| #![trigger ls[i]] 0 <= i < ls.len() ==> literal_arity_ok(ls[i])
}

/// Whether head and body of the rule do.
pub open spec fn rule_arity_ok(r: RuleV) -> bool {
    sentence_arity_ok(r.head) && literals_arity_ok(r.body)
}

/// Whether some clause other than an initial fact defines the relation,
/// or the relation is `true` or `does`, which the state and the joint
/// move define.
pub open spec fn relation_declared(name: Seq<char>, clauses: Seq<RuleV>) -> bool {
    name == "true"@ || name == "does"@ || (name != "init"@ && exists|j: int|
        0 <= j < clauses.len() && sentence_name((#[trigger] clauses[j]).head) == name)
}

/// Whether every relation that the literal reads is declared.
pub open spec fn literal_declared(l: LiteralV, clauses: Seq<RuleV>) -> bool
    decreases l,
{
    match l {
        LiteralV::Prop(n) => relation_declared(n, clauses),
        LiteralV::Rel(n, _) => relation_declared(n, clauses),
        LiteralV::Not(inner) => literal_declared(*inner, clauses),
        LiteralV::Or(ls) => literals_declared(ls, clauses),
        LiteralV::Distinct(_, _) => true,
    }
}

/// Whether every relation that the literals read is declared.
pub open spec fn literals_declared(ls: Seq<LiteralV>, clauses: Seq<RuleV>) -> bool
    decreases ls,
{
    forall|i: int| #![trigger ls[i]] 0 <= i < ls.len() ==> literal_declared(ls[i], clauses)
}

/// Whether the clause, where it declares a role or an initial fact, is a
/// fact of the right shape: a role is a constant, an initial fact is
/// ground, and neither has a body.
pub open spec fn declaration_ok(r: RuleV) -> bool {
    &&& sentence_name(r.head) == "role"@ ==> {
        &&& r.body.len() == 0
        &&& sentence_args(r.head).len() == 1
        &&& sentence_args(r.head)[0] is Const
    }
    &&& sentence_name(r.head) == "init"@ ==> {
        &&& r.body.len() == 0
        &&& sentence_args(r.head).len() == 1
        &&& term_ground(sentence_args(r.head)[0])
    }
}

/// Whether a proposition or relation of the given name may have the
/// given number of arguments.
pub fn atom_arity_is_ok(kw: &Keywords, name: &String, is_prop: bool, nargs: usize) -> (r: bool)
    requires
        kw.wf(),
    ensures
        r == atom_arity_ok(name@, is_prop, nargs as nat),
{
    if *name == kw.terminal {
        is_prop
    } else if *name == kw.role || *name == kw.base || *name == kw.init || *name == kw.next
        || *name == kw.truth {
        !is_prop && nargs == 1
    } else if *name == kw.input || *name == kw.legal || *name == kw.goal || *name == kw.does {
        !is_prop && nargs == 2
    } else {
        true
    }
}

/// Whether the sentence gives its keyword the right number of arguments.
pub fn sentence_arity_is_ok(kw: &Keywords, s: &Sentence) -> (r: bool)
    requires
        kw.wf(),
    ensures
        r == sentence_arity_ok(s@),
{
    match s {
        Sentence::Prop(n) => atom_arity_is_ok(kw, n, true, 0),
        Sentence::Rel(n, args) => atom_arity_is_ok(kw, n, false, args.len()),
    }
}

/// Whether every proposition and relation of the literal does.
pub fn literal_arity_is_ok(kw: &Keywords, l: &Literal) -> (r: bool)
    requires
        kw.wf(),
    ensures
        r == literal_arity_ok(l@),
    decreases l,
{
    match l {
        Literal::Prop(n) => atom_arity_is_ok(kw, n, true, 0),
        Literal::Rel(n, args) => atom_arity_is_ok(kw, n, false, args.len()),
        Literal::Not(inner) => literal_arity_is_ok(kw, inner),
        Literal::Or(ls) => {
            proof {
                lemma_or_view(*l);
            }
            literals_arity_are_ok(kw, ls)
        },
        Literal::Distinct(_, _) => true,
    }
}

/// Whether every proposition and relation of the literals does.
pub fn literals_arity_are_ok(kw: &Keywords, ls: &Vec<Literal>) -> (r: bool)
    requires
        kw.wf(),
    ensures
        r == literals_arity_ok(literals_view(ls@)),
    decreases ls,
{
    let ghost lv = literals_view(ls@);
    let mut i: usize = 0;
    while i < ls.len()
        invariant
            i <= ls.len(),
            kw.wf(),
            lv == literals_view(ls@),
            forall|k: int| #![trigger lv[k]] 0 <= k < i ==> literal_arity_ok(lv[k]),
        decreases ls.len() - i,
    {
        assert(lv[i as int] == ls[i as int]@);
        if !literal_arity_is_ok(kw, &ls[i]) {
            assert(!literal_arity_ok(lv[i as int]));
            return false;
        }
        i += 1;
    }
    true
}

/// Whether the relation is declared.
pub fn relation_is_declared(kw: &Keywords, name: &String, clauses: &Vec<Rule>) -> (r: bool)
    requires
        kw.wf(),
    ensures
        r == relation_declared(name@, rules_view(clauses@)),
{
    let ghost cv = rules_view(clauses@);
    if *name == kw.truth || *name == kw.does {
        return true;
    }
    if *name == kw.init {
        return false;
    }
    let mut j: usize = 0;
    while j < clauses.len()
        invariant
            j <= clauses.len(),
            cv == rules_view(clauses@),
            name@ != "init"@,
            name@ != "true"@,
            name@ != "does"@,
            forall|k: int| 0 <= k < j ==> sentence_name((#[trigger] cv[k]).head) != name@,
        decreases clauses.len() - j,
    {
        assert(cv[j as int] == clauses[j as int]@);
        if *clauses[j].head.name() == *name {
            assert(sentence_name(cv[j as int].head) == name@);
            return true;
        }
        j += 1;
    }
    false
}

/// Whether every relation that the literal reads is declared.
pub fn literal_is_declared(kw: &Keywords, l: &Literal, clauses: &Vec<Rule>) -> (r: bool)
    requires
        kw.wf(),
    ensures
        r == literal_declared(l@, rules_view(clauses@)),
    decreases l,
{
    match l {
        Literal::Prop(n) => relation_is_declared(kw, n, clauses),
        Literal::Rel(n, _) => relation_is_declared(kw, n, clauses),
        Literal::Not(inner) => literal_is_declared(kw, inner, clauses),
        Literal::Or(ls) => {
            proof {
                lemma_or_view(*l);
            }
            literals_are_declared(kw, ls, clauses)
        },
        Literal::Distinct(_, _) => true,
    }
}

/// Whether every relation that the literals read is declared.
pub fn literals_are_declared(kw: &Keywords, ls: &Vec<Literal>, clauses: &Vec<Rule>) -> (r: bool)
    requires
        kw.wf(),
    ensures
        r == literals_declared(literals_view(ls@), rules_view(clauses@)),
    decreases ls,
{
    let ghost lv = literals_view(ls@);
    let ghost cv = rules_view(clauses@);
    let mut i: usize = 0;
    while i < ls.len()
        invariant
            i <= ls.len(),
            kw.wf(),
            lv == literals_view(ls@),
            cv == rules_view(clauses@),
            forall|k: int| #![trigger lv[k]] 0 <= k < i ==> literal_declared(lv[k], cv),
        decreases ls.len() - i,
    {
        assert(lv[i as int] == ls[i as int]@);
        if !literal_is_declared(kw, &ls[i], clauses) {
            assert(!literal_declared(lv[i as int], cv));
            return false;
        }
        i += 1;
    }
    true
}

/// Whether the clause, where it declares a role or an initial fact, is a
/// fact of the right shape.
pub fn declaration_is_ok(kw: &Keywords, rule: &Rule) -> (r: bool)
    requires
        kw.wf(),
    ensures
        r == declaration_ok(rule@),
{
    let name = rule.head.name();
    let is_role = *name == kw.role;
    let is_init = *name == kw.init;
    if !is_role && !is_init {
        return true;
    }
    if rule.body.len() != 0 {
        return false;
    }
    match &rule.head {
        Sentence::Prop(_) => false,
        Sentence::Rel(_, args) => {
            if args.len() != 1 {
                return false;
            }
            let first_is_const = match &args[0] {
                Term::Const(_) => true,
                _ => false,
            };
            assert(sentence_args(rule@.head)[0] == args[0]@);
            if is_role && !first_is_const {
                return false;
            }
            if is_init && !args[0].is_ground() {
                return false;
            }
            true
        },
    }
}

/// Whether the literal applies `name` as a proposition, where `is_prop`
/// is set, or as a relation to `nargs` arguments, where it is not.
pub open spec fn literal_has_sig(l: LiteralV, name: Seq<char>, is_prop: bool, nargs: nat) -> bool
    decreases l,
{
    match l {
        LiteralV::Prop(n) => n == name && is_prop && nargs == 0,
        LiteralV::Rel(n, args) => n == name && !is_prop && nargs == args.len(),
        LiteralV::Not(inner) => literal_has_sig(*inner, name, is_prop, nargs),
        LiteralV::Or(ls) => literals_have_sig(ls, name, is_prop, nargs),
        LiteralV::Distinct(_, _) => false,
    }
}

/// Whether one of the literals applies `name` so.
pub open spec fn literals_have_sig(
    ls: Seq<LiteralV>,
    name: Seq<char>,
    is_prop: bool,
    nargs: nat,
) -> bool
    decreases ls,
{
    exists|i: int| #![trigger ls[i]] 0 <= i < ls.len() && literal_has_sig(ls[i], name, is_prop, nargs)
}

/// Whether the sentence applies `name` so.
pub open spec fn sentence_has_sig(s: SentenceV, name: Seq<char>, is_prop: bool, nargs: nat) -> bool {
    sentence_name(s) == name && (s is Prop) == is_prop && sentence_args(s).len() == nargs
}

/// Whether head or body of the rule applies `name` so.
pub open spec fn rule_has_sig(r: RuleV, name: Seq<char>, is_prop: bool, nargs: nat) -> bool {
    sentence_has_sig(r.head, name, is_prop, nargs) || literals_have_sig(
        r.body,
        name,
        is_prop,
        nargs,
    )
}

/// Whether one of the clauses applies `name` so.
pub open spec fn clauses_have_sig(
    clauses: Seq<RuleV>,
    name: Seq<char>,
    is_prop: bool,
    nargs: nat,
) -> bool {
    exists|i: int|
        0 <= i < clauses.len() && rule_has_sig(#[trigger] clauses[i], name, is_prop, nargs)
}

/// Every name is applied in one way throughout the clauses: always as
/// a proposition, or always as a relation to the same number of arguments.
pub open spec fn arities_consistent(clauses: Seq<RuleV>) -> bool {
    forall|name: Seq<char>, pa: bool, na: nat, pb: bool, nb: nat|
        #[trigger] clauses_have_sig(clauses, name, pa, na) && #[trigger] clauses_have_sig(
            clauses,
            name,
            pb,
            nb,
        ) ==> pa == pb && na == nb
}

/// A name with the way it is applied.
pub struct Sig {
    pub name: String,
    pub is_prop: bool,
    pub nargs: usize,
}

/// Whether the list holds `name` applied so.
pub open spec fn sig_listed(sigs: Seq<Sig>, name: Seq<char>, is_prop: bool, nargs: nat) -> bool {
    exists|k: int|
        0 <= k < sigs.len() && (#[trigger] sigs[k]).name@ == name && sigs[k].is_prop == is_prop
            && sigs[k].nargs == nargs
}

/// One more entry in the list is one more way listed.
pub proof fn lemma_sig_listed_push(sigs: Seq<Sig>, x: Sig)
    ensures
        forall|name: Seq<char>, p: bool, n: nat|
            #[trigger] sig_listed(sigs.push(x), name, p, n) <==> (sig_listed(sigs, name, p, n) || (
            x.name@ == name && x.is_prop == p && x.nargs == n)),
{
    let more = sigs.push(x);
    assert forall|name: Seq<char>, p: bool, n: nat|
        #[trigger] sig_listed(more, name, p, n) <==> (sig_listed(sigs, name, p, n) || (x.name@
            == name && x.is_prop == p && x.nargs == n)) by {
        if sig_listed(more, name, p, n) {
            let k = choose|k: int|
                0 <= k < more.len() && (#[trigger] more[k]).name@ == name && more[k].is_prop == p
                    && more[k].nargs == n;
            if k < sigs.len() {
                assert(sigs[k].name@ == name);
            }
        }
        if sig_listed(sigs, name, p, n) {
            let k = choose|k: int|
                0 <= k < sigs.len() && (#[trigger] sigs[k]).name@ == name && sigs[k].is_prop == p
                    && sigs[k].nargs == n;
            assert(more[k].name@ == name);
        }
        if x.name@ == name && x.is_prop == p && x.nargs == n {
            assert(more[sigs.len() as int].name@ == name);
        }
    }
}

/// Adds to `acc` the ways in which the literal applies names.
pub fn collect_sigs(l: &Literal, acc: &mut Vec<Sig>)
    ensures
        forall|name: Seq<char>, p: bool, n: nat|
            #[trigger] sig_listed(final(acc)@, name, p, n) <==> (sig_listed(old(acc)@, name, p, n)
                || literal_has_sig(l@, name, p, n)),
    decreases l,
{
    match l {
        Literal::Prop(n) => {
            let sig = Sig { name: n.clone(), is_prop: true, nargs: 0 };
            proof {
                lemma_sig_listed_push(acc@, sig);
            }
            acc.push(sig);
        },
        Literal::Rel(n, args) => {
            let sig = Sig { name: n.clone(), is_prop: false, nargs: args.len() };
            proof {
                lemma_sig_listed_push(acc@, sig);
            }
            acc.push(sig);
        },
        Literal::Not(inner) => {
            collect_sigs(inner, acc);
        },
        Literal::Or(ls) => {
            proof {
                lemma_or_view(*l);
            }
            collect_sigs_all(ls, acc);
        },
        Literal::Distinct(_, _) => {},
    }
}

/// Adds to `acc` the ways in which the literals apply names.
pub fn collect_sigs_all(ls: &Vec<Literal>, acc: &mut Vec<Sig>)
    ensures
        forall|name: Seq<char>, p: bool, n: nat|
            #[trigger] sig_listed(final(acc)@, name, p, n) <==> (sig_listed(old(acc)@, name, p, n)
                || literals_have_sig(literals_view(ls@), name, p, n)),
    decreases ls,
{
    let ghost start = acc@;
    let ghost lv = literals_view(ls@);
    let mut i: usize = 0;
    while i < ls.len()
        invariant
            i <= ls.len(),
            lv == literals_view(ls@),
            forall|name: Seq<char>, p: bool, n: nat|
                #[trigger] sig_listed(acc@, name, p, n) <==> (sig_listed(start, name, p, n)
                    || literals_have_sig(lv.take(i as int), name, p, n)),
        decreases ls.len() - i,
    {
        let ghost before = acc@;
        assert(lv[i as int] == ls[i as int]@);
        collect_sigs(&ls[i], acc);
        proof {
            let part = lv.take(i as int);
            let next = lv.take(i as int + 1);
            assert forall|name: Seq<char>, p: bool, n: nat|
                #[trigger] sig_listed(acc@, name, p, n) <==> (sig_listed(start, name, p, n)
                    || literals_have_sig(next, name, p, n)) by {
                assert(sig_listed(acc@, name, p, n) <==> (sig_listed(before, name, p, n)
                    || literal_has_sig(lv[i as int], name, p, n)));
                if literals_have_sig(next, name, p, n) {
                    let k = choose|k: int|
                        #![trigger next[k]]
                        0 <= k < next.len() && literal_has_sig(next[k], name, p, n);
                    if k < i {
                        assert(part[k] == next[k]);
                        assert(literals_have_sig(part, name, p, n));
                    } else {
                        assert(next[k] == lv[i as int]);
                    }
                }
                if literals_have_sig(part, name, p, n) {
                    let k = choose|k: int|
                        #![trigger part[k]]
                        0 <= k < part.len() && literal_has_sig(part[k], name, p, n);
                    assert(next[k] == part[k]);
                    assert(literals_have_sig(next, name, p, n));
                }
                if literal_has_sig(lv[i as int], name, p, n) {
                    assert(next[i as int] == lv[i as int]);
                    assert(literals_have_sig(next, name, p, n));
                }
            }
        }
        i += 1;
    }
    assert(lv.take(ls.len() as int) =~= lv);
}

/// The ways in which the clauses apply names.
pub fn clause_sigs(clauses: &Vec<Rule>) -> (r: Vec<Sig>)
    ensures
        forall|name: Seq<char>, p: bool, n: nat|
            #[trigger] sig_listed(r@, name, p, n) <==> clauses_have_sig(
                rules_view(clauses@),
                name,
                p,
                n,
            ),
{
    let ghost cv = rules_view(clauses@);
    let mut acc: Vec<Sig> = Vec::new();
    let mut i: usize = 0;
    while i < clauses.len()
        invariant
            i <= clauses.len(),
            cv == rules_view(clauses@),
            forall|name: Seq<char>, p: bool, n: nat|
                #[trigger] sig_listed(acc@, name, p, n) <==> clauses_have_sig(
                    cv.take(i as int),
                    name,
                    p,
                    n,
                ),
        decreases clauses.len() - i,
    {
        let ghost before = acc@;
        let ghost clause = clauses[i as int]@;
        assert(cv[i as int] == clause);
        let head = &clauses[i].head;
        let sig = match head {
            Sentence::Prop(n) => Sig { name: n.clone(), is_prop: true, nargs: 0 },
            Sentence::Rel(n, args) => Sig { name: n.clone(), is_prop: false, nargs: args.len() },
        };
        proof {
            lemma_sig_listed_push(before, sig);
        }
        acc.push(sig);
        let ghost middle = acc@;
        collect_sigs_all(&clauses[i].body, &mut acc);
        proof {
            let part = cv.take(i as int);
            let next = cv.take(i as int + 1);
            assert forall|name: Seq<char>, p: bool, n: nat|
                #[trigger] sig_listed(acc@, name, p, n) <==> clauses_have_sig(
                    next,
                    name,
                    p,
                    n,
                ) by {
                assert(sig_listed(acc@, name, p, n) <==> (sig_listed(middle, name, p, n)
                    || literals_have_sig(clause.body, name, p, n)));
                assert(sig_listed(middle, name, p, n) <==> (sig_listed(before, name, p, n)
                    || sentence_has_sig(clause.head, name, p, n)));
                if clauses_have_sig(next, name, p, n) {
                    let k = choose|k: int|
                        0 <= k < next.len() && rule_has_sig(#[trigger] next[k], name, p, n);
                    if k < i {
                        assert(part[k] == next[k]);
                        assert(clauses_have_sig(part, name, p, n));
                    } else {
                        assert(next[k] == clause);
                    }
                }
                if clauses_have_sig(part, name, p, n) {
                    let k = choose|k: int|
                        0 <= k < part.len() && rule_has_sig(#[trigger] part[k], name, p, n);
                    assert(next[k] == part[k]);
                    assert(rule_has_sig(next[k], name, p, n));
                }
                if rule_has_sig(clause, name, p, n) {
                    assert(next[i as int] == clause);
                    assert(rule_has_sig(next[i as int], name, p, n));
                }
            }
        }
        i += 1;
    }
    assert(cv.take(clauses.len() as int) =~= cv);
    acc
}

/// Whether every name is applied in one way throughout the clauses.
pub fn arities_are_consistent(clauses: &Vec<Rule>) -> (r: bool)
    ensures
        r == arities_consistent(rules_view(clauses@)),
{
    let ghost cv = rules_view(clauses@);
    let sigs = clause_sigs(clauses);
    let mut i: usize = 0;
    while i < sigs.len()
        invariant
            i <= sigs.len(),
            cv == rules_view(clauses@),
            forall|name: Seq<char>, p: bool, n: nat|
                #[trigger] sig_listed(sigs@, name, p, n) <==> clauses_have_sig(cv, name, p, n),
            forall|a: int, b: int|
                0 <= a < i && 0 <= b < sigs.len() && (#[trigger] sigs[a]).name@ == (
                #[trigger] sigs[b]).name@ ==> sigs[a].is_prop == sigs[b].is_prop && sigs[a].nargs
                    == sigs[b].nargs,
        decreases sigs.len() - i,
    {
        let mut j: usize = 0;
        while j < sigs.len()
            invariant
                i < sigs.len(),
                j <= sigs.len(),
                cv == rules_view(clauses@),
                forall|name: Seq<char>, p: bool, n: nat|
                    #[trigger] sig_listed(sigs@, name, p, n) <==> clauses_have_sig(cv, name, p, n),
                forall|b: int|
                    0 <= b < j && sigs[i as int].name@ == (#[trigger] sigs[b]).name@
                        ==> sigs[i as int].is_prop == sigs[b].is_prop && sigs[i as int].nargs
                        == sigs[b].nargs,
            decreases sigs.len() - j,
        {
            if sigs[i].name == sigs[j].name && (sigs[i].is_prop != sigs[j].is_prop || sigs[i].nargs
                != sigs[j].nargs) {
                proof {
                    let name = sigs[i as int].name@;
                    assert(sig_listed(
                        sigs@,
                        name,
                        sigs[i as int].is_prop,
                        sigs[i as int].nargs as nat,
                    ));
                    assert(sig_listed(
                        sigs@,
                        name,
                        sigs[j as int].is_prop,
                        sigs[j as int].nargs as nat,
                    ));
                    assert(clauses_have_sig(
                        cv,
                        name,
                        sigs[i as int].is_prop,
                        sigs[i as int].nargs as nat,
                    ));
                    assert(clauses_have_sig(
                        cv,
                        name,
                        sigs[j as int].is_prop,
                        sigs[j as int].nargs as nat,
                    ));
                }
                return false;
            }
            j += 1;
        }
        i += 1;
    }
    proof {
        assert forall|name: Seq<char>, pa: bool, na: nat, pb: bool, nb: nat|
            #[trigger] clauses_have_sig(cv, name, pa, na) && #[trigger] clauses_have_sig(
                cv,
                name,
                pb,
                nb,
            ) implies pa == pb && na == nb by {
            assert(sig_listed(sigs@, name, pa, na));
            assert(sig_listed(sigs@, name, pb, nb));
            let a = choose|a: int|
                0 <= a < sigs.len() && (#[trigger] sigs[a]).name@ == name && sigs[a].is_prop == pa
                    && sigs[a].nargs == na;
            let b = choose|b: int|
                0 <= b < sigs.len() && (#[trigger] sigs[b]).name@ == name && sigs[b].is_prop == pb
                    && sigs[b].nargs == nb;
            assert(sigs[a].name@ == sigs[b].name@);
        }
    }
    true
}

} // verus!
