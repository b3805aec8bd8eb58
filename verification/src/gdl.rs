//! Game descriptions: roles, moves, scores, and the typed form of a
//! parsed description, built once from its clauses.

use crate::checks::{
    arities_are_consistent, arities_consistent, declaration_is_ok, declaration_ok,
    literals_are_declared, literals_arity_are_ok, literals_declared, rule_arity_ok,
    sentence_arity_is_ok, Keywords,
};
use crate::error::ConfigError;
use crate::eval::{rule_base_fault, RuleBase};
use crate::sentence::{rules_view, sentence_args, sentence_name, Rule, RuleV, Sentence, SentenceV};
use crate::state::State;
use crate::term::{lemma_func_view, term_ground, terms_duplicate, terms_view, Term, TermV};
use vstd::prelude::*;
use vstd::string::StringExecFns;
use vstd::string::StrSliceExecFns;

verus! {

/// What a role scores when a match ends: from 0 to 100.
pub type Score = u8;

/// A participant of a game, known by its name.
#[derive(Debug, Clone, PartialEq, Eq, Hash)]
pub struct Role {
    pub name: String,
}

impl View for Role {
    type V = Seq<char>;

    open spec fn view(&self) -> Seq<char> {
        self.name@
    }
}

/// The names of the roles, in order.
pub open spec fn roles_view(roles: Seq<Role>) -> Seq<Seq<char>> {
    Seq::new(roles.len(), |i: int| roles[i]@)
}

impl Role {
    /// The role of the given name.
    pub fn new(name: &str) -> (r: Role)
        ensures
            r@ == name@,
    {
        Role { name: name.to_owned() }
    }

    /// Whether two roles have the same name.
    pub fn equals(&self, other: &Role) -> (r: bool)
        ensures
            r == (self@ == other@),
    {
        self.name == other.name
    }

    /// A copy of the role.
    pub fn duplicate(&self) -> (r: Role)
        ensures
            r@ == self@,
    {
        Role { name: self.name.clone() }
    }
}

/// The text of a term: a constant is its name, a variable its name after
/// a question mark, and a compound term its symbol and its arguments,
/// set apart by blanks, in round brackets.
pub open spec fn term_text(t: TermV) -> Seq<char>
    decreases t, 0nat,
{
    match t {
        TermV::Var(n) => seq!['?'] + n,
        TermV::Const(n) => n,
        TermV::Func(f, args) => seq!['('] + f + terms_text(args, 0) + seq![')'],
    }
}

/// The texts of the terms from index `from` on, each after a blank.
pub open spec fn terms_text(ts: Seq<TermV>, from: int) -> Seq<char>
    decreases ts, ts.len() - from,
{
    if 0 <= from < ts.len() {
        seq![' '] + term_text(ts[from]) + terms_text(ts, from + 1)
    } else {
        Seq::empty()
    }
}

/// Appends the text of the term to `out`.
pub fn write_term(t: &Term, out: &mut String)
    ensures
        final(out)@ == old(out)@ + term_text(t@),
    decreases t,
{
    match t {
        Term::Var(n) => {
            proof {
                reveal_strlit("?");
                assert("?"@ =~= seq!['?']);
            }
            out.append("?");
            out.append(n.as_str());
            assert(out@ =~= old(out)@ + term_text(t@));
        },
        Term::Const(n) => {
            out.append(n.as_str());
        },
        Term::Func(f, args) => {
            proof {
                lemma_func_view(*t);
                reveal_strlit("(");
                reveal_strlit(")");
                assert("("@ =~= seq!['(']);
                assert(")"@ =~= seq![')']);
            }
            out.append("(");
            out.append(f.as_str());
            write_terms(args, out);
            out.append(")");
            assert(out@ =~= old(out)@ + term_text(t@));
        },
    }
}

/// Appends the texts of the terms to `out`, each after a blank.
pub fn write_terms(ts: &Vec<Term>, out: &mut String)
    ensures
        final(out)@ == old(out)@ + terms_text(terms_view(ts@), 0),
    decreases ts,
{
    let ghost tv = terms_view(ts@);
    let ghost start = out@;
    let mut k: usize = 0;
    proof {
        reveal_strlit(" ");
        assert(" "@ =~= seq![' ']);
    }
    while k < ts.len()
        invariant
            k <= ts.len(),
            tv == terms_view(ts@),
            " "@ == seq![' '],
            out@ + terms_text(tv, k as int) == start + terms_text(tv, 0),
        decreases ts.len() - k,
    {
        let ghost before = out@;
        assert(tv[k as int] == ts[k as int]@);
        out.append(" ");
        write_term(&ts[k], out);
        proof {
            assert(terms_text(tv, k as int) == seq![' '] + term_text(tv[k as int]) + terms_text(
                tv,
                k + 1,
            ));
            assert(out@ + terms_text(tv, k + 1) =~= before + terms_text(tv, k as int));
        }
        k += 1;
    }
    assert(out@ =~= start + terms_text(tv, 0));
}

/// One role's action in a turn: a ground term.
#[derive(Debug, PartialEq, Eq)]
pub struct Move {
    pub term: Term,
}

impl View for Move {
    type V = TermV;

    open spec fn view(&self) -> TermV {
        self.term@
    }
}

impl Move {
    /// The term of a move is ground.
    pub open spec fn wf(&self) -> bool {
        term_ground(self.term@)
    }

    /// The move that the term stands for, if the term is ground.
    pub fn new(term: Term) -> (r: Option<Move>)
        ensures
            r is Some <==> term_ground(term@),
            r is Some ==> r->Some_0.wf() && r->Some_0@ == term@,
    {
        if term.is_ground() {
            Some(Move { term })
        } else {
            None
        }
    }

    /// A copy of the move.
    pub fn duplicate(&self) -> (r: Move)
        ensures
            r@ == self@,
    {
        Move { term: self.term.duplicate() }
    }

    /// The text of the move.
    pub fn to_string(&self) -> (r: String)
        ensures
            r@ == term_text(self@),
    {
        let mut out = String::new();
        write_term(&self.term, &mut out);
        assert(out@ =~= term_text(self@));
        out
    }
}

/// The values of the moves, in order.
pub open spec fn moves_view(moves: Seq<Move>) -> Seq<TermV> {
    Seq::new(moves.len(), |i: int| moves[i]@)
}

/// Every move of the list is ground.
pub open spec fn moves_wf(moves: Seq<Move>) -> bool {
    forall|i: int| 0 <= i < moves.len() ==> (#[trigger] moves[i]).wf()
}

/// What a role scores in a state.
#[derive(Debug, PartialEq, Eq)]
pub struct Goal {
    pub role: Role,
    pub score: Score,
}

/// The number that a decimal digit stands for.
pub open spec fn digit_value(c: char) -> Option<nat> {
    if c == '0' {
        Some(0)
    } else if c == '1' {
        Some(1)
    } else if c == '2' {
        Some(2)
    } else if c == '3' {
        Some(3)
    } else if c == '4' {
        Some(4)
    } else if c == '5' {
        Some(5)
    } else if c == '6' {
        Some(6)
    } else if c == '7' {
        Some(7)
    } else if c == '8' {
        Some(8)
    } else if c == '9' {
        Some(9)
    } else {
        None
    }
}

/// The number that a text of decimal digits stands for; none where the
/// text is empty or holds something else.
pub open spec fn decimal_value(s: Seq<char>) -> Option<nat>
    decreases s.len(),
{
    if s.len() == 0 {
        None
    } else if s.len() == 1 {
        digit_value(s[0])
    } else {
        match (decimal_value(s.drop_last()), digit_value(s.last())) {
            (Some(high), Some(low)) => Some(high * 10 + low),
            _ => None,
        }
    }
}

/// The score that a term stands for: a constant of one to three decimal
/// digits whose number is at most 100.
pub open spec fn score_value(t: TermV) -> Option<Score> {
    match t {
        TermV::Const(s) => match decimal_value(s) {
            Some(v) => if s.len() <= 3 && v <= 100 {
                Some(v as u8)
            } else {
                None
            },
            None => None,
        },
        _ => None,
    }
}

/// The number that a decimal digit stands for.
pub fn digit_of(c: char) -> (r: Option<u8>)
    ensures
        match r {
            Some(v) => digit_value(c) == Some(v as nat),
            None => digit_value(c) is None,
        },
{
    if c == '0' {
        Some(0)
    } else if c == '1' {
        Some(1)
    } else if c == '2' {
        Some(2)
    } else if c == '3' {
        Some(3)
    } else if c == '4' {
        Some(4)
    } else if c == '5' {
        Some(5)
    } else if c == '6' {
        Some(6)
    } else if c == '7' {
        Some(7)
    } else if c == '8' {
        Some(8)
    } else if c == '9' {
        Some(9)
    } else {
        None
    }
}

/// The score that a term stands for, if it stands for one.
pub fn score_of(t: &Term) -> (r: Option<Score>)
    ensures
        r == score_value(t@),
{
    match t {
        Term::Const(s) => {
            let text = s.as_str();
            let n = text.unicode_len();
            if n == 0 || n > 3 {
                return None;
            }
            let mut acc: u16 = 0;
            let mut i: usize = 0;
            while i < n
                invariant
                    i <= n <= 3,
                    n == text@.len(),
                    text@ == s@,
                    t@ == TermV::Const(s@),
                    i > 0 ==> decimal_value(text@.take(i as int)) == Some(acc as nat),
                    i == 0 ==> acc == 0,
                    acc <= 999,
                    i == 1 ==> acc <= 9,
                    i == 2 ==> acc <= 99,
                decreases n - i,
            {
                let c = text.get_char(i);
                let ghost prefix = text@.take(i as int + 1);
                proof {
                    assert(prefix.last() == text@[i as int]);
                    assert(prefix.drop_last() =~= text@.take(i as int));
                    if i == 0 {
                        assert(prefix[0] == text@[0]);
                    }
                }
                match digit_of(c) {
                    Some(d) => {
                        acc = acc * 10 + d as u16;
                    },
                    None => {
                        proof {
                            assert(digit_value(prefix.last()) is None);
                            assert(prefix.len() == i + 1);
                            assert(decimal_value(prefix) is None);
                            lemma_decimal_prefix(text@, i as int + 1);
                        }
                        return None;
                    },
                }
                i += 1;
            }
            assert(text@.take(n as int) =~= text@);
            if acc <= 100 {
                Some(acc as u8)
            } else {
                None
            }
        },
        _ => None,
    }
}

/// A text with a prefix that is no number is no number.
pub proof fn lemma_decimal_prefix(s: Seq<char>, upto: int)
    requires
        0 < upto <= s.len(),
        decimal_value(s.take(upto)) is None,
    ensures
        decimal_value(s) is None,
    decreases s.len() - upto,
{
    if upto < s.len() {
        let next = s.take(upto + 1);
        assert(next.drop_last() =~= s.take(upto));
        assert(decimal_value(next) is None);
        lemma_decimal_prefix(s, upto + 1);
    } else {
        assert(s.take(upto) =~= s);
    }
}

/// Those of the clauses whose head is of the given relation, where
/// `keep` is set, and those whose head is not, where it is not; in
/// their order.
pub open spec fn rules_where(clauses: Seq<RuleV>, name: Seq<char>, keep: bool) -> Seq<RuleV>
    decreases clauses.len(),
{
    if clauses.len() == 0 {
        Seq::empty()
    } else {
        let rest = rules_where(clauses.drop_last(), name, keep);
        if (sentence_name(clauses.last().head) == name) == keep {
            rest.push(clauses.last())
        } else {
            rest
        }
    }
}

/// The names that the `role` clauses declare, in their order.
pub open spec fn role_names(clauses: Seq<RuleV>) -> Seq<Seq<char>>
    decreases clauses.len(),
{
    if clauses.len() == 0 {
        Seq::empty()
    } else {
        let rest = role_names(clauses.drop_last());
        let head = clauses.last().head;
        if sentence_name(head) == "role"@ && sentence_args(head).len() == 1 && sentence_args(
            head,
        )[0] is Const {
            rest.push(sentence_args(head)[0]->Const_0)
        } else {
            rest
        }
    }
}

/// No name is in the list twice.
pub open spec fn names_distinct(names: Seq<Seq<char>>) -> bool {
    forall|i: int, j: int| 0 <= i < j < names.len() ==> #[trigger] names[i] != #[trigger] names[j]
}

/// Whether no role is in the list twice.
pub fn roles_are_distinct(roles: &Vec<Role>) -> (r: bool)
    ensures
        r == names_distinct(roles_view(roles@)),
{
    let ghost rv = roles_view(roles@);
    let mut i: usize = 0;
    while i < roles.len()
        invariant
            i <= roles.len(),
            rv == roles_view(roles@),
            forall|a: int, b: int|
                0 <= a < b < rv.len() && a < i ==> #[trigger] rv[a] != #[trigger] rv[b],
        decreases roles.len() - i,
    {
        let mut j: usize = i + 1;
        while j < roles.len()
            invariant
                i < j <= roles.len(),
                rv == roles_view(roles@),
                forall|b: int| i < b < j ==> rv[i as int] != #[trigger] rv[b],
            decreases roles.len() - j,
        {
            assert(rv[i as int] == roles[i as int]@);
            assert(rv[j as int] == roles[j as int]@);
            if roles[i].equals(&roles[j]) {
                return false;
            }
            j += 1;
        }
        i += 1;
    }
    true
}

/// The initial state: `true(t)` holds for each clause `init(t)`.
pub open spec fn initial_facts(clauses: Seq<RuleV>) -> Set<SentenceV> {
    Set::new(
        |f: SentenceV|
            exists|i: int|
                0 <= i < clauses.len() && sentence_name((#[trigger] clauses[i]).head) == "init"@
                    && f == SentenceV::Rel("true"@, sentence_args(clauses[i].head)),
    )
}

/// Why the clauses are refused as a game description, if they are.
pub open spec fn desc_fault(clauses: Seq<RuleV>) -> Option<ConfigError> {
    if (exists|i: int| 0 <= i < clauses.len() && !rule_arity_ok(#[trigger] clauses[i]))
        || !arities_consistent(clauses) {
        Some(ConfigError::BadArity)
    } else if (exists|i: int| 0 <= i < clauses.len() && !declaration_ok(#[trigger] clauses[i]))
        || !names_distinct(role_names(clauses)) {
        Some(ConfigError::BadDeclaration)
    } else if role_names(clauses).len() == 0 {
        Some(ConfigError::MissingRole)
    } else if exists|i: int|
        0 <= i < clauses.len() && !literals_declared((#[trigger] clauses[i]).body, clauses) {
        Some(ConfigError::UndeclaredRelation)
    } else {
        rule_base_fault(rules_where(clauses, "init"@, false))
    }
}

/// Copies of those of the clauses whose head is of the given relation,
/// or of those whose head is not.
pub fn select_rules(clauses: &Vec<Rule>, name: &String, keep: bool) -> (r: Vec<Rule>)
    ensures
        rules_view(r@) == rules_where(rules_view(clauses@), name@, keep),
{
    let ghost cv = rules_view(clauses@);
    let mut out: Vec<Rule> = Vec::new();
    let mut i: usize = 0;
    assert(cv.take(0) =~= Seq::empty());
    assert(rules_view(out@) =~= Seq::empty());
    while i < clauses.len()
        invariant
            i <= clauses.len(),
            cv == rules_view(clauses@),
            rules_view(out@) == rules_where(cv.take(i as int), name@, keep),
        decreases clauses.len() - i,
    {
        let ghost before = rules_view(out@);
        let ghost part = cv.take(i as int + 1);
        proof {
            assert(part.drop_last() =~= cv.take(i as int));
            assert(part.last() == clauses[i as int]@);
        }
        if (*clauses[i].head.name() == *name) == keep {
            out.push(clauses[i].duplicate());
            assert(rules_view(out@) =~= before.push(clauses[i as int]@));
        }
        i += 1;
    }
    assert(cv.take(clauses.len() as int) =~= cv);
    out
}

/// A game description in typed form: the roles, the rules by the
/// relation they define, the initial state, and the rule base that
/// states are evaluated under.
#[derive(Debug)]
pub struct GameDesc {
    pub roles: Vec<Role>,
    pub bases: Vec<Rule>,
    pub input: Vec<Rule>,
    pub legal: Vec<Rule>,
    pub next: Vec<Rule>,
    pub terminal: Vec<Rule>,
    pub goal: Vec<Rule>,
    pub state: State,
    pub rules: RuleBase,
}

impl GameDesc {
    /// The description is whole: it has a role and none twice, a valid
    /// rule base and a valid initial state, and lists under each keyword
    /// the rules of the rule base that define it.
    pub open spec fn wf(&self) -> bool {
        &&& self.roles.len() > 0
        &&& names_distinct(roles_view(self.roles@))
        &&& self.rules.wf()
        &&& self.state.wf()
        &&& rules_view(self.bases@) == rules_where(self.rules@.rules, "base"@, true)
        &&& rules_view(self.input@) == rules_where(self.rules@.rules, "input"@, true)
        &&& rules_view(self.legal@) == rules_where(self.rules@.rules, "legal"@, true)
        &&& rules_view(self.next@) == rules_where(self.rules@.rules, "next"@, true)
        &&& rules_view(self.terminal@) == rules_where(self.rules@.rules, "terminal"@, true)
        &&& rules_view(self.goal@) == rules_where(self.rules@.rules, "goal"@, true)
    }
}

/// Builds the game description from the clauses of a parsed
/// description. Every clause but the initial facts goes to the rule
/// base; the initial facts make the initial state. The clauses are
/// refused where a keyword has the wrong number of arguments or a name
/// is applied in two ways, where a role or an initial fact is not
/// declared by a fact of the right shape, where a role is declared
/// twice, where no role is declared, where a body reads a relation that
/// nothing defines, where a rule is not safe, and where the rules
/// cannot be stratified.
pub fn parse_desc(clauses: Vec<Rule>) -> (r: Result<GameDesc, ConfigError>)
    ensures
        match r {
            Ok(d) => {
                &&& desc_fault(rules_view(clauses@)) is None
                &&& d.wf()
                &&& d.rules@.rules == rules_where(rules_view(clauses@), "init"@, false)
                &&& roles_view(d.roles@) == role_names(rules_view(clauses@))
                &&& d.state@ == initial_facts(rules_view(clauses@))
            },
            Err(e) => desc_fault(rules_view(clauses@)) == Some(e),
        },
{
    let ghost cv = rules_view(clauses@);
    let kw = Keywords::new();
    let n = clauses.len();
    let mut i: usize = 0;
    while i < n
        invariant
            i <= n,
            n == clauses.len(),
            kw.wf(),
            cv == rules_view(clauses@),
            forall|k: int| 0 <= k < i ==> rule_arity_ok(#[trigger] cv[k]),
        decreases n - i,
    {
        assert(cv[i as int] == clauses[i as int]@);
        if !sentence_arity_is_ok(&kw, &clauses[i].head) || !literals_arity_are_ok(
            &kw,
            &clauses[i].body,
        ) {
            assert(!rule_arity_ok(cv[i as int]));
            return Err(ConfigError::BadArity);
        }
        i += 1;
    }
    if !arities_are_consistent(&clauses) {
        return Err(ConfigError::BadArity);
    }
    i = 0;
    while i < n
        invariant
            i <= n,
            n == clauses.len(),
            kw.wf(),
            cv == rules_view(clauses@),
            forall|k: int| 0 <= k < n ==> rule_arity_ok(#[trigger] cv[k]),
            arities_consistent(cv),
            forall|k: int| 0 <= k < i ==> declaration_ok(#[trigger] cv[k]),
        decreases n - i,
    {
        assert(cv[i as int] == clauses[i as int]@);
        if !declaration_is_ok(&kw, &clauses[i]) {
            assert(!declaration_ok(cv[i as int]));
            return Err(ConfigError::BadDeclaration);
        }
        i += 1;
    }
    let mut roles: Vec<Role> = Vec::new();
    let mut state = State::empty();
    i = 0;
    proof {
        assert(cv.take(0) =~= Seq::empty());
        assert(roles_view(roles@) =~= Seq::empty());
        assert(state@ =~= initial_facts(cv.take(0)));
    }
    while i < n
        invariant
            i <= n,
            n == clauses.len(),
            kw.wf(),
            cv == rules_view(clauses@),
            forall|k: int| 0 <= k < n ==> rule_arity_ok(#[trigger] cv[k]),
            arities_consistent(cv),
            forall|k: int| 0 <= k < n ==> declaration_ok(#[trigger] cv[k]),
            state.wf(),
            roles_view(roles@) == role_names(cv.take(i as int)),
            state@ == initial_facts(cv.take(i as int)),
        decreases n - i,
    {
        let ghost before_roles = roles_view(roles@);
        let ghost before_state = state@;
        let ghost part = cv.take(i as int + 1);
        let ghost clause = clauses[i as int]@;
        proof {
            assert(cv[i as int] == clause);
            assert(part.drop_last() =~= cv.take(i as int));
            assert(part.last() == clause);
            assert(declaration_ok(clause));
        }
        let name = clauses[i].head.name();
        if *name == kw.role {
            match &clauses[i].head {
                Sentence::Rel(_, args) => {
                    match &args[0] {
                        Term::Const(c) => {
                            assert(sentence_args(clause.head)[0] == args[0]@);
                            roles.push(Role { name: c.clone() });
                            assert(roles_view(roles@) =~= before_roles.push(c@));
                        },
                        _ => {
                            assert(sentence_args(clause.head)[0] == args[0]@);
                        },
                    }
                },
                _ => {},
            }
        }
        if *name == kw.init {
            match &clauses[i].head {
                Sentence::Rel(_, args) => {
                    let fact = Sentence::Rel(kw.truth.clone(), terms_duplicate(args));
                    proof {
                        assert(sentence_args(clause.head) == terms_view(args@));
                        assert(sentence_args(fact@) =~= terms_view(args@));
                        assert forall|k: int| 0 <= k < terms_view(args@).len() implies term_ground(
                            #[trigger] terms_view(args@)[k],
                        ) by {}
                    }
                    let added = state.add_prop(fact);
                    assert(added);
                },
                _ => {},
            }
        }
        proof {
            assert forall|f: SentenceV|
                state@.contains(f) <==> initial_facts(part).contains(f) by {
                if initial_facts(part).contains(f) {
                    let k = choose|k: int|
                        0 <= k < part.len() && sentence_name((#[trigger] part[k]).head)
                            == "init"@ && f == SentenceV::Rel(
                            "true"@,
                            sentence_args(part[k].head),
                        );
                    if k < i {
                        assert(cv.take(i as int)[k] == part[k]);
                        assert(initial_facts(cv.take(i as int)).contains(f));
                    }
                }
                if before_state.contains(f) {
                    let k = choose|k: int|
                        0 <= k < i && sentence_name((#[trigger] cv.take(i as int)[k]).head)
                            == "init"@ && f == SentenceV::Rel(
                            "true"@,
                            sentence_args(cv.take(i as int)[k].head),
                        );
                    assert(part[k] == cv.take(i as int)[k]);
                }
                if sentence_name(clause.head) == "init"@ && f == SentenceV::Rel(
                    "true"@,
                    sentence_args(clause.head),
                ) {
                    assert(part[i as int] == clause);
                }
            }
            assert(state@ =~= initial_facts(part));
        }
        i += 1;
    }
    assert(cv.take(n as int) =~= cv);
    assert(roles_view(roles@).len() == roles.len());
    if !roles_are_distinct(&roles) {
        return Err(ConfigError::BadDeclaration);
    }
    if roles.len() == 0 {
        return Err(ConfigError::MissingRole);
    }
    i = 0;
    while i < n
        invariant
            i <= n,
            n == clauses.len(),
            kw.wf(),
            cv == rules_view(clauses@),
            forall|k: int| 0 <= k < n ==> rule_arity_ok(#[trigger] cv[k]),
            arities_consistent(cv),
            forall|k: int| 0 <= k < n ==> declaration_ok(#[trigger] cv[k]),
            role_names(cv).len() > 0,
            names_distinct(role_names(cv)),
            roles_view(roles@) == role_names(cv),
            roles.len() > 0,
            state.wf(),
            state@ == initial_facts(cv),
            forall|k: int| 0 <= k < i ==> literals_declared((#[trigger] cv[k]).body, cv),
        decreases n - i,
    {
        assert(cv[i as int] == clauses[i as int]@);
        if !literals_are_declared(&kw, &clauses[i].body, &clauses) {
            assert(!literals_declared(cv[i as int].body, cv));
            return Err(ConfigError::UndeclaredRelation);
        }
        i += 1;
    }
    let kept = select_rules(&clauses, &kw.init, false);
    let bases = select_rules(&kept, &kw.base, true);
    let input = select_rules(&kept, &kw.input, true);
    let legal = select_rules(&kept, &kw.legal, true);
    let next = select_rules(&kept, &kw.next, true);
    let terminal = select_rules(&kept, &kw.terminal, true);
    let goal = select_rules(&kept, &kw.goal, true);
    match RuleBase::new(kept) {
        Err(e) => Err(e),
        Ok(rules) => Ok(GameDesc { roles, bases, input, legal, next, terminal, goal, state, rules }),
    }
}

} // verus!
