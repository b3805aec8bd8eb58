use ggp::error::{ConfigError, EvalError};
use ggp::eval::{derive_all, holds, RuleBase};
use ggp::safety::{literal_is_safe, rule_is_safe};
use ggp::solver::{apply_literal, apply_sentence};
use ggp::sentence::{Literal, Rule, Sentence};
use ggp::state::State;
use ggp::strata::stratify;
use ggp::subst::{match_term, match_terms, Subst};
use ggp::term::Term;

fn var(n: &str) -> Term {
    Term::Var(n.to_string())
}

fn con(n: &str) -> Term {
    Term::Const(n.to_string())
}

fn fun(n: &str, args: Vec<Term>) -> Term {
    Term::Func(n.to_string(), args)
}

fn rel(n: &str, args: Vec<Term>) -> Sentence {
    Sentence::Rel(n.to_string(), args)
}

fn prop(n: &str) -> Sentence {
    Sentence::Prop(n.to_string())
}

fn lrel(n: &str, args: Vec<Term>) -> Literal {
    Literal::Rel(n.to_string(), args)
}

fn lprop(n: &str) -> Literal {
    Literal::Prop(n.to_string())
}

fn not(l: Literal) -> Literal {
    Literal::Not(Box::new(l))
}

fn fact(head: Sentence) -> Rule {
    Rule::new(head, Vec::new())
}

fn state_of(facts: Vec<Sentence>) -> State {
    State::new(facts).unwrap()
}

fn has(facts: &Vec<Sentence>, f: &Sentence) -> bool {
    facts.iter().any(|g| g.equals(f))
}

#[test]
fn term_equality_is_structural() {
    let a = fun("cell", vec![con("1"), var("x")]);
    let b = fun("cell", vec![con("1"), var("x")]);
    let c = fun("cell", vec![con("1"), var("y")]);
    let d = fun("cell", vec![con("1")]);
    assert!(a.equals(&b));
    assert!(!a.equals(&c));
    assert!(!a.equals(&d));
    assert!(!con("x").equals(&var("x")));
    assert!(!con("f").equals(&fun("f", vec![])));
    assert!(a.duplicate().equals(&a));
    assert_eq!(a, b);
    assert_ne!(a, c);
}

#[test]
fn groundness_of_terms_and_sentences() {
    assert!(con("a").is_ground());
    assert!(!var("x").is_ground());
    assert!(fun("f", vec![con("a"), fun("g", vec![con("b")])]).is_ground());
    assert!(!fun("f", vec![con("a"), fun("g", vec![var("x")])]).is_ground());
    assert!(prop("p").is_ground());
    assert!(rel("r", vec![con("a")]).is_ground());
    assert!(!rel("r", vec![con("a"), var("x")]).is_ground());
    let bound = vec!["x".to_string()];
    assert!(fun("f", vec![var("x")]).closed_in(&bound));
    assert!(!fun("f", vec![var("x"), var("y")]).closed_in(&bound));
}

#[test]
fn substitution_replaces_bound_variables_only() {
    let mut s = Subst::new();
    s.bind("x".to_string(), con("a"));
    let t = fun("f", vec![var("x"), var("y"), con("c")]);
    let out = s.apply(&t);
    assert!(out.equals(&fun("f", vec![con("a"), var("y"), con("c")])));
    assert!(s.lookup(&"x".to_string()).unwrap().equals(&con("a")));
    assert!(s.lookup(&"y".to_string()).is_none());
    let both = s.apply_all(&vec![var("x"), var("x")]);
    assert_eq!(both.len(), 2);
    assert!(both[0].equals(&con("a")) && both[1].equals(&con("a")));
    let copy = s.duplicate();
    assert!(copy.lookup(&"x".to_string()).unwrap().equals(&con("a")));
}

#[test]
fn a_later_binding_gives_way_to_none_earlier() {
    let mut s = Subst::new();
    s.bind("x".to_string(), con("a"));
    s.bind("x".to_string(), con("b"));
    assert!(s.lookup(&"x".to_string()).unwrap().equals(&con("b")));
}

#[test]
fn matching_binds_variables() {
    let pat = fun("cell", vec![var("x"), var("y"), var("x")]);
    let val = fun("cell", vec![con("1"), con("2"), con("1")]);
    let s = match_term(&pat, &val, Subst::new()).unwrap();
    assert!(s.lookup(&"x".to_string()).unwrap().equals(&con("1")));
    assert!(s.lookup(&"y".to_string()).unwrap().equals(&con("2")));
    assert!(s.apply(&pat).equals(&val));
}

#[test]
fn matching_fails_on_a_clash() {
    let pat = fun("cell", vec![var("x"), var("x")]);
    let val = fun("cell", vec![con("1"), con("2")]);
    assert!(match_term(&pat, &val, Subst::new()).is_none());
    assert!(match_term(&con("a"), &con("b"), Subst::new()).is_none());
    assert!(match_term(&fun("f", vec![con("a")]), &fun("g", vec![con("a")]), Subst::new()).is_none());
    assert!(match_term(&fun("f", vec![con("a")]), &con("f"), Subst::new()).is_none());
    assert!(match_terms(&vec![var("x")], &vec![con("a"), con("b")], Subst::new()).is_none());
}

#[test]
fn matching_respects_earlier_bindings() {
    let mut s = Subst::new();
    s.bind("x".to_string(), con("a"));
    assert!(match_term(&var("x"), &con("b"), s.duplicate()).is_none());
    let kept = match_term(&var("x"), &con("a"), s).unwrap();
    assert!(kept.lookup(&"x".to_string()).unwrap().equals(&con("a")));
}

#[test]
fn safety_of_rules() {
    // open(X) :- base(X), not closed(X)
    let safe = Rule::new(
        rel("open", vec![var("x")]),
        vec![lrel("base", vec![var("x")]), not(lrel("closed", vec![var("x")]))],
    );
    assert!(rule_is_safe(&safe));
    // open(X) :- not closed(X), base(X): the negation comes too early
    let early = Rule::new(
        rel("open", vec![var("x")]),
        vec![not(lrel("closed", vec![var("x")])), lrel("base", vec![var("x")])],
    );
    assert!(!rule_is_safe(&early));
    // p(X) :- q(Y): the head variable is never bound
    let loose = Rule::new(rel("p", vec![var("x")]), vec![lrel("q", vec![var("y")])]);
    assert!(!rule_is_safe(&loose));
    // distinct on an unbound variable
    let distinct = Rule::new(
        prop("p"),
        vec![lrel("q", vec![var("x")]), Literal::Distinct(var("x"), var("y"))],
    );
    assert!(!rule_is_safe(&distinct));
    // a fact with a variable is not safe; a ground fact is
    assert!(!rule_is_safe(&fact(rel("p", vec![var("x")]))));
    assert!(rule_is_safe(&fact(rel("p", vec![con("a")]))));
}

#[test]
fn a_disjunction_binds_what_every_branch_binds() {
    // p(X) :- or(q(X), r(X))
    let both = Rule::new(
        rel("p", vec![var("x")]),
        vec![Literal::Or(vec![lrel("q", vec![var("x")]), lrel("r", vec![var("x")])])],
    );
    assert!(rule_is_safe(&both));
    // p(X) :- or(q(X), r(Y))
    let one = Rule::new(
        rel("p", vec![var("x")]),
        vec![Literal::Or(vec![lrel("q", vec![var("x")]), lrel("r", vec![var("y")])])],
    );
    assert!(!rule_is_safe(&one));
    assert!(literal_is_safe(&not(lrel("q", vec![var("x")])), &vec!["x".to_string()]));
    assert!(!literal_is_safe(&not(lrel("q", vec![var("x")])), &Vec::new()));
}

#[test]
fn stratification_puts_negated_relations_below() {
    let rules = vec![
        Rule::new(
            rel("open", vec![var("x")]),
            vec![lrel("base", vec![var("x")]), not(lrel("closed", vec![var("x")]))],
        ),
        fact(rel("closed", vec![con("a")])),
        fact(rel("base", vec![con("a")])),
    ];
    let levels = stratify(&rules).unwrap();
    assert_eq!(levels, vec![1, 0, 0]);
}

#[test]
fn negation_through_recursion_is_not_stratified() {
    // p :- not q.  q :- not p.
    let rules = vec![
        Rule::new(prop("p"), vec![not(lprop("q"))]),
        Rule::new(prop("q"), vec![not(lprop("p"))]),
    ];
    assert!(stratify(&rules).is_none());
    assert_eq!(RuleBase::new(rules).err(), Some(ConfigError::Unstratified));
    // p :- not p.
    let own = vec![Rule::new(prop("p"), vec![not(lprop("p"))])];
    assert!(stratify(&own).is_none());
}

#[test]
fn an_unsafe_rule_is_refused() {
    let rules = vec![Rule::new(rel("p", vec![var("x")]), vec![lprop("q")])];
    assert_eq!(RuleBase::new(rules).err(), Some(ConfigError::UnsafeRule));
}

#[test]
fn open_excludes_exactly_the_closed_members() {
    // open(X) :- base(X), not closed(X)
    let rules = RuleBase::new(vec![Rule::new(
        rel("open", vec![var("x")]),
        vec![lrel("base", vec![var("x")]), not(lrel("closed", vec![var("x")]))],
    )])
    .unwrap();
    let state = state_of(vec![
        rel("base", vec![con("a")]),
        rel("base", vec![con("b")]),
        rel("base", vec![con("c")]),
        rel("closed", vec![con("b")]),
        rel("closed", vec![con("z")]),
    ]);
    let open = derive_all(&"open".to_string(), &state, &rules);
    assert_eq!(open.len(), 2);
    assert!(has(&open, &rel("open", vec![con("a")])));
    assert!(has(&open, &rel("open", vec![con("c")])));
    assert!(!has(&open, &rel("open", vec![con("b")])));
    assert!(!has(&open, &rel("open", vec![con("z")])));
    assert_eq!(holds(&lrel("open", vec![con("a")]), &state, &rules), Ok(true));
    assert_eq!(holds(&lrel("open", vec![con("b")]), &state, &rules), Ok(false));
    assert_eq!(holds(&not(lrel("open", vec![con("b")])), &state, &rules), Ok(true));
}

#[test]
fn a_relation_without_rules_has_no_facts() {
    let rules = RuleBase::new(vec![fact(rel("p", vec![con("a")]))]).unwrap();
    let state = State::empty();
    assert!(derive_all(&"q".to_string(), &state, &rules).is_empty());
    let none = RuleBase::new(Vec::new()).unwrap();
    assert!(derive_all(&"q".to_string(), &state, &none).is_empty());
    assert_eq!(holds(&lprop("q"), &state, &none), Ok(false));
}

#[test]
fn a_rule_that_never_fires_derives_nothing() {
    let rules =
        RuleBase::new(vec![Rule::new(rel("p", vec![var("x")]), vec![lrel("q", vec![var("x")])])])
            .unwrap();
    assert!(derive_all(&"p".to_string(), &State::empty(), &rules).is_empty());
}

#[test]
fn recursion_reaches_its_fixpoint() {
    // path(X, Y) :- edge(X, Y).  path(X, Z) :- edge(X, Y), path(Y, Z).
    let rules = RuleBase::new(vec![
        Rule::new(
            rel("path", vec![var("x"), var("y")]),
            vec![lrel("edge", vec![var("x"), var("y")])],
        ),
        Rule::new(
            rel("path", vec![var("x"), var("z")]),
            vec![lrel("edge", vec![var("x"), var("y")]), lrel("path", vec![var("y"), var("z")])],
        ),
    ])
    .unwrap();
    let state = state_of(vec![
        rel("edge", vec![con("a"), con("b")]),
        rel("edge", vec![con("b"), con("c")]),
        rel("edge", vec![con("c"), con("d")]),
    ]);
    let paths = derive_all(&"path".to_string(), &state, &rules);
    assert_eq!(paths.len(), 6);
    assert!(has(&paths, &rel("path", vec![con("a"), con("d")])));
    assert!(has(&paths, &rel("path", vec![con("b"), con("d")])));
    assert!(!has(&paths, &rel("path", vec![con("d"), con("a")])));
}

#[test]
fn recursion_on_a_cycle_ends() {
    let rules = RuleBase::new(vec![
        Rule::new(
            rel("path", vec![var("x"), var("y")]),
            vec![lrel("edge", vec![var("x"), var("y")])],
        ),
        Rule::new(
            rel("path", vec![var("x"), var("z")]),
            vec![lrel("path", vec![var("x"), var("y")]), lrel("edge", vec![var("y"), var("z")])],
        ),
    ])
    .unwrap();
    let state =
        state_of(vec![rel("edge", vec![con("a"), con("b")]), rel("edge", vec![con("b"), con("a")])]);
    let paths = derive_all(&"path".to_string(), &state, &rules);
    assert_eq!(paths.len(), 4);
}

#[test]
fn a_disjunction_carries_the_bindings_of_its_branch() {
    // r(X) :- or(p(X), q(X)), s(X)
    let rules = RuleBase::new(vec![Rule::new(
        rel("r", vec![var("x")]),
        vec![
            Literal::Or(vec![lrel("p", vec![var("x")]), lrel("q", vec![var("x")])]),
            lrel("s", vec![var("x")]),
        ],
    )])
    .unwrap();
    let state = state_of(vec![
        rel("p", vec![con("a")]),
        rel("q", vec![con("b")]),
        rel("q", vec![con("c")]),
        rel("s", vec![con("a")]),
        rel("s", vec![con("b")]),
    ]);
    let out = derive_all(&"r".to_string(), &state, &rules);
    assert_eq!(out.len(), 2);
    assert!(has(&out, &rel("r", vec![con("a")])));
    assert!(has(&out, &rel("r", vec![con("b")])));
}

#[test]
fn distinct_holds_of_different_ground_terms() {
    // pair(X, Y) :- n(X), n(Y), distinct(X, Y)
    let rules = RuleBase::new(vec![Rule::new(
        rel("pair", vec![var("x"), var("y")]),
        vec![
            lrel("n", vec![var("x")]),
            lrel("n", vec![var("y")]),
            Literal::Distinct(var("x"), var("y")),
        ],
    )])
    .unwrap();
    let state = state_of(vec![rel("n", vec![con("1")]), rel("n", vec![con("2")])]);
    let out = derive_all(&"pair".to_string(), &state, &rules);
    assert_eq!(out.len(), 2);
    assert!(has(&out, &rel("pair", vec![con("1"), con("2")])));
    assert!(has(&out, &rel("pair", vec![con("2"), con("1")])));
    assert_eq!(holds(&Literal::Distinct(con("1"), con("1")), &state, &rules), Ok(false));
    assert_eq!(holds(&Literal::Distinct(con("1"), con("2")), &state, &rules), Ok(true));
}

#[test]
fn heads_may_build_compound_terms() {
    // next(cell(X, b)) :- mark(X)
    let rules = RuleBase::new(vec![Rule::new(
        rel("next", vec![fun("cell", vec![var("x"), con("b")])]),
        vec![lrel("mark", vec![var("x")])],
    )])
    .unwrap();
    let state = state_of(vec![rel("mark", vec![con("1")])]);
    let out = derive_all(&"next".to_string(), &state, &rules);
    assert_eq!(out.len(), 1);
    assert!(out[0].equals(&rel("next", vec![fun("cell", vec![con("1"), con("b")])])));
}

#[test]
fn holds_is_the_same_however_often_it_is_asked() {
    let rules = RuleBase::new(vec![Rule::new(
        rel("open", vec![var("x")]),
        vec![lrel("base", vec![var("x")]), not(lrel("closed", vec![var("x")]))],
    )])
    .unwrap();
    let state = state_of(vec![rel("base", vec![con("a")]), rel("closed", vec![con("b")])]);
    let other = state_of(vec![rel("closed", vec![con("b")]), rel("base", vec![con("a")])]);
    let q = lrel("open", vec![var("x")]);
    let first = holds(&q, &state, &rules);
    assert_eq!(first, Ok(true));
    assert_eq!(holds(&q, &state, &rules), first);
    assert_eq!(holds(&q, &other, &rules), first);
}

#[test]
fn a_query_with_an_unbound_negation_is_refused() {
    let rules = RuleBase::new(Vec::new()).unwrap();
    let state = State::empty();
    assert_eq!(
        holds(&not(lrel("p", vec![var("x")])), &state, &rules),
        Err(EvalError::UnsafeQuery)
    );
    assert_eq!(
        holds(&Literal::Distinct(var("x"), con("a")), &state, &rules),
        Err(EvalError::UnsafeQuery)
    );
}

#[test]
fn a_rule_body_is_true_in_a_state_that_satisfies_it() {
    let rule = Rule::new(
        prop("terminal"),
        vec![lrel("true", vec![var("x")]), not(lrel("true", vec![con("q")]))],
    );
    let yes = state_of(vec![rel("true", vec![con("p")])]);
    let no = state_of(vec![rel("true", vec![con("p")]), rel("true", vec![con("q")])]);
    assert_eq!(rule.is_true(&yes), Ok(true));
    assert_eq!(rule.is_true(&no), Ok(false));
    assert_eq!(rule.is_true(&State::empty()), Ok(false));
    assert_eq!(fact(prop("p")).is_true(&State::empty()), Ok(true));
    let bad = Rule::new(prop("p"), vec![not(lrel("q", vec![var("x")]))]);
    assert_eq!(bad.is_true(&yes), Err(EvalError::UnsafeQuery));
}

#[test]
fn states_are_sets_of_ground_facts() {
    let mut s = State::empty();
    assert_eq!(s.len(), 0);
    assert!(s.add_prop(rel("true", vec![con("p")])));
    assert!(s.add_prop(rel("true", vec![con("p")])));
    assert_eq!(s.len(), 1);
    assert!(!s.add_prop(rel("true", vec![var("x")])));
    assert_eq!(s.len(), 1);
    assert!(s.contains(&rel("true", vec![con("p")])));
    assert!(!s.contains(&rel("true", vec![con("q")])));
    assert!(State::new(vec![rel("p", vec![var("x")])]).is_none());
    let twice = State::new(vec![prop("p"), prop("p"), prop("q")]).unwrap();
    assert_eq!(twice.len(), 2);
    assert_eq!(twice.duplicate().len(), 2);
}

#[test]
fn substitution_reaches_into_sentences_and_literals() {
    let mut s = Subst::new();
    s.bind("x".to_string(), con("a"));
    let head = rel("p", vec![var("x"), var("y")]);
    assert_eq!(apply_sentence(&s, &head), rel("p", vec![con("a"), var("y")]));
    assert_eq!(apply_sentence(&s, &prop("q")), prop("q"));
    let l = Literal::Or(vec![
        not(lrel("q", vec![var("x")])),
        Literal::Distinct(var("x"), var("z")),
        lprop("r"),
    ]);
    let want = Literal::Or(vec![
        not(lrel("q", vec![con("a")])),
        Literal::Distinct(con("a"), var("z")),
        lprop("r"),
    ]);
    assert_eq!(apply_literal(&s, &l), want);
}

#[test]
fn negation_is_read_against_the_strata_below() {
    // a :- not b.  b :- not c.  c.
    let rules = RuleBase::new(vec![
        Rule::new(prop("a"), vec![not(lprop("b"))]),
        Rule::new(prop("b"), vec![not(lprop("c"))]),
        fact(prop("c")),
    ])
    .unwrap();
    let state = State::empty();
    assert_eq!(holds(&lprop("c"), &state, &rules), Ok(true));
    assert_eq!(holds(&lprop("b"), &state, &rules), Ok(false));
    assert_eq!(holds(&lprop("a"), &state, &rules), Ok(true));
    assert_eq!(stratify(rules.rules()).unwrap(), vec![2, 1, 0]);
    // without the fact c, b holds and a does not
    let rules = RuleBase::new(vec![
        Rule::new(prop("a"), vec![not(lprop("b"))]),
        Rule::new(prop("b"), vec![not(lprop("c"))]),
    ])
    .unwrap();
    assert_eq!(holds(&lprop("b"), &state, &rules), Ok(true));
    assert_eq!(holds(&lprop("a"), &state, &rules), Ok(false));
    // a fact of the state counts as well
    let given = state_of(vec![prop("c")]);
    assert_eq!(holds(&lprop("b"), &given, &rules), Ok(false));
    assert_eq!(holds(&lprop("a"), &given, &rules), Ok(true));
}

#[test]
fn a_negated_disjunction_holds_where_no_branch_does() {
    // free(X) :- n(X), not or(p(X), q(X))
    let rules = RuleBase::new(vec![Rule::new(
        rel("free", vec![var("x")]),
        vec![
            lrel("n", vec![var("x")]),
            not(Literal::Or(vec![lrel("p", vec![var("x")]), lrel("q", vec![var("x")])])),
        ],
    )])
    .unwrap();
    let state = state_of(vec![
        rel("n", vec![con("1")]),
        rel("n", vec![con("2")]),
        rel("n", vec![con("3")]),
        rel("p", vec![con("1")]),
        rel("q", vec![con("2")]),
    ]);
    let out = derive_all(&"free".to_string(), &state, &rules);
    assert_eq!(out.len(), 1);
    assert!(out[0].equals(&rel("free", vec![con("3")])));
    let twice = not(not(lrel("p", vec![con("1")])));
    assert_eq!(holds(&twice, &state, &rules), Ok(true));
}

#[test]
fn a_proposition_and_a_relation_of_one_name_are_different_facts() {
    let state = state_of(vec![prop("p"), rel("p", vec![])]);
    assert_eq!(state.len(), 2);
    let rules = RuleBase::new(Vec::new()).unwrap();
    assert_eq!(derive_all(&"p".to_string(), &state, &rules).len(), 2);
    let only = state_of(vec![prop("p")]);
    assert_eq!(holds(&lrel("p", vec![]), &only, &rules), Ok(false));
    assert_eq!(holds(&lprop("p"), &only, &rules), Ok(true));
}

#[test]
fn patterns_reach_into_compound_terms() {
    // above(X, Y) :- true(on(X, Y)).  above(X, Z) :- true(on(X, Y)), above(Y, Z).
    let rules = RuleBase::new(vec![
        Rule::new(
            rel("above", vec![var("x"), var("y")]),
            vec![lrel("true", vec![fun("on", vec![var("x"), var("y")])])],
        ),
        Rule::new(
            rel("above", vec![var("x"), var("z")]),
            vec![
                lrel("true", vec![fun("on", vec![var("x"), var("y")])]),
                lrel("above", vec![var("y"), var("z")]),
            ],
        ),
    ])
    .unwrap();
    let state = state_of(vec![
        rel("true", vec![fun("on", vec![con("a"), con("b")])]),
        rel("true", vec![fun("on", vec![con("b"), con("c")])]),
        rel("true", vec![fun("clear", vec![con("a")])]),
    ]);
    let out = derive_all(&"above".to_string(), &state, &rules);
    assert_eq!(out.len(), 3);
    assert!(has(&out, &rel("above", vec![con("a"), con("c")])));
    assert_eq!(holds(&lrel("above", vec![var("x"), con("c")]), &state, &rules), Ok(true));
    assert_eq!(holds(&lrel("above", vec![con("c"), var("x")]), &state, &rules), Ok(false));
}
