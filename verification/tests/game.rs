use ggp::error::{ConfigError, EvalError, MatchError};
use ggp::game::{Game, MatchState};
use ggp::gdl::{parse_desc, score_of, GameDesc, Move, Role};
use ggp::sentence::{Literal, Rule, Sentence};
use ggp::state::State;
use ggp::term::Term;

fn var(n: &str) -> Term {
    Term::Var(n.to_string())
}

fn con(n: &str) -> Term {
    Term::Const(n.to_string())
}

fn fun(n: &str, args: Vec<Term>) -> Term {
    Term::Func(n.to_string(), args)
}

fn rel(n: &str, args: Vec<Term>) -> Sentence {
    Sentence::Rel(n.to_string(), args)
}

fn prop(n: &str) -> Sentence {
    Sentence::Prop(n.to_string())
}

fn lrel(n: &str, args: Vec<Term>) -> Literal {
    Literal::Rel(n.to_string(), args)
}

fn not(l: Literal) -> Literal {
    Literal::Not(Box::new(l))
}

fn fact(head: Sentence) -> Rule {
    Rule::new(head, Vec::new())
}

fn mv(n: &str) -> Move {
    Move::new(con(n)).unwrap()
}

/// One role, one proposition `p`, one move that is always legal and
/// makes `p` true; the game ends once `p` is true.
fn one_move_game() -> Vec<Rule> {
    vec![
        fact(rel("role", vec![con("robot")])),
        fact(rel("base", vec![con("p")])),
        fact(rel("input", vec![con("robot"), con("move_a")])),
        fact(rel("legal", vec![con("robot"), con("move_a")])),
        Rule::new(rel("next", vec![con("p")]), vec![lrel("does", vec![con("robot"), con("move_a")])]),
        Rule::new(
            rel("next", vec![con("p")]),
            vec![lrel("true", vec![con("p")]), lrel("does", vec![con("robot"), con("move_a")])],
        ),
        Rule::new(prop("terminal"), vec![lrel("true", vec![con("p")])]),
        Rule::new(rel("goal", vec![con("robot"), con("100")]), vec![lrel("true", vec![con("p")])]),
        Rule::new(
            rel("goal", vec![con("robot"), con("0")]),
            vec![not(lrel("true", vec![con("p")]))],
        ),
    ]
}

/// Two roles that each switch a lamp of their own on or off.
fn lamps_game() -> Vec<Rule> {
    vec![
        fact(rel("role", vec![con("left")])),
        fact(rel("role", vec![con("right")])),
        fact(rel("init", vec![fun("lamp", vec![con("left"), con("off")])])),
        fact(rel("init", vec![fun("lamp", vec![con("right"), con("off")])])),
        Rule::new(rel("legal", vec![var("r"), con("on")]), vec![lrel("role", vec![var("r")])]),
        Rule::new(rel("legal", vec![var("r"), con("off")]), vec![lrel("role", vec![var("r")])]),
        Rule::new(
            rel("next", vec![fun("lamp", vec![var("r"), var("m")])]),
            vec![lrel("does", vec![var("r"), var("m")])],
        ),
        Rule::new(
            prop("terminal"),
            vec![
                lrel("true", vec![fun("lamp", vec![con("left"), con("on")])]),
                lrel("true", vec![fun("lamp", vec![con("right"), con("on")])]),
            ],
        ),
        Rule::new(
            rel("goal", vec![var("r"), con("100")]),
            vec![lrel("true", vec![fun("lamp", vec![var("r"), con("on")])])],
        ),
        Rule::new(
            rel("goal", vec![var("r"), con("25")]),
            vec![lrel("true", vec![fun("lamp", vec![var("r"), con("off")])])],
        ),
    ]
}

fn game_of(clauses: Vec<Rule>, role: &str) -> Game {
    let desc: GameDesc = parse_desc(clauses).unwrap();
    Game::new(Role::new(role), 30, 10, desc)
}

#[test]
fn one_move_takes_the_single_role_game_to_its_end() {
    let mut game = game_of(one_move_game(), "robot");
    let robot = Role::new("robot");
    assert_eq!(game.get_current_state().len(), 0);
    assert!(!game.is_terminal(game.get_current_state().duplicate()));
    let legal = game.get_legal_moves(game.get_current_state(), &robot);
    assert_eq!(legal.len(), 1);
    assert_eq!(legal[0].to_string(), "move_a");
    assert_eq!(game.update(vec![mv("move_a")]), Ok(()));
    assert_eq!(game.get_match_state(), MatchState::Playing);
    let state = game.get_current_state().duplicate();
    assert_eq!(state.len(), 1);
    assert!(state.contains(&rel("true", vec![con("p")])));
    assert!(game.is_terminal(state.duplicate()));
    let goals = game.get_goals(&state).unwrap();
    assert_eq!(goals.len(), 1);
    assert_eq!(goals[0].role, robot);
    assert_eq!(goals[0].score, 100);
    assert_eq!(game.get_goal(&state, &robot), Ok(100));
}

#[test]
fn a_description_is_sorted_by_keyword() {
    let desc = parse_desc(one_move_game()).unwrap();
    assert_eq!(desc.roles, vec![Role::new("robot")]);
    assert_eq!(desc.bases.len(), 1);
    assert_eq!(desc.input.len(), 1);
    assert_eq!(desc.legal.len(), 1);
    assert_eq!(desc.next.len(), 2);
    assert_eq!(desc.terminal.len(), 1);
    assert_eq!(desc.goal.len(), 2);
    assert_eq!(desc.state.len(), 0);
    assert_eq!(desc.rules.rules().len(), 9);
    let lamps = parse_desc(lamps_game()).unwrap();
    assert_eq!(lamps.roles, vec![Role::new("left"), Role::new("right")]);
    assert_eq!(lamps.state.len(), 2);
    assert!(lamps.state.contains(&rel("true", vec![fun("lamp", vec![con("left"), con("off")])])));
    assert_eq!(lamps.rules.rules().len(), 8);
}

#[test]
fn a_description_without_a_role_is_refused() {
    let clauses = vec![fact(rel("legal", vec![con("robot"), con("a")]))];
    assert_eq!(parse_desc(clauses).err(), Some(ConfigError::MissingRole));
    assert_eq!(parse_desc(Vec::new()).err(), Some(ConfigError::MissingRole));
}

#[test]
fn a_keyword_with_the_wrong_number_of_arguments_is_refused() {
    let clauses = vec![fact(rel("role", vec![con("a"), con("b")]))];
    assert_eq!(parse_desc(clauses).err(), Some(ConfigError::BadArity));
    let clauses = vec![fact(rel("role", vec![con("a")])), fact(rel("terminal", vec![con("a")]))];
    assert_eq!(parse_desc(clauses).err(), Some(ConfigError::BadArity));
    let clauses = vec![
        fact(rel("role", vec![con("a")])),
        Rule::new(prop("terminal"), vec![lrel("true", vec![con("p"), con("q")])]),
    ];
    assert_eq!(parse_desc(clauses).err(), Some(ConfigError::BadArity));
    let clauses = vec![fact(rel("role", vec![con("a")])), fact(prop("legal"))];
    assert_eq!(parse_desc(clauses).err(), Some(ConfigError::BadArity));
}

#[test]
fn a_role_or_initial_fact_of_the_wrong_shape_is_refused() {
    let clauses = vec![fact(rel("role", vec![var("x")]))];
    assert_eq!(parse_desc(clauses).err(), Some(ConfigError::BadDeclaration));
    let clauses = vec![fact(rel("role", vec![con("a")])), fact(rel("init", vec![var("x")]))];
    assert_eq!(parse_desc(clauses).err(), Some(ConfigError::BadDeclaration));
    let clauses = vec![
        fact(rel("role", vec![con("a")])),
        Rule::new(rel("init", vec![con("p")]), vec![lrel("role", vec![con("a")])]),
    ];
    assert_eq!(parse_desc(clauses).err(), Some(ConfigError::BadDeclaration));
}

#[test]
fn a_body_that_reads_an_undefined_relation_is_refused() {
    let clauses = vec![
        fact(rel("role", vec![con("a")])),
        Rule::new(prop("terminal"), vec![lrel("line", vec![con("x")])]),
    ];
    assert_eq!(parse_desc(clauses).err(), Some(ConfigError::UndeclaredRelation));
    let clauses = vec![
        fact(rel("role", vec![con("a")])),
        fact(rel("init", vec![con("p")])),
        Rule::new(prop("terminal"), vec![not(lrel("init", vec![con("p")]))]),
    ];
    assert_eq!(parse_desc(clauses).err(), Some(ConfigError::UndeclaredRelation));
}

#[test]
fn an_unsafe_or_unstratified_description_is_refused() {
    let clauses = vec![
        fact(rel("role", vec![con("a")])),
        Rule::new(rel("legal", vec![con("a"), var("m")]), vec![lrel("role", vec![con("a")])]),
    ];
    assert_eq!(parse_desc(clauses).err(), Some(ConfigError::UnsafeRule));
    let clauses = vec![
        fact(rel("role", vec![con("a")])),
        Rule::new(prop("win"), vec![not(Literal::Prop("lose".to_string()))]),
        Rule::new(prop("lose"), vec![not(Literal::Prop("win".to_string()))]),
    ];
    assert_eq!(parse_desc(clauses).err(), Some(ConfigError::Unstratified));
}

#[test]
fn legal_moves_are_those_of_the_role() {
    let game = game_of(lamps_game(), "left");
    let state = game.get_initial_state().duplicate();
    let moves = game.get_legal_moves(&state, &Role::new("left"));
    let mut texts: Vec<String> = moves.iter().map(|m| m.to_string()).collect();
    texts.sort();
    assert_eq!(texts, vec!["off".to_string(), "on".to_string()]);
    assert!(game.get_legal_moves(&state, &Role::new("nobody")).is_empty());
}

#[test]
fn the_next_state_replaces_the_state() {
    let game = game_of(lamps_game(), "left");
    let start = game.get_initial_state().duplicate();
    let both = game.get_next_state(&start, vec![mv("on"), mv("on")]).unwrap();
    assert_eq!(both.len(), 2);
    assert!(both.contains(&rel("true", vec![fun("lamp", vec![con("left"), con("on")])])));
    assert!(both.contains(&rel("true", vec![fun("lamp", vec![con("right"), con("on")])])));
    assert!(!both.contains(&rel("true", vec![fun("lamp", vec![con("left"), con("off")])])));
    let mixed = game.get_next_state(&start, vec![mv("off"), mv("on")]).unwrap();
    assert_eq!(mixed.len(), 2);
    assert!(mixed.contains(&rel("true", vec![fun("lamp", vec![con("left"), con("off")])])));
    assert!(mixed.contains(&rel("true", vec![fun("lamp", vec![con("right"), con("on")])])));
    assert!(!mixed.contains(&rel("true", vec![fun("lamp", vec![con("left"), con("on")])])));
    // the state that was handed in is as it was
    assert_eq!(start.len(), 2);
    assert!(start.contains(&rel("true", vec![fun("lamp", vec![con("left"), con("off")])])));
}

#[test]
fn a_joint_move_holds_one_move_for_each_role() {
    let game = game_of(lamps_game(), "left");
    let start = game.get_initial_state().duplicate();
    assert_eq!(game.get_next_state(&start, vec![mv("on")]).err(), Some(EvalError::BadJointMove));
    // the empty joint move is no fault: the state is evaluated without a move
    let unmoved = game.get_next_state(&start, Vec::new()).unwrap();
    assert_eq!(unmoved.len(), 0);
    assert_eq!(
        game.get_next_state(&start, vec![mv("on"), mv("on"), mv("on")]).err(),
        Some(EvalError::BadJointMove)
    );
}

#[test]
fn terminal_states_and_goal_values() {
    let game = game_of(lamps_game(), "left");
    let start = game.get_initial_state().duplicate();
    assert!(!game.is_terminal(start.duplicate()));
    let mixed = game.get_next_state(&start, vec![mv("off"), mv("on")]).unwrap();
    assert!(!game.is_terminal(mixed.duplicate()));
    let goals = game.get_goals(&mixed).unwrap();
    assert_eq!(goals.len(), 2);
    assert_eq!(goals[0].role, Role::new("left"));
    assert_eq!(goals[0].score, 25);
    assert_eq!(goals[1].role, Role::new("right"));
    assert_eq!(goals[1].score, 100);
    let both = game.get_next_state(&start, vec![mv("on"), mv("on")]).unwrap();
    assert!(game.is_terminal(both.duplicate()));
    let goals = game.get_goals(&both).unwrap();
    assert_eq!(goals[0].score, 100);
    assert_eq!(goals[1].score, 100);
    assert_eq!(game.get_goal(&both, &Role::new("right")), Ok(100));
}

#[test]
fn a_role_without_exactly_one_score_is_a_violation() {
    let game = game_of(lamps_game(), "left");
    // no lamp at all: no goal value for either role, and the state is
    // not terminal, so both roles are left out
    let none = State::empty();
    assert!(!game.is_terminal(none.duplicate()));
    assert!(game.get_goals(&none).unwrap().is_empty());
    assert_eq!(game.get_goal(&none, &Role::new("left")), Err(EvalError::GoalViolation));
    // one lamp only: the role of the other lamp is left out
    let half = State::new(vec![rel("true", vec![fun("lamp", vec![con("right"), con("off")])])])
        .unwrap();
    let goals = game.get_goals(&half).unwrap();
    assert_eq!(goals.len(), 1);
    assert_eq!(goals[0].role, Role::new("right"));
    assert_eq!(goals[0].score, 25);
    // the left lamp both on and off: two goal values
    let twice = State::new(vec![
        rel("true", vec![fun("lamp", vec![con("left"), con("on")])]),
        rel("true", vec![fun("lamp", vec![con("left"), con("off")])]),
        rel("true", vec![fun("lamp", vec![con("right"), con("on")])]),
    ])
    .unwrap();
    assert_eq!(game.get_goals(&twice).err(), Some(EvalError::GoalViolation));
    assert_eq!(game.get_goal(&twice, &Role::new("right")), Ok(100));
    assert_eq!(game.get_goal(&twice, &Role::new("nobody")), Err(EvalError::GoalViolation));
}

#[test]
fn a_goal_value_that_is_no_score_is_a_violation() {
    let clauses = vec![
        fact(rel("role", vec![con("a")])),
        fact(rel("goal", vec![con("a"), con("101")])),
    ];
    let game = game_of(clauses, "a");
    assert_eq!(game.get_goals(&State::empty()).err(), Some(EvalError::GoalViolation));
    let clauses = vec![
        fact(rel("role", vec![con("a")])),
        fact(rel("goal", vec![con("a"), con("high")])),
    ];
    let game = game_of(clauses, "a");
    assert_eq!(game.get_goal(&State::empty(), &Role::new("a")), Err(EvalError::GoalViolation));
}

#[test]
fn scores_are_read_from_decimal_constants() {
    assert_eq!(score_of(&con("0")), Some(0));
    assert_eq!(score_of(&con("7")), Some(7));
    assert_eq!(score_of(&con("50")), Some(50));
    assert_eq!(score_of(&con("100")), Some(100));
    assert_eq!(score_of(&con("007")), Some(7));
    assert_eq!(score_of(&con("101")), None);
    assert_eq!(score_of(&con("999")), None);
    assert_eq!(score_of(&con("0100")), None);
    assert_eq!(score_of(&con("")), None);
    assert_eq!(score_of(&con("5x")), None);
    assert_eq!(score_of(&con("x5")), None);
    assert_eq!(score_of(&con("-5")), None);
    assert_eq!(score_of(&var("50")), None);
    assert_eq!(score_of(&fun("50", vec![])), None);
}

#[test]
fn moves_are_ground_terms_with_a_text() {
    assert!(Move::new(var("x")).is_none());
    assert!(Move::new(fun("mark", vec![con("1"), var("y")])).is_none());
    assert_eq!(mv("noop").to_string(), "noop");
    let mark = Move::new(fun("mark", vec![con("1"), con("2")])).unwrap();
    assert_eq!(mark.to_string(), "(mark 1 2)");
    let nested = Move::new(fun("move", vec![fun("cell", vec![con("a"), con("1")]), con("up")])).unwrap();
    assert_eq!(nested.to_string(), "(move (cell a 1) up)");
    assert_eq!(Move::new(fun("pass", vec![])).unwrap().to_string(), "(pass)");
    assert_eq!(nested.duplicate(), nested);
    let free = Move { term: fun("f", vec![var("x")]) };
    assert_eq!(free.to_string(), "(f ?x)");
}

#[test]
fn a_match_goes_from_started_to_playing_to_finished() {
    let mut game = game_of(lamps_game(), "right");
    assert_eq!(game.get_match_state(), MatchState::Started);
    assert_eq!(game.get_role(), &Role::new("right"));
    assert_eq!(game.get_roles().len(), 2);
    assert_eq!(game.get_start_clock(), 30);
    assert_eq!(game.get_play_clock(), 10);
    // the first turn brings no joint move
    assert_eq!(game.update(Vec::new()), Ok(()));
    assert_eq!(game.get_match_state(), MatchState::Started);
    assert_eq!(game.get_current_state().len(), 2);
    assert_eq!(game.update(vec![mv("on"), mv("off")]), Ok(()));
    assert_eq!(game.get_match_state(), MatchState::Playing);
    assert!(game
        .get_current_state()
        .contains(&rel("true", vec![fun("lamp", vec![con("left"), con("on")])])));
    assert_eq!(game.update(vec![mv("on")]), Err(MatchError::BadJointMove));
    assert_eq!(game.get_match_state(), MatchState::Playing);
    assert_eq!(game.finish(vec![mv("on"), mv("on")]), Ok(()));
    assert_eq!(game.get_match_state(), MatchState::Finished);
    assert!(game.is_terminal(game.get_current_state().duplicate()));
    assert_eq!(game.update(vec![mv("on"), mv("on")]), Err(MatchError::MatchFinished));
    assert_eq!(game.finish(Vec::new()), Err(MatchError::MatchFinished));
    assert_eq!(game.get_match_state(), MatchState::Finished);
    assert_eq!(game.get_initial_state().len(), 2);
    assert_eq!(game.get_description().roles.len(), 2);
}

#[test]
fn a_state_without_a_move_for_a_role_is_not_playable() {
    let game = game_of(lamps_game(), "left");
    let start = game.get_initial_state().duplicate();
    assert!(game.is_playable(&start));
    // only the first role may move, and the state is not terminal
    let clauses = vec![
        fact(rel("role", vec![con("a")])),
        fact(rel("role", vec![con("b")])),
        fact(rel("legal", vec![con("a"), con("go")])),
        Rule::new(prop("terminal"), vec![lrel("true", vec![con("over")])]),
    ];
    let stuck = game_of(clauses, "a");
    assert!(!stuck.is_playable(&State::empty()));
    let over = State::new(vec![rel("true", vec![con("over")])]).unwrap();
    assert!(stuck.is_playable(&over));
}

#[test]
fn a_name_applied_in_two_ways_is_refused() {
    let clauses = vec![
        fact(rel("role", vec![con("a")])),
        fact(rel("cell", vec![con("1"), con("2")])),
        Rule::new(prop("terminal"), vec![lrel("cell", vec![con("1")])]),
    ];
    assert_eq!(parse_desc(clauses).err(), Some(ConfigError::BadArity));
    let clauses = vec![
        fact(rel("role", vec![con("a")])),
        fact(prop("open")),
        Rule::new(prop("terminal"), vec![not(lrel("open", vec![con("1")]))]),
    ];
    assert_eq!(parse_desc(clauses).err(), Some(ConfigError::BadArity));
    let clauses = vec![
        fact(rel("role", vec![con("a")])),
        fact(rel("cell", vec![con("1"), con("2")])),
        Rule::new(prop("terminal"), vec![lrel("cell", vec![var("x"), var("x")])]),
    ];
    assert!(parse_desc(clauses).is_ok());
}

#[test]
fn a_terminal_state_owes_every_role_a_score() {
    // the game is over from the start, and nothing defines a goal
    let clauses = vec![fact(rel("role", vec![con("a")])), fact(prop("terminal"))];
    let game = game_of(clauses, "a");
    assert!(game.is_terminal(State::empty()));
    assert_eq!(game.get_goals(&State::empty()).err(), Some(EvalError::GoalViolation));
    // the same game without the end: no score, and no fault
    let game = game_of(vec![fact(rel("role", vec![con("a")]))], "a");
    assert!(!game.is_terminal(State::empty()));
    assert_eq!(game.get_goals(&State::empty()).unwrap().len(), 0);
}

#[test]
fn a_game_without_rules_has_an_empty_successor() {
    let game = game_of(vec![fact(rel("role", vec![con("r")]))], "r");
    let empty = State::empty();
    assert_eq!(game.get_next_state(&empty, Vec::new()).unwrap().len(), 0);
    assert_eq!(game.get_next_state(&empty, vec![mv("a")]).unwrap().len(), 0);
    assert_eq!(
        game.get_next_state(&empty, vec![mv("a"), mv("b")]).err(),
        Some(EvalError::BadJointMove)
    );
    let held = State::new(vec![rel("true", vec![con("p")])]).unwrap();
    assert_eq!(game.get_next_state(&held, Vec::new()).unwrap().len(), 0);
}

#[test]
fn the_end_of_a_match_makes_the_transition_without_a_move_too() {
    // a counter that goes one step on with each transition
    let clauses = vec![
        fact(rel("role", vec![con("robot")])),
        fact(rel("init", vec![con("zero")])),
        Rule::new(rel("next", vec![con("one")]), vec![lrel("true", vec![con("zero")])]),
    ];
    let mut game = game_of(clauses, "robot");
    assert_eq!(game.update(Vec::new()), Ok(()));
    assert!(game.get_current_state().contains(&rel("true", vec![con("zero")])));
    assert_eq!(game.finish(Vec::new()), Ok(()));
    assert_eq!(game.get_match_state(), MatchState::Finished);
    assert_eq!(game.get_current_state().len(), 1);
    assert!(game.get_current_state().contains(&rel("true", vec![con("one")])));
}

#[test]
fn a_role_declared_twice_is_refused() {
    let clauses = vec![
        fact(rel("role", vec![con("a")])),
        fact(rel("role", vec![con("b")])),
        fact(rel("role", vec![con("a")])),
    ];
    assert_eq!(parse_desc(clauses).err(), Some(ConfigError::BadDeclaration));
}

#[test]
fn a_role_without_a_move_is_reported() {
    let clauses = vec![
        fact(rel("role", vec![con("a")])),
        fact(rel("role", vec![con("b")])),
        fact(rel("legal", vec![con("a"), con("go")])),
        Rule::new(prop("terminal"), vec![lrel("true", vec![con("over")])]),
    ];
    let game = game_of(clauses, "a");
    let start = State::empty();
    let moves = game.legal_moves_or_fault(&start, &Role::new("a")).unwrap();
    assert_eq!(moves.len(), 1);
    assert_eq!(moves[0].to_string(), "go");
    assert_eq!(
        game.legal_moves_or_fault(&start, &Role::new("b")).err(),
        Some(EvalError::NoLegalMove)
    );
    // a stranger to the game has no move, and that is no fault of the game
    assert!(game.legal_moves_or_fault(&start, &Role::new("c")).unwrap().is_empty());
    // in a terminal state nobody needs a move
    let over = State::new(vec![rel("true", vec![con("over")])]).unwrap();
    assert!(game.legal_moves_or_fault(&over, &Role::new("b")).unwrap().is_empty());
    assert!(game.get_legal_moves(&start, &Role::new("b")).is_empty());
}
