use ggp::error::{ConfigError, MatchError};
use ggp::game_manager::{Game, GameManager, MatchState, Player, Request};
use ggp::gdl::Move;
use ggp::sentence::{Literal, Rule, Sentence};
use ggp::term::Term;

fn con(n: &str) -> Term {
    Term::Const(n.to_string())
}

fn rel(n: &str, args: Vec<Term>) -> Sentence {
    Sentence::Rel(n.to_string(), args)
}

fn lrel(n: &str, args: Vec<Term>) -> Literal {
    Literal::Rel(n.to_string(), args)
}

fn fact(head: Sentence) -> Rule {
    Rule::new(head, Vec::new())
}

fn mv(n: &str) -> Move {
    Move::new(con(n)).unwrap()
}

fn one_move_game() -> Vec<Rule> {
    vec![
        fact(rel("role", vec![con("robot")])),
        fact(rel("legal", vec![con("robot"), con("move_a")])),
        Rule::new(rel("next", vec![con("p")]), vec![lrel("does", vec![con("robot"), con("move_a")])]),
        Rule::new(Sentence::Prop("terminal".to_string()), vec![lrel("true", vec![con("p")])]),
        Rule::new(rel("goal", vec![con("robot"), con("100")]), vec![lrel("true", vec![con("p")])]),
    ]
}

/// A player that plays its first legal move and keeps count of what it is told.
struct Counting {
    started: usize,
    asked: usize,
    stopped: usize,
    last_size: usize,
}

impl Counting {
    fn new() -> Counting {
        Counting { started: 0, asked: 0, stopped: 0, last_size: 0 }
    }
}

impl Player for Counting {
    fn meta_game(&mut self, game: &Game) {
        self.started += 1;
        self.last_size = game.get_current_state().len();
    }

    fn select_move(&mut self, game: &Game) -> Move {
        self.asked += 1;
        self.last_size = game.get_current_state().len();
        let mut legal = game.get_legal_moves(game.get_current_state(), game.get_role());
        if legal.is_empty() {
            mv("noop")
        } else {
            legal.remove(0)
        }
    }

    fn stop(&mut self, game: &Game) {
        self.stopped += 1;
        self.last_size = game.get_current_state().len();
        assert_eq!(game.get_match_state(), MatchState::Finished);
    }
}

#[test]
fn a_match_is_started_played_and_stopped() {
    let mut gm = GameManager::new(Counting::new());
    assert_eq!(gm.match_count(), 0);
    assert_eq!(gm.handle_start("m1", "robot", one_move_game(), 30, 10), Ok("ready".to_string()));
    assert_eq!(gm.match_count(), 1);
    assert_eq!(gm.get_game("m1").unwrap().get_match_state(), MatchState::Started);
    assert_eq!(gm.get_game("m1").unwrap().get_start_clock(), 30);
    assert_eq!(gm.get_game("m1").unwrap().get_play_clock(), 10);
    assert_eq!(gm.handle_play("m1", Vec::new()), Ok("move_a".to_string()));
    assert_eq!(gm.get_game("m1").unwrap().get_match_state(), MatchState::Started);
    assert_eq!(gm.get_game("m1").unwrap().get_current_state().len(), 0);
    assert_eq!(gm.handle_play("m1", vec![mv("move_a")]), Ok("move_a".to_string()));
    assert_eq!(gm.get_game("m1").unwrap().get_match_state(), MatchState::Playing);
    assert_eq!(gm.get_game("m1").unwrap().get_current_state().len(), 1);
    assert_eq!(gm.handle_stop("m1", vec![mv("move_a")]), Ok("done".to_string()));
    assert_eq!(gm.match_count(), 0);
    assert!(gm.get_game("m1").is_none());
}

#[test]
fn a_second_start_under_the_same_id_is_refused() {
    let mut gm = GameManager::new(Counting::new());
    assert_eq!(gm.handle_start("m1", "robot", one_move_game(), 30, 10), Ok("ready".to_string()));
    assert_eq!(gm.handle_play("m1", vec![mv("move_a")]), Ok("move_a".to_string()));
    assert_eq!(
        gm.handle_start("m1", "other", one_move_game(), 5, 5),
        Err(MatchError::DuplicateMatch)
    );
    assert_eq!(gm.match_count(), 1);
    let game = gm.get_game("m1").unwrap();
    assert_eq!(game.get_match_state(), MatchState::Playing);
    assert_eq!(game.get_current_state().len(), 1);
    assert_eq!(game.get_role().name, "robot");
    assert_eq!(game.get_start_clock(), 30);
}

#[test]
fn a_play_after_the_stop_is_refused() {
    let mut gm = GameManager::new(Counting::new());
    assert_eq!(gm.handle_start("m1", "robot", one_move_game(), 30, 10), Ok("ready".to_string()));
    assert_eq!(gm.handle_stop("m1", vec![mv("move_a")]), Ok("done".to_string()));
    assert_eq!(gm.handle_play("m1", vec![mv("move_a")]), Err(MatchError::UnknownMatch));
    assert_eq!(gm.handle_play("m1", Vec::new()), Err(MatchError::UnknownMatch));
    assert_eq!(gm.handle_stop("m1", Vec::new()), Err(MatchError::UnknownMatch));
}

#[test]
fn a_request_for_an_unknown_match_is_refused() {
    let mut gm = GameManager::new(Counting::new());
    assert_eq!(gm.handle_play("nope", Vec::new()), Err(MatchError::UnknownMatch));
    assert_eq!(gm.handle_stop("nope", Vec::new()), Err(MatchError::UnknownMatch));
    assert_eq!(gm.match_count(), 0);
}

#[test]
fn a_description_that_is_refused_starts_no_match() {
    let mut gm = GameManager::new(Counting::new());
    let clauses = vec![fact(rel("legal", vec![con("robot"), con("a")]))];
    assert_eq!(
        gm.handle_start("m1", "robot", clauses, 30, 10),
        Err(MatchError::Config(ConfigError::MissingRole))
    );
    assert_eq!(gm.match_count(), 0);
    assert!(gm.get_game("m1").is_none());
}

#[test]
fn a_joint_move_of_the_wrong_size_leaves_the_match_as_it_is() {
    let mut gm = GameManager::new(Counting::new());
    assert_eq!(gm.handle_start("m1", "robot", one_move_game(), 30, 10), Ok("ready".to_string()));
    assert_eq!(
        gm.handle_play("m1", vec![mv("move_a"), mv("move_a")]),
        Err(MatchError::BadJointMove)
    );
    assert_eq!(gm.get_game("m1").unwrap().get_match_state(), MatchState::Started);
    assert_eq!(gm.get_game("m1").unwrap().get_current_state().len(), 0);
    assert_eq!(
        gm.handle_stop("m1", vec![mv("move_a"), mv("move_a")]),
        Err(MatchError::BadJointMove)
    );
    assert_eq!(gm.match_count(), 1);
}

#[test]
fn matches_do_not_touch_each_other() {
    let mut gm = GameManager::new(Counting::new());
    assert_eq!(gm.handle_start("m1", "robot", one_move_game(), 30, 10), Ok("ready".to_string()));
    assert_eq!(gm.handle_start("m2", "robot", one_move_game(), 20, 5), Ok("ready".to_string()));
    assert_eq!(gm.match_count(), 2);
    assert_eq!(gm.handle_play("m2", vec![mv("move_a")]), Ok("move_a".to_string()));
    assert_eq!(gm.get_game("m1").unwrap().get_match_state(), MatchState::Started);
    assert_eq!(gm.get_game("m1").unwrap().get_current_state().len(), 0);
    assert_eq!(gm.get_game("m2").unwrap().get_match_state(), MatchState::Playing);
    assert_eq!(gm.handle_stop("m1", Vec::new()), Ok("done".to_string()));
    assert_eq!(gm.match_count(), 1);
    assert_eq!(gm.get_game("m2").unwrap().get_current_state().len(), 1);
    assert_eq!(gm.get_game("m2").unwrap().get_play_clock(), 5);
}

#[test]
fn requests_are_answered_by_their_shape() {
    let mut gm = GameManager::new(Counting::new());
    let start = Request::Start {
        match_id: "m1".to_string(),
        role: "robot".to_string(),
        clauses: one_move_game(),
        start_clock: 30,
        play_clock: 10,
    };
    assert_eq!(gm.handle(start), Ok("ready".to_string()));
    let play = Request::Play { match_id: "m1".to_string(), moves: vec![mv("move_a")] };
    assert_eq!(gm.handle(play), Ok("move_a".to_string()));
    assert_eq!(gm.handle(Request::Unknown), Ok(String::new()));
    assert_eq!(gm.match_count(), 1);
    let stop = Request::Stop { match_id: "m1".to_string(), moves: vec![mv("move_a")] };
    assert_eq!(gm.handle(stop), Ok("done".to_string()));
    let again = Request::Play { match_id: "m1".to_string(), moves: Vec::new() };
    assert_eq!(gm.handle(again), Err(MatchError::UnknownMatch));
}

#[test]
fn the_same_joint_move_twice_is_two_turns() {
    // a counter that goes one step on with each move
    let clauses = vec![
        fact(rel("role", vec![con("robot")])),
        fact(rel("init", vec![con("zero")])),
        fact(rel("legal", vec![con("robot"), con("step")])),
        Rule::new(rel("next", vec![con("one")]), vec![lrel("true", vec![con("zero")])]),
        Rule::new(rel("next", vec![con("two")]), vec![lrel("true", vec![con("one")])]),
    ];
    let mut gm = GameManager::new(Counting::new());
    assert_eq!(gm.handle_start("m1", "robot", clauses, 30, 10), Ok("ready".to_string()));
    let zero = rel("true", vec![con("zero")]);
    let one = rel("true", vec![con("one")]);
    let two = rel("true", vec![con("two")]);
    assert!(gm.get_game("m1").unwrap().get_current_state().contains(&zero));
    assert_eq!(gm.handle_play("m1", vec![mv("step")]), Ok("step".to_string()));
    assert!(gm.get_game("m1").unwrap().get_current_state().contains(&one));
    assert!(!gm.get_game("m1").unwrap().get_current_state().contains(&zero));
    assert_eq!(gm.handle_play("m1", vec![mv("step")]), Ok("step".to_string()));
    assert!(gm.get_game("m1").unwrap().get_current_state().contains(&two));
    assert!(!gm.get_game("m1").unwrap().get_current_state().contains(&one));
    assert_eq!(gm.handle_play("m1", vec![mv("step")]), Ok("step".to_string()));
    assert_eq!(gm.get_game("m1").unwrap().get_current_state().len(), 0);
}
