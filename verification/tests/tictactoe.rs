use ggp::game::{Game, MatchState};
use ggp::gdl::{parse_desc, Move, Role};
use ggp::sentence::{Literal, Rule, Sentence};
use ggp::state::State;
use ggp::term::Term;

/// A nested list of words, as the description language writes them.
#[derive(Debug, Clone)]
enum Node {
    Word(String),
    List(Vec<Node>),
}

fn read_nodes(text: &str) -> Vec<Node> {
    let mut stack: Vec<Vec<Node>> = vec![Vec::new()];
    let mut word = String::new();
    for c in text.chars() {
        if c == '(' || c == ')' || c.is_whitespace() {
            if !word.is_empty() {
                stack.last_mut().unwrap().push(Node::Word(word.clone()));
                word.clear();
            }
            if c == '(' {
                stack.push(Vec::new());
            } else if c == ')' {
                let done = stack.pop().unwrap();
                stack.last_mut().unwrap().push(Node::List(done));
            }
        } else {
            word.push(c);
        }
    }
    if !word.is_empty() {
        stack.last_mut().unwrap().push(Node::Word(word));
    }
    assert_eq!(stack.len(), 1);
    stack.pop().unwrap()
}

fn term(n: &Node) -> Term {
    match n {
        Node::Word(w) => match w.strip_prefix('?') {
            Some(v) => Term::Var(v.to_string()),
            None => Term::Const(w.clone()),
        },
        Node::List(items) => match &items[0] {
            Node::Word(f) => Term::Func(f.clone(), items[1..].iter().map(term).collect()),
            Node::List(_) => panic!("a term starts with a word"),
        },
    }
}

fn sentence(n: &Node) -> Sentence {
    match n {
        Node::Word(w) => Sentence::Prop(w.clone()),
        Node::List(items) => match &items[0] {
            Node::Word(f) => Sentence::Rel(f.clone(), items[1..].iter().map(term).collect()),
            Node::List(_) => panic!("a sentence starts with a word"),
        },
    }
}

fn literal(n: &Node) -> Literal {
    match n {
        Node::Word(w) => Literal::Prop(w.clone()),
        Node::List(items) => match &items[0] {
            Node::Word(f) if f == "not" => Literal::Not(Box::new(literal(&items[1]))),
            Node::Word(f) if f == "or" => Literal::Or(items[1..].iter().map(literal).collect()),
            Node::Word(f) if f == "distinct" => Literal::Distinct(term(&items[1]), term(&items[2])),
            Node::Word(f) => Literal::Rel(f.clone(), items[1..].iter().map(term).collect()),
            Node::List(_) => panic!("a literal starts with a word"),
        },
    }
}

fn clauses(text: &str) -> Vec<Rule> {
    read_nodes(text)
        .iter()
        .map(|n| match n {
            Node::List(items) if matches!(&items[0], Node::Word(w) if w == "<=") => {
                Rule::new(sentence(&items[1]), items[2..].iter().map(literal).collect())
            }
            other => Rule::new(sentence(other), Vec::new()),
        })
        .collect()
}

fn mv(text: &str) -> Move {
    Move::new(term(&read_nodes(text)[0])).unwrap()
}

fn fact(text: &str) -> Sentence {
    sentence(&read_nodes(text)[0])
}

const TICTACTOE: &str = "
(role xplayer)
(role oplayer)
(index 1) (index 2) (index 3)
(<= (base (cell ?x ?y b)) (index ?x) (index ?y))
(<= (base (cell ?x ?y x)) (index ?x) (index ?y))
(<= (base (cell ?x ?y o)) (index ?x) (index ?y))
(<= (base (control ?p)) (role ?p))
(<= (input ?p (mark ?x ?y)) (index ?x) (index ?y) (role ?p))
(<= (input ?p noop) (role ?p))
(init (cell 1 1 b)) (init (cell 1 2 b)) (init (cell 1 3 b))
(init (cell 2 1 b)) (init (cell 2 2 b)) (init (cell 2 3 b))
(init (cell 3 1 b)) (init (cell 3 2 b)) (init (cell 3 3 b))
(init (control xplayer))
(<= (next (cell ?m ?n x)) (does xplayer (mark ?m ?n)) (true (cell ?m ?n b)))
(<= (next (cell ?m ?n o)) (does oplayer (mark ?m ?n)) (true (cell ?m ?n b)))
(<= (next (cell ?m ?n ?w)) (true (cell ?m ?n ?w)) (distinct ?w b))
(<= (next (cell ?m ?n b)) (does ?w (mark ?j ?k)) (true (cell ?m ?n b))
    (or (distinct ?m ?j) (distinct ?n ?k)))
(<= (next (control xplayer)) (true (control oplayer)))
(<= (next (control oplayer)) (true (control xplayer)))
(<= (row ?m ?x) (true (cell ?m 1 ?x)) (true (cell ?m 2 ?x)) (true (cell ?m 3 ?x)))
(<= (column ?n ?x) (true (cell 1 ?n ?x)) (true (cell 2 ?n ?x)) (true (cell 3 ?n ?x)))
(<= (diagonal ?x) (true (cell 1 1 ?x)) (true (cell 2 2 ?x)) (true (cell 3 3 ?x)))
(<= (diagonal ?x) (true (cell 1 3 ?x)) (true (cell 2 2 ?x)) (true (cell 3 1 ?x)))
(<= (line ?x) (row ?m ?x))
(<= (line ?x) (column ?m ?x))
(<= (line ?x) (diagonal ?x))
(<= open (true (cell ?m ?n b)))
(<= (legal ?w (mark ?x ?y)) (true (cell ?x ?y b)) (true (control ?w)))
(<= (legal xplayer noop) (true (control oplayer)))
(<= (legal oplayer noop) (true (control xplayer)))
(<= (goal xplayer 100) (line x))
(<= (goal xplayer 50) (not (line x)) (not (line o)) (not open))
(<= (goal xplayer 0) (line o))
(<= (goal oplayer 100) (line o))
(<= (goal oplayer 50) (not (line x)) (not (line o)) (not open))
(<= (goal oplayer 0) (line x))
(<= terminal (line x))
(<= terminal (line o))
(<= terminal (not open))
";

fn tictactoe() -> Game {
    Game::new(Role::new("xplayer"), 30, 10, parse_desc(clauses(TICTACTOE)).unwrap())
}

fn texts(moves: &Vec<Move>) -> Vec<String> {
    let mut out: Vec<String> = moves.iter().map(|m| m.to_string()).collect();
    out.sort();
    out
}

#[test]
fn the_board_starts_blank_with_nine_moves_for_the_first_player() {
    let game = tictactoe();
    let start = game.get_initial_state().duplicate();
    assert_eq!(start.len(), 10);
    assert!(start.contains(&fact("(true (cell 2 2 b))")));
    assert!(start.contains(&fact("(true (control xplayer))")));
    assert_eq!(game.get_roles().len(), 2);
    let x = game.get_legal_moves(&start, &Role::new("xplayer"));
    assert_eq!(x.len(), 9);
    assert_eq!(texts(&x)[0], "(mark 1 1)");
    assert_eq!(texts(&x)[8], "(mark 3 3)");
    let o = game.get_legal_moves(&start, &Role::new("oplayer"));
    assert_eq!(texts(&o), vec!["noop".to_string()]);
    assert!(!game.is_terminal(start.duplicate()));
    assert!(game.is_playable(&start));
}

#[test]
fn a_mark_fills_its_cell_and_passes_control() {
    let game = tictactoe();
    let start = game.get_initial_state().duplicate();
    let next = game.get_next_state(&start, vec![mv("(mark 2 2)"), mv("noop")]).unwrap();
    assert_eq!(next.len(), 10);
    assert!(next.contains(&fact("(true (cell 2 2 x))")));
    assert!(!next.contains(&fact("(true (cell 2 2 b))")));
    assert!(next.contains(&fact("(true (cell 1 1 b))")));
    assert!(next.contains(&fact("(true (control oplayer))")));
    assert!(!next.contains(&fact("(true (control xplayer))")));
    let o = game.get_legal_moves(&next, &Role::new("oplayer"));
    assert_eq!(o.len(), 8);
    assert!(!texts(&o).contains(&"(mark 2 2)".to_string()));
    assert_eq!(texts(&game.get_legal_moves(&next, &Role::new("xplayer"))), vec!["noop".to_string()]);
}

#[test]
fn a_line_of_three_ends_the_game() {
    let mut game = tictactoe();
    let turns = [
        ("(mark 1 1)", "noop"),
        ("noop", "(mark 2 1)"),
        ("(mark 1 2)", "noop"),
        ("noop", "(mark 2 2)"),
    ];
    for (x, o) in turns.iter() {
        assert_eq!(game.update(vec![mv(x), mv(o)]), Ok(()));
        assert!(!game.is_terminal(game.get_current_state().duplicate()));
        assert!(game.is_playable(game.get_current_state()));
    }
    assert_eq!(game.get_match_state(), MatchState::Playing);
    assert_eq!(game.finish(vec![mv("(mark 1 3)"), mv("noop")]), Ok(()));
    assert_eq!(game.get_match_state(), MatchState::Finished);
    let last = game.get_current_state().duplicate();
    assert!(last.contains(&fact("(true (cell 1 3 x))")));
    assert!(game.is_terminal(last.duplicate()));
    let goals = game.get_goals(&last).unwrap();
    assert_eq!(goals.len(), 2);
    assert_eq!(goals[0].role, Role::new("xplayer"));
    assert_eq!(goals[0].score, 100);
    assert_eq!(goals[1].role, Role::new("oplayer"));
    assert_eq!(goals[1].score, 0);
}

#[test]
fn a_full_board_without_a_line_is_a_draw() {
    let game = tictactoe();
    let board = "
        (true (cell 1 1 x)) (true (cell 1 2 o)) (true (cell 1 3 x))
        (true (cell 2 1 x)) (true (cell 2 2 o)) (true (cell 2 3 o))
        (true (cell 3 1 o)) (true (cell 3 2 x)) (true (cell 3 3 x))
        (true (control oplayer))";
    let state = State::new(read_nodes(board).iter().map(sentence).collect()).unwrap();
    assert!(game.is_terminal(state.duplicate()));
    assert!(game.get_legal_moves(&state, &Role::new("oplayer")).is_empty());
    assert_eq!(game.get_goal(&state, &Role::new("xplayer")), Ok(50));
    assert_eq!(game.get_goal(&state, &Role::new("oplayer")), Ok(50));
    assert!(game.is_playable(&state));
}

#[test]
fn the_rules_are_laid_out_in_strata() {
    let desc = parse_desc(clauses(TICTACTOE)).unwrap();
    assert_eq!(desc.roles.len(), 2);
    assert_eq!(desc.bases.len(), 4);
    assert_eq!(desc.input.len(), 2);
    assert_eq!(desc.legal.len(), 3);
    assert_eq!(desc.next.len(), 6);
    assert_eq!(desc.terminal.len(), 3);
    assert_eq!(desc.goal.len(), 6);
    assert_eq!(desc.state.len(), 10);
}
