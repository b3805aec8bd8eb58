use ggp::frame::{frame, parse_clock, start_from, turn_from, Framed};

fn some(s: &str) -> Option<String> {
    Some(s.to_string())
}

#[test]
fn a_start_is_taken_apart() {
    let framed = frame("(start m1 robot ((role robot) (legal robot a)) 30 10)");
    assert_eq!(
        framed,
        Framed::Start {
            match_id: "m1".to_string(),
            role: "robot".to_string(),
            description: "((role robot) (legal robot a))".to_string(),
            start_clock: 30,
            play_clock: 10,
        }
    );
}

#[test]
fn a_play_and_a_stop_are_taken_apart() {
    assert_eq!(
        frame("(play m1 (a (mark 1 2)))"),
        Framed::Play { match_id: "m1".to_string(), moves: "(a (mark 1 2))".to_string() }
    );
    assert_eq!(
        frame("(play m1 ())"),
        Framed::Play { match_id: "m1".to_string(), moves: "()".to_string() }
    );
    assert_eq!(frame("(play m1 nil)"), Framed::Unknown);
    assert_eq!(frame("(stop m1 nil)"), Framed::Unknown);
    assert_eq!(
        frame("(stop m1 (a b))"),
        Framed::Stop { match_id: "m1".to_string(), moves: "(a b)".to_string() }
    );
}

#[test]
fn a_text_of_no_known_shape_is_unknown() {
    assert_eq!(frame(""), Framed::Unknown);
    assert_eq!(frame("(info)"), Framed::Unknown);
    assert_eq!(frame("(start m1 robot)"), Framed::Unknown);
    assert_eq!(frame("(play m1)"), Framed::Unknown);
    assert_eq!(frame("play m1 (a)"), Framed::Unknown);
    assert_eq!(frame("(start m1 robot ((role robot)) 30 ten)"), Framed::Unknown);
}

#[test]
fn a_clock_that_does_not_fit_makes_the_start_unknown() {
    assert_eq!(frame("(start m1 robot ((role robot)) 4294967296 10)"), Framed::Unknown);
    assert_eq!(
        frame("(start m1 robot ((role robot)) 4294967295 0)"),
        Framed::Start {
            match_id: "m1".to_string(),
            role: "robot".to_string(),
            description: "((role robot))".to_string(),
            start_clock: 4294967295,
            play_clock: 0,
        }
    );
}

#[test]
fn clocks_are_decimal_numbers_of_32_bits() {
    assert_eq!(parse_clock(&"0".to_string()), Some(0));
    assert_eq!(parse_clock(&"30".to_string()), Some(30));
    assert_eq!(parse_clock(&"0030".to_string()), Some(30));
    assert_eq!(parse_clock(&"4294967295".to_string()), Some(4294967295));
    assert_eq!(parse_clock(&"4294967296".to_string()), None);
    assert_eq!(parse_clock(&"99999999999999999999999".to_string()), None);
    assert_eq!(parse_clock(&"".to_string()), None);
    assert_eq!(parse_clock(&"3x".to_string()), None);
    assert_eq!(parse_clock(&"-3".to_string()), None);
}

#[test]
fn groups_make_the_request() {
    let groups = vec![some("whole"), some("m1"), some("robot"), some("(d)"), some("5"), some("7")];
    assert_eq!(
        start_from(&groups),
        Framed::Start {
            match_id: "m1".to_string(),
            role: "robot".to_string(),
            description: "(d)".to_string(),
            start_clock: 5,
            play_clock: 7,
        }
    );
    let short = vec![some("whole"), some("m1"), some("robot")];
    assert_eq!(start_from(&short), Framed::Unknown);
    let gap = vec![some("whole"), some("m1"), None, some("(d)"), some("5"), some("7")];
    assert_eq!(start_from(&gap), Framed::Unknown);
    let turn = vec![some("whole"), some("m1"), some("(a)")];
    assert_eq!(
        turn_from(&turn, false),
        Framed::Play { match_id: "m1".to_string(), moves: "(a)".to_string() }
    );
    assert_eq!(
        turn_from(&turn, true),
        Framed::Stop { match_id: "m1".to_string(), moves: "(a)".to_string() }
    );
    assert_eq!(turn_from(&vec![some("whole"), None, some("(a)")], false), Framed::Unknown);
    assert_eq!(turn_from(&vec![some("whole")], true), Framed::Unknown);
}

#[test]
fn the_first_match_in_the_text_decides() {
    // a start that holds the text of a play is a start
    let framed = frame("(start m1 robot ((play m2 (a))) 1 2)");
    assert_eq!(
        framed,
        Framed::Start {
            match_id: "m1".to_string(),
            role: "robot".to_string(),
            description: "((play m2 (a)))".to_string(),
            start_clock: 1,
            play_clock: 2,
        }
    );
}
