//! The shapes of the request texts: a text is matched against the
//! pattern of a start, a play and a stop, in this order, and taken apart
//! by the first that matches.

use crate::gdl::{decimal_value, digit_of, digit_value};
use vstd::prelude::*;
use vstd::string::StrSliceExecFns;

verus! {

/// The pattern of a start: match id, role, description, start clock and
/// play clock.
pub const START_PATTERN: &'static str = r"\(start ([^ ]+) ([^ ]+) (\(.*\)) (\d+) (\d+)\)";

/// The pattern of a play: match id and joint move, a list in round
/// brackets.
pub const PLAY_PATTERN: &'static str = r"\(play ([^ ]+) (\(.*\))\)";

/// The pattern of a stop: match id and joint move.
pub const STOP_PATTERN: &'static str = r"\(stop ([^ ]+) (\(.*\))\)";

/// What the first match of the pattern in the text captures: the text of
/// each group, the whole match first, and none for a group that took no
/// part. It is none where the pattern matches nowhere in the text, and
/// where the pattern is no pattern.
pub uninterp spec fn regex_captures(pattern: Seq<char>, text: Seq<char>) -> Option<
    Seq<Option<Seq<char>>>,
>;

/// The texts of the groups, as values.
pub open spec fn groups_view(groups: Seq<Option<String>>) -> Seq<Option<Seq<char>>> {
    Seq::new(
        groups.len(),
        |i: int|
            match groups[i] {
                Some(s) => Some(s@),
                None => None,
            },
    )
}

/// The captures, as values.
pub open spec fn captures_view(caps: Option<Vec<Option<String>>>) -> Option<
    Seq<Option<Seq<char>>>,
> {
    match caps {
        Some(groups) => Some(groups_view(groups@)),
        None => None,
    }
}

/// Compiles the pattern with `regex::Regex::new` and matches it against
/// the text with `Regex::captures`. Nothing is proved of the matching:
/// the result is taken to be what the first match captures, as the name
/// `regex_captures` says, and to depend on pattern and text alone.
#[verifier::external_body]
fn captures(pattern: &str, text: &str) -> (r: Option<Vec<Option<String>>>)
    ensures
        captures_view(r) == regex_captures(pattern@, text@),
{
    let re = regex::Regex::new(pattern).ok()?;
    let caps = re.captures(text)?;
    Some(caps.iter().map(|m| m.map(|m| m.as_str().to_string())).collect())
}

/// The mathematical value of a framed request.
pub enum FramedV {
    Start {
        match_id: Seq<char>,
        role: Seq<char>,
        description: Seq<char>,
        start_clock: u32,
        play_clock: u32,
    },
    Play { match_id: Seq<char>, moves: Seq<char> },
    Stop { match_id: Seq<char>, moves: Seq<char> },
    Unknown,
}

/// A request text, taken apart. Description and joint move are still text.
#[derive(Debug, Clone, PartialEq, Eq)]
pub enum Framed {
    Start { match_id: String, role: String, description: String, start_clock: u32, play_clock: u32 },
    Play { match_id: String, moves: String },
    Stop { match_id: String, moves: String },
    Unknown,
}

impl View for Framed {
    type V = FramedV;

    open spec fn view(&self) -> FramedV {
        match self {
            Framed::Start { match_id, role, description, start_clock, play_clock } => FramedV::Start {
                match_id: match_id@,
                role: role@,
                description: description@,
                start_clock: *start_clock,
                play_clock: *play_clock,
            },
            Framed::Play { match_id, moves } => FramedV::Play {
                match_id: match_id@,
                moves: moves@,
            },
            Framed::Stop { match_id, moves } => FramedV::Stop {
                match_id: match_id@,
                moves: moves@,
            },
            Framed::Unknown => FramedV::Unknown,
        }
    }
}

/// The text of group `i`, if there is such a group and it took part.
pub open spec fn group(groups: Seq<Option<Seq<char>>>, i: int) -> Option<Seq<char>> {
    if 0 <= i < groups.len() {
        groups[i]
    } else {
        None
    }
}

/// The clock value that a text of decimal digits stands for, if it fits
/// in 32 bits.
pub open spec fn clock_value(s: Seq<char>) -> Option<u32> {
    match decimal_value(s) {
        Some(v) => if v <= u32::MAX {
            Some(v as u32)
        } else {
            None
        },
        None => None,
    }
}

/// The start that the groups make: groups one to five are match id,
/// role, description and the two clocks. Where a group is missing or a
/// clock is no 32-bit number, the request has no known shape.
pub open spec fn start_spec(groups: Seq<Option<Seq<char>>>) -> FramedV {
    match (group(groups, 1), group(groups, 2), group(groups, 3), group(groups, 4), group(groups, 5)) {
        (Some(match_id), Some(role), Some(description), Some(first), Some(second)) => match (
            clock_value(first),
            clock_value(second),
        ) {
            (Some(start_clock), Some(play_clock)) => FramedV::Start {
                match_id,
                role,
                description,
                start_clock,
                play_clock,
            },
            _ => FramedV::Unknown,
        },
        _ => FramedV::Unknown,
    }
}

/// The play or stop that the groups make: groups one and two are match
/// id and joint move.
pub open spec fn turn_spec(groups: Seq<Option<Seq<char>>>, stop: bool) -> FramedV {
    match (group(groups, 1), group(groups, 2)) {
        (Some(match_id), Some(moves)) => if stop {
            FramedV::Stop { match_id, moves }
        } else {
            FramedV::Play { match_id, moves }
        },
        _ => FramedV::Unknown,
    }
}

/// The request that the captures of the three patterns make: the first
/// pattern that matches decides.
pub open spec fn frame_spec(
    start: Option<Seq<Option<Seq<char>>>>,
    play: Option<Seq<Option<Seq<char>>>>,
    stop: Option<Seq<Option<Seq<char>>>>,
) -> FramedV {
    match start {
        Some(groups) => start_spec(groups),
        None => match play {
            Some(groups) => turn_spec(groups, false),
            None => match stop {
                Some(groups) => turn_spec(groups, true),
                None => FramedV::Unknown,
            },
        },
    }
}

/// A number is at least the number that a prefix of its text stands for.
pub proof fn lemma_decimal_grows(s: Seq<char>, upto: int)
    requires
        0 < upto <= s.len(),
        decimal_value(s.take(upto)) is Some,
    ensures
        decimal_value(s) is Some ==> decimal_value(s)->Some_0 >= decimal_value(
            s.take(upto),
        )->Some_0,
    decreases s.len() - upto,
{
    if upto < s.len() {
        let next = s.take(upto + 1);
        assert(next.drop_last() =~= s.take(upto));
        if decimal_value(next) is Some {
            lemma_decimal_grows(s, upto + 1);
        } else {
            crate::gdl::lemma_decimal_prefix(s, upto + 1);
        }
    } else {
        assert(s.take(upto) =~= s);
    }
}

/// The clock value that the text stands for.
pub fn parse_clock(s: &String) -> (r: Option<u32>)
    ensures
        r == clock_value(s@),
{
    let text = s.as_str();
    let n = text.unicode_len();
    if n == 0 {
        return None;
    }
    let mut acc: u64 = 0;
    let mut i: usize = 0;
    while i < n
        invariant
            i <= n,
            n == text@.len(),
            text@ == s@,
            i > 0 ==> decimal_value(text@.take(i as int)) == Some(acc as nat),
            i == 0 ==> acc == 0,
            acc <= u32::MAX,
        decreases n - i,
    {
        let c = text.get_char(i);
        let ghost prefix = text@.take(i as int + 1);
        proof {
            assert(prefix.last() == text@[i as int]);
            assert(prefix.drop_last() =~= text@.take(i as int));
            assert(prefix.len() == i + 1);
            if i == 0 {
                assert(prefix[0] == text@[0]);
            }
        }
        match digit_of(c) {
            Some(d) => {
                let next: u64 = acc * 10 + d as u64;
                assert(decimal_value(prefix) == Some(next as nat));
                if next > u32::MAX as u64 {
                    proof {
                        lemma_decimal_grows(text@, i as int + 1);
                    }
                    return None;
                }
                acc = next;
            },
            None => {
                proof {
                    assert(digit_value(prefix.last()) is None);
                    assert(decimal_value(prefix) is None);
                    crate::gdl::lemma_decimal_prefix(text@, i as int + 1);
                }
                return None;
            },
        }
        i += 1;
    }
    assert(text@.take(n as int) =~= text@);
    Some(acc as u32)
}

/// The start that the groups of a match of the start pattern make.
pub fn start_from(groups: &Vec<Option<String>>) -> (r: Framed)
    ensures
        r@ == start_spec(groups_view(groups@)),
{
    if groups.len() < 6 {
        return Framed::Unknown;
    }
    let ghost gv = groups_view(groups@);
    assert(gv[1] == group(gv, 1) && gv[2] == group(gv, 2) && gv[3] == group(gv, 3) && gv[4]
        == group(gv, 4) && gv[5] == group(gv, 5));
    match (&groups[1], &groups[2], &groups[3], &groups[4], &groups[5]) {
        (Some(match_id), Some(role), Some(description), Some(first), Some(second)) => {
            match (parse_clock(first), parse_clock(second)) {
                (Some(start_clock), Some(play_clock)) => Framed::Start {
                    match_id: match_id.clone(),
                    role: role.clone(),
                    description: description.clone(),
                    start_clock,
                    play_clock,
                },
                _ => Framed::Unknown,
            }
        },
        _ => Framed::Unknown,
    }
}

/// The play or stop that the groups of a match of its pattern make.
pub fn turn_from(groups: &Vec<Option<String>>, stop: bool) -> (r: Framed)
    ensures
        r@ == turn_spec(groups_view(groups@), stop),
{
    if groups.len() < 3 {
        return Framed::Unknown;
    }
    let ghost gv = groups_view(groups@);
    assert(gv[1] == group(gv, 1) && gv[2] == group(gv, 2));
    match (&groups[1], &groups[2]) {
        (Some(match_id), Some(moves)) => {
            if stop {
                Framed::Stop { match_id: match_id.clone(), moves: moves.clone() }
            } else {
                Framed::Play { match_id: match_id.clone(), moves: moves.clone() }
            }
        },
        _ => Framed::Unknown,
    }
}

/// Takes a request text apart.
pub fn frame(request: &str) -> (r: Framed)
    ensures
        r@ == frame_spec(
            regex_captures(START_PATTERN@, request@),
            regex_captures(PLAY_PATTERN@, request@),
            regex_captures(STOP_PATTERN@, request@),
        ),
{
    match captures(START_PATTERN, request) {
        Some(groups) => start_from(&groups),
        None => match captures(PLAY_PATTERN, request) {
            Some(groups) => turn_from(&groups, false),
            None => match captures(STOP_PATTERN, request) {
                Some(groups) => turn_from(&groups, true),
                None => Framed::Unknown,
            },
        },
    }
}

} // verus!
