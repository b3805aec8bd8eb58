//! The match controller: it owns the matches in play, takes each of them
//! from its start through its turns to its end, and calls on the player
//! at each of these points.

use crate::error::MatchError;
use crate::eval::rule_base_valid;
use crate::game::{game_after, move_fault, GameV};
use crate::gdl::{
    desc_fault, initial_facts, moves_view, moves_wf, parse_desc, role_names, rules_where,
    term_text, Move, Role,
};
use crate::sentence::{rules_view, Rule, RuleV};
use crate::term::TermV;
use vstd::prelude::*;
use vstd::string::StringExecFns;

pub use crate::game::{Game, MatchState};
pub use crate::state::State;

verus! {

/// The player that the controller drives: it is told of a new game,
/// asked for a move each turn, and told of the end of the match.
pub trait Player {
    /// A match of the game has started.
    fn meta_game(&mut self, game: &Game)
        requires
            game.wf(),
    ;

    /// The move that the player makes in the current state of the match.
    fn select_move(&mut self, game: &Game) -> (r: Move)
        requires
            game.wf(),
    ;

    /// The match is over.
    fn stop(&mut self, game: &Game)
        requires
            game.wf(),
    ;
}

/// A request to the controller, with its fields taken out of its text.
#[derive(Debug)]
pub enum Request {
    /// Start a match of the described game in the given role.
    Start { match_id: String, role: String, clauses: Vec<Rule>, start_clock: u32, play_clock: u32 },
    /// The joint move of the last turn; answer with the next move.
    Play { match_id: String, moves: Vec<Move> },
    /// The final joint move; the match is over.
    Stop { match_id: String, moves: Vec<Move> },
    /// A request of no known shape.
    Unknown,
}

/// A match with its id.
#[derive(Debug)]
pub struct Entry {
    pub id: String,
    pub game: Game,
}

/// No two entries have the same id.
pub open spec fn ids_unique(entries: Seq<Entry>) -> bool {
    forall|i: int, j: int|
        0 <= i < j < entries.len() ==> (#[trigger] entries[i]).id@ != (#[trigger] entries[j]).id@
}

/// Some entry has the id.
pub open spec fn has_id(entries: Seq<Entry>, id: Seq<char>) -> bool {
    exists|i: int| 0 <= i < entries.len() && (#[trigger] entries[i]).id@ == id
}

/// The index of an entry with the id.
pub open spec fn index_of(entries: Seq<Entry>, id: Seq<char>) -> int {
    choose|i: int| 0 <= i < entries.len() && (#[trigger] entries[i]).id@ == id
}

/// The matches by their ids.
pub open spec fn table_map(entries: Seq<Entry>) -> Map<Seq<char>, GameV> {
    Map::new(|id: Seq<char>| has_id(entries, id), |id: Seq<char>| entries[index_of(entries, id)].game@)
}

/// An entry is found under its id.
pub proof fn lemma_table_at(entries: Seq<Entry>, i: int)
    requires
        ids_unique(entries),
        0 <= i < entries.len(),
    ensures
        table_map(entries).dom().contains(entries[i].id@),
        table_map(entries)[entries[i].id@] == entries[i].game@,
        index_of(entries, entries[i].id@) == i,
{
    let id = entries[i].id@;
    let j = index_of(entries, id);
    assert(0 <= j < entries.len() && entries[j].id@ == id);
    if j < i {
        assert(entries[j].id@ != entries[i].id@);
    }
    if i < j {
        assert(entries[i].id@ != entries[j].id@);
    }
}

/// A new entry under a fresh id is one more match.
pub proof fn lemma_table_push(entries: Seq<Entry>, e: Entry)
    requires
        ids_unique(entries),
        !has_id(entries, e.id@),
    ensures
        ids_unique(entries.push(e)),
        table_map(entries.push(e)) == table_map(entries).insert(e.id@, e.game@),
{
    let more = entries.push(e);
    assert forall|i: int, j: int| 0 <= i < j < more.len() implies (#[trigger] more[i]).id@ != (
    #[trigger] more[j]).id@ by {
        if j == entries.len() {
            assert(entries[i].id@ != e.id@);
        } else {
            assert(entries[i].id@ != entries[j].id@);
        }
    }
    let want = table_map(entries).insert(e.id@, e.game@);
    assert forall|id: Seq<char>| table_map(more).dom().contains(id) <==> want.dom().contains(
        id,
    ) by {
        if has_id(more, id) {
            let i = choose|i: int| 0 <= i < more.len() && (#[trigger] more[i]).id@ == id;
            if i < entries.len() {
                assert(entries[i].id@ == id);
            }
        }
        if has_id(entries, id) {
            let i = choose|i: int| 0 <= i < entries.len() && (#[trigger] entries[i]).id@ == id;
            assert(more[i].id@ == id);
        }
        if id == e.id@ {
            assert(more[entries.len() as int].id@ == id);
        }
    }
    assert forall|id: Seq<char>| table_map(more).dom().contains(id) implies table_map(more)[id]
        == want[id] by {
        let i = choose|i: int| 0 <= i < more.len() && (#[trigger] more[i]).id@ == id;
        lemma_table_at(more, i);
        if i < entries.len() {
            assert(entries[i].id@ == id);
            lemma_table_at(entries, i);
        }
    }
    assert(table_map(more) =~= want);
}

/// An entry whose game has changed is the same match, changed.
pub proof fn lemma_table_update(entries: Seq<Entry>, i: int, e: Entry)
    requires
        ids_unique(entries),
        0 <= i < entries.len(),
        e.id@ == entries[i].id@,
    ensures
        ids_unique(entries.update(i, e)),
        table_map(entries.update(i, e)) == table_map(entries).insert(e.id@, e.game@),
{
    let after = entries.update(i, e);
    assert forall|a: int, b: int| 0 <= a < b < after.len() implies (#[trigger] after[a]).id@ != (
    #[trigger] after[b]).id@ by {
        assert(entries[a].id@ != entries[b].id@);
    }
    let want = table_map(entries).insert(e.id@, e.game@);
    assert forall|id: Seq<char>| table_map(after).dom().contains(id) <==> want.dom().contains(
        id,
    ) by {
        if has_id(after, id) {
            let k = choose|k: int| 0 <= k < after.len() && (#[trigger] after[k]).id@ == id;
            assert(entries[k].id@ == id);
        }
        if has_id(entries, id) {
            let k = choose|k: int| 0 <= k < entries.len() && (#[trigger] entries[k]).id@ == id;
            assert(after[k].id@ == id);
        }
        if id == e.id@ {
            assert(after[i].id@ == id);
        }
    }
    assert forall|id: Seq<char>| table_map(after).dom().contains(id) implies table_map(after)[id]
        == want[id] by {
        let k = choose|k: int| 0 <= k < after.len() && (#[trigger] after[k]).id@ == id;
        lemma_table_at(after, k);
        assert(entries[k].id@ == id);
        lemma_table_at(entries, k);
    }
    assert(table_map(after) =~= want);
}

/// With an entry taken out, its match is gone and the others stay.
pub proof fn lemma_table_remove(entries: Seq<Entry>, i: int)
    requires
        ids_unique(entries),
        0 <= i < entries.len(),
    ensures
        ids_unique(entries.remove(i)),
        !has_id(entries.remove(i), entries[i].id@),
        table_map(entries.remove(i)) == table_map(entries).remove(entries[i].id@),
{
    let after = entries.remove(i);
    let gone = entries[i].id@;
    assert forall|a: int| 0 <= a < after.len() implies (#[trigger] after[a]) == entries[if a < i {
        a
    } else {
        a + 1
    }] by {}
    assert forall|a: int, b: int| 0 <= a < b < after.len() implies (#[trigger] after[a]).id@ != (
    #[trigger] after[b]).id@ by {
        let a2 = if a < i {
            a
        } else {
            a + 1
        };
        let b2 = if b < i {
            b
        } else {
            b + 1
        };
        assert(entries[a2].id@ != entries[b2].id@);
    }
    if has_id(after, gone) {
        let k = choose|k: int| 0 <= k < after.len() && (#[trigger] after[k]).id@ == gone;
        let k2 = if k < i {
            k
        } else {
            k + 1
        };
        assert(after[k] == entries[k2]);
        if k2 < i {
            assert(entries[k2].id@ != entries[i].id@);
        } else {
            assert(entries[i].id@ != entries[k2].id@);
        }
    }
    let want = table_map(entries).remove(gone);
    assert forall|id: Seq<char>| table_map(after).dom().contains(id) <==> want.dom().contains(
        id,
    ) by {
        if has_id(after, id) {
            let k = choose|k: int| 0 <= k < after.len() && (#[trigger] after[k]).id@ == id;
            let k2 = if k < i {
                k
            } else {
                k + 1
            };
            assert(entries[k2].id@ == id);
        }
        if has_id(entries, id) && id != gone {
            let k = choose|k: int| 0 <= k < entries.len() && (#[trigger] entries[k]).id@ == id;
            let k2 = if k < i {
                k
            } else {
                k - 1
            };
            assert(after[k2] == entries[k]);
            assert(after[k2].id@ == id);
        }
    }
    assert forall|id: Seq<char>| table_map(after).dom().contains(id) implies table_map(after)[id]
        == want[id] by {
        let k = choose|k: int| 0 <= k < after.len() && (#[trigger] after[k]).id@ == id;
        let k2 = if k < i {
            k
        } else {
            k + 1
        };
        lemma_table_at(after, k);
        assert(after[k] == entries[k2]);
        lemma_table_at(entries, k2);
    }
    assert(table_map(after) =~= want);
}

/// Why a start is refused, if it is: the id is taken, or the clauses
/// are no game description.
pub open spec fn start_fault(
    matches: Map<Seq<char>, GameV>,
    id: Seq<char>,
    clauses: Seq<RuleV>,
) -> Option<MatchError> {
    if matches.dom().contains(id) {
        Some(MatchError::DuplicateMatch)
    } else {
        match desc_fault(clauses) {
            Some(e) => Some(MatchError::Config(e)),
            None => None,
        }
    }
}

/// Whether `g` is the game that the clauses describe, newly started.
pub open spec fn started_game(
    g: GameV,
    role: Seq<char>,
    clauses: Seq<RuleV>,
    start_clock: u32,
    play_clock: u32,
) -> bool {
    &&& g.phase == MatchState::Started
    &&& g.role == role
    &&& g.start_clock == start_clock
    &&& g.play_clock == play_clock
    &&& g.roles == role_names(clauses)
    &&& g.rules.rules == rules_where(clauses, "init"@, false)
    &&& rule_base_valid(g.rules)
    &&& g.initial == initial_facts(clauses)
    &&& g.current == initial_facts(clauses)
}

/// Why a play or a stop is refused, if it is: no match has the id, or
/// the match refuses the joint move.
pub open spec fn turn_fault(
    matches: Map<Seq<char>, GameV>,
    id: Seq<char>,
    moves: Seq<TermV>,
) -> Option<MatchError> {
    if !matches.dom().contains(id) {
        Some(MatchError::UnknownMatch)
    } else {
        move_fault(matches[id], moves)
    }
}

/// The matches after a play that was accepted.
pub open spec fn matches_after_play(
    matches: Map<Seq<char>, GameV>,
    id: Seq<char>,
    moves: Seq<TermV>,
) -> Map<Seq<char>, GameV> {
    if moves.len() == 0 {
        matches
    } else {
        matches.insert(id, game_after(matches[id], moves, MatchState::Playing))
    }
}

/// The match controller: a player and the matches it plays.
pub struct GameManager<P> {
    player: P,
    games: Vec<Entry>,
}

impl<P: Player> GameManager<P> {
    /// The matches in play, by their ids.
    pub closed spec fn matches(&self) -> Map<Seq<char>, GameV> {
        table_map(self.games@)
    }

    /// Every match has an id of its own and a valid game that is not over.
    pub closed spec fn wf(&self) -> bool {
        &&& ids_unique(self.games@)
        &&& forall|i: int|
            0 <= i < self.games.len() ==> (#[trigger] self.games[i]).game.wf()
                && self.games[i].game@.phase != MatchState::Finished
    }

    /// No match in play is over.
    pub proof fn lemma_none_finished(&self, id: Seq<char>)
        requires
            self.wf(),
            self.matches().dom().contains(id),
        ensures
            self.matches()[id].phase != MatchState::Finished,
    {
        let i = choose|i: int| 0 <= i < self.games.len() && (#[trigger] self.games[i]).id@ == id;
        lemma_table_at(self.games@, i);
    }

    /// A controller for the player, with no match in play.
    pub fn new(p: P) -> (r: GameManager<P>)
        ensures
            r.wf(),
            r.matches() == Map::<Seq<char>, GameV>::empty(),
    {
        let r = GameManager { player: p, games: Vec::new() };
        assert(r.matches() =~= Map::empty());
        r
    }

    /// The number of matches in play.
    pub fn match_count(&self) -> (r: usize)
        requires
            self.wf(),
        ensures
            r == self.matches().dom().len(),
            self.matches().dom().finite(),
    {
        proof {
            lemma_table_count(self.games@);
        }
        self.games.len()
    }

    /// The match with the id, if it is in play.
    pub fn get_game(&self, match_id: &str) -> (r: Option<&Game>)
        requires
            self.wf(),
        ensures
            match r {
                Some(g) => g.wf() && self.matches().dom().contains(match_id@) && g@
                    == self.matches()[match_id@],
                None => !self.matches().dom().contains(match_id@),
            },
    {
        let id = match_id.to_owned();
        match self.find(&id) {
            Some(i) => {
                proof {
                    lemma_table_at(self.games@, i as int);
                }
                Some(&self.games[i].game)
            },
            None => None,
        }
    }

    /// The place of the match with the id.
    fn find(&self, id: &String) -> (r: Option<usize>)
        ensures
            match r {
                Some(i) => i < self.games.len() && self.games[i as int].id@ == id@,
                None => !has_id(self.games@, id@),
            },
    {
        let mut i: usize = 0;
        while i < self.games.len()
            invariant
                i <= self.games.len(),
                forall|k: int| 0 <= k < i ==> (#[trigger] self.games[k]).id@ != id@,
            decreases self.games.len() - i,
        {
            if self.games[i].id == *id {
                return Some(i);
            }
            i += 1;
        }
        None
    }

    /// Answers a request: starts a match, takes one a turn on, or ends
    /// it. A request of no known shape gets an empty answer.
    pub fn handle(&mut self, request: Request) -> (r: Result<String, MatchError>)
        requires
            old(self).wf(),
            match request {
                Request::Play { match_id, moves } => moves_wf(moves@),
                Request::Stop { match_id, moves } => moves_wf(moves@),
                _ => true,
            },
        ensures
            final(self).wf(),
            match request {
                Request::Start { match_id, role, clauses, start_clock, play_clock } => start_outcome(
                    old(self).matches(),
                    final(self).matches(),
                    match_id@,
                    role@,
                    rules_view(clauses@),
                    start_clock,
                    play_clock,
                    r,
                ),
                Request::Play { match_id, moves } => play_outcome(
                    old(self).matches(),
                    final(self).matches(),
                    match_id@,
                    moves_view(moves@),
                    r,
                ),
                Request::Stop { match_id, moves } => stop_outcome(
                    old(self).matches(),
                    final(self).matches(),
                    match_id@,
                    moves_view(moves@),
                    r,
                ),
                Request::Unknown => r is Ok && r->Ok_0@.len() == 0 && final(self).matches() == old(
                    self,
                ).matches(),
            },
    {
        match request {
            Request::Start { match_id, role, clauses, start_clock, play_clock } => {
                self.handle_start(match_id.as_str(), role.as_str(), clauses, start_clock, play_clock)
            },
            Request::Play { match_id, moves } => self.handle_play(match_id.as_str(), moves),
            Request::Stop { match_id, moves } => self.handle_stop(match_id.as_str(), moves),
            Request::Unknown => Ok(String::new()),
        }
    }

    /// Starts a match of the game that the clauses describe. The player
    /// is told of the new game. A start under an id that is taken is
    /// refused, and so is one with clauses that are no game
    /// description; the matches then stay as they are.
    pub fn handle_start(
        &mut self,
        match_id: &str,
        role: &str,
        clauses: Vec<Rule>,
        start_clock: u32,
        play_clock: u32,
    ) -> (r: Result<String, MatchError>)
        requires
            old(self).wf(),
        ensures
            final(self).wf(),
            start_outcome(
                old(self).matches(),
                final(self).matches(),
                match_id@,
                role@,
                rules_view(clauses@),
                start_clock,
                play_clock,
                r,
            ),
    {
        let id = match_id.to_owned();
        if self.find(&id).is_some() {
            return Err(MatchError::DuplicateMatch);
        }
        let desc = match parse_desc(clauses) {
            Ok(d) => d,
            Err(e) => {
                return Err(MatchError::Config(e));
            },
        };
        let game = Game::new(Role::new(role), start_clock, play_clock, desc);
        proof {
            game.lemma_wf();
        }
        self.player.meta_game(&game);
        let entry = Entry { id, game };
        proof {
            lemma_table_push(self.games@, entry);
        }
        self.games.push(entry);
        Ok(String::from_str("ready"))
    }

    /// Takes a match one turn on and answers with the move that the
    /// player selects in the state that follows. With an empty joint
    /// move, as the first turn brings, the match stays as it is. A play
    /// for an unknown id is refused, and so is a joint move that does
    /// not hold one move for each role; the matches then stay as they are.
    pub fn handle_play(&mut self, match_id: &str, moves: Vec<Move>) -> (r: Result<
        String,
        MatchError,
    >)
        requires
            old(self).wf(),
            moves_wf(moves@),
        ensures
            final(self).wf(),
            play_outcome(
                old(self).matches(),
                final(self).matches(),
                match_id@,
                moves_view(moves@),
                r,
            ),
    {
        let id = match_id.to_owned();
        let i = match self.find(&id) {
            Some(i) => i,
            None => {
                return Err(MatchError::UnknownMatch);
            },
        };
        let ghost before = self.games@;
        proof {
            lemma_table_at(before, i as int);
        }
        let mut entry = self.games.remove(i);
        let outcome = entry.game.update(moves);
        proof {
            lemma_table_update(before, i as int, entry);
        }
        self.games.insert(i, entry);
        assert(self.games@ =~= before.update(i as int, entry));
        match outcome {
            Err(e) => {
                assert(self.matches() =~= old(self).matches());
                Err(e)
            },
            Ok(_) => {
                assert(self.matches() =~= matches_after_play(
                    old(self).matches(),
                    match_id@,
                    moves_view(moves@),
                ));
                let chosen = self.player.select_move(&self.games[i].game);
                let text = chosen.to_string();
                assert(text@ == term_text(chosen@));
                Ok(text)
            },
        }
    }

    /// Ends a match: the final joint move is applied, the player is told
    /// that the match is over, and the match is given up. A stop for an
    /// unknown id is refused, and so is a joint move that does not hold
    /// one move for each role; the matches then stay as they are.
    pub fn handle_stop(&mut self, match_id: &str, moves: Vec<Move>) -> (r: Result<
        String,
        MatchError,
    >)
        requires
            old(self).wf(),
            moves_wf(moves@),
        ensures
            final(self).wf(),
            stop_outcome(
                old(self).matches(),
                final(self).matches(),
                match_id@,
                moves_view(moves@),
                r,
            ),
    {
        let id = match_id.to_owned();
        let i = match self.find(&id) {
            Some(i) => i,
            None => {
                return Err(MatchError::UnknownMatch);
            },
        };
        let ghost before = self.games@;
        proof {
            lemma_table_at(before, i as int);
            lemma_table_remove(before, i as int);
        }
        let mut entry = self.games.remove(i);
        match entry.game.finish(moves) {
            Err(e) => {
                proof {
                    lemma_table_update(before, i as int, entry);
                }
                self.games.insert(i, entry);
                assert(self.games@ =~= before.update(i as int, entry));
                assert(self.matches() =~= old(self).matches());
                Err(e)
            },
            Ok(_) => {
                self.player.stop(&entry.game);
                Ok(String::from_str("done"))
            },
        }
    }
}

/// What a start leaves behind and answers.
pub open spec fn start_outcome(
    before: Map<Seq<char>, GameV>,
    after: Map<Seq<char>, GameV>,
    id: Seq<char>,
    role: Seq<char>,
    clauses: Seq<RuleV>,
    start_clock: u32,
    play_clock: u32,
    r: Result<String, MatchError>,
) -> bool {
    match r {
        Ok(text) => {
            &&& start_fault(before, id, clauses) is None
            &&& text@ == "ready"@
            &&& after.dom().contains(id)
            &&& started_game(after[id], role, clauses, start_clock, play_clock)
            &&& after == before.insert(id, after[id])
        },
        Err(e) => start_fault(before, id, clauses) == Some(e) && after == before,
    }
}

/// What a play leaves behind and answers: the answer is the text of a
/// move, the one that the player selected.
pub open spec fn play_outcome(
    before: Map<Seq<char>, GameV>,
    after: Map<Seq<char>, GameV>,
    id: Seq<char>,
    moves: Seq<TermV>,
    r: Result<String, MatchError>,
) -> bool {
    match r {
        Ok(text) => {
            &&& turn_fault(before, id, moves) is None
            &&& after == matches_after_play(before, id, moves)
            &&& exists|chosen: TermV| text@ == #[trigger] term_text(chosen)
        },
        Err(e) => turn_fault(before, id, moves) == Some(e) && after == before,
    }
}

/// What a stop leaves behind and answers.
pub open spec fn stop_outcome(
    before: Map<Seq<char>, GameV>,
    after: Map<Seq<char>, GameV>,
    id: Seq<char>,
    moves: Seq<TermV>,
    r: Result<String, MatchError>,
) -> bool {
    match r {
        Ok(text) => turn_fault(before, id, moves) is None && text@ == "done"@ && after
            == before.remove(id),
        Err(e) => turn_fault(before, id, moves) == Some(e) && after == before,
    }
}

/// There are as many matches as entries.
pub proof fn lemma_table_count(entries: Seq<Entry>)
    requires
        ids_unique(entries),
    ensures
        table_map(entries).dom().finite(),
        table_map(entries).dom().len() == entries.len(),
    decreases entries.len(),
{
    if entries.len() == 0 {
        assert(table_map(entries).dom() =~= Set::empty());
    } else {
        let rest = entries.drop_last();
        let e = entries.last();
        assert forall|i: int, j: int| 0 <= i < j < rest.len() implies (#[trigger] rest[i]).id@ != (
        #[trigger] rest[j]).id@ by {
            assert(entries[i].id@ != entries[j].id@);
        }
        if has_id(rest, e.id@) {
            let k = choose|k: int| 0 <= k < rest.len() && (#[trigger] rest[k]).id@ == e.id@;
            assert(entries[k].id@ != entries[entries.len() - 1].id@);
        }
        lemma_table_count(rest);
        lemma_table_push(rest, e);
        assert(rest.push(e) =~= entries);
        assert(table_map(entries).dom() =~= table_map(rest).dom().insert(e.id@));
    }
}

} // verus!
