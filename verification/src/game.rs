//! The game state machine: legal moves, successor states, termination
//! and goal values of a game, all of them read off the facts that hold
//! in a state.

use crate::checks::Keywords;
use crate::error::{EvalError, MatchError};
use crate::eval::{model, rule_base_valid, RuleBaseV};
use crate::gdl::{
    moves_view, moves_wf, roles_view, score_of, score_value, GameDesc, Goal, Move, Role, Score,
};
use crate::model::facts_distinct;
use crate::semantics::{facts_ground, facts_set};
use crate::sentence::{sentence_ground, sentence_name, Sentence, SentenceV};
use crate::state::State;
use crate::term::{term_ground, terms_closed, terms_duplicate, terms_view, Term, TermV};
use vstd::prelude::*;

verus! {

/// The phase of a match.
#[derive(Debug, Clone, Copy, PartialEq, Eq, Structural)]
pub enum MatchState {
    Started,
    Playing,
    Finished,
}

/// The fact that a role has chosen a move.
pub open spec fn does_fact(role: Seq<char>, mv: TermV) -> SentenceV {
    SentenceV::Rel("does"@, seq![TermV::Const(role), mv])
}

/// The facts of a joint move: each role with its move.
pub open spec fn joint_facts(roles: Seq<Seq<char>>, moves: Seq<TermV>) -> Set<SentenceV> {
    Set::new(
        |f: SentenceV|
            exists|i: int|
                #![trigger roles[i]]
                0 <= i < roles.len() && i < moves.len() && f == does_fact(roles[i], moves[i]),
    )
}

/// The facts of the successor state: `true(t)` for each `next(t)` that holds.
pub open spec fn next_facts(holding: Set<SentenceV>) -> Set<SentenceV> {
    Set::new(
        |f: SentenceV|
            f is Rel && f->Rel_0 == "true"@ && holding.contains(
                SentenceV::Rel("next"@, f->Rel_1),
            ),
    )
}

/// The successor of a state under a joint move: the joint move is
/// added to the state for this one evaluation, and what then holds of
/// `next` makes the new state, and nothing else does.
pub open spec fn next_state_spec(
    rules: RuleBaseV,
    roles: Seq<Seq<char>>,
    state: Set<SentenceV>,
    moves: Seq<TermV>,
) -> Set<SentenceV> {
    next_facts(model(rules, state.union(joint_facts(roles, moves))))
}

/// A state is terminal when something of `terminal` holds in it.
pub open spec fn terminal_spec(rules: RuleBaseV, state: Set<SentenceV>) -> bool {
    exists|f: SentenceV| #[trigger]
        model(rules, state).contains(f) && sentence_name(f) == "terminal"@
}

/// Some move is legal for the role among the facts.
pub open spec fn has_legal_move(holding: Set<SentenceV>, role: Seq<char>) -> bool {
    exists|t: TermV| holding.contains(#[trigger] legal_fact(role, t))
}

/// A state is playable when it is terminal or every role has a legal
/// move in it. A state that is not is a fault of the description.
pub open spec fn playable_spec(
    rules: RuleBaseV,
    roles: Seq<Seq<char>>,
    state: Set<SentenceV>,
) -> bool {
    terminal_spec(rules, state) || forall|i: int|
        #![trigger roles[i]]
        0 <= i < roles.len() ==> has_legal_move(model(rules, state), roles[i])
}

/// The role is one of the roles and has no legal move in the state,
/// which is not terminal.
pub open spec fn stuck_spec(
    rules: RuleBaseV,
    roles: Seq<Seq<char>>,
    state: Set<SentenceV>,
    role: Seq<char>,
) -> bool {
    roles.contains(role) && !terminal_spec(rules, state) && !has_legal_move(
        model(rules, state),
        role,
    )
}

/// The fact that a move is legal for a role.
pub open spec fn legal_fact(role: Seq<char>, mv: TermV) -> SentenceV {
    SentenceV::Rel("legal"@, seq![TermV::Const(role), mv])
}

/// The fact that a role has a goal value.
pub open spec fn goal_fact(role: Seq<char>, value: TermV) -> SentenceV {
    SentenceV::Rel("goal"@, seq![TermV::Const(role), value])
}

/// The goal value `t` holds for the role, and no other does.
pub open spec fn sole_goal(holding: Set<SentenceV>, role: Seq<char>, t: TermV) -> bool {
    holding.contains(goal_fact(role, t)) && forall|u: TermV|
        holding.contains(#[trigger] goal_fact(role, u)) ==> u == t
}

/// The score of a role among the facts: there is one where exactly one
/// goal value holds for the role and that value is a score.
pub open spec fn role_score(holding: Set<SentenceV>, role: Seq<char>) -> Option<Score> {
    if exists|t: TermV| sole_goal(holding, role, t) {
        score_value(choose|t: TermV| sole_goal(holding, role, t))
    } else {
        None
    }
}

/// Where one goal value holds for the role and no other, it gives the score.
pub proof fn lemma_sole_goal(holding: Set<SentenceV>, role: Seq<char>, t: TermV)
    requires
        sole_goal(holding, role, t),
    ensures
        role_score(holding, role) == score_value(t),
{
    let c = choose|c: TermV| sole_goal(holding, role, c);
    assert(holding.contains(goal_fact(role, c)));
    assert(c == t);
}

/// Where two goal values hold for the role, or none, it has no score.
pub proof fn lemma_no_sole_goal(holding: Set<SentenceV>, role: Seq<char>)
    requires
        (forall|t: TermV| !holding.contains(#[trigger] goal_fact(role, t))) || (exists|
            a: TermV,
            b: TermV,
        |
            a != b && holding.contains(#[trigger] goal_fact(role, a)) && holding.contains(
                #[trigger] goal_fact(role, b),
            )),
    ensures
        role_score(holding, role) is None,
{
    if exists|t: TermV| sole_goal(holding, role, t) {
        let t = choose|t: TermV| sole_goal(holding, role, t);
        assert(holding.contains(goal_fact(role, t)));
        let (a, b) = choose|a: TermV, b: TermV|
            a != b && holding.contains(#[trigger] goal_fact(role, a)) && holding.contains(
                #[trigger] goal_fact(role, b),
            );
        assert(a == t);
        assert(b == t);
    }
}

/// Some goal value holds for the role.
pub open spec fn has_goal_value(holding: Set<SentenceV>, role: Seq<char>) -> bool {
    exists|t: TermV| holding.contains(#[trigger] goal_fact(role, t))
}

/// Whether the goal values of the role are at fault: more than one holds
/// for it, or one that is no score, or none although the state is terminal.
pub open spec fn role_fault(holding: Set<SentenceV>, terminal: bool, role: Seq<char>) -> bool {
    if has_goal_value(holding, role) {
        role_score(holding, role) is None
    } else {
        terminal
    }
}

/// Whether the goal values of one of the roles are at fault.
pub open spec fn goals_fault(
    holding: Set<SentenceV>,
    terminal: bool,
    roles: Seq<Seq<char>>,
) -> bool {
    exists|i: int| 0 <= i < roles.len() && role_fault(holding, terminal, #[trigger] roles[i])
}

/// The roles that have a score, each with its score, in their order.
pub open spec fn scored(holding: Set<SentenceV>, roles: Seq<Seq<char>>) -> Seq<
    (Seq<char>, Score),
>
    decreases roles.len(),
{
    if roles.len() == 0 {
        Seq::empty()
    } else {
        let rest = scored(holding, roles.drop_last());
        match role_score(holding, roles.last()) {
            Some(score) => rest.push((roles.last(), score)),
            None => rest,
        }
    }
}

/// The roles of the goals with their scores, in order.
pub open spec fn scores_view(goals: Seq<Goal>) -> Seq<(Seq<char>, Score)> {
    Seq::new(goals.len(), |i: int| (goals[i].role@, goals[i].score))
}

/// The fact gives the role a goal value.
pub open spec fn is_goal_of(f: SentenceV, role: Seq<char>) -> bool {
    exists|t: TermV| f == #[trigger] goal_fact(role, t)
}

/// A relation of two arguments whose first is the constant `first`.
proof fn lemma_pair_view(name: Seq<char>, args: Seq<TermV>, first: Seq<char>)
    requires
        args.len() == 2,
        args[0] == TermV::Const(first),
    ensures
        SentenceV::Rel(name, args) == SentenceV::Rel(name, seq![TermV::Const(first), args[1]]),
{
    assert(args =~= seq![TermV::Const(first), args[1]]);
}

/// The state with the facts of the joint move added.
pub fn with_joint_move(state: &State, roles: &Vec<Role>, moves: &Vec<Move>, kw: &Keywords) -> (r:
    State)
    requires
        kw.wf(),
        state.wf(),
        moves_wf(moves@),
        moves.len() == roles.len(),
    ensures
        r.wf(),
        r@ == state@.union(joint_facts(roles_view(roles@), moves_view(moves@))),
{
    let ghost rv = roles_view(roles@);
    let ghost mv = moves_view(moves@);
    let mut out = state.duplicate();
    let mut i: usize = 0;
    while i < roles.len()
        invariant
            i <= roles.len(),
            kw.wf(),
            moves_wf(moves@),
            moves.len() == roles.len(),
            rv == roles_view(roles@),
            mv == moves_view(moves@),
            out.wf(),
            forall|f: SentenceV|
                #[trigger] out@.contains(f) <==> (state@.contains(f) || exists|k: int|
                    #![trigger rv[k]]
                    0 <= k < i && f == does_fact(rv[k], mv[k])),
        decreases roles.len() - i,
    {
        let ghost before = out@;
        let mut args: Vec<Term> = Vec::new();
        args.push(Term::Const(roles[i].name.clone()));
        args.push(moves[i].term.duplicate());
        let fact = Sentence::Rel(kw.does.clone(), args);
        proof {
            assert(rv[i as int] == roles[i as int]@);
            assert(mv[i as int] == moves[i as int]@);
            assert(moves[i as int].wf());
            assert(terms_view(args@) =~= seq![TermV::Const(rv[i as int]), mv[i as int]]);
            assert(fact@ == does_fact(rv[i as int], mv[i as int]));
            assert(terms_closed(terms_view(args@), Set::empty()));
        }
        let added = out.add_prop(fact);
        proof {
            assert forall|f: SentenceV|
                #[trigger] out@.contains(f) <==> (state@.contains(f) || exists|k: int|
                    #![trigger rv[k]]
                    0 <= k < i + 1 && f == does_fact(rv[k], mv[k])) by {
                if exists|k: int| #![trigger rv[k]] 0 <= k < i + 1 && f == does_fact(rv[k], mv[k]) {
                    let k = choose|k: int|
                        #![trigger rv[k]]
                        0 <= k < i + 1 && f == does_fact(rv[k], mv[k]);
                    if k < i {
                        assert(before.contains(f));
                    }
                }
            }
        }
        i += 1;
    }
    assert(out@ =~= state@.union(joint_facts(rv, mv)));
    out
}

/// The successor state that the facts give: `true(t)` for each `next(t)`.
pub fn next_from(facts: &Vec<Sentence>, kw: &Keywords) -> (r: State)
    requires
        kw.wf(),
        facts_ground(facts@),
    ensures
        r.wf(),
        r@ == next_facts(facts_set(facts@)),
{
    let mut out = State::empty();
    let mut i: usize = 0;
    while i < facts.len()
        invariant
            i <= facts.len(),
            kw.wf(),
            facts_ground(facts@),
            out.wf(),
            forall|f: SentenceV|
                #[trigger] out@.contains(f) <==> (f is Rel && f->Rel_0 == "true"@ && exists|k: int|
                    0 <= k < i && (#[trigger] facts[k])@ == SentenceV::Rel("next"@, f->Rel_1)),
        decreases facts.len() - i,
    {
        let ghost before = out@;
        let ghost cur = facts[i as int]@;
        let mut made: Option<Sentence> = None;
        match &facts[i] {
            Sentence::Rel(n, args) => {
                if *n == kw.next {
                    made = Some(Sentence::Rel(kw.truth.clone(), terms_duplicate(args)));
                }
            },
            _ => {},
        }
        match made {
            Some(fact) => {
                assert(sentence_ground(cur));
                assert(crate::sentence::sentence_args(fact@) == crate::sentence::sentence_args(
                    cur,
                ));
                let added = out.add_prop(fact);
                assert(added);
            },
            None => {},
        }
        proof {
            assert forall|f: SentenceV|
                #[trigger] out@.contains(f) <==> (f is Rel && f->Rel_0 == "true"@ && exists|k: int|
                    0 <= k < i + 1 && (#[trigger] facts[k])@ == SentenceV::Rel(
                        "next"@,
                        f->Rel_1,
                    )) by {
                if f is Rel && f->Rel_0 == "true"@ && exists|k: int|
                    0 <= k < i + 1 && (#[trigger] facts[k])@ == SentenceV::Rel(
                        "next"@,
                        f->Rel_1,
                    ) {
                    let k = choose|k: int|
                        0 <= k < i + 1 && (#[trigger] facts[k])@ == SentenceV::Rel(
                            "next"@,
                            f->Rel_1,
                        );
                    if k < i {
                        assert(before.contains(f));
                    }
                }
                if before.contains(f) {
                    let k = choose|k: int|
                        0 <= k < i && (#[trigger] facts[k])@ == SentenceV::Rel("next"@, f->Rel_1);
                    assert(facts[k]@ == SentenceV::Rel("next"@, f->Rel_1));
                }
            }
        }
        i += 1;
    }
    proof {
        assert forall|f: SentenceV| out@.contains(f) <==> next_facts(facts_set(facts@)).contains(
            f,
        ) by {
            if next_facts(facts_set(facts@)).contains(f) {
                let k = choose|k: int|
                    0 <= k < facts.len() && (#[trigger] facts[k])@ == SentenceV::Rel(
                        "next"@,
                        f->Rel_1,
                    );
                assert(facts[k]@ == SentenceV::Rel("next"@, f->Rel_1));
            }
            if out@.contains(f) {
                let k = choose|k: int|
                    0 <= k < facts.len() && (#[trigger] facts[k])@ == SentenceV::Rel(
                        "next"@,
                        f->Rel_1,
                    );
                assert(facts_set(facts@).contains(facts[k]@));
            }
        }
        assert(out@ =~= next_facts(facts_set(facts@)));
    }
    out
}

/// Whether a fact of `terminal` is among the facts.
pub fn terminal_among(facts: &Vec<Sentence>, kw: &Keywords) -> (r: bool)
    requires
        kw.wf(),
    ensures
        r == exists|f: SentenceV| #[trigger]
            facts_set(facts@).contains(f) && sentence_name(f) == "terminal"@,
{
    let mut i: usize = 0;
    while i < facts.len()
        invariant
            i <= facts.len(),
            kw.wf(),
            forall|k: int| 0 <= k < i ==> sentence_name((#[trigger] facts[k])@) != "terminal"@,
        decreases facts.len() - i,
    {
        if *facts[i].name() == kw.terminal {
            assert(facts_set(facts@).contains(facts[i as int]@));
            return true;
        }
        i += 1;
    }
    proof {
        assert forall|f: SentenceV| #[trigger]
            facts_set(facts@).contains(f) implies sentence_name(f) != "terminal"@ by {
            let k = choose|k: int| 0 <= k < facts.len() && (#[trigger] facts[k])@ == f;
            assert(sentence_name(facts[k]@) != "terminal"@);
        }
    }
    false
}

/// The second argument of the fact, where the fact is the relation
/// `name` applied to the constant `first` and one more term.
pub fn second_of<'a>(fact: &'a Sentence, name: &String, first: &String) -> (r: Option<&'a Term>)
    ensures
        match r {
            Some(t) => fact@ == SentenceV::Rel(name@, seq![TermV::Const(first@), t@]),
            None => forall|t: TermV|
                fact@ != SentenceV::Rel(name@, seq![TermV::Const(first@), t]),
        },
{
    match fact {
        Sentence::Rel(n, args) => {
            if *n == *name && args.len() == 2 {
                assert(terms_view(args@)[0] == args[0]@);
                assert(terms_view(args@)[1] == args[1]@);
                match &args[0] {
                    Term::Const(c) => {
                        if *c == *first {
                            proof {
                                lemma_pair_view(name@, terms_view(args@), first@);
                            }
                            Some(&args[1])
                        } else {
                            assert forall|t: TermV|
                                fact@ != SentenceV::Rel(
                                    name@,
                                    seq![TermV::Const(first@), t],
                                ) by {
                                assert(seq![TermV::Const(first@), t][0] == TermV::Const(first@));
                            }
                            None
                        }
                    },
                    _ => {
                        assert forall|t: TermV|
                            fact@ != SentenceV::Rel(name@, seq![TermV::Const(first@), t]) by {
                            assert(seq![TermV::Const(first@), t][0] == TermV::Const(first@));
                        }
                        None
                    },
                }
            } else {
                assert forall|t: TermV|
                    fact@ != SentenceV::Rel(name@, seq![TermV::Const(first@), t]) by {
                    assert(seq![TermV::Const(first@), t].len() == 2);
                }
                None
            }
        },
        _ => None,
    }
}

/// The move `t` is in the list.
pub open spec fn move_listed(moves: Seq<Move>, t: TermV) -> bool {
    exists|j: int| 0 <= j < moves.len() && (#[trigger] moves[j])@ == t
}

/// The fact is among the first `upto` facts.
pub open spec fn fact_before(facts: Seq<Sentence>, upto: int, f: SentenceV) -> bool {
    exists|k: int| 0 <= k < upto && (#[trigger] facts[k])@ == f
}

/// No move is in the list twice.
pub open spec fn moves_distinct(moves: Seq<Move>) -> bool {
    forall|a: int, b: int| 0 <= a < b < moves.len() ==> (#[trigger] moves[a])@ != (
    #[trigger] moves[b])@
}

/// The moves that the facts make legal for the role: each once.
pub fn legal_among(facts: &Vec<Sentence>, role: &Role, kw: &Keywords) -> (r: Vec<Move>)
    requires
        kw.wf(),
        facts_ground(facts@),
        facts_distinct(facts@),
    ensures
        moves_wf(r@),
        moves_distinct(r@),
        forall|t: TermV|
            #[trigger] move_listed(r@, t) <==> facts_set(facts@).contains(legal_fact(role@, t)),
{
    let mut out: Vec<Move> = Vec::new();
    let mut i: usize = 0;
    while i < facts.len()
        invariant
            i <= facts.len(),
            kw.wf(),
            facts_ground(facts@),
            facts_distinct(facts@),
            moves_wf(out@),
            moves_distinct(out@),
            forall|t: TermV|
                #[trigger] move_listed(out@, t) <==> fact_before(
                    facts@,
                    i as int,
                    legal_fact(role@, t),
                ),
        decreases facts.len() - i,
    {
        let ghost before = out@;
        match second_of(&facts[i], &kw.legal, &role.name) {
            Some(t) => {
                let mv = Move { term: t.duplicate() };
                proof {
                    assert(facts[i as int]@ == legal_fact(role@, t@));
                    assert(sentence_ground(facts[i as int]@));
                    let args = crate::sentence::sentence_args(facts[i as int]@);
                    assert(args[1] == t@);
                    assert(term_ground(args[1]));
                    assert forall|a: int| 0 <= a < before.len() implies (#[trigger] before[a])@
                        != t@ by {
                        if before[a]@ == t@ {
                            assert(move_listed(before, t@));
                            assert(fact_before(facts@, i as int, legal_fact(role@, t@)));
                            let k = choose|k: int|
                                0 <= k < i && (#[trigger] facts[k])@ == legal_fact(role@, t@);
                            assert(facts[k]@ != facts[i as int]@);
                        }
                    }
                }
                out.push(mv);
                proof {
                    assert forall|u: TermV|
                        #[trigger] move_listed(out@, u) <==> fact_before(
                            facts@,
                            i + 1,
                            legal_fact(role@, u),
                        ) by {
                        if move_listed(out@, u) {
                            let j = choose|j: int| 0 <= j < out.len() && (#[trigger] out[j])@ == u;
                            if j < before.len() {
                                assert(before[j]@ == u);
                                assert(move_listed(before, u));
                                assert(fact_before(facts@, i as int, legal_fact(role@, u)));
                                let k = choose|k: int|
                                    0 <= k < i && (#[trigger] facts[k])@ == legal_fact(role@, u);
                                assert(facts[k]@ == legal_fact(role@, u));
                            } else {
                                assert(facts[i as int]@ == legal_fact(role@, u));
                            }
                        }
                        if fact_before(facts@, i + 1, legal_fact(role@, u)) {
                            let k = choose|k: int|
                                0 <= k < i + 1 && (#[trigger] facts[k])@ == legal_fact(role@, u);
                            if k < i {
                                assert(fact_before(facts@, i as int, legal_fact(role@, u)));
                                assert(move_listed(before, u));
                                let j = choose|j: int|
                                    0 <= j < before.len() && (#[trigger] before[j])@ == u;
                                assert(out[j]@ == u);
                            } else {
                                assert(seq![TermV::Const(role@), u][1] == seq![
                                    TermV::Const(role@),
                                    t@,
                                ][1]);
                                assert(out[before.len() as int]@ == u);
                            }
                        }
                    }
                }
            },
            None => {
                proof {
                    assert forall|u: TermV|
                        #[trigger] move_listed(out@, u) <==> fact_before(
                            facts@,
                            i + 1,
                            legal_fact(role@, u),
                        ) by {
                        if fact_before(facts@, i + 1, legal_fact(role@, u)) {
                            let k = choose|k: int|
                                0 <= k < i + 1 && (#[trigger] facts[k])@ == legal_fact(role@, u);
                            assert(k < i);
                            assert(fact_before(facts@, i as int, legal_fact(role@, u)));
                        }
                        if move_listed(out@, u) {
                            assert(fact_before(facts@, i as int, legal_fact(role@, u)));
                            let k = choose|k: int|
                                0 <= k < i && (#[trigger] facts[k])@ == legal_fact(role@, u);
                            assert(facts[k]@ == legal_fact(role@, u));
                        }
                    }
                }
            },
        }
        i += 1;
    }
    proof {
        assert forall|t: TermV|
            #[trigger] move_listed(out@, t) <==> facts_set(facts@).contains(
                legal_fact(role@, t),
            ) by {
            if facts_set(facts@).contains(legal_fact(role@, t)) {
                let k = choose|k: int|
                    0 <= k < facts.len() && (#[trigger] facts[k])@ == legal_fact(role@, t);
                assert(fact_before(facts@, facts.len() as int, legal_fact(role@, t)));
            }
            if move_listed(out@, t) {
                assert(fact_before(facts@, facts.len() as int, legal_fact(role@, t)));
                let k = choose|k: int|
                    0 <= k < facts.len() && (#[trigger] facts[k])@ == legal_fact(role@, t);
                assert(facts_set(facts@).contains(facts[k]@));
            }
        }
    }
    out
}

/// Whether the facts give the role a goal value.
pub fn has_goal_among(facts: &Vec<Sentence>, role: &Role, kw: &Keywords) -> (r: bool)
    requires
        kw.wf(),
    ensures
        r == has_goal_value(facts_set(facts@), role@),
{
    let ghost holding = facts_set(facts@);
    let mut i: usize = 0;
    while i < facts.len()
        invariant
            i <= facts.len(),
            kw.wf(),
            holding == facts_set(facts@),
            forall|k: int| 0 <= k < i ==> !is_goal_of((#[trigger] facts[k])@, role@),
        decreases facts.len() - i,
    {
        match second_of(&facts[i], &kw.goal, &role.name) {
            Some(t) => {
                assert(holding.contains(facts[i as int]@));
                assert(holding.contains(goal_fact(role@, t@)));
                return true;
            },
            None => {
                assert(!is_goal_of(facts[i as int]@, role@));
            },
        }
        i += 1;
    }
    proof {
        assert forall|t: TermV| !holding.contains(#[trigger] goal_fact(role@, t)) by {
            if holding.contains(goal_fact(role@, t)) {
                let k = choose|k: int|
                    0 <= k < facts.len() && (#[trigger] facts[k])@ == goal_fact(role@, t);
                assert(is_goal_of(facts[k]@, role@));
            }
        }
    }
    false
}

/// The score that the facts give the role.
pub fn score_among(facts: &Vec<Sentence>, role: &Role, kw: &Keywords) -> (r: Option<Score>)
    requires
        kw.wf(),
        facts_distinct(facts@),
    ensures
        r == role_score(facts_set(facts@), role@),
{
    let ghost holding = facts_set(facts@);
    let mut found: Option<&Term> = None;
    let ghost mut at: int = 0;
    let mut i: usize = 0;
    while i < facts.len()
        invariant
            i <= facts.len(),
            kw.wf(),
            facts_distinct(facts@),
            holding == facts_set(facts@),
            found is Some ==> 0 <= at < i && facts[at]@ == goal_fact(role@, found->Some_0@),
            forall|k: int|
                0 <= k < i && is_goal_of((#[trigger] facts[k])@, role@) ==> found is Some && k
                    == at,
        decreases facts.len() - i,
    {
        match second_of(&facts[i], &kw.goal, &role.name) {
            Some(t) => {
                assert(facts[i as int]@ == goal_fact(role@, t@));
                assert(is_goal_of(facts[i as int]@, role@));
                match found {
                    Some(earlier) => {
                        proof {
                            assert(facts[at]@ != facts[i as int]@);
                            assert(holding.contains(facts[at]@));
                            assert(holding.contains(facts[i as int]@));
                            assert(earlier@ != t@);
                            assert(holding.contains(goal_fact(role@, earlier@)));
                            assert(holding.contains(goal_fact(role@, t@)));
                            lemma_no_sole_goal(holding, role@);
                        }
                        return None;
                    },
                    None => {
                        found = Some(t);
                        proof {
                            at = i as int;
                        }
                    },
                }
            },
            None => {
                assert(!is_goal_of(facts[i as int]@, role@));
            },
        }
        i += 1;
    }
    match found {
        None => {
            proof {
                assert forall|t: TermV| !holding.contains(#[trigger] goal_fact(role@, t)) by {
                    if holding.contains(goal_fact(role@, t)) {
                        let k = choose|k: int|
                            0 <= k < facts.len() && (#[trigger] facts[k])@ == goal_fact(role@, t);
                        assert(is_goal_of(facts[k]@, role@));
                    }
                }
                lemma_no_sole_goal(holding, role@);
            }
            None
        },
        Some(t) => {
            proof {
                assert(holding.contains(facts[at]@));
                assert forall|u: TermV|
                    holding.contains(#[trigger] goal_fact(role@, u)) implies u == t@ by {
                    let k = choose|k: int|
                        0 <= k < facts.len() && (#[trigger] facts[k])@ == goal_fact(role@, u);
                    assert(is_goal_of(facts[k]@, role@));
                    assert(k == at);
                    assert(seq![TermV::Const(role@), u][1] == seq![TermV::Const(role@), t@][1]);
                }
                lemma_sole_goal(holding, role@, t@);
            }
            score_of(t)
        },
    }
}

/// The mathematical value of a game in play.
pub struct GameV {
    pub phase: MatchState,
    pub role: Seq<char>,
    pub start_clock: u32,
    pub play_clock: u32,
    pub roles: Seq<Seq<char>>,
    pub rules: RuleBaseV,
    pub initial: Set<SentenceV>,
    pub current: Set<SentenceV>,
}

/// The game after the transition that the joint move makes, in the
/// given phase.
pub open spec fn game_after(g: GameV, moves: Seq<TermV>, phase: MatchState) -> GameV {
    GameV { phase, current: next_state_spec(g.rules, g.roles, g.current, moves), ..g }
}

/// Why a game refuses a joint move, if it does: the match is over, or
/// the joint move is neither empty nor one move for each role.
pub open spec fn move_fault(g: GameV, moves: Seq<TermV>) -> Option<MatchError> {
    if g.phase == MatchState::Finished {
        Some(MatchError::MatchFinished)
    } else if moves.len() != 0 && moves.len() != g.roles.len() {
        Some(MatchError::BadJointMove)
    } else {
        None
    }
}

/// A match of a game: the description, the role played, the clocks, the
/// phase and the current state.
#[derive(Debug)]
pub struct Game {
    match_state: MatchState,
    role: Role,
    start_clock: u32,
    play_clock: u32,
    desc: GameDesc,
    cur_state: State,
}

impl View for Game {
    type V = GameV;

    closed spec fn view(&self) -> GameV {
        GameV {
            phase: self.match_state,
            role: self.role@,
            start_clock: self.start_clock,
            play_clock: self.play_clock,
            roles: roles_view(self.desc.roles@),
            rules: self.desc.rules@,
            initial: self.desc.state@,
            current: self.cur_state@,
        }
    }
}

impl Game {
    /// The description is whole and the current state is valid.
    pub closed spec fn wf(&self) -> bool {
        self.desc.wf() && self.cur_state.wf()
    }

    /// A valid game has a role, none twice, and a valid rule base.
    pub proof fn lemma_wf(&self)
        requires
            self.wf(),
        ensures
            self@.roles.len() > 0,
            crate::gdl::names_distinct(self@.roles),
            rule_base_valid(self@.rules),
    {
    }

    /// A new match of the described game, in its initial state.
    pub fn new(role: Role, start_clock: u32, play_clock: u32, desc: GameDesc) -> (g: Game)
        requires
            desc.wf(),
        ensures
            g.wf(),
            g@ == (GameV {
                phase: MatchState::Started,
                role: role@,
                start_clock,
                play_clock,
                roles: roles_view(desc.roles@),
                rules: desc.rules@,
                initial: desc.state@,
                current: desc.state@,
            }),
    {
        let cur_state = desc.state.duplicate();
        Game { match_state: MatchState::Started, role, start_clock, play_clock, desc, cur_state }
    }

    /// Whether the state is terminal.
    pub fn is_terminal(&self, state: State) -> (r: bool)
        requires
            self.wf(),
            state.wf(),
        ensures
            r == terminal_spec(self@.rules, state@),
    {
        let kw = Keywords::new();
        let facts = self.desc.rules.facts_from(state.props());
        terminal_among(&facts, &kw)
    }

    /// The roles of the game, in the order of their declaration.
    pub fn get_roles(&self) -> (r: &Vec<Role>)
        ensures
            roles_view(r@) == self@.roles,
    {
        &self.desc.roles
    }

    /// The role that this player has in the match.
    pub fn get_role(&self) -> (r: &Role)
        ensures
            r@ == self@.role,
    {
        &self.role
    }

    /// The phase of the match.
    pub fn get_match_state(&self) -> (r: MatchState)
        ensures
            r == self@.phase,
    {
        self.match_state
    }

    /// The initial state of the game.
    pub fn get_initial_state(&self) -> (r: &State)
        requires
            self.wf(),
        ensures
            r.wf(),
            r@ == self@.initial,
    {
        &self.desc.state
    }

    /// The current state of the match.
    pub fn get_current_state(&self) -> (r: &State)
        requires
            self.wf(),
        ensures
            r.wf(),
            r@ == self@.current,
    {
        &self.cur_state
    }

    /// The description of the game.
    pub fn get_description(&self) -> (r: &GameDesc)
        requires
            self.wf(),
        ensures
            r.wf(),
            r.rules@ == self@.rules,
            roles_view(r.roles@) == self@.roles,
            r.state@ == self@.initial,
    {
        &self.desc
    }

    /// The moves that are legal for the role in the state: each once.
    pub fn get_legal_moves(&self, state: &State, role: &Role) -> (r: Vec<Move>)
        requires
            self.wf(),
            state.wf(),
        ensures
            moves_wf(r@),
            moves_distinct(r@),
            forall|t: TermV|
                #[trigger] move_listed(r@, t) <==> model(self@.rules, state@).contains(
                    legal_fact(role@, t),
                ),
    {
        let kw = Keywords::new();
        let facts = self.desc.rules.facts_from(state.props());
        legal_among(&facts, role, &kw)
    }

    /// The moves that are legal for the role in the state, each once;
    /// or the fault that the role, one of the game, has no legal move
    /// though the state is not terminal.
    pub fn legal_moves_or_fault(&self, state: &State, role: &Role) -> (r: Result<
        Vec<Move>,
        EvalError,
    >)
        requires
            self.wf(),
            state.wf(),
        ensures
            match r {
                Ok(moves) => {
                    &&& !stuck_spec(self@.rules, self@.roles, state@, role@)
                    &&& moves_wf(moves@)
                    &&& moves_distinct(moves@)
                    &&& forall|t: TermV|
                        #[trigger] move_listed(moves@, t) <==> model(self@.rules, state@).contains(
                            legal_fact(role@, t),
                        )
                },
                Err(e) => e == EvalError::NoLegalMove && stuck_spec(
                    self@.rules,
                    self@.roles,
                    state@,
                    role@,
                ),
            },
    {
        let kw = Keywords::new();
        let facts = self.desc.rules.facts_from(state.props());
        let ghost holding = model(self@.rules, state@);
        let ghost rv = roles_view(self.desc.roles@);
        let legal = legal_among(&facts, role, &kw);
        if legal.len() > 0 {
            proof {
                assert(move_listed(legal@, legal[0]@));
                assert(holding.contains(legal_fact(role@, legal[0]@)));
            }
            return Ok(legal);
        }
        proof {
            assert forall|t: TermV| !holding.contains(#[trigger] legal_fact(role@, t)) by {
                if holding.contains(legal_fact(role@, t)) {
                    assert(move_listed(legal@, t));
                }
            }
            assert(!has_legal_move(holding, role@));
        }
        if terminal_among(&facts, &kw) {
            return Ok(legal);
        }
        let mut i: usize = 0;
        while i < self.desc.roles.len()
            invariant
                i <= self.desc.roles.len(),
                rv == roles_view(self.desc.roles@),
                rv == self@.roles,
                holding == model(self@.rules, state@),
                !terminal_spec(self@.rules, state@),
                !has_legal_move(holding, role@),
                forall|k: int| 0 <= k < i ==> #[trigger] rv[k] != role@,
            decreases self.desc.roles.len() - i,
        {
            assert(rv[i as int] == self.desc.roles[i as int]@);
            if self.desc.roles[i].equals(role) {
                assert(rv.contains(role@));
                return Err(EvalError::NoLegalMove);
            }
            i += 1;
        }
        assert(!rv.contains(role@));
        Ok(legal)
    }

    /// Whether the state is playable: terminal, or with a legal move
    /// for every role.
    pub fn is_playable(&self, state: &State) -> (r: bool)
        requires
            self.wf(),
            state.wf(),
        ensures
            r == playable_spec(self@.rules, self@.roles, state@),
    {
        let kw = Keywords::new();
        let facts = self.desc.rules.facts_from(state.props());
        let ghost holding = model(self@.rules, state@);
        let ghost rv = roles_view(self.desc.roles@);
        if terminal_among(&facts, &kw) {
            return true;
        }
        let mut i: usize = 0;
        while i < self.desc.roles.len()
            invariant
                i <= self.desc.roles.len(),
                kw.wf(),
                facts_ground(facts@),
                facts_distinct(facts@),
                holding == facts_set(facts@),
                holding == model(self@.rules, state@),
                rv == roles_view(self.desc.roles@),
                rv == self@.roles,
                !terminal_spec(self@.rules, state@),
                forall|k: int| #![trigger rv[k]] 0 <= k < i ==> has_legal_move(holding, rv[k]),
            decreases self.desc.roles.len() - i,
        {
            assert(rv[i as int] == self.desc.roles[i as int]@);
            let legal = legal_among(&facts, &self.desc.roles[i], &kw);
            if legal.len() == 0 {
                proof {
                    assert forall|t: TermV| !holding.contains(
                        #[trigger] legal_fact(rv[i as int], t),
                    ) by {
                        if holding.contains(legal_fact(rv[i as int], t)) {
                            assert(move_listed(legal@, t));
                        }
                    }
                    assert(!has_legal_move(holding, rv[i as int]));
                }
                return false;
            }
            proof {
                assert(move_listed(legal@, legal[0]@));
                assert(holding.contains(legal_fact(rv[i as int], legal[0]@)));
                assert(has_legal_move(holding, rv[i as int]));
            }
            i += 1;
        }
        true
    }

    /// What the roles score in the state: each role that has a score,
    /// with its score, in the order of the roles. A role without a goal
    /// value is left out, unless the state is terminal. The state is
    /// refused where a role has more than one goal value or one that is
    /// no score, and where the state is terminal and a role has none.
    pub fn get_goals(&self, state: &State) -> (r: Result<Vec<Goal>, EvalError>)
        requires
            self.wf(),
            state.wf(),
        ensures
            match r {
                Ok(goals) => {
                    &&& !goals_fault(
                        model(self@.rules, state@),
                        terminal_spec(self@.rules, state@),
                        self@.roles,
                    )
                    &&& scores_view(goals@) == scored(model(self@.rules, state@), self@.roles)
                    &&& forall|i: int| 0 <= i < goals.len() ==> (#[trigger] goals[i]).score <= 100
                },
                Err(e) => e == EvalError::GoalViolation && goals_fault(
                    model(self@.rules, state@),
                    terminal_spec(self@.rules, state@),
                    self@.roles,
                ),
            },
    {
        let kw = Keywords::new();
        let facts = self.desc.rules.facts_from(state.props());
        let ghost holding = model(self@.rules, state@);
        let ghost rv = roles_view(self.desc.roles@);
        let terminal = terminal_among(&facts, &kw);
        let mut out: Vec<Goal> = Vec::new();
        let mut i: usize = 0;
        proof {
            assert(rv.take(0) =~= Seq::empty());
            assert(scores_view(out@) =~= Seq::empty());
        }
        while i < self.desc.roles.len()
            invariant
                i <= self.desc.roles.len(),
                kw.wf(),
                facts_distinct(facts@),
                holding == facts_set(facts@),
                holding == model(self@.rules, state@),
                terminal == terminal_spec(self@.rules, state@),
                rv == roles_view(self.desc.roles@),
                rv == self@.roles,
                scores_view(out@) == scored(holding, rv.take(i as int)),
                forall|k: int| 0 <= k < out.len() ==> (#[trigger] out[k]).score <= 100,
                forall|k: int| 0 <= k < i ==> !role_fault(holding, terminal, #[trigger] rv[k]),
            decreases self.desc.roles.len() - i,
        {
            let ghost before = scores_view(out@);
            let ghost part = rv.take(i as int + 1);
            proof {
                assert(rv[i as int] == self.desc.roles[i as int]@);
                assert(part.drop_last() =~= rv.take(i as int));
                assert(part.last() == rv[i as int]);
            }
            match score_among(&facts, &self.desc.roles[i], &kw) {
                Some(score) => {
                    proof {
                        lemma_score_bound(holding, rv[i as int]);
                        lemma_scored_has_value(holding, rv[i as int]);
                    }
                    out.push(Goal { role: self.desc.roles[i].duplicate(), score });
                    assert(scores_view(out@) =~= before.push((rv[i as int], score)));
                },
                None => {
                    let has = has_goal_among(&facts, &self.desc.roles[i], &kw);
                    if has || terminal {
                        assert(role_fault(holding, terminal, self@.roles[i as int]));
                        return Err(EvalError::GoalViolation);
                    }
                },
            }
            i += 1;
        }
        assert(rv.take(self.desc.roles.len() as int) =~= rv);
        Ok(out)
    }

    /// What the role scores in the state, where it has exactly one score.
    pub fn get_goal(&self, state: &State, role: &Role) -> (r: Result<Score, EvalError>)
        requires
            self.wf(),
            state.wf(),
        ensures
            match r {
                Ok(score) => role_score(model(self@.rules, state@), role@) == Some(score) && score
                    <= 100,
                Err(e) => e == EvalError::GoalViolation && role_score(
                    model(self@.rules, state@),
                    role@,
                ) is None,
            },
    {
        let kw = Keywords::new();
        let facts = self.desc.rules.facts_from(state.props());
        match score_among(&facts, role, &kw) {
            Some(score) => {
                proof {
                    lemma_score_bound(model(self@.rules, state@), role@);
                }
                Ok(score)
            },
            None => Err(EvalError::GoalViolation),
        }
    }

    /// The successor of the state under the joint move, which holds one
    /// move for each role, in the order of the roles, or is empty. With
    /// the empty joint move the state is evaluated as it is. A joint move
    /// of another length is refused.
    pub fn get_next_state(&self, state: &State, moves: Vec<Move>) -> (r: Result<State, EvalError>)
        requires
            self.wf(),
            state.wf(),
            moves_wf(moves@),
        ensures
            match r {
                Ok(next) => {
                    &&& moves.len() == 0 || moves.len() == self@.roles.len()
                    &&& next.wf()
                    &&& next@ == next_state_spec(
                        self@.rules,
                        self@.roles,
                        state@,
                        moves_view(moves@),
                    )
                },
                Err(e) => e == EvalError::BadJointMove && moves.len() != 0 && moves.len()
                    != self@.roles.len(),
            },
    {
        let kw = Keywords::new();
        if moves.len() == 0 {
            proof {
                let none = joint_facts(self@.roles, moves_view(moves@));
                assert(state@.union(none) =~= state@);
            }
            let facts = self.desc.rules.facts_from(state.props());
            return Ok(next_from(&facts, &kw));
        }
        if moves.len() != self.desc.roles.len() {
            return Err(EvalError::BadJointMove);
        }
        let given = with_joint_move(state, &self.desc.roles, &moves, &kw);
        let facts = self.desc.rules.facts_from(given.props());
        Ok(next_from(&facts, &kw))
    }

    /// The start clock of the match, in seconds.
    pub fn get_start_clock(&self) -> (r: u32)
        ensures
            r == self@.start_clock,
    {
        self.start_clock
    }

    /// The play clock of the match, in seconds.
    pub fn get_play_clock(&self) -> (r: u32)
        ensures
            r == self@.play_clock,
    {
        self.play_clock
    }

    /// Takes the match one turn on. An empty joint move, as the first
    /// turn brings, leaves the match as it is. Any other joint move puts
    /// the match in play and the successor state in the place of the
    /// current one. A match that is over refuses, and so does a joint
    /// move that does not hold one move for each role; the match then
    /// stays as it is.
    pub fn update(&mut self, moves: Vec<Move>) -> (r: Result<(), MatchError>)
        requires
            old(self).wf(),
            moves_wf(moves@),
        ensures
            final(self).wf(),
            match r {
                Ok(_) => move_fault(old(self)@, moves_view(moves@)) is None && final(self)@ == (
                if moves.len() == 0 {
                    old(self)@
                } else {
                    game_after(old(self)@, moves_view(moves@), MatchState::Playing)
                }),
                Err(e) => move_fault(old(self)@, moves_view(moves@)) == Some(e) && final(self)@
                    == old(self)@,
            },
    {
        if self.match_state == MatchState::Finished {
            return Err(MatchError::MatchFinished);
        }
        if moves.len() == 0 {
            return Ok(());
        }
        match self.get_next_state(&self.cur_state, moves) {
            Ok(next) => {
                self.match_state = MatchState::Playing;
                self.cur_state = next;
                Ok(())
            },
            Err(_) => Err(MatchError::BadJointMove),
        }
    }

    /// Ends the match: the final joint move leads to the final state,
    /// and the match is over. With the empty joint move the transition
    /// is made without a move. A match that is over already refuses, and
    /// so does a joint move that is neither empty nor one move for each
    /// role; the match then stays as it is.
    pub fn finish(&mut self, moves: Vec<Move>) -> (r: Result<(), MatchError>)
        requires
            old(self).wf(),
            moves_wf(moves@),
        ensures
            final(self).wf(),
            match r {
                Ok(_) => move_fault(old(self)@, moves_view(moves@)) is None && final(self)@
                    == game_after(old(self)@, moves_view(moves@), MatchState::Finished),
                Err(e) => move_fault(old(self)@, moves_view(moves@)) == Some(e) && final(self)@
                    == old(self)@,
            },
    {
        if self.match_state == MatchState::Finished {
            return Err(MatchError::MatchFinished);
        }
        match self.get_next_state(&self.cur_state, moves) {
            Ok(next) => {
                self.match_state = MatchState::Finished;
                self.cur_state = next;
                Ok(())
            },
            Err(_) => Err(MatchError::BadJointMove),
        }
    }
}

/// A score is at most 100.
pub proof fn lemma_score_bound(holding: Set<SentenceV>, role: Seq<char>)
    ensures
        role_score(holding, role) is Some ==> role_score(holding, role)->Some_0 <= 100,
{
}

/// A role that has a score has a goal value.
pub proof fn lemma_scored_has_value(holding: Set<SentenceV>, role: Seq<char>)
    ensures
        role_score(holding, role) is Some ==> has_goal_value(holding, role),
{
    if role_score(holding, role) is Some {
        let t = choose|t: TermV| sole_goal(holding, role, t);
        assert(holding.contains(goal_fact(role, t)));
    }
}

} // verus!
