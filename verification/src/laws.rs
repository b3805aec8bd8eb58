//! What holds of the engine whatever the game: laws that relate the
//! evaluator, the state machine and the match controller.

use crate::error::{EvalError, MatchError};
use crate::eval::{
    holds_spec, query_holds, lemma_model_holds_given, lemma_rule_base_determined,
    lemma_undefined_relation_empty, model, rule_base_valid, RuleBaseV,
};
use crate::game::{
    game_after, goals_fault, has_goal_value, has_legal_move, lemma_scored_has_value, role_fault,
    role_score, scored, joint_facts, move_fault, next_state_spec, playable_spec,
    stuck_spec, terminal_spec, GameV, MatchState,
};
use crate::game_manager::{start_fault, turn_fault};
use crate::sentence::{sentence_name, LiteralV, RuleV, SentenceV};
use crate::subst::{ground_subst, lemma_subst_of_ground_terms, Binding};
use crate::term::{terms_ground, TermV};
use vstd::prelude::*;

verus! {

/// Whether a query holds is decided by the query, the state and the
/// rules: two valid rule bases of the same rules answer alike, in
/// whatever order the facts of the state were given.
pub proof fn law_holds_is_determined(
    query: LiteralV,
    state: Set<SentenceV>,
    first: RuleBaseV,
    second: RuleBaseV,
)
    requires
        rule_base_valid(first),
        rule_base_valid(second),
        first.rules == second.rules,
    ensures
        holds_spec(query, state, first) == holds_spec(query, state, second),
{
    lemma_rule_base_determined(first, second);
}

/// Of a relation that no rule defines and no fact of the state is of,
/// nothing holds: what is derived of it is the empty set.
pub proof fn law_nothing_holds_of_an_undefined_relation(
    rules: RuleBaseV,
    state: Set<SentenceV>,
    relation: Seq<char>,
)
    requires
        forall|i: int|
            0 <= i < rules.rules.len() ==> sentence_name((#[trigger] rules.rules[i]).head)
                != relation,
        forall|f: SentenceV| state.contains(f) ==> sentence_name(f) != relation,
    ensures
        forall|f: SentenceV| model(rules, state).contains(f) ==> sentence_name(f) != relation,
{
    lemma_undefined_relation_empty(rules, state, relation);
}

/// What holds in a state under no rule at all is what it was given, and
/// under any rules what was given holds still.
pub proof fn law_given_facts_hold(rules: RuleBaseV, state: Set<SentenceV>)
    ensures
        state.subset_of(model(rules, state)),
        rules.depth == 0 ==> model(rules, state) == state,
{
    lemma_model_holds_given(rules.rules, rules.levels, rules.depth, state);
}

/// The successor state holds `true(t)` exactly for the `next(t)` that
/// hold under the joint move; whether a fact was in the state before
/// plays no part beyond that.
pub proof fn law_next_state_is_what_next_derives(
    rules: RuleBaseV,
    roles: Seq<Seq<char>>,
    state: Set<SentenceV>,
    moves: Seq<TermV>,
    f: SentenceV,
)
    ensures
        next_state_spec(rules, roles, state, moves).contains(f) <==> (f is Rel && f->Rel_0
            == "true"@ && model(rules, state.union(joint_facts(roles, moves))).contains(
            SentenceV::Rel("next"@, f->Rel_1),
        )),
{
}

/// Where no rule defines `next` and the state holds no fact of it, the
/// successor state is empty, whatever the state held and whatever the
/// joint move: no fact stays by itself.
pub proof fn law_no_fact_stays_by_itself(
    rules: RuleBaseV,
    roles: Seq<Seq<char>>,
    state: Set<SentenceV>,
    moves: Seq<TermV>,
)
    requires
        forall|i: int|
            0 <= i < rules.rules.len() ==> sentence_name((#[trigger] rules.rules[i]).head)
                != "next"@,
        forall|f: SentenceV| state.contains(f) ==> sentence_name(f) != "next"@,
    ensures
        next_state_spec(rules, roles, state, moves) == Set::<SentenceV>::empty(),
{
    let given = state.union(joint_facts(roles, moves));
    reveal_strlit("next");
    reveal_strlit("does");
    assert("next"@ != "does"@) by {
        assert("next"@[0] == 'n');
        assert("does"@[0] == 'd');
    }
    assert forall|f: SentenceV| given.contains(f) implies sentence_name(f) != "next"@ by {
        if !state.contains(f) {
            assert(joint_facts(roles, moves).contains(f));
            assert(sentence_name(f) == "does"@);
        }
    }
    lemma_undefined_relation_empty(rules, given, "next"@);
    assert forall|f: SentenceV| !next_state_spec(rules, roles, state, moves).contains(f) by {
        if next_state_spec(rules, roles, state, moves).contains(f) {
            let n = SentenceV::Rel("next"@, f->Rel_1);
            assert(model(rules, given).contains(n));
            assert(sentence_name(n) == "next"@);
        }
    }
    assert(next_state_spec(rules, roles, state, moves) =~= Set::empty());
}

/// A start under an id that is taken is refused as a duplicate,
/// whatever the description.
pub proof fn law_second_start_is_refused(
    matches: Map<Seq<char>, GameV>,
    id: Seq<char>,
    clauses: Seq<RuleV>,
)
    requires
        matches.dom().contains(id),
    ensures
        start_fault(matches, id, clauses) == Some(MatchError::DuplicateMatch),
{
}

/// Once a match is stopped, a play or a stop under its id is refused:
/// no match has the id.
pub proof fn law_no_turn_after_the_stop(
    matches: Map<Seq<char>, GameV>,
    id: Seq<char>,
    moves: Seq<TermV>,
)
    ensures
        turn_fault(matches.remove(id), id, moves) == Some(MatchError::UnknownMatch),
{
}

/// A query that is refused is refused for being unsafe, and for nothing else.
pub proof fn law_holds_refuses_unsafe_queries_only(
    query: LiteralV,
    state: Set<SentenceV>,
    rules: RuleBaseV,
)
    ensures
        holds_spec(query, state, rules) is Err ==> holds_spec(query, state, rules)
            == Err::<bool, EvalError>(EvalError::UnsafeQuery),
{
}

/// The place of a phase in the life of a match.
pub open spec fn phase_rank(phase: MatchState) -> nat {
    match phase {
        MatchState::Started => 0,
        MatchState::Playing => 1,
        MatchState::Finished => 2,
    }
}

/// A match goes forward only: a joint move that is accepted never takes
/// it to an earlier phase, be it a turn or the end of the match.
pub proof fn law_phases_go_forward(g: GameV, moves: Seq<TermV>)
    requires
        move_fault(g, moves) is None,
    ensures
        phase_rank(g.phase) <= phase_rank(game_after(g, moves, MatchState::Playing).phase),
        phase_rank(g.phase) <= phase_rank(game_after(g, moves, MatchState::Finished).phase),
        game_after(g, moves, MatchState::Playing).roles == g.roles,
        game_after(g, moves, MatchState::Playing).rules == g.rules,
{
}

/// A ground relation holds exactly when it is among the facts that
/// hold: asking whether it holds and looking it up among all that is
/// derived of its relation come to the same.
pub proof fn law_a_ground_relation_holds_where_it_is_derived(
    name: Seq<char>,
    args: Seq<TermV>,
    facts: Set<SentenceV>,
)
    requires
        terms_ground(args),
    ensures
        query_holds(LiteralV::Rel(name, args), facts) <==> facts.contains(
            SentenceV::Rel(name, args),
        ),
{
    let query = LiteralV::Rel(name, args);
    if query_holds(query, facts) {
        let m = choose|m: Binding|
            ground_subst(m) && #[trigger] crate::semantics::literal_sat(query, m, facts, facts);
        lemma_subst_of_ground_terms(args, m);
    }
    if facts.contains(SentenceV::Rel(name, args)) {
        let none = Map::<Seq<char>, TermV>::empty();
        lemma_subst_of_ground_terms(args, none);
        assert(ground_subst(none));
        assert(crate::semantics::literal_sat(query, none, facts, facts));
    }
}

/// In a playable state that is not terminal every role has a legal move.
pub proof fn law_every_role_can_move_in_a_playable_state(
    rules: RuleBaseV,
    roles: Seq<Seq<char>>,
    state: Set<SentenceV>,
    i: int,
)
    requires
        playable_spec(rules, roles, state),
        !terminal_spec(rules, state),
        0 <= i < roles.len(),
    ensures
        has_legal_move(model(rules, state), roles[i]),
{
}

/// A state is not playable exactly when one of the roles is stuck in
/// it; asking for the moves of that role then reports the fault, and
/// for no role is an empty answer given in a state that is not terminal.
pub proof fn law_a_state_that_is_not_playable_is_reported(
    rules: RuleBaseV,
    roles: Seq<Seq<char>>,
    state: Set<SentenceV>,
)
    ensures
        !playable_spec(rules, roles, state) <==> exists|i: int|
            0 <= i < roles.len() && stuck_spec(rules, roles, state, #[trigger] roles[i]),
{
    if !playable_spec(rules, roles, state) {
        let i = choose|i: int|
            #![trigger roles[i]]
            0 <= i < roles.len() && !has_legal_move(model(rules, state), roles[i]);
        assert(roles.contains(roles[i]));
        assert(stuck_spec(rules, roles, state, roles[i]));
    }
}

/// In a terminal state whose goal values are without fault every role
/// has exactly one score: the scores list every role, in the order of
/// the roles, with the score of its one goal value.
pub proof fn law_a_terminal_state_scores_every_role(holding: Set<SentenceV>, roles: Seq<Seq<char>>)
    requires
        !goals_fault(holding, true, roles),
    ensures
        scored(holding, roles).len() == roles.len(),
        forall|i: int|
            0 <= i < roles.len() ==> role_score(holding, #[trigger] roles[i]) is Some && scored(
                holding,
                roles,
            )[i] == (roles[i], role_score(holding, roles[i])->Some_0),
    decreases roles.len(),
{
    if roles.len() > 0 {
        let rest = roles.drop_last();
        assert forall|i: int| 0 <= i < rest.len() implies !role_fault(
            holding,
            true,
            #[trigger] rest[i],
        ) by {
            assert(rest[i] == roles[i]);
            assert(!role_fault(holding, true, roles[i]));
        }
        law_a_terminal_state_scores_every_role(holding, rest);
        assert(!role_fault(holding, true, roles[roles.len() - 1]));
        assert forall|i: int| 0 <= i < roles.len() implies role_score(
            holding,
            #[trigger] roles[i],
        ) is Some && scored(holding, roles)[i] == (roles[i], role_score(holding, roles[i])->Some_0) by {
            assert(!role_fault(holding, true, roles[i]));
            if i < rest.len() {
                assert(rest[i] == roles[i]);
            }
        }
    }
}

/// Roles without a goal value are left out: where no role has one, the
/// scores are none, and in a state that is not terminal that is no fault.
pub proof fn law_roles_without_goal_values_are_left_out(
    holding: Set<SentenceV>,
    roles: Seq<Seq<char>>,
)
    requires
        forall|i: int| 0 <= i < roles.len() ==> !has_goal_value(holding, #[trigger] roles[i]),
    ensures
        scored(holding, roles).len() == 0,
        !goals_fault(holding, false, roles),
    decreases roles.len(),
{
    if roles.len() > 0 {
        let rest = roles.drop_last();
        assert forall|i: int| 0 <= i < rest.len() implies !has_goal_value(
            holding,
            #[trigger] rest[i],
        ) by {
            assert(rest[i] == roles[i]);
        }
        law_roles_without_goal_values_are_left_out(holding, rest);
        assert(roles.last() == roles[roles.len() - 1]);
        lemma_scored_has_value(holding, roles.last());
    }
}

} // verus!
