//! The ways in which a game description, a query or a request is refused.

use vstd::prelude::*;

verus! {

/// A fault of a game description, found when it is built.
#[derive(Debug, Clone, Copy, PartialEq, Eq)]
pub enum ConfigError {
    /// A rule reaches a negation or a distinct-constraint with a variable
    /// unbound, or leaves a variable of its head unbound.
    UnsafeRule,
    /// The rules cannot be laid out in strata: a relation depends on
    /// itself through a negation.
    Unstratified,
    /// A rule body reads a relation that no rule defines.
    UndeclaredRelation,
    /// A keyword is applied to the wrong number of arguments.
    BadArity,
    /// A `role` or `init` clause is not a ground fact of the expected
    /// shape, or a role is declared twice.
    BadDeclaration,
    /// The description declares no role.
    MissingRole,
}

/// A fault found while a state is evaluated.
#[derive(Debug, Clone, Copy, PartialEq, Eq)]
pub enum EvalError {
    /// The query holds a negation or a distinct-constraint with a
    /// variable that nothing binds.
    UnsafeQuery,
    /// The joint move does not hold one move for each role.
    BadJointMove,
    /// A role has no goal value, or more than one, or one that is no
    /// score.
    GoalViolation,
    /// A role has no legal move in a state that is not terminal: a
    /// fault of the description.
    NoLegalMove,
}

/// A request that the match controller refuses.
#[derive(Debug, Clone, Copy, PartialEq, Eq)]
pub enum MatchError {
    /// A match with this id exists already.
    DuplicateMatch,
    /// No match has this id.
    UnknownMatch,
    /// The match is over.
    MatchFinished,
    /// The game description is refused.
    Config(ConfigError),
    /// The joint move does not hold one move for each role.
    BadJointMove,
}

} // verus!
