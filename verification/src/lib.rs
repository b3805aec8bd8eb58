//! A general game-playing engine. It reads the description of a game as
//! a logic program with negation, disjunction and distinct-constraints,
//! and answers from it alone which moves are legal, which state follows
//! a joint move, whether a state is terminal and what each role scores.
//! A match controller takes matches from their start through their
//! turns to their end and calls on a player at each of these points.
//!
//! The modules, from the leaves up:
//! - `term`, `sentence`, `subst`: terms, sentences, literals and rules,
//!   substitutions and matching;
//! - `semantics`: what a rule base means;
//! - `safety`, `strata`, `checks`: what is asked of rules before they
//!   are evaluated;
//! - `solver`, `model`, `eval`: the evaluation of rule bodies, the
//!   fixpoint of a stratum, and the evaluator built on them;
//! - `state`, `gdl`, `game`: states, game descriptions and the game
//!   state machine;
//! - `frame`, `game_manager`: request texts and the match controller;
//! - `laws`: what holds of all of these together;
//! - `error`: what can be refused, and why.

pub mod term;
pub mod sentence;
pub mod subst;
pub mod semantics;
pub mod solver;
pub mod model;
pub mod safety;
pub mod strata;
pub mod error;
pub mod state;
pub mod eval;
pub mod checks;
pub mod gdl;
pub mod game;
pub mod frame;
pub mod game_manager;
pub mod laws;
