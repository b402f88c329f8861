//! A goal-oriented symbolic planner.
//!
//! Given a snapshot of an agent's world state, a library of actions (each
//! gated by preconditions and producing state-mutating effects with a cost),
//! and a goal (a set of required conditions), the planner searches for an
//! ordered sequence of actions that transforms the start state into one
//! satisfying the goal.

pub mod action;
pub mod compare;
pub mod datum;
pub mod effect;
pub mod goal;
pub mod localstate;
pub mod mutator;
pub mod planner;
pub mod simple;
