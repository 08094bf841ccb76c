//! A utility-AI decision engine.
//!
//! Agents repeatedly score candidate behaviors with a tree of scorers, pick a
//! winner through an arbitration policy, and drive the chosen behavior through
//! an explicit four-state lifecycle until it completes or is pre-empted.
//!
//! The engine is self-contained: score trees, action trees and thinkers are
//! plain owned values, and every pass over them is a verified function. The
//! surrounding application owns the world state; it feeds raw observations to
//! leaf scorers, drives leaf actions, and calls the passes in order (scorers,
//! thinker, actions, sequences) once per tick.

use vstd::prelude::*;

pub mod action;
pub mod evaluator;
pub mod measures;
pub mod pickers;
pub mod scorer;
pub mod sequence;
pub mod thinker;

verus! {

/// The passes of one engine tick, in the order the engine expects them to run.
/// The surrounding application schedules its own scorer and action logic into
/// the matching slots.
#[derive(Clone, Copy, PartialEq, Eq, Structural, Debug, Hash)]
pub enum BigBrainSet {
    /// Leaf scorers read the world and score trees are evaluated.
    Scorers,
    /// Leaf actions perform domain work and report their own state.
    Actions,
    /// Composite actions reconcile their children's states.
    Sequence,
    /// Thinkers arbitrate and reconcile the running action.
    Thinker,
}

} // verus!
