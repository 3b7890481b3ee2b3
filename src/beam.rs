//! Beam search: search nodes linked to their parents, a bounded queue of
//! candidates for each turn, and a driver that expands them under a deadline.

pub mod node;
pub mod queue;
pub mod search;

pub use node::{score_of, BSState};
pub use queue::BSQueue;
pub use search::{
    best_index, child_from_applied, child_from_fast, route_child, with_score, ActionApplied, BeamSearch, EvalAfterAction,
    Evaluator,
};
