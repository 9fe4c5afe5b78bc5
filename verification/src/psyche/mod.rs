//! What an agent accumulates about the people it deals with.
//!
//! It decides tone and priority, what to propose and whom to chase first; it is
//! never an input to [`crate::policy`]. Nothing here reads a clock or a random
//! source, so the same events replay to the same state.

pub mod belief_laws;
pub mod beliefs;
pub mod expectation;
pub mod forgetting;
pub mod links;
