//! Turn-based hex combat.

pub mod act;
pub mod ai;
pub mod arena;
pub mod moves;
pub mod resolve;
pub mod rules;
pub mod setup;
pub mod types;
pub mod zone;
