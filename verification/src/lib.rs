//! A verified core for a small desktop launcher utility.
//!
//! The library classifies stored command strings into three lanes (existing
//! files, "start"-prefixed window actions, and terminal commands), keeps each
//! lane sorted case-insensitively, persists the three lanes as a structured
//! JSON record, and drives the sequenced launch of the window-action lane
//! through an explicit state machine whose transitions are fully specified.

pub mod classify;
pub mod json;
pub mod launch;
pub mod order;
pub mod sorting;
pub mod store;
pub mod util;
