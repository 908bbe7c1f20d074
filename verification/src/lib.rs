//! On-chain poker command orchestrator.
//!
//! This crate is the orchestration layer between an external, deterministic
//! poker rules engine and a replicated key-value state store.  It turns
//! externally submitted commands (create a table, seat a player, act in a
//! hand, advance a tournament, tick a clock) into validated, deterministic
//! state transitions over an owned [`state::PokerState`] value, and projects
//! the resulting state into read views for clients.
//!
//! The rules engine itself (dealing, bet legality, pot math) is out of scope:
//! the orchestrator treats it as an injected capability.  A command that needs
//! the engine yields an [`orchestrator::EngineRequest`]; the host runs the
//! engine and resumes the command with an [`orchestrator::EngineUpdate`].
//! Everything else - authorization, table and tournament lifecycle,
//! hand-session snapshotting, time control, and multi-table rebalancing -
//! is verified here.

pub mod commands;
pub mod domain;
pub mod error;
pub mod hand;
pub mod idmap;
pub mod orchestrator;
pub mod state;
pub mod textutil;
pub mod time_ctrl;
pub mod tournament;
pub mod ui_tournament_config;
pub mod view;

pub use hand::HandEngineSnapshot;
pub use state::{ApplicationParameters, PokerState};

use vstd::prelude::*;

verus! {

/// ABI marker for the application.
pub struct PokerAbi;

/// The single kind of operation the host submits to the contract.
pub enum Operation {
    Command(commands::Command),
}

} // verus!
