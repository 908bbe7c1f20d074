//! Errors raised while executing a command, and their messages.
//!
//! Every error is caught at the command router boundary and converted into a
//! response value carrying the message produced here; no failure ever
//! propagates to the caller as an unrecoverable fault.

use vstd::prelude::*;
use vstd::string::*;

use crate::domain::{PlayerId, SeatIndex, TableId, TournamentId};
use crate::textutil::{spec_dec_digits, u64_to_string};
use crate::tournament::{TournamentError, TournamentStatus};

verus! {

pub enum OnchainError {
    /// The underlying persistence layer failed, or a stored-state precondition
    /// (such as a table id already being taken) was violated.
    Storage(String),
    TableNotFound(TableId),
    TournamentNotFound(TournamentId),
    SeatNotEmpty { table: TableId, seat: SeatIndex },
    InvalidSeatIndex { table: TableId, seat: SeatIndex },
    NoPlayerAtSeat { table: TableId, seat: SeatIndex },
    /// The player id is already seated elsewhere at this table; seating it
    /// twice would break seat-occupancy injectivity.
    PlayerAlreadySeated { table: TableId, player: PlayerId },
    HandAlreadyInProgress(TableId),
    NoActiveHand(TableId),
    /// The rules engine rejected the action; wraps the engine's own reason.
    EngineError(String),
    Unauthenticated,
    Unauthorized,
    PlayerIdMismatch,
    Tournament(TournamentError),
    TournamentAlreadyExists(TournamentId),
    TournamentNotRunning(TournamentId),
}

pub open spec fn spec_tournament_error_message(e: TournamentError) -> Seq<char> {
    match e {
        TournamentError::InvalidStatus { expected, found } => "invalid tournament status"@,
        TournamentError::NotRegistered { player_id, tournament_id } => "player "@
            + spec_dec_digits(player_id as nat) + " is not registered in tournament "@
            + spec_dec_digits(tournament_id as nat),
        TournamentError::AlreadyRegistered { player_id } => "player "@ + spec_dec_digits(
            player_id as nat,
        ) + " is already registered"@,
        TournamentError::CannotBustLastPlayer { player_id } => {
            "cannot bust the last remaining player"@
        },
        TournamentError::InvalidConfig => "invalid tournament configuration"@,
    }
}

pub open spec fn spec_error_message(e: OnchainError) -> Seq<char> {
    match e {
        OnchainError::Storage(s) => "storage error: "@ + s@,
        OnchainError::TableNotFound(t) => "table "@ + spec_dec_digits(t as nat) + " not found"@,
        OnchainError::TournamentNotFound(t) => "tournament "@ + spec_dec_digits(t as nat)
            + " not found"@,
        OnchainError::SeatNotEmpty { table, seat } => "seat "@ + spec_dec_digits(seat as nat)
            + " is not empty at table "@ + spec_dec_digits(table as nat),
        OnchainError::InvalidSeatIndex { table, seat } => "seat "@ + spec_dec_digits(seat as nat)
            + " is invalid at table "@ + spec_dec_digits(table as nat),
        OnchainError::NoPlayerAtSeat { table, seat } => "no player at seat "@ + spec_dec_digits(
            seat as nat,
        ) + " on table "@ + spec_dec_digits(table as nat),
        OnchainError::PlayerAlreadySeated { table, player } => "player "@ + spec_dec_digits(
            player as nat,
        ) + " is already seated at table "@ + spec_dec_digits(table as nat),
        OnchainError::HandAlreadyInProgress(t) => "hand already in progress at table "@
            + spec_dec_digits(t as nat),
        OnchainError::NoActiveHand(t) => "no active hand on table "@ + spec_dec_digits(t as nat),
        OnchainError::EngineError(s) => "engine error: "@ + s@,
        OnchainError::Unauthenticated => "unauthenticated signer"@,
        OnchainError::Unauthorized => "unauthorized (only owner/admin can do this)"@,
        OnchainError::PlayerIdMismatch => "player id mismatch for this signer"@,
        OnchainError::Tournament(te) => "tournament error: "@ + spec_tournament_error_message(te),
        OnchainError::TournamentAlreadyExists(t) => "tournament already exists: "@
            + spec_dec_digits(t as nat),
        OnchainError::TournamentNotRunning(t) => "tournament not running: "@ + spec_dec_digits(
            t as nat,
        ),
    }
}

impl OnchainError {
    /// The human-readable cause of this error.
    pub fn message(&self) -> (s: String)
        ensures
            s@ == spec_error_message(*self),
    {
        match self {
            OnchainError::Storage(m) => String::from_str("storage error: ").concat(m.as_str()),
            OnchainError::TableNotFound(t) => String::from_str("table ").concat(
                u64_to_string(*t).as_str(),
            ).concat(" not found"),
            OnchainError::TournamentNotFound(t) => String::from_str("tournament ").concat(
                u64_to_string(*t).as_str(),
            ).concat(" not found"),
            OnchainError::SeatNotEmpty { table, seat } => String::from_str("seat ").concat(
                u64_to_string(*seat as u64).as_str(),
            ).concat(" is not empty at table ").concat(u64_to_string(*table).as_str()),
            OnchainError::InvalidSeatIndex { table, seat } => String::from_str("seat ").concat(
                u64_to_string(*seat as u64).as_str(),
            ).concat(" is invalid at table ").concat(u64_to_string(*table).as_str()),
            OnchainError::NoPlayerAtSeat { table, seat } => String::from_str(
                "no player at seat ",
            ).concat(u64_to_string(*seat as u64).as_str()).concat(" on table ").concat(
                u64_to_string(*table).as_str(),
            ),
            OnchainError::PlayerAlreadySeated { table, player } => String::from_str(
                "player ",
            ).concat(u64_to_string(*player).as_str()).concat(" is already seated at table ").concat(
                u64_to_string(*table).as_str(),
            ),
            OnchainError::HandAlreadyInProgress(t) => String::from_str(
                "hand already in progress at table ",
            ).concat(u64_to_string(*t).as_str()),
            OnchainError::NoActiveHand(t) => String::from_str("no active hand on table ").concat(
                u64_to_string(*t).as_str(),
            ),
            OnchainError::EngineError(m) => String::from_str("engine error: ").concat(m.as_str()),
            OnchainError::Unauthenticated => String::from_str("unauthenticated signer"),
            OnchainError::Unauthorized => String::from_str(
                "unauthorized (only owner/admin can do this)",
            ),
            OnchainError::PlayerIdMismatch => String::from_str("player id mismatch for this signer"),
            OnchainError::Tournament(te) => String::from_str("tournament error: ").concat(
                tournament_error_message(te).as_str(),
            ),
            OnchainError::TournamentAlreadyExists(t) => String::from_str(
                "tournament already exists: ",
            ).concat(u64_to_string(*t).as_str()),
            OnchainError::TournamentNotRunning(t) => String::from_str(
                "tournament not running: ",
            ).concat(u64_to_string(*t).as_str()),
        }
    }
}

/// The message for a tournament-domain error.
pub fn tournament_error_message(e: &TournamentError) -> (s: String)
    ensures
        s@ == spec_tournament_error_message(*e),
{
    match e {
        TournamentError::InvalidStatus { expected, found } => String::from_str(
            "invalid tournament status",
        ),
        TournamentError::NotRegistered { player_id, tournament_id } => String::from_str(
            "player ",
        ).concat(u64_to_string(*player_id).as_str()).concat(" is not registered in tournament ")
            .concat(u64_to_string(*tournament_id).as_str()),
        TournamentError::AlreadyRegistered { player_id } => String::from_str("player ").concat(
            u64_to_string(*player_id).as_str(),
        ).concat(" is already registered"),
        TournamentError::CannotBustLastPlayer { player_id } => String::from_str(
            "cannot bust the last remaining player",
        ),
        TournamentError::InvalidConfig => String::from_str("invalid tournament configuration"),
    }
}

} // verus!
