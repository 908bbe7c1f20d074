//! The command surface: one tagged union per externally submitted request,
//! and the response values the router answers with.

use vstd::prelude::*;

use crate::domain::{
    Card, Chips, PlayerAtTable, PlayerId, PlayerStatus, SeatIndex, Street, TableId, TournamentId,
};
use crate::tournament::TournamentConfig;

verus! {

/// Ante type as spelled in the external command surface.
#[derive(Clone, Copy, Debug, PartialEq, Eq, Structural)]
pub enum AnteTypeApi {
    NoAnte,
    Classic,
    BigBlind,
}

#[derive(Clone, Copy, Debug, PartialEq, Eq, Structural)]
pub enum PlayerActionKind {
    Fold,
    Check,
    Call,
    Bet(Chips),
    Raise(Chips),
    AllIn,
}

/// One in-hand action, attributed to a seat and a player.
#[derive(Clone, Copy, Debug, PartialEq, Eq, Structural)]
pub struct PlayerAction {
    pub seat: SeatIndex,
    pub player_id: PlayerId,
    pub kind: PlayerActionKind,
}

pub struct CreateTableCommand {
    pub table_id: TableId,
    pub name: String,
    pub max_seats: u8,
    pub small_blind: Chips,
    pub big_blind: Chips,
    pub ante: Chips,
    pub ante_type: AnteTypeApi,
}

pub struct SeatPlayerCommand {
    pub table_id: TableId,
    pub player_id: PlayerId,
    pub seat_index: SeatIndex,
    pub display_name: String,
    pub initial_stack: Chips,
}

#[derive(Clone, Copy, Debug, PartialEq, Eq, Structural)]
pub struct UnseatPlayerCommand {
    pub table_id: TableId,
    pub seat_index: SeatIndex,
}

#[derive(Clone, Copy, Debug, PartialEq, Eq, Structural)]
pub struct AdjustStackCommand {
    pub table_id: TableId,
    pub seat_index: SeatIndex,
    pub delta: i64,
}

/// Hand ids are system-assigned from the global hand counter; the `hand_id`
/// field is advisory and ignored, so replays cannot be forged by callers.
#[derive(Clone, Copy, Debug, PartialEq, Eq, Structural)]
pub struct StartHandCommand {
    pub table_id: TableId,
    pub hand_id: u64,
}

#[derive(Clone, Copy, Debug, PartialEq, Eq, Structural)]
pub struct PlayerActionCommand {
    pub table_id: TableId,
    pub action: PlayerAction,
}

#[derive(Clone, Copy, Debug, PartialEq, Eq, Structural)]
pub struct TickTableCommand {
    pub table_id: TableId,
    pub delta_secs: u32,
}

pub enum TableCommand {
    SeatPlayer(SeatPlayerCommand),
    UnseatPlayer(UnseatPlayerCommand),
    AdjustStack(AdjustStackCommand),
    StartHand(StartHandCommand),
    PlayerAction(PlayerActionCommand),
    TickTable(TickTableCommand),
}

pub struct CreateTournamentCommand {
    pub tournament_id: TournamentId,
    pub config: TournamentConfig,
}

pub struct RegisterPlayerInTournamentCommand {
    pub tournament_id: TournamentId,
    pub player_id: PlayerId,
    pub display_name: String,
}

#[derive(Clone, Copy, Debug, PartialEq, Eq, Structural)]
pub struct UnregisterPlayerFromTournamentCommand {
    pub tournament_id: TournamentId,
    pub player_id: PlayerId,
}

#[derive(Clone, Copy, Debug, PartialEq, Eq, Structural)]
pub struct StartTournamentCommand {
    pub tournament_id: TournamentId,
}

#[derive(Clone, Copy, Debug, PartialEq, Eq, Structural)]
pub struct AdvanceLevelCommand {
    pub tournament_id: TournamentId,
}

#[derive(Clone, Copy, Debug, PartialEq, Eq, Structural)]
pub struct CloseTournamentCommand {
    pub tournament_id: TournamentId,
}

pub enum TournamentCommand {
    CreateTournament(CreateTournamentCommand),
    RegisterPlayer(RegisterPlayerInTournamentCommand),
    UnregisterPlayer(UnregisterPlayerFromTournamentCommand),
    StartTournament(StartTournamentCommand),
    AdvanceLevel(AdvanceLevelCommand),
    CloseTournament(CloseTournamentCommand),
}

pub enum Command {
    CreateTable(CreateTableCommand),
    TableCommand(TableCommand),
    TournamentCommand(TournamentCommand),
}

/// One seat's public projection; hole cards are always withheld.
pub struct PlayerAtTableDto {
    pub player_id: PlayerId,
    pub display_name: String,
    pub seat_index: SeatIndex,
    pub stack: Chips,
    pub current_bet: Chips,
    pub status: PlayerStatus,
    pub hole_cards: Option<Vec<Card>>,
}

/// The read view of one table, as served to clients.
pub struct TableViewDto {
    pub table_id: TableId,
    pub name: String,
    pub max_seats: u8,
    pub small_blind: Chips,
    pub big_blind: Chips,
    pub ante: Chips,
    pub street: Street,
    pub dealer_button: Option<SeatIndex>,
    pub total_pot: Chips,
    pub board: Vec<Card>,
    pub players: Vec<PlayerAtTableDto>,
    pub hand_in_progress: bool,
    pub current_actor_seat: Option<SeatIndex>,
}

/// The read view of one tournament.
pub struct TournamentViewDto {
    pub tournament_id: TournamentId,
    pub name: String,
    pub status: String,
    pub current_level: u32,
    pub players_registered: u32,
    pub tables_running: u32,
}

/// The single response union: every command answers with exactly one of
/// these.
pub enum CommandResponse {
    TableCreated(TableViewDto),
    TableState(TableViewDto),
    HandFinished { summary: String, table: TableViewDto },
    TournamentState(TournamentViewDto),
    Error(String),
}

} // verus!
