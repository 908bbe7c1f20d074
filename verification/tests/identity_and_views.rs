use poker_onchain::commands::{
    AnteTypeApi, Command, CommandResponse, CreateTableCommand, SeatPlayerCommand, TableCommand,
};
use poker_onchain::error::OnchainError;
use poker_onchain::orchestrator::{CommandStep, PokerOrchestrator};
use poker_onchain::state::{ApplicationParameters, PokerState};
use poker_onchain::tournament::{TournamentError, TournamentStatus};
use poker_onchain::view::{all_table_views, display_name_for, summary, table_view_by_id};

const OWNER: u64 = 1000;

fn fresh_state() -> PokerState {
    let mut state = PokerState::new();
    state.instantiate(&ApplicationParameters { owner: OWNER, base_seed: None });
    state
}

fn admin() -> PokerOrchestrator {
    PokerOrchestrator::new(Some(OWNER))
}

fn done(step: CommandStep) -> CommandResponse {
    match step {
        CommandStep::Done(resp) => resp,
        CommandStep::NeedsEngine { .. } => panic!("expected a finished step"),
    }
}

#[test]
fn binding_is_permanent_and_bijective() {
    let mut state = fresh_state();
    let caller_one = PokerOrchestrator::new(Some(501));
    let caller_two = PokerOrchestrator::new(Some(502));
    // First use binds caller 501 to player 7.
    assert!(matches!(caller_one.ensure_player_for_signer(&mut state, 7), Ok(7)));
    // The same caller may repeat the same binding.
    assert!(matches!(caller_one.ensure_player_for_signer(&mut state, 7), Ok(7)));
    // The same caller can never act as a second player.
    assert!(matches!(
        caller_one.ensure_player_for_signer(&mut state, 8),
        Err(OnchainError::PlayerIdMismatch)
    ));
    // No other caller can take over player 7.
    assert!(matches!(
        caller_two.ensure_player_for_signer(&mut state, 7),
        Err(OnchainError::PlayerIdMismatch)
    ));
    // A fresh player id is still free.
    assert!(matches!(caller_two.ensure_player_for_signer(&mut state, 9), Ok(9)));
    // An unauthenticated caller cannot bind at all.
    assert!(matches!(
        PokerOrchestrator::new(None).ensure_player_for_signer(&mut state, 11),
        Err(OnchainError::Unauthenticated)
    ));
}

#[test]
fn display_name_falls_back_to_the_player_id() {
    let mut state = fresh_state();
    assert_eq!(display_name_for(&state.player_names, 7), "Player #7");
    state.player_names.insert(7, "Alice".to_string());
    assert_eq!(display_name_for(&state.player_names, 7), "Alice");
    assert_eq!(display_name_for(&state.player_names, 12345), "Player #12345");
}

#[test]
fn summary_counts_tables_and_tournaments() {
    let mut state = fresh_state();
    assert_eq!(summary(&state).tables_count, 0);
    for id in [3u64, 1, 2] {
        let _ = done(admin().execute_command(
            &mut state,
            Command::CreateTable(CreateTableCommand {
                table_id: id,
                name: format!("T{}", id),
                max_seats: 6,
                small_blind: 1,
                big_blind: 2,
                ante: 0,
                ante_type: AnteTypeApi::NoAnte,
            }),
        ));
    }
    let s = summary(&state);
    assert_eq!(s.tables_count, 3);
    assert_eq!(s.tournaments_count, 0);
    assert_eq!(s.total_hands_played, 0);
    // The all-tables view lists tables in ascending id order.
    let views = all_table_views(&state);
    assert_eq!(views.len(), 3);
    assert_eq!(views[0].table_id, 1);
    assert_eq!(views[1].table_id, 2);
    assert_eq!(views[2].table_id, 3);
    assert!(table_view_by_id(&state, 4).is_none());
}

#[test]
fn seating_records_the_display_name_for_views() {
    let mut state = fresh_state();
    let _ = done(admin().execute_command(
        &mut state,
        Command::CreateTable(CreateTableCommand {
            table_id: 1,
            name: "Main".to_string(),
            max_seats: 6,
            small_blind: 1,
            big_blind: 2,
            ante: 0,
            ante_type: AnteTypeApi::NoAnte,
        }),
    ));
    // An empty display name is not recorded; the view uses the fallback.
    let _ = done(PokerOrchestrator::new(Some(501)).execute_command(
        &mut state,
        Command::TableCommand(TableCommand::SeatPlayer(SeatPlayerCommand {
            table_id: 1,
            player_id: 7,
            seat_index: 0,
            display_name: String::new(),
            initial_stack: 500,
        })),
    ));
    let v = table_view_by_id(&state, 1).unwrap();
    assert_eq!(v.players[0].display_name, "Player #7");
}

#[test]
fn error_messages_name_the_offending_identifiers() {
    assert_eq!(OnchainError::Storage("bad".to_string()).message(), "storage error: bad");
    assert_eq!(OnchainError::TableNotFound(12).message(), "table 12 not found");
    assert_eq!(OnchainError::TournamentNotFound(3).message(), "tournament 3 not found");
    assert_eq!(
        OnchainError::SeatNotEmpty { table: 2, seat: 4 }.message(),
        "seat 4 is not empty at table 2"
    );
    assert_eq!(
        OnchainError::InvalidSeatIndex { table: 2, seat: 9 }.message(),
        "seat 9 is invalid at table 2"
    );
    assert_eq!(
        OnchainError::NoPlayerAtSeat { table: 2, seat: 1 }.message(),
        "no player at seat 1 on table 2"
    );
    assert_eq!(
        OnchainError::PlayerAlreadySeated { table: 2, player: 8 }.message(),
        "player 8 is already seated at table 2"
    );
    assert_eq!(
        OnchainError::HandAlreadyInProgress(2).message(),
        "hand already in progress at table 2"
    );
    assert_eq!(OnchainError::NoActiveHand(2).message(), "no active hand on table 2");
    assert_eq!(OnchainError::EngineError("x".to_string()).message(), "engine error: x");
    assert_eq!(OnchainError::Unauthenticated.message(), "unauthenticated signer");
    assert_eq!(
        OnchainError::Unauthorized.message(),
        "unauthorized (only owner/admin can do this)"
    );
    assert_eq!(OnchainError::PlayerIdMismatch.message(), "player id mismatch for this signer");
    assert_eq!(
        OnchainError::Tournament(TournamentError::InvalidStatus {
            expected: TournamentStatus::Registering,
            found: TournamentStatus::Running,
        })
        .message(),
        "tournament error: invalid tournament status"
    );
    assert_eq!(
        OnchainError::Tournament(TournamentError::NotRegistered {
            player_id: 4,
            tournament_id: 5,
        })
        .message(),
        "tournament error: player 4 is not registered in tournament 5"
    );
    assert_eq!(
        OnchainError::Tournament(TournamentError::AlreadyRegistered { player_id: 4 }).message(),
        "tournament error: player 4 is already registered"
    );
    assert_eq!(
        OnchainError::Tournament(TournamentError::CannotBustLastPlayer { player_id: 4 })
            .message(),
        "tournament error: cannot bust the last remaining player"
    );
    assert_eq!(
        OnchainError::Tournament(TournamentError::InvalidConfig).message(),
        "tournament error: invalid tournament configuration"
    );
    assert_eq!(
        OnchainError::TournamentAlreadyExists(9).message(),
        "tournament already exists: 9"
    );
    assert_eq!(OnchainError::TournamentNotRunning(9).message(), "tournament not running: 9");
}
