use poker_onchain::commands::{
    AdjustStackCommand, AnteTypeApi, Command, CommandResponse, CreateTableCommand,
    SeatPlayerCommand, TableCommand, UnseatPlayerCommand,
};
use poker_onchain::domain::PlayerStatus;
use poker_onchain::orchestrator::{CommandStep, PokerOrchestrator};
use poker_onchain::state::{ApplicationParameters, PokerState};

const OWNER: u64 = 1000;

fn fresh_state() -> PokerState {
    let mut state = PokerState::new();
    state.instantiate(&ApplicationParameters { owner: OWNER, base_seed: Some(42) });
    state
}

fn admin() -> PokerOrchestrator {
    PokerOrchestrator::new(Some(OWNER))
}

fn create_table_cmd(table_id: u64, max_seats: u8, sb: u64, bb: u64) -> Command {
    Command::CreateTable(CreateTableCommand {
        table_id,
        name: format!("Table {}", table_id),
        max_seats,
        small_blind: sb,
        big_blind: bb,
        ante: 0,
        ante_type: AnteTypeApi::NoAnte,
    })
}

fn seat_cmd(table_id: u64, player_id: u64, seat: u8, name: &str, stack: u64) -> Command {
    Command::TableCommand(TableCommand::SeatPlayer(SeatPlayerCommand {
        table_id,
        player_id,
        seat_index: seat,
        display_name: name.to_string(),
        initial_stack: stack,
    }))
}

fn done(step: CommandStep) -> CommandResponse {
    match step {
        CommandStep::Done(resp) => resp,
        CommandStep::NeedsEngine { .. } => panic!("expected a finished step"),
    }
}

fn error_message(resp: CommandResponse) -> String {
    match resp {
        CommandResponse::Error(m) => m,
        _ => panic!("expected an error response"),
    }
}

#[test]
fn create_table_requires_authentication() {
    let mut state = fresh_state();
    let orchestrator = PokerOrchestrator::new(None);
    let resp = done(orchestrator.execute_command(&mut state, create_table_cmd(1, 9, 50, 100)));
    assert_eq!(error_message(resp), "unauthenticated signer");
}

#[test]
fn create_table_requires_owner() {
    let mut state = fresh_state();
    let orchestrator = PokerOrchestrator::new(Some(OWNER + 1));
    let resp = done(orchestrator.execute_command(&mut state, create_table_cmd(1, 9, 50, 100)));
    assert_eq!(error_message(resp), "unauthorized (only owner/admin can do this)");
}

#[test]
fn create_table_builds_empty_cash_table() {
    let mut state = fresh_state();
    let resp = done(admin().execute_command(&mut state, create_table_cmd(1, 9, 50, 100)));
    match resp {
        CommandResponse::TableCreated(v) => {
            assert_eq!(v.table_id, 1);
            assert_eq!(v.name, "Table 1");
            assert_eq!(v.max_seats, 9);
            assert_eq!(v.small_blind, 50);
            assert_eq!(v.big_blind, 100);
            assert_eq!(v.ante, 0);
            assert_eq!(v.total_pot, 0);
            assert!(!v.hand_in_progress);
            assert!(v.players.is_empty());
            assert!(v.board.is_empty());
            assert_eq!(v.current_actor_seat, None);
        },
        _ => panic!("expected TableCreated"),
    }
}

#[test]
fn create_table_rejects_duplicate_id() {
    let mut state = fresh_state();
    let _ = done(admin().execute_command(&mut state, create_table_cmd(1, 9, 50, 100)));
    let resp = done(admin().execute_command(&mut state, create_table_cmd(1, 6, 25, 50)));
    assert_eq!(error_message(resp), "storage error: table 1 already exists");
}

#[test]
fn seat_player_places_player_with_stack_and_name() {
    let mut state = fresh_state();
    let _ = done(admin().execute_command(&mut state, create_table_cmd(1, 9, 50, 100)));
    let caller = PokerOrchestrator::new(Some(7000));
    let resp = done(caller.execute_command(&mut state, seat_cmd(1, 7, 0, "Alice", 10_000)));
    match resp {
        CommandResponse::TableState(v) => {
            assert_eq!(v.players.len(), 1);
            assert_eq!(v.players[0].player_id, 7);
            assert_eq!(v.players[0].seat_index, 0);
            assert_eq!(v.players[0].stack, 10_000);
            assert_eq!(v.players[0].current_bet, 0);
            assert_eq!(v.players[0].display_name, "Alice");
            assert_eq!(v.players[0].status, PlayerStatus::Active);
            assert!(v.players[0].hole_cards.is_none());
        },
        _ => panic!("expected TableState"),
    }
}

#[test]
fn seat_player_rejects_occupied_seat() {
    let mut state = fresh_state();
    let _ = done(admin().execute_command(&mut state, create_table_cmd(1, 9, 50, 100)));
    let _ = done(PokerOrchestrator::new(Some(7000)).execute_command(
        &mut state,
        seat_cmd(1, 7, 0, "Alice", 10_000),
    ));
    let resp = done(PokerOrchestrator::new(Some(7001)).execute_command(
        &mut state,
        seat_cmd(1, 8, 0, "Bob", 5_000),
    ));
    assert_eq!(error_message(resp), "seat 0 is not empty at table 1");
}

#[test]
fn seat_player_rejects_out_of_range_seat() {
    let mut state = fresh_state();
    let _ = done(admin().execute_command(&mut state, create_table_cmd(1, 9, 50, 100)));
    let resp = done(PokerOrchestrator::new(Some(7000)).execute_command(
        &mut state,
        seat_cmd(1, 7, 99, "Alice", 10_000),
    ));
    assert_eq!(error_message(resp), "seat 99 is invalid at table 1");
}

#[test]
fn seat_player_rejects_double_seating() {
    let mut state = fresh_state();
    let _ = done(admin().execute_command(&mut state, create_table_cmd(1, 9, 50, 100)));
    let caller = PokerOrchestrator::new(Some(7000));
    let _ = done(caller.execute_command(&mut state, seat_cmd(1, 7, 0, "Alice", 10_000)));
    let resp = done(caller.execute_command(&mut state, seat_cmd(1, 7, 3, "Alice", 10_000)));
    assert_eq!(error_message(resp), "player 7 is already seated at table 1");
}

#[test]
fn seat_player_on_missing_table_fails() {
    let mut state = fresh_state();
    let resp = done(PokerOrchestrator::new(Some(7000)).execute_command(
        &mut state,
        seat_cmd(33, 7, 0, "Alice", 10_000),
    ));
    assert_eq!(error_message(resp), "table 33 not found");
}

#[test]
fn unseat_player_clears_the_seat() {
    let mut state = fresh_state();
    let _ = done(admin().execute_command(&mut state, create_table_cmd(1, 9, 50, 100)));
    let _ = done(PokerOrchestrator::new(Some(7000)).execute_command(
        &mut state,
        seat_cmd(1, 7, 0, "Alice", 10_000),
    ));
    let resp = done(admin().execute_command(
        &mut state,
        Command::TableCommand(TableCommand::UnseatPlayer(UnseatPlayerCommand {
            table_id: 1,
            seat_index: 0,
        })),
    ));
    match resp {
        CommandResponse::TableState(v) => assert!(v.players.is_empty()),
        _ => panic!("expected TableState"),
    }
}

fn adjust(state: &mut PokerState, delta: i64) -> CommandResponse {
    done(admin().execute_command(
        state,
        Command::TableCommand(TableCommand::AdjustStack(AdjustStackCommand {
            table_id: 1,
            seat_index: 0,
            delta,
        })),
    ))
}

#[test]
fn adjust_stack_adds_and_subtracts() {
    let mut state = fresh_state();
    let _ = done(admin().execute_command(&mut state, create_table_cmd(1, 9, 50, 100)));
    let _ = done(PokerOrchestrator::new(Some(7000)).execute_command(
        &mut state,
        seat_cmd(1, 7, 0, "Alice", 10_000),
    ));
    match adjust(&mut state, 500) {
        CommandResponse::TableState(v) => assert_eq!(v.players[0].stack, 10_500),
        _ => panic!("expected TableState"),
    }
    match adjust(&mut state, -300) {
        CommandResponse::TableState(v) => assert_eq!(v.players[0].stack, 10_200),
        _ => panic!("expected TableState"),
    }
}

#[test]
fn adjust_stack_saturates_at_zero() {
    let mut state = fresh_state();
    let _ = done(admin().execute_command(&mut state, create_table_cmd(1, 9, 50, 100)));
    let _ = done(PokerOrchestrator::new(Some(7000)).execute_command(
        &mut state,
        seat_cmd(1, 7, 0, "Alice", 10_000),
    ));
    match adjust(&mut state, -20_000) {
        CommandResponse::TableState(v) => assert_eq!(v.players[0].stack, 0),
        _ => panic!("expected TableState"),
    }
}

#[test]
fn adjust_stack_saturates_at_the_ceiling() {
    let mut state = fresh_state();
    let _ = done(admin().execute_command(&mut state, create_table_cmd(1, 9, 50, 100)));
    let _ = done(PokerOrchestrator::new(Some(7000)).execute_command(
        &mut state,
        seat_cmd(1, 7, 0, "Alice", u64::MAX - 5),
    ));
    match adjust(&mut state, 100) {
        CommandResponse::TableState(v) => assert_eq!(v.players[0].stack, u64::MAX),
        _ => panic!("expected TableState"),
    }
}

#[test]
fn adjust_stack_requires_a_seated_player() {
    let mut state = fresh_state();
    let _ = done(admin().execute_command(&mut state, create_table_cmd(1, 9, 50, 100)));
    let resp = adjust(&mut state, 500);
    assert_eq!(error_message(resp), "no player at seat 0 on table 1");
}

#[test]
fn adjust_stack_is_admin_only() {
    let mut state = fresh_state();
    let _ = done(admin().execute_command(&mut state, create_table_cmd(1, 9, 50, 100)));
    let resp = done(PokerOrchestrator::new(Some(7000)).execute_command(
        &mut state,
        Command::TableCommand(TableCommand::AdjustStack(AdjustStackCommand {
            table_id: 1,
            seat_index: 0,
            delta: 500,
        })),
    ));
    assert_eq!(error_message(resp), "unauthorized (only owner/admin can do this)");
}
