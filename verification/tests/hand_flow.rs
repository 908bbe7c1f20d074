use poker_onchain::commands::{
    AnteTypeApi, Command, CommandResponse, CreateTableCommand, PlayerAction, PlayerActionCommand,
    PlayerActionKind, SeatPlayerCommand, StartHandCommand, TableCommand,
};
use poker_onchain::domain::{Street, Table};
use poker_onchain::hand::{BettingState, HandEngine, HandStatus, Pot};
use poker_onchain::orchestrator::{
    action_for_current_actor, CommandStep, EngineRequest, EngineUpdate, PendingCommand,
    PokerOrchestrator,
};
use poker_onchain::state::{ApplicationParameters, PokerState};
use poker_onchain::view::{summary, table_view_by_id};

const OWNER: u64 = 1000;
const BASE_SEED: u64 = 42;

fn fresh_state() -> PokerState {
    let mut state = PokerState::new();
    state.instantiate(&ApplicationParameters { owner: OWNER, base_seed: Some(BASE_SEED) });
    state
}

fn admin() -> PokerOrchestrator {
    PokerOrchestrator::new(Some(OWNER))
}

fn done(step: CommandStep) -> CommandResponse {
    match step {
        CommandStep::Done(resp) => resp,
        CommandStep::NeedsEngine { .. } => panic!("expected a finished step"),
    }
}

fn table_with_player(state: &mut PokerState) {
    let resp = admin().execute_command(
        state,
        Command::CreateTable(CreateTableCommand {
            table_id: 1,
            name: "Main".to_string(),
            max_seats: 9,
            small_blind: 50,
            big_blind: 100,
            ante: 0,
            ante_type: AnteTypeApi::NoAnte,
        }),
    );
    match done(resp) {
        CommandResponse::TableCreated(_) => {},
        _ => panic!("table creation failed"),
    }
    let resp = PokerOrchestrator::new(Some(7000)).execute_command(
        state,
        Command::TableCommand(TableCommand::SeatPlayer(SeatPlayerCommand {
            table_id: 1,
            player_id: 7,
            seat_index: 0,
            display_name: "Alice".to_string(),
            initial_stack: 10_000,
        })),
    );
    match done(resp) {
        CommandResponse::TableState(_) => {},
        _ => panic!("seating failed"),
    }
}

fn start_hand(state: &mut PokerState) -> (Table, u64, u64, PendingCommand) {
    let step = admin().execute_command(
        state,
        Command::TableCommand(TableCommand::StartHand(StartHandCommand {
            table_id: 1,
            hand_id: 0,
        })),
    );
    match step {
        CommandStep::NeedsEngine {
            request: EngineRequest::StartHand { table, hand_id, seed },
            pending,
        } => (table, hand_id, seed, pending),
        _ => panic!("expected a start-hand engine request"),
    }
}

/// Stands in for the rules engine's shuffle-and-deal: posts the blinds into
/// the pot and marks the table in-hand, with seat 0 to act.
fn fake_deal(mut table: Table, hand_id: u64) -> EngineUpdate {
    table.total_pot = 150;
    table.hand_in_progress = true;
    let engine = HandEngine {
        table_id: table.id,
        hand_id,
        deck: vec![],
        betting: BettingState {
            street: Street::Preflop,
            current_bet: 100,
            min_raise: 100,
            last_aggressor: None,
        },
        pot: Pot { amount: 150 },
        side_pots: vec![],
        contributions: vec![],
        current_actor: Some(0),
        history: vec![],
    };
    EngineUpdate::Progressed { table, engine, status: HandStatus::Ongoing }
}

#[test]
fn start_hand_seed_is_deterministic() {
    let mut state_a = fresh_state();
    table_with_player(&mut state_a);
    let mut state_b = fresh_state();
    table_with_player(&mut state_b);
    let (_, hand_a, seed_a, _) = start_hand(&mut state_a);
    let (_, hand_b, seed_b, _) = start_hand(&mut state_b);
    assert_eq!(hand_a, hand_b);
    assert_eq!(seed_a, seed_b);
    assert_eq!(hand_a, 1);
    assert_eq!(seed_a, BASE_SEED ^ 1 ^ 1);
}

#[test]
fn started_hand_posts_blinds_and_marks_in_progress() {
    let mut state = fresh_state();
    table_with_player(&mut state);
    let (table, hand_id, _seed, pending) = start_hand(&mut state);
    let resp = admin().resume_command(&mut state, pending, fake_deal(table, hand_id));
    match resp {
        CommandResponse::TableState(v) => {
            assert!(v.hand_in_progress);
            assert_eq!(v.total_pot, 150);
            assert!(v.board.is_empty());
            assert_eq!(v.current_actor_seat, Some(0));
        },
        _ => panic!("expected TableState"),
    }
    assert_eq!(summary(&state).total_hands_played, 1);
}

#[test]
fn start_hand_fails_while_one_is_in_progress() {
    let mut state = fresh_state();
    table_with_player(&mut state);
    let (table, hand_id, _seed, pending) = start_hand(&mut state);
    let _ = admin().resume_command(&mut state, pending, fake_deal(table, hand_id));
    let step = admin().execute_command(
        &mut state,
        Command::TableCommand(TableCommand::StartHand(StartHandCommand {
            table_id: 1,
            hand_id: 0,
        })),
    );
    match done(step) {
        CommandResponse::Error(m) => assert_eq!(m, "hand already in progress at table 1"),
        _ => panic!("expected an error"),
    }
}

#[test]
fn player_action_without_session_is_rejected_and_harmless() {
    let mut state = fresh_state();
    table_with_player(&mut state);
    let before = table_view_by_id(&state, 1).unwrap();
    let step = admin().execute_command(
        &mut state,
        Command::TableCommand(TableCommand::PlayerAction(PlayerActionCommand {
            table_id: 1,
            action: PlayerAction { seat: 0, player_id: 7, kind: PlayerActionKind::Fold },
        })),
    );
    match done(step) {
        CommandResponse::Error(m) => assert_eq!(m, "no active hand on table 1"),
        _ => panic!("expected an error"),
    }
    let after = table_view_by_id(&state, 1).unwrap();
    assert_eq!(before.table_id, after.table_id);
    assert_eq!(before.name, after.name);
    assert_eq!(before.total_pot, after.total_pot);
    assert_eq!(before.hand_in_progress, after.hand_in_progress);
    assert_eq!(before.players.len(), after.players.len());
    assert_eq!(before.players[0].player_id, after.players[0].player_id);
    assert_eq!(before.players[0].stack, after.players[0].stack);
    assert_eq!(before.players[0].display_name, after.players[0].display_name);
}

#[test]
fn engine_failure_persists_nothing() {
    let mut state = fresh_state();
    table_with_player(&mut state);
    let (table, _hand_id, _seed, pending) = start_hand(&mut state);
    let resp = admin().resume_command(
        &mut state,
        pending,
        EngineUpdate::Failed { table, session: None, message: "not enough players".to_string() },
    );
    match resp {
        CommandResponse::Error(m) => assert_eq!(m, "engine error: not enough players"),
        _ => panic!("expected an error"),
    }
    // Nothing was persisted: the hand counter is untouched and a new start
    // succeeds.
    assert_eq!(summary(&state).total_hands_played, 0);
    let (_, hand_id, _, _) = start_hand(&mut state);
    assert_eq!(hand_id, 1);
}

#[test]
fn finished_hand_leaves_the_session_slot_empty() {
    let mut state = fresh_state();
    table_with_player(&mut state);
    let (table, hand_id, _seed, pending) = start_hand(&mut state);
    let _ = admin().resume_command(&mut state, pending, fake_deal(table, hand_id));
    // Fold out: the action path reports the hand finished.
    let step = admin().execute_command(
        &mut state,
        Command::TableCommand(TableCommand::PlayerAction(PlayerActionCommand {
            table_id: 1,
            action: PlayerAction { seat: 0, player_id: 7, kind: PlayerActionKind::Fold },
        })),
    );
    let (mut table, engine, pending) = match step {
        CommandStep::NeedsEngine {
            request: EngineRequest::ApplyAction { table, engine, .. },
            pending,
        } => (table, engine, pending),
        _ => panic!("expected an apply-action engine request"),
    };
    table.hand_in_progress = false;
    table.total_pot = 0;
    let resp = admin().resume_command(
        &mut state,
        pending,
        EngineUpdate::Progressed {
            table,
            engine,
            status: HandStatus::Finished { summary: "player 7 folded out".to_string() },
        },
    );
    match resp {
        CommandResponse::HandFinished { summary: s, table: v } => {
            assert_eq!(s, "player 7 folded out");
            assert!(!v.hand_in_progress);
        },
        _ => panic!("expected HandFinished"),
    }
    // The slot is empty again: a new action is rejected, a new hand starts.
    let step = admin().execute_command(
        &mut state,
        Command::TableCommand(TableCommand::PlayerAction(PlayerActionCommand {
            table_id: 1,
            action: PlayerAction { seat: 0, player_id: 7, kind: PlayerActionKind::Check },
        })),
    );
    match done(step) {
        CommandResponse::Error(m) => assert_eq!(m, "no active hand on table 1"),
        _ => panic!("expected an error"),
    }
    let (_, next_hand, _, _) = start_hand(&mut state);
    assert_eq!(next_hand, 2);
}

#[test]
fn actions_are_attributed_to_the_seat_on_the_clock() {
    let mut state = fresh_state();
    table_with_player(&mut state);
    // No hand yet: nothing to attribute.
    assert_eq!(
        action_for_current_actor(&state, 1, PlayerActionKind::Check),
        Err("no_active_hand_for_table".to_string())
    );
    assert_eq!(
        action_for_current_actor(&state, 99, PlayerActionKind::Check),
        Err("table_not_found: 99".to_string())
    );
    let (table, hand_id, _seed, pending) = start_hand(&mut state);
    let _ = admin().resume_command(&mut state, pending, fake_deal(table, hand_id));
    // Seat 0 is on the clock, so the action is attributed to player 7 there.
    let a = action_for_current_actor(&state, 1, PlayerActionKind::Bet(300)).unwrap();
    assert_eq!(a.seat, 0);
    assert_eq!(a.player_id, 7);
    assert_eq!(a.kind, PlayerActionKind::Bet(300));
}
