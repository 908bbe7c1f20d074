use poker_onchain::commands::{
    AnteTypeApi, Command, CommandResponse, CreateTableCommand, PlayerActionKind,
    SeatPlayerCommand, StartHandCommand, TableCommand, TickTableCommand,
};
use poker_onchain::domain::{Street, Table};
use poker_onchain::hand::{BettingState, HandEngine, HandStatus, Pot};
use poker_onchain::orchestrator::{
    CommandStep, EngineRequest, EngineUpdate, PokerOrchestrator,
};
use poker_onchain::state::{ApplicationParameters, PokerState};
use poker_onchain::time_ctrl::{
    AutoActionDecision, TimeController, TimeProfile, DEFAULT_TIME_BANK_SECS,
};

const OWNER: u64 = 1000;

fn fresh_state() -> PokerState {
    let mut state = PokerState::new();
    state.instantiate(&ApplicationParameters { owner: OWNER, base_seed: None });
    state
}

fn admin() -> PokerOrchestrator {
    PokerOrchestrator::new(Some(OWNER))
}

fn done(step: CommandStep) -> CommandResponse {
    match step {
        CommandStep::Done(resp) => resp,
        CommandStep::NeedsEngine { .. } => panic!("expected a finished step"),
    }
}

#[test]
fn fresh_controller_is_disarmed_and_seeded() {
    let mut ctrl = TimeController::new(TimeProfile::Standard);
    assert!(ctrl.current_turn.is_none());
    ctrl.init_players(&vec![4, 9]);
    assert_eq!(*ctrl.banks.get(4).unwrap(), DEFAULT_TIME_BANK_SECS);
    assert_eq!(*ctrl.banks.get(9).unwrap(), DEFAULT_TIME_BANK_SECS);
    assert!(ctrl.banks.get(5).is_none());
}

#[test]
fn tick_decrements_only_the_armed_player() {
    let mut ctrl = TimeController::new(TimeProfile::Standard);
    ctrl.init_players(&vec![4, 9]);
    ctrl.start_player_turn(4);
    let d = ctrl.on_time_passed(10);
    assert_eq!(d, AutoActionDecision::NoTimeout);
    assert_eq!(*ctrl.banks.get(4).unwrap(), DEFAULT_TIME_BANK_SECS - 10);
    assert_eq!(*ctrl.banks.get(9).unwrap(), DEFAULT_TIME_BANK_SECS);
    assert_eq!(ctrl.current_turn, Some(4));
}

#[test]
fn clear_current_turn_keeps_the_bank() {
    let mut ctrl = TimeController::new(TimeProfile::Standard);
    ctrl.start_player_turn(4);
    let _ = ctrl.on_time_passed(10);
    ctrl.clear_current_turn();
    assert!(ctrl.current_turn.is_none());
    assert_eq!(*ctrl.banks.get(4).unwrap(), DEFAULT_TIME_BANK_SECS - 10);
}

#[test]
fn exhausted_bank_fires_exactly_once() {
    let mut ctrl = TimeController::new(TimeProfile::Standard);
    ctrl.start_player_turn(4);
    let d = ctrl.on_time_passed(DEFAULT_TIME_BANK_SECS);
    assert_eq!(d, AutoActionDecision::TimeoutCheckOrFold { player_id: 4 });
    assert!(ctrl.current_turn.is_none());
    assert_eq!(*ctrl.banks.get(4).unwrap(), 0);
    // The clock is disarmed, so the same exhaustion never fires twice.
    let d2 = ctrl.on_time_passed(1000);
    assert_eq!(d2, AutoActionDecision::NoTimeout);
}

fn table_with_hand(state: &mut PokerState) {
    let _ = done(admin().execute_command(
        state,
        Command::CreateTable(CreateTableCommand {
            table_id: 1,
            name: "Main".to_string(),
            max_seats: 6,
            small_blind: 50,
            big_blind: 100,
            ante: 0,
            ante_type: AnteTypeApi::NoAnte,
        }),
    ));
    let _ = done(PokerOrchestrator::new(Some(7000)).execute_command(
        state,
        Command::TableCommand(TableCommand::SeatPlayer(SeatPlayerCommand {
            table_id: 1,
            player_id: 7,
            seat_index: 0,
            display_name: "Alice".to_string(),
            initial_stack: 10_000,
        })),
    ));
    let step = admin().execute_command(
        state,
        Command::TableCommand(TableCommand::StartHand(StartHandCommand {
            table_id: 1,
            hand_id: 0,
        })),
    );
    let (mut table, hand_id, pending) = match step {
        CommandStep::NeedsEngine {
            request: EngineRequest::StartHand { table, hand_id, .. },
            pending,
        } => (table, hand_id, pending),
        _ => panic!("expected a start-hand request"),
    };
    table.total_pot = 150;
    let engine = HandEngine {
        table_id: table.id,
        hand_id,
        deck: vec![],
        betting: BettingState {
            street: Street::Preflop,
            current_bet: 100,
            min_raise: 100,
            last_aggressor: None,
        },
        pot: Pot { amount: 150 },
        side_pots: vec![],
        contributions: vec![],
        current_actor: Some(0),
        history: vec![],
    };
    let _ = admin().resume_command(
        state,
        pending,
        EngineUpdate::Progressed { table, engine, status: HandStatus::Ongoing },
    );
}

fn tick(state: &mut PokerState, secs: u32) -> CommandStep {
    admin().execute_command(
        state,
        Command::TableCommand(TableCommand::TickTable(TickTableCommand {
            table_id: 1,
            delta_secs: secs,
        })),
    )
}

#[test]
fn tick_without_a_hand_returns_the_view() {
    let mut state = fresh_state();
    let _ = done(admin().execute_command(
        &mut state,
        Command::CreateTable(CreateTableCommand {
            table_id: 1,
            name: "Main".to_string(),
            max_seats: 6,
            small_blind: 50,
            big_blind: 100,
            ante: 0,
            ante_type: AnteTypeApi::NoAnte,
        }),
    ));
    match done(tick(&mut state, 30)) {
        CommandResponse::TableState(v) => assert!(!v.hand_in_progress),
        _ => panic!("expected TableState"),
    }
}

#[test]
fn partial_ticks_accumulate_until_the_timeout() {
    let mut state = fresh_state();
    table_with_hand(&mut state);
    // Two partial ticks are persisted; the third exhausts the bank.
    match done(tick(&mut state, 30)) {
        CommandResponse::TableState(v) => assert!(v.hand_in_progress),
        _ => panic!("expected TableState"),
    }
    match done(tick(&mut state, 29)) {
        CommandResponse::TableState(_) => {},
        _ => panic!("expected TableState"),
    }
    match tick(&mut state, 1) {
        CommandStep::NeedsEngine {
            request: EngineRequest::ApplyAction { action, .. },
            ..
        } => {
            assert_eq!(action.player_id, 7);
            assert_eq!(action.seat, 0);
            assert_eq!(action.kind, PlayerActionKind::Fold);
        },
        _ => panic!("expected a forced fold"),
    }
}

#[test]
fn timeout_routes_a_forced_fold_through_the_engine() {
    let mut state = fresh_state();
    table_with_hand(&mut state);
    let step = tick(&mut state, DEFAULT_TIME_BANK_SECS as u32);
    let (mut table, engine, pending, action) = match step {
        CommandStep::NeedsEngine {
            request: EngineRequest::ApplyAction { table, engine, action },
            pending,
        } => (table, engine, pending, action),
        _ => panic!("expected a forced fold"),
    };
    assert_eq!(action.kind, PlayerActionKind::Fold);
    assert_eq!(action.player_id, 7);
    // The engine folds the player out and the hand ends.
    table.hand_in_progress = false;
    let resp = admin().resume_command(
        &mut state,
        pending,
        EngineUpdate::Progressed {
            table,
            engine,
            status: HandStatus::Finished { summary: "folded out on time".to_string() },
        },
    );
    match resp {
        CommandResponse::HandFinished { summary, .. } => {
            assert_eq!(summary, "folded out on time");
        },
        _ => panic!("expected HandFinished"),
    }
    // With the hand gone, further ticks just return the table view.
    match done(tick(&mut state, 1000)) {
        CommandResponse::TableState(v) => assert!(!v.hand_in_progress),
        _ => panic!("expected TableState"),
    }
}

fn forced_fold_table(state: &mut PokerState) -> Option<Table> {
    match tick(state, DEFAULT_TIME_BANK_SECS as u32) {
        CommandStep::NeedsEngine { request: EngineRequest::ApplyAction { table, .. }, .. } => {
            Some(table)
        },
        _ => None,
    }
}

#[test]
fn a_timeout_is_yielded_for_the_armed_player_only() {
    let mut state = fresh_state();
    table_with_hand(&mut state);
    let table = forced_fold_table(&mut state).expect("the armed player must time out");
    assert_eq!(table.id, 1);
}
