use poker_onchain::commands::{
    Command, CommandResponse, CreateTournamentCommand, StartTournamentCommand, TickTableCommand,
    TableCommand, TournamentCommand,
};
use poker_onchain::domain::AnteType;
use poker_onchain::orchestrator::{CommandStep, PokerOrchestrator};
use poker_onchain::state::{ApplicationParameters, PokerState};
use poker_onchain::tournament::{BlindLevelConfig, BlindPace, BlindStructure, TournamentConfig};
use poker_onchain::ui_tournament_config::{UiBlindLevel, UiTournamentConfig};

const OWNER: u64 = 1000;

fn fresh_state() -> PokerState {
    let mut state = PokerState::new();
    state.instantiate(&ApplicationParameters { owner: OWNER, base_seed: None });
    state
}

fn admin() -> PokerOrchestrator {
    PokerOrchestrator::new(Some(OWNER))
}

fn done(step: CommandStep) -> CommandResponse {
    match step {
        CommandStep::Done(resp) => resp,
        CommandStep::NeedsEngine { .. } => panic!("expected a finished step"),
    }
}

fn error_message(resp: CommandResponse) -> String {
    match resp {
        CommandResponse::Error(m) => m,
        _ => panic!("expected an error response"),
    }
}

fn ui_config() -> UiTournamentConfig {
    UiTournamentConfig {
        name: "Deepstack".to_string(),
        description: "weekly deepstack".to_string(),
        prize_description: "winner takes most".to_string(),
        start_time: None,
        reg_close_time: None,
        table_size: 8,
        action_time: 25,
        blind_level_duration: 900,
        blind_pace: BlindPace::Slow,
        starting_stack: 20_000,
        max_players: 64,
        late_reg_minutes: 30,
        ante_type: AnteType::BigBlind,
        is_progressive_ante: false,
        payout_type: "standard".to_string(),
        min_payout_places: 3,
        guaranteed_prize_pool: 0,
        is_bounty: false,
        bounty_amount: 0,
        has_final_table_bonus: false,
        final_table_bonus: 0,
        time_bank_seconds: 45,
        break_every_minutes: 50,
        break_duration_minutes: 10,
        instant_registration: true,
        re_entry_allowed: true,
        rebuys_allowed: false,
        blind_levels: vec![
            UiBlindLevel { level: 1, small_blind: 100, big_blind: 200, ante: 0 },
            UiBlindLevel { level: 2, small_blind: 150, big_blind: 300, ante: 25 },
        ],
    }
}

#[test]
fn ui_config_converts_structure_and_schedule() {
    let c: TournamentConfig = ui_config().into();
    assert_eq!(c.name, "Deepstack");
    assert_eq!(c.table_size, 8);
    assert_eq!(c.starting_stack, 20_000);
    assert_eq!(c.max_players, 64);
    assert_eq!(c.action_time, 25);
    assert_eq!(c.blind_level_duration, 900);
    assert_eq!(c.blind_pace, BlindPace::Slow);
    assert_eq!(c.ante_type, AnteType::BigBlind);
    assert_eq!(c.time_bank_seconds, 45);
    assert_eq!(c.break_every_minutes, 50);
    assert_eq!(c.break_duration_minutes, 10);
    assert!(c.re_entry_allowed);
    assert!(!c.rebuys_allowed);
    assert_eq!(c.blind_structure.levels.len(), 2);
    assert_eq!(
        c.blind_structure.levels[1],
        BlindLevelConfig { level: 2, small_blind: 150, big_blind: 300, ante: 25 }
    );
}

#[test]
fn table_allocation_rejects_oversized_tournament_ids() {
    let mut state = fresh_state();
    let big_id = (u32::MAX as u64) + 1;
    let _ = done(admin().execute_command(
        &mut state,
        Command::TournamentCommand(TournamentCommand::CreateTournament(CreateTournamentCommand {
            tournament_id: big_id,
            config: TournamentConfig {
                name: "Big".to_string(),
                table_size: 6,
                starting_stack: 1_000,
                max_players: 10,
                action_time: 30,
                blind_level_duration: 600,
                blind_pace: BlindPace::Standard,
                blind_structure: BlindStructure {
                    levels: vec![BlindLevelConfig {
                        level: 1,
                        small_blind: 50,
                        big_blind: 100,
                        ante: 0,
                    }],
                },
                ante_type: AnteType::NoAnte,
                time_bank_seconds: 60,
                break_every_minutes: 55,
                break_duration_minutes: 5,
                re_entry_allowed: false,
                rebuys_allowed: false,
            },
        })),
    ));
    let resp = done(admin().execute_command(
        &mut state,
        Command::TournamentCommand(TournamentCommand::StartTournament(StartTournamentCommand {
            tournament_id: big_id,
        })),
    ));
    assert_eq!(
        error_message(resp),
        "storage error: tournament id too large for table allocation"
    );
}

#[test]
fn tick_on_a_missing_table_fails() {
    let mut state = fresh_state();
    let resp = done(admin().execute_command(
        &mut state,
        Command::TableCommand(TableCommand::TickTable(TickTableCommand {
            table_id: 9,
            delta_secs: 5,
        })),
    ));
    assert_eq!(error_message(resp), "table 9 not found");
}

#[test]
fn tournament_commands_demand_an_existing_tournament() {
    let mut state = fresh_state();
    let resp = done(admin().execute_command(
        &mut state,
        Command::TournamentCommand(TournamentCommand::StartTournament(StartTournamentCommand {
            tournament_id: 4,
        })),
    ));
    assert_eq!(error_message(resp), "tournament 4 not found");
}
