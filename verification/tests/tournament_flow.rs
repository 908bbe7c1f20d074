use poker_onchain::commands::{
    AdvanceLevelCommand, CloseTournamentCommand, Command, CommandResponse,
    CreateTournamentCommand, RegisterPlayerInTournamentCommand, StartTournamentCommand,
    TournamentCommand, UnregisterPlayerFromTournamentCommand,
};
use poker_onchain::domain::{AnteType, PlayerAtTable, Table, TableConfig, TableStakes, TableType};
use poker_onchain::orchestrator::{CommandStep, PokerOrchestrator};
use poker_onchain::state::{ApplicationParameters, PokerState};
use poker_onchain::tournament::{
    BlindLevelConfig, BlindPace, BlindStructure, Registration, Tournament, TournamentConfig,
    TournamentStatus,
};
use poker_onchain::view::{table_view_by_id, tournament_view_by_id};

const OWNER: u64 = 1000;

fn fresh_state() -> PokerState {
    let mut state = PokerState::new();
    state.instantiate(&ApplicationParameters { owner: OWNER, base_seed: None });
    state
}

fn admin() -> PokerOrchestrator {
    PokerOrchestrator::new(Some(OWNER))
}

fn done(step: CommandStep) -> CommandResponse {
    match step {
        CommandStep::Done(resp) => resp,
        CommandStep::NeedsEngine { .. } => panic!("expected a finished step"),
    }
}

fn error_message(resp: CommandResponse) -> String {
    match resp {
        CommandResponse::Error(m) => m,
        _ => panic!("expected an error response"),
    }
}

fn config(table_size: u8, starting_stack: u64, levels: Vec<(u32, u64, u64, u64)>) -> TournamentConfig {
    TournamentConfig {
        name: "Weekly".to_string(),
        table_size,
        starting_stack,
        max_players: 100,
        action_time: 30,
        blind_level_duration: 600,
        blind_pace: BlindPace::Standard,
        blind_structure: BlindStructure {
            levels: levels
                .into_iter()
                .map(|(level, small_blind, big_blind, ante)| BlindLevelConfig {
                    level,
                    small_blind,
                    big_blind,
                    ante,
                })
                .collect(),
        },
        ante_type: AnteType::NoAnte,
        time_bank_seconds: 60,
        break_every_minutes: 55,
        break_duration_minutes: 5,
        re_entry_allowed: false,
        rebuys_allowed: false,
    }
}

fn create_tournament(state: &mut PokerState, id: u64, table_size: u8) -> CommandResponse {
    done(admin().execute_command(
        state,
        Command::TournamentCommand(TournamentCommand::CreateTournament(CreateTournamentCommand {
            tournament_id: id,
            config: config(table_size, 5_000, vec![(1, 50, 100, 0), (2, 100, 200, 0)]),
        })),
    ))
}

fn register(state: &mut PokerState, tournament_id: u64, player_id: u64) -> CommandResponse {
    done(PokerOrchestrator::new(Some(9000 + player_id)).execute_command(
        state,
        Command::TournamentCommand(TournamentCommand::RegisterPlayer(
            RegisterPlayerInTournamentCommand {
                tournament_id,
                player_id,
                display_name: format!("P{}", player_id),
            },
        )),
    ))
}

#[test]
fn create_tournament_registers_state() {
    let mut state = fresh_state();
    match create_tournament(&mut state, 5, 6) {
        CommandResponse::TournamentState(v) => {
            assert_eq!(v.tournament_id, 5);
            assert_eq!(v.name, "Weekly");
            assert_eq!(v.status, "Registering");
            assert_eq!(v.current_level, 1);
            assert_eq!(v.players_registered, 0);
            assert_eq!(v.tables_running, 0);
        },
        _ => panic!("expected TournamentState"),
    }
}

#[test]
fn create_tournament_rejects_duplicates_and_bad_config() {
    let mut state = fresh_state();
    let _ = create_tournament(&mut state, 5, 6);
    let resp = create_tournament(&mut state, 5, 6);
    assert_eq!(error_message(resp), "tournament already exists: 5");
    let resp = done(admin().execute_command(
        &mut state,
        Command::TournamentCommand(TournamentCommand::CreateTournament(CreateTournamentCommand {
            tournament_id: 6,
            config: config(6, 5_000, vec![]),
        })),
    ));
    assert_eq!(error_message(resp), "tournament error: invalid tournament configuration");
}

#[test]
fn register_and_unregister_players() {
    let mut state = fresh_state();
    let _ = create_tournament(&mut state, 5, 6);
    match register(&mut state, 5, 1) {
        CommandResponse::TournamentState(v) => assert_eq!(v.players_registered, 1),
        _ => panic!("expected TournamentState"),
    }
    // Double registration is refused.
    let resp = register(&mut state, 5, 1);
    assert_eq!(error_message(resp), "tournament error: player 1 is already registered");
    // Unregistration by the same caller succeeds.
    let resp = done(PokerOrchestrator::new(Some(9001)).execute_command(
        &mut state,
        Command::TournamentCommand(TournamentCommand::UnregisterPlayer(
            UnregisterPlayerFromTournamentCommand { tournament_id: 5, player_id: 1 },
        )),
    ));
    match resp {
        CommandResponse::TournamentState(v) => assert_eq!(v.players_registered, 0),
        _ => panic!("expected TournamentState"),
    }
    // Unregistering a player who is not registered is refused.
    let resp = done(PokerOrchestrator::new(Some(9002)).execute_command(
        &mut state,
        Command::TournamentCommand(TournamentCommand::UnregisterPlayer(
            UnregisterPlayerFromTournamentCommand { tournament_id: 5, player_id: 2 },
        )),
    ));
    assert_eq!(error_message(resp), "tournament error: player 2 is not registered in tournament 5");
}

#[test]
fn start_tournament_seats_players_in_chunks() {
    let mut state = fresh_state();
    let _ = create_tournament(&mut state, 5, 5);
    for pid in 1..=9u64 {
        match register(&mut state, 5, pid) {
            CommandResponse::TournamentState(_) => {},
            _ => panic!("registration failed"),
        }
    }
    let resp = done(admin().execute_command(
        &mut state,
        Command::TournamentCommand(TournamentCommand::StartTournament(StartTournamentCommand {
            tournament_id: 5,
        })),
    ));
    match resp {
        CommandResponse::TournamentState(v) => {
            assert_eq!(v.status, "Running");
            assert_eq!(v.tables_running, 2);
            assert_eq!(v.players_registered, 9);
        },
        _ => panic!("expected TournamentState"),
    }
    // Table ids pack the tournament id into the high bits.
    let t0 = (5u64 << 32) | 0;
    let t1 = (5u64 << 32) | 1;
    let v0 = table_view_by_id(&state, t0).expect("first table exists");
    let v1 = table_view_by_id(&state, t1).expect("second table exists");
    assert_eq!(v0.players.len(), 5);
    assert_eq!(v1.players.len(), 4);
    assert_eq!(v0.players[0].player_id, 1);
    assert_eq!(v0.players[4].player_id, 5);
    assert_eq!(v1.players[0].player_id, 6);
    assert_eq!(v0.players[0].stack, 5_000);
    assert_eq!(v0.small_blind, 50);
    assert_eq!(v0.big_blind, 100);
    // A second start is refused: the tournament is already running.
    let resp = done(admin().execute_command(
        &mut state,
        Command::TournamentCommand(TournamentCommand::StartTournament(StartTournamentCommand {
            tournament_id: 5,
        })),
    ));
    assert_eq!(error_message(resp), "tournament error: invalid tournament status");
}

#[test]
fn advance_level_updates_table_stakes() {
    let mut state = fresh_state();
    let _ = create_tournament(&mut state, 5, 5);
    for pid in 1..=4u64 {
        let _ = register(&mut state, 5, pid);
    }
    let _ = done(admin().execute_command(
        &mut state,
        Command::TournamentCommand(TournamentCommand::StartTournament(StartTournamentCommand {
            tournament_id: 5,
        })),
    ));
    let resp = done(admin().execute_command(
        &mut state,
        Command::TournamentCommand(TournamentCommand::AdvanceLevel(AdvanceLevelCommand {
            tournament_id: 5,
        })),
    ));
    match resp {
        CommandResponse::TournamentState(v) => assert_eq!(v.current_level, 2),
        _ => panic!("expected TournamentState"),
    }
    let t0 = (5u64 << 32) | 0;
    let v0 = table_view_by_id(&state, t0).unwrap();
    assert_eq!(v0.small_blind, 100);
    assert_eq!(v0.big_blind, 200);
    // Past the schedule the level stays put.
    let resp = done(admin().execute_command(
        &mut state,
        Command::TournamentCommand(TournamentCommand::AdvanceLevel(AdvanceLevelCommand {
            tournament_id: 5,
        })),
    ));
    match resp {
        CommandResponse::TournamentState(v) => assert_eq!(v.current_level, 2),
        _ => panic!("expected TournamentState"),
    }
}

#[test]
fn close_tournament_finishes_it() {
    let mut state = fresh_state();
    let _ = create_tournament(&mut state, 5, 6);
    let resp = done(admin().execute_command(
        &mut state,
        Command::TournamentCommand(TournamentCommand::CloseTournament(CloseTournamentCommand {
            tournament_id: 5,
        })),
    ));
    match resp {
        CommandResponse::TournamentState(v) => assert_eq!(v.status, "Finished"),
        _ => panic!("expected TournamentState"),
    }
}

fn tournament_table(id: u64, seats: u8, players: &[(usize, u64, u64)]) -> Table {
    let stakes = TableStakes::new(50, 100, AnteType::NoAnte, 0);
    let cfg = TableConfig {
        max_seats: seats,
        table_type: TableType::Tournament,
        stakes,
        allow_straddle: false,
        allow_run_it_twice: false,
    };
    let mut t = Table::new(id, format!("T{}", id), cfg);
    for (seat, pid, stack) in players {
        t.seats[*seat] = Some(PlayerAtTable::new(*pid, *stack));
    }
    t
}

/// Two-table tournament with 4 and 5 seated survivors; three players at the
/// four-seat table go bust in one hand.  Rebalancing must move the lone
/// survivor onto the other table, remove the emptied table from storage, and
/// leave every survivor uniquely seated.
#[test]
fn rebalance_consolidates_after_busts() {
    let mut state = fresh_state();
    let table_a: u64 = 100;
    let table_b: u64 = 101;
    // Table A: players 1..=4; players 1, 2, 3 just lost their whole stacks.
    let a = tournament_table(table_a, 9, &[(0, 1, 0), (1, 2, 0), (2, 3, 0), (3, 4, 2_000)]);
    // Table B: players 5..=9 with healthy stacks.
    let b = tournament_table(
        table_b,
        9,
        &[(0, 5, 3_000), (1, 6, 3_000), (2, 7, 3_000), (3, 8, 3_000), (4, 9, 3_000)],
    );
    state.tables.insert(table_a, a);
    state.tables.insert(table_b, b);
    state.active_hands.insert(table_a, None);
    state.active_hands.insert(table_b, None);
    state.table_tournament.insert(table_a, 5);
    state.table_tournament.insert(table_b, 5);
    state.tournament_tables.insert(5, vec![table_a, table_b]);
    let mut tournament = Tournament {
        id: 5,
        owner: 0,
        config: config(9, 5_000, vec![(1, 50, 100, 0)]),
        status: TournamentStatus::Running,
        current_level: 1,
        started_at: Some(0),
        registrations: poker_onchain::idmap::IdMap::new(),
    };
    for pid in 1..=9u64 {
        let (table_id, seat) = if pid <= 4 {
            (table_a, (pid - 1) as u8)
        } else {
            (table_b, (pid - 5) as u8)
        };
        tournament.registrations.insert(
            pid,
            Registration {
                total_chips: 5_000,  // stale: the hand's outcome is not yet synchronized
                table_id: Some(table_id),
                seat_index: Some(seat),
                is_busted: false,
                finish_rank: None,
            },
        );
    }
    state.tournaments.insert(5, tournament);

    let r = admin().handle_tournament_after_hand(&mut state, 5);
    assert!(r.is_ok());

    // The emptied table is fully reclaimed.
    assert!(table_view_by_id(&state, table_a).is_none());
    assert!(state.active_hands.get(table_a).is_none());
    assert!(state.table_tournament.get(table_a).is_none());
    assert!(state.time_controllers.get(table_a).is_none());
    assert_eq!(state.tournament_tables.get(5).unwrap(), &vec![table_b]);

    // The survivor moved onto table B; everyone is uniquely seated there.
    let vb = table_view_by_id(&state, table_b).unwrap();
    assert_eq!(vb.players.len(), 6);
    let mut ids: Vec<u64> = vb.players.iter().map(|p| p.player_id).collect();
    ids.sort_unstable();
    assert_eq!(ids, vec![4, 5, 6, 7, 8, 9]);

    // Busted players got descending finishing ranks; survivors kept chips.
    let t = state.tournaments.get(5).unwrap();
    assert_eq!(t.status, TournamentStatus::Running);
    let r1 = *t.registrations.get(1).unwrap();
    let r2 = *t.registrations.get(2).unwrap();
    let r3 = *t.registrations.get(3).unwrap();
    let r4 = *t.registrations.get(4).unwrap();
    assert!(r1.is_busted && r2.is_busted && r3.is_busted);
    assert_eq!(r1.finish_rank, Some(9));
    assert_eq!(r2.finish_rank, Some(8));
    assert_eq!(r3.finish_rank, Some(7));
    assert!(!r4.is_busted);
    assert_eq!(r4.table_id, Some(table_b));
    assert_eq!(r4.seat_index, Some(5));
    assert_eq!(r4.total_chips, 2_000);

    // The registered chip total equals the live chips on the felt.
    let total: u64 = (1..=9u64).map(|p| t.registrations.get(p).unwrap().total_chips).sum();
    assert_eq!(total, 2_000 + 5 * 3_000);
}

#[test]
fn busting_the_last_survivor_is_absorbed() {
    let mut state = fresh_state();
    let table_a: u64 = 100;
    let a = tournament_table(table_a, 9, &[(0, 1, 0)]);
    state.tables.insert(table_a, a);
    state.active_hands.insert(table_a, None);
    state.table_tournament.insert(table_a, 5);
    state.tournament_tables.insert(5, vec![table_a]);
    let mut tournament = Tournament {
        id: 5,
        owner: 0,
        config: config(9, 5_000, vec![(1, 50, 100, 0)]),
        status: TournamentStatus::Running,
        current_level: 1,
        started_at: Some(0),
        registrations: poker_onchain::idmap::IdMap::new(),
    };
    tournament.registrations.insert(
        1,
        Registration {
            total_chips: 0,
            table_id: Some(table_a),
            seat_index: Some(0),
            is_busted: false,
            finish_rank: None,
        },
    );
    state.tournaments.insert(5, tournament);
    let r = admin().handle_tournament_after_hand(&mut state, 5);
    assert!(r.is_ok());
    // The lone survivor was not busted: a tournament cannot have zero
    // survivors.
    let t = state.tournaments.get(5).unwrap();
    assert!(!t.registrations.get(1).unwrap().is_busted);
}

#[test]
fn rebalance_hook_is_a_no_op_outside_running() {
    let mut state = fresh_state();
    let _ = create_tournament(&mut state, 5, 6);
    let r = admin().handle_tournament_after_hand(&mut state, 5);
    assert!(r.is_ok());
    match tournament_view_by_id(&state, 5) {
        Some(v) => assert_eq!(v.status, "Registering"),
        None => panic!("tournament must still exist"),
    }
    let r = admin().handle_tournament_after_hand(&mut state, 77);
    assert!(r.is_err());
}
