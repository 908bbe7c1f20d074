//! The command orchestrator: authorization, table lifecycle, hand sessions,
//! time control and tournament management over an owned [`PokerState`].
//!
//! Commands that need the external rules engine run in two steps: the first
//! step validates and checks the affected entities out of the state, handing
//! back an [`EngineRequest`]; the host runs the engine and resumes the
//! command with an [`EngineUpdate`], and the second step persists exactly one
//! of the two outcomes (hand continues, or hand finished).  Every other
//! command completes in one step.  All failures are converted to an error
//! response at the router; a failed command writes nothing.

use vstd::prelude::*;
use vstd::string::*;

use crate::commands::{
    AdjustStackCommand, AnteTypeApi, Command, CommandResponse, CreateTableCommand,
    CreateTournamentCommand, PlayerAction, PlayerActionCommand, PlayerActionKind,
    RegisterPlayerInTournamentCommand, SeatPlayerCommand, StartHandCommand, StartTournamentCommand,
    TableCommand, TickTableCommand, TournamentCommand, UnregisterPlayerFromTournamentCommand,
    UnseatPlayerCommand, AdvanceLevelCommand, CloseTournamentCommand, TableViewDto,
};
use crate::domain::{
    AccountId, AnteType, Chips, HandId, PlayerAtTable, PlayerId, SeatIndex, Table, TableConfig,
    TableId, TableStakes, TableType, TournamentId,
};
use crate::error::{spec_error_message, OnchainError};
use crate::hand::{HandEngine, HandEngineSnapshot, HandStatus};
use crate::idmap::IdMap;
use crate::state::PokerState;
use crate::time_ctrl::{tick_rel, AutoActionDecision, TimeController, TimeProfile};
use crate::textutil::{spec_dec_digits, u64_to_string};
use crate::tournament::{
    BlindLevelConfig, Tournament, TournamentConfig, TournamentError, TournamentStatus,
};
use crate::view::{build_table_view, table_view_matches};

verus! {

/// The caller is authenticated as the configured owner.
pub open spec fn spec_admin_ok(o: PokerOrchestrator, state: PokerState) -> bool {
    o.signer is Some && state.owner == o.signer
}

/// Binding the caller to the player id will succeed.
pub open spec fn spec_binding_ok(
    o: PokerOrchestrator,
    state: PokerState,
    player_id: PlayerId,
) -> bool {
    o.signer is Some && !spec_binding_mismatch(state, o.signer->0, player_id)
}

/// A tick on this table would fire a timeout whose armed player occupies no
/// seat: the one condition under which a tick fails on an existing table.
pub open spec fn spec_tick_orphaned(state: PokerState, cmd: TickTableCommand) -> bool {
    &&& crate::view::spec_active_of(state, cmd.table_id) is Some
    &&& state.time_controllers.contains_key(cmd.table_id)
    &&& {
        let c = state.time_controllers.spec_get(cmd.table_id);
        &&& c.current_turn is Some
        &&& c.banks.spec_get(c.current_turn->0) <= cmd.delta_secs as u64
        &&& !state.tables.spec_get(cmd.table_id).spec_seated(c.current_turn->0)
    }
}

/// The inputs on which a table-scoped command is owed success: the step it
/// then answers with is pinned per command kind.
pub open spec fn spec_table_command_success_due(
    o: PokerOrchestrator,
    state: PokerState,
    cmd: TableCommand,
) -> bool {
    match cmd {
        TableCommand::SeatPlayer(c) => {
            &&& state.tables.contains_key(c.table_id)
            &&& (c.seat_index as int) < state.tables.spec_get(c.table_id).seats@.len()
            &&& state.tables.spec_get(c.table_id).seats@[c.seat_index as int] is None
            &&& !state.tables.spec_get(c.table_id).spec_seated(c.player_id)
            &&& spec_binding_ok(o, state, c.player_id)
        },
        TableCommand::UnseatPlayer(c) => state.tables.contains_key(c.table_id) && (
        c.seat_index as int) < state.tables.spec_get(c.table_id).seats@.len(),
        TableCommand::AdjustStack(c) => {
            &&& spec_admin_ok(o, state)
            &&& state.tables.contains_key(c.table_id)
            &&& (c.seat_index as int) < state.tables.spec_get(c.table_id).seats@.len()
            &&& state.tables.spec_get(c.table_id).seats@[c.seat_index as int] is Some
        },
        TableCommand::StartHand(c) => state.tables.contains_key(c.table_id)
            && !state.tables.spec_get(c.table_id).hand_in_progress,
        TableCommand::PlayerAction(c) => state.tables.contains_key(c.table_id)
            && crate::view::spec_active_of(state, c.table_id) is Some,
        TableCommand::TickTable(c) => state.tables.contains_key(c.table_id)
            && !spec_tick_orphaned(state, c),
    }
}

/// The inputs on which a tournament-scoped command is owed success.
pub open spec fn spec_tournament_command_success_due(
    o: PokerOrchestrator,
    state: PokerState,
    cmd: TournamentCommand,
) -> bool {
    match cmd {
        TournamentCommand::CreateTournament(c) => {
            &&& spec_admin_ok(o, state)
            &&& !state.tournaments.contains_key(c.tournament_id)
            &&& c.config.table_size >= 2
            &&& c.config.blind_structure.levels@.len() > 0
        },
        TournamentCommand::RegisterPlayer(c) => {
            &&& state.tournaments.contains_key(c.tournament_id)
            &&& state.tournaments.spec_get(c.tournament_id).status
                == TournamentStatus::Registering
            &&& !state.tournaments.spec_get(c.tournament_id).registrations.contains_key(
                c.player_id,
            )
            &&& spec_binding_ok(o, state, c.player_id)
        },
        TournamentCommand::UnregisterPlayer(c) => {
            &&& state.tournaments.contains_key(c.tournament_id)
            &&& state.tournaments.spec_get(c.tournament_id).status
                == TournamentStatus::Registering
            &&& state.tournaments.spec_get(c.tournament_id).registrations.contains_key(
                c.player_id,
            )
            &&& spec_binding_ok(o, state, c.player_id)
        },
        TournamentCommand::StartTournament(c) => {
            &&& spec_admin_ok(o, state)
            &&& state.tournaments.contains_key(c.tournament_id)
            &&& state.tournaments.spec_get(c.tournament_id).status
                == TournamentStatus::Registering
            &&& c.tournament_id <= 0xFFFF_FFFFu64
            &&& state.tournaments.spec_get(c.tournament_id).registrations.spec_len()
                < 0x7FFF_FFFF
        },
        TournamentCommand::AdvanceLevel(c) => spec_admin_ok(o, state)
            && state.tournaments.contains_key(c.tournament_id),
        TournamentCommand::CloseTournament(c) => spec_admin_ok(o, state)
            && state.tournaments.contains_key(c.tournament_id),
    }
}

/// Seat `s` of table `t` - a listed, stored table - holds player `q`.
pub open spec fn spec_seat_occurrence(
    state: PokerState,
    ids: Seq<TableId>,
    t: TableId,
    s: int,
    q: PlayerId,
) -> bool {
    &&& ids.contains(t)
    &&& state.tables.contains_key(t)
    &&& 0 <= s < state.tables.spec_get(t).seats@.len()
    &&& state.tables.spec_get(t).seats@[s] matches Some(p) && p.player_id == q
}

/// Player `q` is out of chips: every seat they occupy among the listed
/// stored tables holds a zero stack, or they occupy none and their recorded
/// chips are zero.
pub open spec fn spec_out_of_chips(
    state: PokerState,
    ids: Seq<TableId>,
    recorded: Chips,
    q: PlayerId,
) -> bool {
    ||| ((exists|t: TableId, s2: int| #[trigger] spec_seat_occurrence(state, ids, t, s2, q)) && (
    forall|t: TableId, s2: int|
        #[trigger] spec_seat_occurrence(state, ids, t, s2, q) ==> state.tables.spec_get(
            t,
        ).seats@[s2]->0.stack == 0))
    ||| (!(exists|t: TableId, s2: int| #[trigger] spec_seat_occurrence(state, ids, t, s2, q))
        && recorded == 0)
}

/// The registration record of `q` mirrors the given table set: the recorded
/// table holds `q` at the recorded seat.
pub open spec fn spec_reg_mirrors_tables(
    tables: IdMap<Table>,
    reg: crate::tournament::Registration,
    q: PlayerId,
) -> bool {
    &&& reg.table_id is Some
    &&& reg.seat_index is Some
    &&& tables.contains_key(reg.table_id->0)
    &&& 0 <= (reg.seat_index->0 as int) < tables.spec_get(reg.table_id->0).seats@.len()
    &&& tables.spec_get(reg.table_id->0).seats@[reg.seat_index->0 as int] matches Some(p)
        && p.player_id == q
}

/// The stored snapshot captures the whole live session, field for field.
pub open spec fn snapshot_of(sn: HandEngineSnapshot, e: HandEngine) -> bool {
    &&& sn.table_id == e.table_id
    &&& sn.hand_id == e.hand_id
    &&& sn.deck == e.deck
    &&& sn.betting == e.betting
    &&& sn.pot == e.pot
    &&& sn.side_pots == e.side_pots
    &&& sn.contributions == e.contributions
    &&& sn.current_actor == e.current_actor
    &&& sn.history == e.history
}

/// The condition under which binding a caller to `player_id` is refused:
/// the caller already controls a different player id, or the player id is
/// already controlled by another caller.
pub open spec fn spec_binding_mismatch(
    state: PokerState,
    signer: AccountId,
    player_id: PlayerId,
) -> bool {
    ||| (state.account_players.contains_key(signer) && state.account_players.spec_get(signer)
        != player_id)
    ||| (!state.account_players.contains_key(signer) && state.player_accounts.contains_key(
        player_id,
    ))
}

/// Executes commands for one caller against the application state.
pub struct PokerOrchestrator {
    /// The authenticated caller identity, as resolved by the host, if any.
    pub signer: Option<AccountId>,
}

type OnchainResult<T> = Result<T, OnchainError>;

impl PokerOrchestrator {
    pub fn new(signer: Option<AccountId>) -> (o: Self)
        ensures
            o.signer == signer,
    {
        PokerOrchestrator { signer }
    }

    /// Convert a failure into the uniform error response.
    pub fn error_response(&self, err: &OnchainError) -> (r: CommandResponse)
        ensures
            r matches CommandResponse::Error(m) && m@ == spec_error_message(*err),
    {
        CommandResponse::Error(err.message())
    }

    /// The configured application owner.
    pub fn app_owner(&self, state: &PokerState) -> (r: Option<AccountId>)
        ensures
            r == state.owner,
    {
        state.owner
    }

    /// Admin gate: the caller must be authenticated and must be the
    /// configured owner.
    pub fn ensure_admin(&self, state: &PokerState) -> (r: OnchainResult<()>)
        ensures
            match r {
                Ok(()) => self.signer is Some && state.owner == self.signer,
                Err(OnchainError::Unauthenticated) => self.signer is None,
                Err(OnchainError::Unauthorized) => self.signer is Some && state.owner
                    != self.signer,
                Err(_) => false,
            },
    {
        let signer = match self.signer {
            Some(s) => s,
            None => {
                return Err(OnchainError::Unauthenticated);
            },
        };
        let owner = match state.owner {
            Some(o) => o,
            None => {
                return Err(OnchainError::Unauthorized);
            },
        };
        if signer != owner {
            return Err(OnchainError::Unauthorized);
        }
        Ok(())
    }

    /// Bind the caller to a player id, once and permanently, in both
    /// directions.  A caller already bound to a different player id is
    /// rejected, and so is a player id already bound to a different caller:
    /// player identity is non-transferable, and one caller can never act as
    /// two in-game players.
    pub fn ensure_player_for_signer(&self, state: &mut PokerState, player_id: PlayerId) -> (r:
        OnchainResult<PlayerId>)
        requires
            old(state).wf(),
        ensures
            final(state).wf(),
            final(state).tables == old(state).tables,
            final(state).active_hands == old(state).active_hands,
            final(state).tournaments == old(state).tournaments,
            final(state).tournament_tables == old(state).tournament_tables,
            final(state).table_tournament == old(state).table_tournament,
            final(state).time_controllers == old(state).time_controllers,
            final(state).player_names == old(state).player_names,
            final(state).total_hands_played == old(state).total_hands_played,
            final(state).next_hand_id == old(state).next_hand_id,
            final(state).base_seed == old(state).base_seed,
            final(state).owner == old(state).owner,
            match r {
                Ok(p) => {
                    &&& p == player_id
                    &&& self.signer is Some
                    &&& {
                        let a = self.signer->0;
                        &&& final(state).account_players.contains_key(a)
                        &&& final(state).account_players.spec_get(a) == player_id
                        &&& final(state).player_accounts.contains_key(player_id)
                        &&& final(state).player_accounts.spec_get(player_id) == a
                        &&& (old(state).account_players.contains_key(a) ==> *final(state) == *old(state))
                        &&& (!old(state).account_players.contains_key(a) ==> {
                            &&& !old(state).player_accounts.contains_key(player_id)
                            &&& forall|a2: AccountId|
                                a2 != a ==> final(state).account_players.contains_key(a2) == old(state).account_players.contains_key(a2)
                            &&& forall|a2: AccountId|
                                a2 != a && old(state).account_players.contains_key(a2) ==> final(state).account_players.spec_get(a2) == old(state).account_players.spec_get(a2)
                            &&& forall|p2: PlayerId|
                                p2 != player_id ==> final(state).player_accounts.contains_key(p2)
                                    == old(state).player_accounts.contains_key(p2)
                            &&& forall|p2: PlayerId|
                                p2 != player_id && old(state).player_accounts.contains_key(p2)
                                    ==> final(state).player_accounts.spec_get(p2) == old(state).player_accounts.spec_get(p2)
                        })
                    }
                },
                Err(OnchainError::Unauthenticated) => self.signer is None && *final(state) == *old(state),
                Err(OnchainError::PlayerIdMismatch) => {
                    &&& self.signer is Some
                    &&& *final(state) == *old(state)
                    &&& spec_binding_mismatch(*old(state), self.signer->0, player_id)
                },
                Err(_) => false,
            },
    {
        let signer = match self.signer {
            Some(s) => s,
            None => {
                return Err(OnchainError::Unauthenticated);
            },
        };
        match state.account_players.get(signer) {
            Some(existing) => {
                if *existing != player_id {
                    return Err(OnchainError::PlayerIdMismatch);
                }
                proof {
                    assert(state.identity_bijective());
                }
                Ok(player_id)
            },
            None => {
                // First binding for this caller.  The player id must not be
                // controlled by another caller already.
                if state.player_accounts.contains(player_id) {
                    return Err(OnchainError::PlayerIdMismatch);
                }
                state.account_players.insert(signer, player_id);
                state.player_accounts.insert(player_id, signer);
                proof {
                    let st = *state;
                    assert forall|a2: AccountId|
                        st.account_players.contains_key(a2) implies {
                        let p = #[trigger] st.account_players.spec_get(a2);
                        st.player_accounts.contains_key(p) && st.player_accounts.spec_get(p) == a2
                    } by {
                        if a2 != signer {
                            let p = st.account_players.spec_get(a2);
                            assert(old(state).account_players.spec_get(a2) == p);
                            assert(p != player_id);
                        }
                    }
                    assert forall|p2: PlayerId|
                        st.player_accounts.contains_key(p2) implies {
                        let a = #[trigger] st.player_accounts.spec_get(p2);
                        st.account_players.contains_key(a) && st.account_players.spec_get(a) == p2
                    } by {
                        if p2 != player_id {
                            let a = st.player_accounts.spec_get(p2);
                            assert(old(state).player_accounts.spec_get(p2) == a);
                            assert(old(state).account_players.spec_get(a) == p2);
                            assert(a != signer);
                        }
                    }
                }
                Ok(player_id)
            },
        }
    }
}

impl PokerOrchestrator {
    /// Create a cash table with the requested stakes and seat count, and an
    /// empty hand-session slot.  Admin-only; the table id must be fresh.
    pub fn handle_create_table(&self, state: &mut PokerState, cmd: CreateTableCommand) -> (r:
        OnchainResult<CommandResponse>)
        requires
            old(state).wf(),
        ensures
            final(state).wf(),
            match r {
                Ok(resp) => {
                    &&& self.signer is Some && old(state).owner == self.signer
                    &&& !old(state).tables.contains_key(cmd.table_id)
                    &&& final(state).tables.contains_key(cmd.table_id)
                    &&& {
                        let t = final(state).tables.spec_get(cmd.table_id);
                        &&& t.wf()
                        &&& t.id == cmd.table_id
                        &&& t.name@ == cmd.name@
                        &&& t.config == (TableConfig {
                            max_seats: cmd.max_seats,
                            table_type: TableType::Cash,
                            stakes: TableStakes {
                                small_blind: cmd.small_blind,
                                big_blind: cmd.big_blind,
                                ante_type: spec_map_ante(cmd.ante_type),
                                ante: cmd.ante,
                            },
                            allow_straddle: false,
                            allow_run_it_twice: false,
                        })
                        &&& t.hand_in_progress == false
                        &&& t.spec_seated_count() == 0
                        &&& forall|i: int| 0 <= i < t.seats@.len() ==> (#[trigger] t.seats@[i]) is None
                        &&& t.street == crate::domain::Street::Preflop
                        &&& t.dealer_button is None
                        &&& t.total_pot == 0
                        &&& t.board@ == Seq::<crate::domain::Card>::empty()
                        &&& resp matches CommandResponse::TableCreated(v) && table_view_matches(
                            v,
                            t,
                            None,
                            final(state).player_names,
                        )
                    }
                    &&& final(state).active_hands.contains_key(cmd.table_id)
                    &&& final(state).active_hands.spec_get(cmd.table_id) is None
                    &&& forall|t2: TableId|
                        t2 != cmd.table_id ==> final(state).tables.contains_key(t2) == old(state).tables.contains_key(t2) && final(state).active_hands.contains_key(t2)
                            == old(state).active_hands.contains_key(t2)
                    &&& forall|t2: TableId|
                        t2 != cmd.table_id && old(state).tables.contains_key(t2) ==> final(state).tables.spec_get(t2) == old(state).tables.spec_get(t2)
                    &&& forall|t2: TableId|
                        t2 != cmd.table_id && old(state).active_hands.contains_key(t2) ==> final(state).active_hands.spec_get(t2) == old(state).active_hands.spec_get(t2)
                    &&& final(state).tournaments == old(state).tournaments
                    &&& final(state).player_names == old(state).player_names
                    &&& final(state).account_players == old(state).account_players
                    &&& final(state).player_accounts == old(state).player_accounts
                },
                Err(e) => *final(state) == *old(state) && match e {
                    OnchainError::Unauthenticated => self.signer is None,
                    OnchainError::Unauthorized => self.signer is Some && old(state).owner
                        != self.signer,
                    OnchainError::Storage(m) => self.signer is Some && old(state).owner
                        == self.signer && old(state).tables.contains_key(cmd.table_id) && m@
                        == "table "@ + spec_dec_digits(cmd.table_id as nat) + " already exists"@,
                    _ => false,
                },
            },
    {
        self.ensure_admin(state)?;
        if state.tables.contains(cmd.table_id) {
            let msg = String::from_str("table ").concat(
                u64_to_string(cmd.table_id).as_str(),
            ).concat(" already exists");
            return Err(OnchainError::Storage(msg));
        }
        let stakes = TableStakes::new(
            cmd.small_blind,
            cmd.big_blind,
            map_ante_type(cmd.ante_type),
            cmd.ante,
        );
        let config = TableConfig {
            max_seats: cmd.max_seats,
            table_type: TableType::Cash,
            stakes,
            allow_straddle: false,
            allow_run_it_twice: false,
        };
        let table = Table::new(cmd.table_id, cmd.name, config);
        proof {
            table.lemma_occupied_below_all_none(table.seats@.len() as int);
        }
        let view = build_table_view(state, &table, None);
        state.tables.insert(cmd.table_id, table);
        state.active_hands.insert(cmd.table_id, None);
        proof {
            lemma_state_wf_after_table_touch(*old(state), *state, cmd.table_id);
        }
        Ok(CommandResponse::TableCreated(view))
    }

    /// Seat a player: bind the caller to the player id, then place the
    /// player at the requested empty seat with the requested starting stack,
    /// recording a display name if one was given.
    pub fn handle_seat_player(&self, state: &mut PokerState, cmd: SeatPlayerCommand) -> (r:
        OnchainResult<CommandResponse>)
        requires
            old(state).wf(),
        ensures
            final(state).wf(),
            match r {
                Ok(resp) => {
                    &&& old(state).tables.contains_key(cmd.table_id)
                    &&& {
                        let told = old(state).tables.spec_get(cmd.table_id);
                        let tnew = final(state).tables.spec_get(cmd.table_id);
                        &&& (cmd.seat_index as int) < told.seats@.len()
                        &&& told.seats@[cmd.seat_index as int] is None
                        &&& !told.spec_seated(cmd.player_id)
                        &&& final(state).tables.contains_key(cmd.table_id)
                        &&& tnew.seats@ == told.seats@.update(
                            cmd.seat_index as int,
                            Some(
                                PlayerAtTable {
                                    player_id: cmd.player_id,
                                    stack: cmd.initial_stack,
                                    current_bet: 0,
                                    status: crate::domain::PlayerStatus::Active,
                                },
                            ),
                        )
                        &&& tnew.id == told.id
                        &&& tnew.name == told.name
                        &&& tnew.config == told.config
                        &&& tnew.hand_in_progress == told.hand_in_progress
                        &&& tnew.street == told.street
                        &&& tnew.dealer_button == told.dealer_button
                        &&& tnew.total_pot == told.total_pot
                        &&& tnew.board == told.board
                        &&& resp matches CommandResponse::TableState(v) && table_view_matches(
                            v,
                            tnew,
                            crate::view::spec_actor_of(
                                crate::view::spec_active_of(*final(state), cmd.table_id),
                            ),
                            final(state).player_names,
                        )
                    }
                    &&& final(state).time_controllers == old(state).time_controllers
                    &&& final(state).tournament_tables == old(state).tournament_tables
                    &&& final(state).table_tournament == old(state).table_tournament
                    &&& final(state).total_hands_played == old(state).total_hands_played
                    &&& final(state).next_hand_id == old(state).next_hand_id
                    &&& final(state).base_seed == old(state).base_seed
                    &&& final(state).owner == old(state).owner
                    &&& (old(state).account_players.contains_key(self.signer->0) ==> final(state).account_players == old(state).account_players && final(state).player_accounts
                        == old(state).player_accounts)
                    &&& (!old(state).account_players.contains_key(self.signer->0) ==> {
                        &&& forall|a2: AccountId|
                            a2 != self.signer->0 ==> final(state).account_players.contains_key(a2)
                                == old(state).account_players.contains_key(a2)
                        &&& forall|a2: AccountId|
                            a2 != self.signer->0 && old(state).account_players.contains_key(a2)
                                ==> final(state).account_players.spec_get(a2) == old(state).account_players.spec_get(a2)
                        &&& forall|p2: PlayerId|
                            p2 != cmd.player_id ==> final(state).player_accounts.contains_key(p2)
                                == old(state).player_accounts.contains_key(p2)
                        &&& forall|p2: PlayerId|
                            p2 != cmd.player_id && old(state).player_accounts.contains_key(p2)
                                ==> final(state).player_accounts.spec_get(p2) == old(state).player_accounts.spec_get(p2)
                    })
                    &&& self.signer is Some
                    &&& final(state).account_players.contains_key(self.signer->0)
                    &&& final(state).account_players.spec_get(self.signer->0) == cmd.player_id
                    &&& final(state).player_accounts.contains_key(cmd.player_id)
                    &&& final(state).player_accounts.spec_get(cmd.player_id) == self.signer->0
                    &&& (cmd.display_name@.len() == 0 ==> final(state).player_names == old(state).player_names)
                    &&& (cmd.display_name@.len() > 0 ==> final(state).player_names.contains_key(
                        cmd.player_id,
                    ) && final(state).player_names.spec_get(cmd.player_id)@ == cmd.display_name@)
                    &&& forall|t2: TableId|
                        t2 != cmd.table_id ==> final(state).tables.contains_key(t2) == old(state).tables.contains_key(t2)
                    &&& forall|t2: TableId|
                        t2 != cmd.table_id && old(state).tables.contains_key(t2) ==> final(state).tables.spec_get(t2) == old(state).tables.spec_get(t2)
                    &&& final(state).active_hands == old(state).active_hands
                    &&& final(state).tournaments == old(state).tournaments
                },
                Err(e) => *final(state) == *old(state) && match e {
                    OnchainError::TableNotFound(t) => t == cmd.table_id && !old(state).tables.contains_key(cmd.table_id),
                    OnchainError::SeatNotEmpty { table, seat } => {
                        &&& table == cmd.table_id
                        &&& seat == cmd.seat_index
                        &&& old(state).tables.contains_key(cmd.table_id)
                        &&& (cmd.seat_index as int) < old(state).tables.spec_get(
                            cmd.table_id,
                        ).seats@.len()
                        &&& old(state).tables.spec_get(cmd.table_id).seats@[cmd.seat_index as int]
                            is Some
                    },
                    OnchainError::InvalidSeatIndex { table, seat } => {
                        &&& table == cmd.table_id
                        &&& seat == cmd.seat_index
                        &&& old(state).tables.contains_key(cmd.table_id)
                        &&& (cmd.seat_index as int) >= old(state).tables.spec_get(
                            cmd.table_id,
                        ).seats@.len()
                    },
                    OnchainError::PlayerAlreadySeated { table, player } => {
                        &&& table == cmd.table_id
                        &&& player == cmd.player_id
                        &&& old(state).tables.contains_key(cmd.table_id)
                        &&& old(state).tables.spec_get(cmd.table_id).spec_seated(cmd.player_id)
                    },
                    OnchainError::Unauthenticated => self.signer is None,
                    OnchainError::PlayerIdMismatch => self.signer is Some
                        && spec_binding_mismatch(*old(state), self.signer->0, cmd.player_id),
                    _ => false,
                },
            },
    {
        {
            let table_ref = match state.tables.get(cmd.table_id) {
                Some(t) => t,
                None => {
                    return Err(OnchainError::TableNotFound(cmd.table_id));
                },
            };
            if !table_ref.is_seat_empty(cmd.seat_index) {
                return Err(
                    OnchainError::SeatNotEmpty { table: cmd.table_id, seat: cmd.seat_index },
                );
            }
            if cmd.seat_index as usize >= table_ref.seats.len() {
                return Err(
                    OnchainError::InvalidSeatIndex { table: cmd.table_id, seat: cmd.seat_index },
                );
            }
            if table_ref.find_seat_of(cmd.player_id).is_some() {
                return Err(
                    OnchainError::PlayerAlreadySeated {
                        table: cmd.table_id,
                        player: cmd.player_id,
                    },
                );
            }
        }
        let player_id = self.ensure_player_for_signer(state, cmd.player_id)?;
        let ghost mid = *state;
        let mut table = state.tables.take(cmd.table_id).unwrap();
        let ghost told = old(state).tables.spec_get(cmd.table_id);
        let pat = PlayerAtTable::new(player_id, cmd.initial_stack);
        let idx = cmd.seat_index as usize;
        let slot = &mut table.seats[idx];
        *slot = Some(pat);
        proof {
            assert(table.seats@ == told.seats@.update(idx as int, Some(pat)));
            assert forall|i: int, j: int|
                0 <= i < j < table.seats@.len() && (#[trigger] table.seats@[i]) is Some && (
            #[trigger] table.seats@[j]) is Some implies table.seats@[i]->0.player_id
                != table.seats@[j]->0.player_id by {
                if i != idx as int && j != idx as int {
                    assert(table.seats@[i] == told.seats@[i]);
                    assert(table.seats@[j] == told.seats@[j]);
                } else if i == idx as int {
                    assert(table.seats@[j] == told.seats@[j]);
                    assert(!told.spec_seated(cmd.player_id));
                } else {
                    assert(table.seats@[i] == told.seats@[i]);
                    assert(!told.spec_seated(cmd.player_id));
                }
            }
            assert(table.wf());
        }
        if !cmd.display_name.as_str().is_empty() {
            state.player_names.insert(player_id, cmd.display_name);
        }
        let active: Option<&HandEngineSnapshot> = match state.active_hands.get(cmd.table_id) {
            Some(slot2) => match slot2 {
                Some(s) => Some(s),
                None => None,
            },
            None => None,
        };
        let view = build_table_view(state, &table, active);
        state.tables.insert(cmd.table_id, table);
        proof {
            lemma_state_wf_after_table_touch(mid, *state, cmd.table_id);
        }
        Ok(CommandResponse::TableState(view))
    }

    /// Clear a seat unconditionally, if the index is valid.
    pub fn handle_unseat_player(&self, state: &mut PokerState, cmd: UnseatPlayerCommand) -> (r:
        OnchainResult<CommandResponse>)
        requires
            old(state).wf(),
        ensures
            final(state).wf(),
            match r {
                Ok(resp) => {
                    &&& old(state).tables.contains_key(cmd.table_id)
                    &&& {
                        let told = old(state).tables.spec_get(cmd.table_id);
                        let tnew = final(state).tables.spec_get(cmd.table_id);
                        &&& (cmd.seat_index as int) < told.seats@.len()
                        &&& final(state).tables.contains_key(cmd.table_id)
                        &&& tnew.seats@ == told.seats@.update(
                            cmd.seat_index as int,
                            None::<PlayerAtTable>,
                        )
                        &&& tnew.id == told.id
                        &&& tnew.name == told.name
                        &&& tnew.config == told.config
                        &&& tnew.hand_in_progress == told.hand_in_progress
                        &&& tnew.street == told.street
                        &&& tnew.dealer_button == told.dealer_button
                        &&& tnew.total_pot == told.total_pot
                        &&& tnew.board == told.board
                        &&& resp matches CommandResponse::TableState(v) && table_view_matches(
                            v,
                            tnew,
                            crate::view::spec_actor_of(
                                crate::view::spec_active_of(*final(state), cmd.table_id),
                            ),
                            final(state).player_names,
                        )
                    }
                    &&& forall|t2: TableId|
                        t2 != cmd.table_id ==> final(state).tables.contains_key(t2) == old(state).tables.contains_key(t2)
                    &&& forall|t2: TableId|
                        t2 != cmd.table_id && old(state).tables.contains_key(t2) ==> final(state).tables.spec_get(t2) == old(state).tables.spec_get(t2)
                    &&& final(state).active_hands == old(state).active_hands
                    &&& final(state).tournaments == old(state).tournaments
                    &&& final(state).player_names == old(state).player_names
                    &&& final(state).account_players == old(state).account_players
                    &&& final(state).player_accounts == old(state).player_accounts
                    &&& final(state).time_controllers == old(state).time_controllers
                    &&& final(state).tournament_tables == old(state).tournament_tables
                    &&& final(state).table_tournament == old(state).table_tournament
                    &&& final(state).total_hands_played == old(state).total_hands_played
                    &&& final(state).next_hand_id == old(state).next_hand_id
                    &&& final(state).base_seed == old(state).base_seed
                    &&& final(state).owner == old(state).owner
                },
                Err(e) => *final(state) == *old(state) && match e {
                    OnchainError::TableNotFound(t) => t == cmd.table_id && !old(state).tables.contains_key(cmd.table_id),
                    OnchainError::InvalidSeatIndex { table, seat } => {
                        &&& table == cmd.table_id
                        &&& seat == cmd.seat_index
                        &&& old(state).tables.contains_key(cmd.table_id)
                        &&& (cmd.seat_index as int) >= old(state).tables.spec_get(
                            cmd.table_id,
                        ).seats@.len()
                    },
                    _ => false,
                },
            },
    {
        {
            let table_ref = match state.tables.get(cmd.table_id) {
                Some(t) => t,
                None => {
                    return Err(OnchainError::TableNotFound(cmd.table_id));
                },
            };
            if cmd.seat_index as usize >= table_ref.seats.len() {
                return Err(
                    OnchainError::InvalidSeatIndex { table: cmd.table_id, seat: cmd.seat_index },
                );
            }
        }
        let mut table = state.tables.take(cmd.table_id).unwrap();
        let ghost told = old(state).tables.spec_get(cmd.table_id);
        let idx = cmd.seat_index as usize;
        let slot = &mut table.seats[idx];
        *slot = None;
        proof {
            assert(table.seats@ == told.seats@.update(idx as int, None::<PlayerAtTable>));
            assert forall|i: int, j: int|
                0 <= i < j < table.seats@.len() && (#[trigger] table.seats@[i]) is Some && (
            #[trigger] table.seats@[j]) is Some implies table.seats@[i]->0.player_id
                != table.seats@[j]->0.player_id by {
                assert(i != idx as int && j != idx as int);
                assert(table.seats@[i] == told.seats@[i]);
                assert(table.seats@[j] == told.seats@[j]);
            }
            assert(table.wf());
        }
        let active: Option<&HandEngineSnapshot> = match state.active_hands.get(cmd.table_id) {
            Some(slot2) => match slot2 {
                Some(s) => Some(s),
                None => None,
            },
            None => None,
        };
        let view = build_table_view(state, &table, active);
        state.tables.insert(cmd.table_id, table);
        proof {
            lemma_state_wf_after_table_touch(*old(state), *state, cmd.table_id);
        }
        Ok(CommandResponse::TableState(view))
    }

    /// Apply a signed delta to a seated player's stack with saturating
    /// arithmetic: the resulting stack is `S + D` clamped into the chip
    /// range, so it never underflows below zero nor overflows.  Admin-only.
    pub fn handle_adjust_stack(&self, state: &mut PokerState, cmd: AdjustStackCommand) -> (r:
        OnchainResult<CommandResponse>)
        requires
            old(state).wf(),
        ensures
            final(state).wf(),
            match r {
                Ok(resp) => {
                    &&& self.signer is Some && old(state).owner == self.signer
                    &&& old(state).tables.contains_key(cmd.table_id)
                    &&& {
                        let told = old(state).tables.spec_get(cmd.table_id);
                        let tnew = final(state).tables.spec_get(cmd.table_id);
                        &&& (cmd.seat_index as int) < told.seats@.len()
                        &&& told.seats@[cmd.seat_index as int] is Some
                        &&& {
                            let p = told.seats@[cmd.seat_index as int]->0;
                            tnew.seats@ == told.seats@.update(
                                cmd.seat_index as int,
                                Some(
                                    PlayerAtTable {
                                        stack: spec_adjusted_stack(p.stack, cmd.delta),
                                        ..p
                                    },
                                ),
                            )
                        }
                        &&& final(state).tables.contains_key(cmd.table_id)
                        &&& tnew.id == told.id
                        &&& tnew.name == told.name
                        &&& tnew.config == told.config
                        &&& tnew.hand_in_progress == told.hand_in_progress
                        &&& tnew.street == told.street
                        &&& tnew.dealer_button == told.dealer_button
                        &&& tnew.total_pot == told.total_pot
                        &&& tnew.board == told.board
                        &&& resp matches CommandResponse::TableState(v) && table_view_matches(
                            v,
                            tnew,
                            crate::view::spec_actor_of(
                                crate::view::spec_active_of(*final(state), cmd.table_id),
                            ),
                            final(state).player_names,
                        )
                    }
                    &&& forall|t2: TableId|
                        t2 != cmd.table_id ==> final(state).tables.contains_key(t2) == old(state).tables.contains_key(t2)
                    &&& forall|t2: TableId|
                        t2 != cmd.table_id && old(state).tables.contains_key(t2) ==> final(state).tables.spec_get(t2) == old(state).tables.spec_get(t2)
                    &&& final(state).active_hands == old(state).active_hands
                    &&& final(state).tournaments == old(state).tournaments
                    &&& final(state).player_names == old(state).player_names
                    &&& final(state).account_players == old(state).account_players
                    &&& final(state).player_accounts == old(state).player_accounts
                    &&& final(state).time_controllers == old(state).time_controllers
                    &&& final(state).tournament_tables == old(state).tournament_tables
                    &&& final(state).table_tournament == old(state).table_tournament
                    &&& final(state).total_hands_played == old(state).total_hands_played
                    &&& final(state).next_hand_id == old(state).next_hand_id
                    &&& final(state).base_seed == old(state).base_seed
                    &&& final(state).owner == old(state).owner
                },
                Err(e) => *final(state) == *old(state) && match e {
                    OnchainError::Unauthenticated => self.signer is None,
                    OnchainError::Unauthorized => self.signer is Some && old(state).owner
                        != self.signer,
                    OnchainError::TableNotFound(t) => t == cmd.table_id && !old(state).tables.contains_key(cmd.table_id),
                    OnchainError::NoPlayerAtSeat { table, seat } => {
                        &&& table == cmd.table_id
                        &&& seat == cmd.seat_index
                        &&& old(state).tables.contains_key(cmd.table_id)
                        &&& {
                            let told = old(state).tables.spec_get(cmd.table_id);
                            (cmd.seat_index as int) >= told.seats@.len()
                                || told.seats@[cmd.seat_index as int] is None
                        }
                    },
                    _ => false,
                },
            },
    {
        self.ensure_admin(state)?;
        {
            let table_ref = match state.tables.get(cmd.table_id) {
                Some(t) => t,
                None => {
                    return Err(OnchainError::TableNotFound(cmd.table_id));
                },
            };
            let idx = cmd.seat_index as usize;
            if idx >= table_ref.seats.len() {
                return Err(
                    OnchainError::NoPlayerAtSeat { table: cmd.table_id, seat: cmd.seat_index },
                );
            }
            if table_ref.seats[idx].is_none() {
                return Err(
                    OnchainError::NoPlayerAtSeat { table: cmd.table_id, seat: cmd.seat_index },
                );
            }
        }
        let mut table = state.tables.take(cmd.table_id).unwrap();
        let ghost told = old(state).tables.spec_get(cmd.table_id);
        let idx = cmd.seat_index as usize;
        let p = table.seats[idx].unwrap();
        let delta = cmd.delta;
        let new_stack: Chips = if delta >= 0 {
            let d = delta as u64;
            if p.stack <= u64::MAX - d {
                p.stack + d
            } else {
                u64::MAX
            }
        } else {
            let abs: u64 = if delta == i64::MIN {
                9223372036854775808u64
            } else {
                (-delta) as u64
            };
            if p.stack >= abs {
                p.stack - abs
            } else {
                0
            }
        };
        proof {
            assert(new_stack == spec_adjusted_stack(p.stack, cmd.delta));
        }
        let updated = PlayerAtTable {
            player_id: p.player_id,
            stack: new_stack,
            current_bet: p.current_bet,
            status: p.status,
        };
        let slot = &mut table.seats[idx];
        *slot = Some(updated);
        proof {
            assert(table.seats@ == told.seats@.update(idx as int, Some(updated)));
            assert forall|i: int, j: int|
                0 <= i < j < table.seats@.len() && (#[trigger] table.seats@[i]) is Some && (
            #[trigger] table.seats@[j]) is Some implies table.seats@[i]->0.player_id
                != table.seats@[j]->0.player_id by {
                if i != idx as int {
                    assert(table.seats@[i] == told.seats@[i]);
                }
                if j != idx as int {
                    assert(table.seats@[j] == told.seats@[j]);
                }
                assert(told.seats@[i] is Some && told.seats@[j] is Some);
                assert(told.seats@[i]->0.player_id != told.seats@[j]->0.player_id);
            }
            assert(table.wf());
        }
        let active: Option<&HandEngineSnapshot> = match state.active_hands.get(cmd.table_id) {
            Some(slot2) => match slot2 {
                Some(s) => Some(s),
                None => None,
            },
            None => None,
        };
        let view = build_table_view(state, &table, active);
        state.tables.insert(cmd.table_id, table);
        proof {
            lemma_state_wf_after_table_touch(*old(state), *state, cmd.table_id);
        }
        Ok(CommandResponse::TableState(view))
    }
}

/// Work only the external rules engine can do.  The affected entities travel
/// with the request as owned values; the host runs the engine on them and
/// hands everything back in an [`EngineUpdate`].
pub enum EngineRequest {
    /// Shuffle and deal a new hand on this table from the given deterministic
    /// seed, posting blinds and antes.
    StartHand { table: Table, hand_id: HandId, seed: u64 },
    /// Apply the player action to the live session, then advance the betting
    /// round as far as it closes (deal the next street, resolve a showdown).
    ApplyAction { table: Table, engine: HandEngine, action: PlayerAction },
}

/// What came back from the rules engine.
pub enum EngineUpdate {
    /// The engine rejected the work; the table and session travel back
    /// unchanged so that nothing is persisted from this command.
    Failed { table: Table, session: Option<HandEngine>, message: String },
    /// The engine applied the work; the mutated table, the resulting session
    /// and the hand status travel back.
    Progressed { table: Table, engine: HandEngine, status: HandStatus },
}

/// The command half that resumes once the engine answers.
#[derive(Clone, Copy, Debug, PartialEq, Eq, Structural)]
pub enum PendingCommand {
    StartHand { table_id: TableId, hand_id: HandId },
    PlayerAction { table_id: TableId },
}

/// One step of command execution: either a finished response, or a request
/// for the rules engine together with the pending half of the command.
pub enum CommandStep {
    Done(CommandResponse),
    NeedsEngine { request: EngineRequest, pending: PendingCommand },
}

/// The deterministic deal seed: a pure function of the application's base
/// seed, the hand id and the table id, so the same inputs always reproduce
/// the same deal.
pub open spec fn spec_hand_seed(base_seed: u64, hand_id: HandId, table_id: TableId) -> u64 {
    base_seed ^ hand_id ^ table_id
}

/// Identical (base seed, hand id, table id) triples always derive identical
/// deal seeds, so two deals from the same inputs are byte-identical as long
/// as the engine is a pure function of its seed.
pub proof fn lemma_deal_seed_deterministic(
    b1: u64,
    h1: HandId,
    t1: TableId,
    b2: u64,
    h2: HandId,
    t2: TableId,
)
    requires
        b1 == b2,
        h1 == h2,
        t1 == t2,
    ensures
        spec_hand_seed(b1, h1, t1) == spec_hand_seed(b2, h2, t2),
{
}

/// Convert a final hand status into the response for the command that drove
/// it: a continuing hand answers with the table state, a finished hand with
/// the settlement summary and the post-hand table view.
pub fn map_hand_status_to_response(status: HandStatus, view: TableViewDto) -> (r: CommandResponse)
    ensures
        match status {
            HandStatus::Ongoing => r == CommandResponse::TableState(view),
            HandStatus::Finished { summary } => r == (CommandResponse::HandFinished {
                summary,
                table: view,
            }),
        },
{
    match status {
        HandStatus::Ongoing => CommandResponse::TableState(view),
        HandStatus::Finished { summary } => CommandResponse::HandFinished { summary, table: view },
    }
}

/// Check the table's time controller out of the state, creating one under
/// the standard profile, seeded with every seated player, if the table has
/// none yet.
fn ensure_time_controller(state: &mut PokerState, table: &Table) -> (c: TimeController)
    requires
        old(state).wf(),
    ensures
        final(state).wf(),
        c.wf(),
        !final(state).time_controllers.contains_key(table.id),
        forall|t2: TableId|
            t2 != table.id ==> final(state).time_controllers.contains_key(t2) == old(state).time_controllers.contains_key(t2),
        forall|t2: TableId|
            t2 != table.id && old(state).time_controllers.contains_key(t2) ==> final(state).time_controllers.spec_get(t2) == old(state).time_controllers.spec_get(t2),
        final(state).tables == old(state).tables,
        final(state).active_hands == old(state).active_hands,
        final(state).tournaments == old(state).tournaments,
        final(state).tournament_tables == old(state).tournament_tables,
        final(state).table_tournament == old(state).table_tournament,
        final(state).player_names == old(state).player_names,
        final(state).player_accounts == old(state).player_accounts,
        final(state).account_players == old(state).account_players,
        final(state).total_hands_played == old(state).total_hands_played,
        final(state).next_hand_id == old(state).next_hand_id,
        final(state).base_seed == old(state).base_seed,
        final(state).owner == old(state).owner,
        old(state).time_controllers.contains_key(table.id) ==> c == old(state).time_controllers.spec_get(table.id),
        !old(state).time_controllers.contains_key(table.id) ==> c.current_turn is None && forall|
            p: PlayerId,
        |
            c.banks.contains_key(p) <==> table.spec_seated(p),
{
    let taken = state.time_controllers.take(table.id);
    proof {
        assert forall|t2: TableId| #[trigger] state.time_controllers.contains_key(t2) implies
            state.time_controllers.spec_get(t2).wf() by {
            assert(old(state).time_controllers.contains_key(t2));
        }
    }
    match taken {
        Some(c) => c,
        None => {
            let mut c = TimeController::new(TimeProfile::Standard);
            let players = table.seated_players();
            c.init_players(&players);
            proof {
                assert forall|p: PlayerId| c.banks.contains_key(p) <==> table.spec_seated(
                    p,
                ) by {}
            }
            c
        },
    }
}

/// The player on the clock for a given actor seat: the seat's occupant, or
/// nobody when the seat is out of range or empty.
pub open spec fn spec_actor_player(table: Table, actor: Option<SeatIndex>) -> Option<PlayerId> {
    match actor {
        Some(i) => if 0 <= i < table.seats@.len() && table.seats@[i as int] is Some {
            Some(table.seats@[i as int]->0.player_id)
        } else {
            None
        },
        None => None,
    }
}

/// Re-arm the table's time controller for the seat on the clock: the current
/// turn is cleared, and if the new actor seat is occupied, that player's turn
/// starts.
fn update_time_controller_for_actor(state: &mut PokerState, table: &Table, current_actor: Option<SeatIndex>)
    requires
        old(state).wf(),
    ensures
        final(state).wf(),
        final(state).time_controllers.contains_key(table.id),
        final(state).time_controllers.spec_get(table.id).current_turn == spec_actor_player(
            *table,
            current_actor,
        ),
        old(state).time_controllers.contains_key(table.id) ==> (forall|q: PlayerId|
            old(state).time_controllers.spec_get(table.id).banks.contains_key(q) ==> final(state).time_controllers.spec_get(table.id).banks.contains_key(q) && final(state).time_controllers.spec_get(table.id).banks.spec_get(q) == old(state).time_controllers.spec_get(table.id).banks.spec_get(q)),
        forall|t2: TableId|
            t2 != table.id ==> final(state).time_controllers.contains_key(t2) == old(state).time_controllers.contains_key(t2),
        forall|t2: TableId|
            t2 != table.id && old(state).time_controllers.contains_key(t2) ==> final(state).time_controllers.spec_get(t2) == old(state).time_controllers.spec_get(t2),
        final(state).tables == old(state).tables,
        final(state).active_hands == old(state).active_hands,
        final(state).tournaments == old(state).tournaments,
        final(state).tournament_tables == old(state).tournament_tables,
        final(state).table_tournament == old(state).table_tournament,
        final(state).player_names == old(state).player_names,
        final(state).player_accounts == old(state).player_accounts,
        final(state).account_players == old(state).account_players,
        final(state).total_hands_played == old(state).total_hands_played,
        final(state).next_hand_id == old(state).next_hand_id,
        final(state).base_seed == old(state).base_seed,
        final(state).owner == old(state).owner,
{
    let mut c = ensure_time_controller(state, table);
    c.clear_current_turn();
    match current_actor {
        Some(seat_idx) => {
            let idx = seat_idx as usize;
            if idx < table.seats.len() {
                match &table.seats[idx] {
                    Some(p) => {
                        c.start_player_turn(p.player_id);
                    },
                    None => {},
                }
            }
        },
        None => {},
    }
    state.time_controllers.insert(table.id, c);
    proof {
        assert forall|t2: TableId| #[trigger] state.time_controllers.contains_key(t2) implies
            state.time_controllers.spec_get(t2).wf() by {
            if t2 != table.id {
                assert(old(state).time_controllers.contains_key(t2));
            }
        }
    }
}

/// Disarm the table's clock when a hand ends, without resetting any time
/// bank; a table with no controller is left alone.
fn clear_current_turn_for_table(state: &mut PokerState, table_id: TableId)
    requires
        old(state).wf(),
    ensures
        final(state).wf(),
        old(state).time_controllers.contains_key(table_id) ==> final(state).time_controllers.contains_key(table_id) && final(state).time_controllers.spec_get(
            table_id,
        ).current_turn is None && final(state).time_controllers.spec_get(table_id).banks == old(state).time_controllers.spec_get(table_id).banks,
        !old(state).time_controllers.contains_key(table_id) ==> *final(state) == *old(state),
        forall|t2: TableId|
            t2 != table_id ==> final(state).time_controllers.contains_key(t2) == old(state).time_controllers.contains_key(t2),
        forall|t2: TableId|
            t2 != table_id && old(state).time_controllers.contains_key(t2) ==> final(state).time_controllers.spec_get(t2) == old(state).time_controllers.spec_get(t2),
        final(state).tables == old(state).tables,
        final(state).active_hands == old(state).active_hands,
        final(state).tournaments == old(state).tournaments,
        final(state).tournament_tables == old(state).tournament_tables,
        final(state).table_tournament == old(state).table_tournament,
        final(state).player_names == old(state).player_names,
        final(state).player_accounts == old(state).player_accounts,
        final(state).account_players == old(state).account_players,
        final(state).total_hands_played == old(state).total_hands_played,
        final(state).next_hand_id == old(state).next_hand_id,
        final(state).base_seed == old(state).base_seed,
        final(state).owner == old(state).owner,
{
    match state.time_controllers.take(table_id) {
        Some(mut c) => {
            c.clear_current_turn();
            state.time_controllers.insert(table_id, c);
            proof {
                assert forall|t2: TableId|
                    #[trigger] state.time_controllers.contains_key(t2) implies
                    state.time_controllers.spec_get(t2).wf() by {
                    if t2 != table_id {
                        assert(old(state).time_controllers.contains_key(t2));
                    }
                }
            }
        },
        None => {},
    }
}

impl PokerOrchestrator {
    /// Begin a new hand: derive the deterministic seed from the global hand
    /// counter, the base seed and the table id, and hand the table to the
    /// engine for shuffling, blinds and the deal.  Fails while a hand is
    /// already in progress.  Nothing is persisted until the engine answers.
    pub fn handle_start_hand(&self, state: &mut PokerState, cmd: StartHandCommand) -> (r:
        OnchainResult<CommandStep>)
        requires
            old(state).wf(),
        ensures
            final(state).wf(),
            match r {
                Ok(step) => {
                    &&& old(state).tables.contains_key(cmd.table_id)
                    &&& !old(state).tables.spec_get(cmd.table_id).hand_in_progress
                    &&& step matches CommandStep::NeedsEngine { request, pending }
                    &&& {
                        let request = step->NeedsEngine_request;
                        let pending = step->NeedsEngine_pending;
                        &&& request matches EngineRequest::StartHand { table, hand_id, seed }
                        &&& request->StartHand_table == old(state).tables.spec_get(cmd.table_id)
                        &&& request->StartHand_hand_id == spec_saturating_succ(old(state).next_hand_id)
                        &&& request->StartHand_seed == spec_hand_seed(
                            old(state).base_seed,
                            spec_saturating_succ(old(state).next_hand_id),
                            cmd.table_id,
                        )
                        &&& pending == (PendingCommand::StartHand {
                            table_id: cmd.table_id,
                            hand_id: spec_saturating_succ(old(state).next_hand_id),
                        })
                    }
                    &&& !final(state).tables.contains_key(cmd.table_id)
                    &&& forall|t2: TableId|
                        t2 != cmd.table_id ==> final(state).tables.contains_key(t2) == old(state).tables.contains_key(t2)
                    &&& forall|t2: TableId|
                        t2 != cmd.table_id && old(state).tables.contains_key(t2) ==> final(state).tables.spec_get(t2) == old(state).tables.spec_get(t2)
                    &&& final(state).active_hands == old(state).active_hands
                    &&& final(state).tournaments == old(state).tournaments
                    &&& final(state).time_controllers == old(state).time_controllers
                    &&& final(state).next_hand_id == old(state).next_hand_id
                    &&& final(state).total_hands_played == old(state).total_hands_played
                    &&& final(state).base_seed == old(state).base_seed
                    &&& final(state).table_tournament == old(state).table_tournament
                    &&& final(state).tournament_tables == old(state).tournament_tables
                    &&& final(state).player_names == old(state).player_names
                    &&& final(state).player_accounts == old(state).player_accounts
                    &&& final(state).account_players == old(state).account_players
                    &&& final(state).owner == old(state).owner
                },
                Err(e) => *final(state) == *old(state) && match e {
                    OnchainError::TableNotFound(t) => t == cmd.table_id && !old(state).tables.contains_key(cmd.table_id),
                    OnchainError::HandAlreadyInProgress(t) => t == cmd.table_id && old(state).tables.contains_key(cmd.table_id) && old(state).tables.spec_get(
                        cmd.table_id,
                    ).hand_in_progress,
                    _ => false,
                },
            },
    {
        {
            let table_ref = match state.tables.get(cmd.table_id) {
                Some(t) => t,
                None => {
                    return Err(OnchainError::TableNotFound(cmd.table_id));
                },
            };
            if table_ref.hand_in_progress {
                return Err(OnchainError::HandAlreadyInProgress(cmd.table_id));
            }
        }
        let current_id = state.next_hand_id;
        let hand_id: HandId = if current_id == u64::MAX {
            u64::MAX
        } else {
            current_id + 1
        };
        let seed = state.base_seed ^ hand_id ^ cmd.table_id;
        let table = state.tables.take(cmd.table_id).unwrap();
        Ok(
            CommandStep::NeedsEngine {
                request: EngineRequest::StartHand { table, hand_id, seed },
                pending: PendingCommand::StartHand { table_id: cmd.table_id, hand_id },
            },
        )
    }

    /// Apply a player action to the active hand: the stored snapshot is
    /// unwrapped into a live session and handed to the engine together with
    /// the table and the action.  Fails with `NoActiveHand` when no snapshot
    /// is stored; the stored state is then untouched.
    pub fn handle_player_action(&self, state: &mut PokerState, cmd: PlayerActionCommand) -> (r:
        OnchainResult<CommandStep>)
        requires
            old(state).wf(),
        ensures
            final(state).wf(),
            match r {
                Ok(step) => {
                    &&& old(state).tables.contains_key(cmd.table_id)
                    &&& crate::view::spec_active_of(*old(state), cmd.table_id) is Some
                    &&& step matches CommandStep::NeedsEngine { request, pending }
                    &&& {
                        let request = step->NeedsEngine_request;
                        let snapshot = crate::view::spec_active_of(*old(state), cmd.table_id)->0;
                        &&& request matches EngineRequest::ApplyAction { table, engine, action }
                        &&& request->ApplyAction_table == old(state).tables.spec_get(cmd.table_id)
                        &&& request->ApplyAction_action == cmd.action
                        &&& {
                            let e = request->ApplyAction_engine;
                            &&& e.table_id == snapshot.table_id
                            &&& e.hand_id == snapshot.hand_id
                            &&& e.deck == snapshot.deck
                            &&& e.betting == snapshot.betting
                            &&& e.pot == snapshot.pot
                            &&& e.side_pots == snapshot.side_pots
                            &&& e.contributions == snapshot.contributions
                            &&& e.current_actor == snapshot.current_actor
                            &&& e.history == snapshot.history
                        }
                        &&& step->NeedsEngine_pending == (PendingCommand::PlayerAction {
                            table_id: cmd.table_id,
                        })
                    }
                    &&& !final(state).tables.contains_key(cmd.table_id)
                    &&& !final(state).active_hands.contains_key(cmd.table_id)
                    &&& forall|t2: TableId|
                        t2 != cmd.table_id ==> final(state).tables.contains_key(t2) == old(state).tables.contains_key(t2) && final(state).active_hands.contains_key(t2)
                            == old(state).active_hands.contains_key(t2)
                    &&& forall|t2: TableId|
                        t2 != cmd.table_id && old(state).tables.contains_key(t2) ==> final(state).tables.spec_get(t2) == old(state).tables.spec_get(t2)
                    &&& forall|t2: TableId|
                        t2 != cmd.table_id && old(state).active_hands.contains_key(t2) ==> final(state).active_hands.spec_get(t2) == old(state).active_hands.spec_get(t2)
                    &&& final(state).tournaments == old(state).tournaments
                    &&& final(state).time_controllers == old(state).time_controllers
                    &&& final(state).next_hand_id == old(state).next_hand_id
                    &&& final(state).total_hands_played == old(state).total_hands_played
                    &&& final(state).base_seed == old(state).base_seed
                    &&& final(state).table_tournament == old(state).table_tournament
                    &&& final(state).tournament_tables == old(state).tournament_tables
                    &&& final(state).player_names == old(state).player_names
                    &&& final(state).player_accounts == old(state).player_accounts
                    &&& final(state).account_players == old(state).account_players
                    &&& final(state).owner == old(state).owner
                },
                Err(e) => *final(state) == *old(state) && match e {
                    OnchainError::TableNotFound(t) => t == cmd.table_id && !old(state).tables.contains_key(cmd.table_id),
                    OnchainError::NoActiveHand(t) => t == cmd.table_id && old(state).tables.contains_key(cmd.table_id) && crate::view::spec_active_of(
                        *old(state),
                        cmd.table_id,
                    ) is None,
                    _ => false,
                },
            },
    {
        if !state.tables.contains(cmd.table_id) {
            return Err(OnchainError::TableNotFound(cmd.table_id));
        }
        {
            let has_active = match state.active_hands.get(cmd.table_id) {
                Some(slot) => slot.is_some(),
                None => false,
            };
            if !has_active {
                return Err(OnchainError::NoActiveHand(cmd.table_id));
            }
        }
        let table = state.tables.take(cmd.table_id).unwrap();
        let snapshot = state.active_hands.take(cmd.table_id).unwrap().unwrap();
        let engine = snapshot.into_engine();
        Ok(
            CommandStep::NeedsEngine {
                request: EngineRequest::ApplyAction { table, engine, action: cmd.action },
                pending: PendingCommand::PlayerAction { table_id: cmd.table_id },
            },
        )
    }
}

impl PokerOrchestrator {
    /// The hook run after every finished hand on a tournament table.
    ///
    /// While the tournament is running: synchronize each surviving
    /// registration with the live seats (chips, table, seat), mark players
    /// with no chips left as busted (the last survivor can never be busted;
    /// that call is absorbed), compute and execute the rebalancing plan,
    /// record the seats actually used, remove tables left empty (table,
    /// session slot, tournament binding and time controller alike), and
    /// persist the updated table list and tournament record.  In any other
    /// status the hook is an idempotent no-op.
    pub fn handle_tournament_after_hand(&self, state: &mut PokerState, tournament_id: TournamentId)
        -> (r: OnchainResult<()>)
        requires
            old(state).wf(),
        ensures
            final(state).wf(),
            r is Ok <==> old(state).tournaments.contains_key(tournament_id),
            r is Err ==> *final(state) == *old(state) && (r matches Err(e) && e
                == OnchainError::TournamentNotFound(tournament_id)),
            old(state).tournaments.contains_key(tournament_id) && old(state).tournaments.spec_get(
                tournament_id,
            ).status != TournamentStatus::Running ==> *final(state) == *old(state),
            old(state).tournaments.contains_key(tournament_id) && crate::view::spec_listed_tables(
                *old(state),
                tournament_id,
            ).len() == 0 ==> *final(state) == *old(state),
            old(state).tournaments.contains_key(tournament_id) && (forall|i: int|
                0 <= i < crate::view::spec_listed_tables(*old(state), tournament_id).len()
                    ==> !old(state).tables.contains_key(
                    #[trigger] crate::view::spec_listed_tables(*old(state), tournament_id)[i],
                )) ==> *final(state) == *old(state),
            old(state).tournaments.contains_key(tournament_id) ==> {
                let t0 = old(state).tournaments.spec_get(tournament_id);
                let t1 = final(state).tournaments.spec_get(tournament_id);
                &&& final(state).tournaments.contains_key(tournament_id)
                &&& t1.id == t0.id
                &&& t1.owner == t0.owner
                &&& t1.config == t0.config
                &&& (t1.status == t0.status || t1.status == TournamentStatus::Finished)
                &&& forall|q: PlayerId|
                    t1.registrations.contains_key(q) == t0.registrations.contains_key(q)
                &&& forall|q: PlayerId|
                    t0.registrations.contains_key(q) && (#[trigger] t0.registrations.spec_get(
                        q,
                    )).is_busted ==> t1.registrations.spec_get(q) == t0.registrations.spec_get(q)
                &&& forall|q: PlayerId|
                    t0.registrations.contains_key(q) && !t0.registrations.spec_get(q).is_busted
                        && (#[trigger] t1.registrations.spec_get(q)).is_busted
                        ==> t1.registrations.spec_get(q).finish_rank is Some
                &&& ((t0.status == TournamentStatus::Running && (exists|i: int|
                    0 <= i < crate::view::spec_listed_tables(*old(state), tournament_id).len()
                        && old(state).tables.contains_key(
                        #[trigger] crate::view::spec_listed_tables(*old(state), tournament_id)[i],
                    ))) ==> forall|q: PlayerId|
                    (t0.registrations.contains_key(q) && !(#[trigger] t0.registrations.spec_get(
                        q,
                    )).is_busted && spec_out_of_chips(
                        *old(state),
                        crate::view::spec_listed_tables(*old(state), tournament_id),
                        t0.registrations.spec_get(q).total_chips,
                        q,
                    )) ==> (t1.registrations.spec_get(q).is_busted || t1.spec_non_busted() == 1))
                &&& (t0.status == TournamentStatus::Running ==> forall|q: PlayerId|
                    (t0.registrations.contains_key(q) && !(#[trigger] t1.registrations.spec_get(
                        q,
                    )).is_busted && t1.registrations.spec_get(q).total_chips > 0 && (exists|
                        t: TableId,
                        s2: int,
                    |
                        #[trigger] spec_seat_occurrence(
                            *old(state),
                            crate::view::spec_listed_tables(*old(state), tournament_id),
                            t,
                            s2,
                            q,
                        )) && t1.registrations.spec_get(q).seat_index is Some)
                        ==> spec_reg_mirrors_tables(
                        final(state).tables,
                        t1.registrations.spec_get(q),
                        q,
                    ))
                &&& (t0.status == TournamentStatus::Running ==> forall|q: PlayerId|
                    (t0.registrations.contains_key(q) && !t0.registrations.spec_get(q).is_busted
                        && !(#[trigger] t1.registrations.spec_get(q)).is_busted && (exists|
                        t: TableId,
                        s2: int,
                    |
                        #[trigger] spec_seat_occurrence(
                            *old(state),
                            crate::view::spec_listed_tables(*old(state), tournament_id),
                            t,
                            s2,
                            q,
                        ))) ==> (exists|t: TableId, s2: int|
                        #[trigger] spec_seat_occurrence(
                            *old(state),
                            crate::view::spec_listed_tables(*old(state), tournament_id),
                            t,
                            s2,
                            q,
                        ) && t1.registrations.spec_get(q).total_chips == old(state).tables.spec_get(t).seats@[s2]->0.stack))
                &&& ((t0.status == TournamentStatus::Running && (exists|i: int|
                    0 <= i < crate::view::spec_listed_tables(*old(state), tournament_id).len()
                        && old(state).tables.contains_key(
                        #[trigger] crate::view::spec_listed_tables(*old(state), tournament_id)[i],
                    ))) ==> {
                    let listed = crate::view::spec_listed_tables(*old(state), tournament_id);
                    let ids1 = crate::view::spec_listed_tables(*final(state), tournament_id);
                    &&& final(state).tournament_tables.contains_key(tournament_id)
                    &&& forall|i: int|
                        0 <= i < ids1.len() ==> final(state).tables.contains_key(#[trigger] ids1[i])
                            && final(state).tables.spec_get(ids1[i]).spec_seated_count() > 0
                            && listed.contains(ids1[i])
                    &&& forall|k: TableId|
                        #[trigger] listed.contains(k) && old(state).tables.contains_key(k)
                            && final(state).tables.contains_key(k) ==> ids1.contains(k)
                    &&& forall|k: TableId|
                        #[trigger] listed.contains(k) && old(state).tables.contains_key(k)
                            && !final(state).tables.contains_key(k) ==> !final(state).active_hands.contains_key(k) && !final(state).table_tournament.contains_key(
                            k,
                        ) && !final(state).time_controllers.contains_key(k)
                })
            },
            forall|t2: TournamentId|
                t2 != tournament_id ==> final(state).tournaments.contains_key(t2) == old(state).tournaments.contains_key(t2),
            forall|t2: TournamentId|
                t2 != tournament_id && old(state).tournaments.contains_key(t2) ==> final(state).tournaments.spec_get(t2) == old(state).tournaments.spec_get(t2),
            forall|t2: TableId|
                #[trigger] final(state).active_hands.contains_key(t2) ==> old(state).active_hands.contains_key(t2) && final(state).active_hands.spec_get(t2) == old(state).active_hands.spec_get(t2),
            final(state).player_names == old(state).player_names,
            final(state).player_accounts == old(state).player_accounts,
            final(state).account_players == old(state).account_players,
            final(state).total_hands_played == old(state).total_hands_played,
            final(state).next_hand_id == old(state).next_hand_id,
            final(state).base_seed == old(state).base_seed,
            final(state).owner == old(state).owner,
    {
        {
            let t_ref = match state.tournaments.get(tournament_id) {
                Some(t) => t,
                None => {
                    return Err(OnchainError::TournamentNotFound(tournament_id));
                },
            };
            if !matches!(t_ref.status, TournamentStatus::Running) {
                // Registering, paused or finished: nothing to do.
                return Ok(());
            }
        }
        // The tournament's current table list, copied out.
        let mut table_ids: Vec<TableId> = Vec::new();
        match state.tournament_tables.get(tournament_id) {
            Some(ids) => {
                let n = ids.len();
                let mut i: usize = 0;
                while i < n
                    invariant
                        n == ids@.len(),
                        0 <= i <= n,
                        table_ids@ == ids@.subrange(0, i as int),
                    decreases n - i,
                {
                    table_ids.push(ids[i]);
                    proof {
                        assert(table_ids@ =~= ids@.subrange(0, i + 1int));
                    }
                    i += 1;
                }
            },
            None => {},
        }
        proof {
            assert(table_ids@ == crate::view::spec_listed_tables(*state, tournament_id));
        }
        if table_ids.len() == 0 {
            return Ok(());
        }
        // Check the tournament's tables out of the store.
        let ghost pre = *state;
        let mut tables: IdMap<Table> = IdMap::new();
        let ntab = table_ids.len();
        let mut i: usize = 0;
        while i < ntab
            invariant
                ntab == table_ids@.len(),
                0 <= i <= ntab,
                state.wf(),
                tables.wf(),
                forall|k: TableId|
                    #[trigger] tables.contains_key(k) ==> tables.spec_get(k).id == k
                        && tables.spec_get(k).wf(),
                forall|k: TableId|
                    #[trigger] tables.contains_key(k) ==> state.active_hands.contains_key(k) && (
                    tables.spec_get(k).hand_in_progress <==> state.active_hands.spec_get(k)
                        is Some) && !state.tables.contains_key(k),
                forall|k: TableId|
                    #[trigger] tables.contains_key(k) ==> pre.tables.contains_key(k)
                        && tables.spec_get(k) == pre.tables.spec_get(k),
                forall|k: TableId|
                    !tables.contains_key(k) ==> state.tables.contains_key(k)
                        == pre.tables.contains_key(k),
                forall|k: TableId|
                    !tables.contains_key(k) && pre.tables.contains_key(k)
                        ==> state.tables.spec_get(k) == pre.tables.spec_get(k),
                tables.spec_len() == 0 ==> *state == pre,
                forall|k: TableId| #[trigger] tables.contains_key(k) ==> table_ids@.contains(k),
                forall|j: int|
                    0 <= j < i && pre.tables.contains_key(#[trigger] table_ids@[j])
                        ==> tables.contains_key(table_ids@[j]),
                state.active_hands == pre.active_hands,
                state.tournaments == pre.tournaments,
                state.tournament_tables == pre.tournament_tables,
                state.table_tournament == pre.table_tournament,
                state.time_controllers == pre.time_controllers,
                state.player_names == pre.player_names,
                state.player_accounts == pre.player_accounts,
                state.account_players == pre.account_players,
                state.total_hands_played == pre.total_hands_played,
                state.next_hand_id == pre.next_hand_id,
                state.base_seed == pre.base_seed,
                state.owner == pre.owner,
            decreases ntab - i,
        {
            let tid = table_ids[i];
            if !tables.contains(tid) {
                match state.tables.take(tid) {
                    Some(t) => {
                        tables.insert(tid, t);
                    },
                    None => {},
                }
            }
            proof {
                assert forall|k: TableId| #[trigger] tables.contains_key(k) implies
                    table_ids@.contains(k) by {
                    if k == tid {
                        assert(table_ids@[i as int] == tid);
                    }
                }
            }
            i += 1;
        }
        if tables.len() == 0 {
            // None of the listed tables is stored; nothing was checked out.
            return Ok(());
        }
        proof {
            // At least one listed table is stored: the benign no-op cases are
            // behind us.
            assert(pre == *old(state));
            let k0 = tables.entry_seq()[0].0;
            tables.lemma_entry_is_get(0);
            assert(tables.contains_key(k0));
            let j0 = choose|j: int| 0 <= j < table_ids@.len() && table_ids@[j] == k0;
            assert(old(state).tables.contains_key(
                crate::view::spec_listed_tables(*old(state), tournament_id)[j0],
            ));
        }
        // Where each seated player sits right now: table, seat, live stack.
        let ghost listed = table_ids@;
        let mut locations: IdMap<(TableId, SeatIndex, Chips)> = IdMap::new();
        let ntables = tables.len();
        let mut ti: usize = 0;
        while ti < ntables
            invariant
                ntables == tables.spec_len(),
                0 <= ti <= ntables,
                tables.wf(),
                locations.wf(),
                pre == *old(state),
                listed == table_ids@,
                forall|k: TableId|
                    #[trigger] tables.contains_key(k) ==> tables.spec_get(k).id == k
                        && tables.spec_get(k).wf(),
                forall|k: TableId|
                    #[trigger] tables.contains_key(k) ==> pre.tables.contains_key(k)
                        && tables.spec_get(k) == pre.tables.spec_get(k) && table_ids@.contains(k),
                forall|p: PlayerId|
                    #[trigger] locations.contains_key(p) ==> tables.contains_key(
                        locations.spec_get(p).0,
                    ),
                forall|p: PlayerId|
                    #[trigger] locations.contains_key(p) ==> spec_seat_occurrence(
                        *old(state),
                        listed,
                        locations.spec_get(p).0,
                        locations.spec_get(p).1 as int,
                        p,
                    ) && old(state).tables.spec_get(locations.spec_get(p).0).seats@[locations.spec_get(
                        p,
                    ).1 as int]->0.stack == locations.spec_get(p).2,
                forall|x: int, s2: int|
                    0 <= x < ti && 0 <= s2 < tables.entry_seq()[x].1.seats@.len() && (
                    #[trigger] tables.entry_seq()[x].1.seats@[s2]) is Some
                        ==> locations.contains_key(
                        tables.entry_seq()[x].1.seats@[s2]->0.player_id,
                    ),
                forall|k: TableId|
                    #[trigger] tables.contains_key(k) ==> state.active_hands.contains_key(k) && (
                    tables.spec_get(k).hand_in_progress <==> state.active_hands.spec_get(k)
                        is Some) && !state.tables.contains_key(k),
            decreases ntables - ti,
        {
            let tid = tables.key_at(ti);
            let nseats = tables.val_at(ti).seats.len();
            let mut si: usize = 0;
            while si < nseats
                invariant
                    ntables == tables.spec_len(),
                    0 <= ti < ntables,
                    nseats == tables.entry_seq()[ti as int].1.seats@.len(),
                    nseats <= 255,
                    tid == tables.entry_seq()[ti as int].0,
                    0 <= si <= nseats,
                    tables.wf(),
                    locations.wf(),
                    pre == *old(state),
                    listed == table_ids@,
                    tables.contains_key(tid),
                    forall|k: TableId|
                        #[trigger] tables.contains_key(k) ==> tables.spec_get(k).id == k
                            && tables.spec_get(k).wf(),
                    forall|k: TableId|
                        #[trigger] tables.contains_key(k) ==> pre.tables.contains_key(k)
                            && tables.spec_get(k) == pre.tables.spec_get(k)
                            && table_ids@.contains(k),
                    forall|p: PlayerId|
                        #[trigger] locations.contains_key(p) ==> tables.contains_key(
                            locations.spec_get(p).0,
                        ),
                    forall|p: PlayerId|
                        #[trigger] locations.contains_key(p) ==> spec_seat_occurrence(
                            *old(state),
                            listed,
                            locations.spec_get(p).0,
                            locations.spec_get(p).1 as int,
                            p,
                        ) && old(state).tables.spec_get(locations.spec_get(p).0).seats@[locations.spec_get(
                            p,
                        ).1 as int]->0.stack == locations.spec_get(p).2,
                    forall|x: int, s2: int|
                        0 <= x < ti && 0 <= s2 < tables.entry_seq()[x].1.seats@.len() && (
                        #[trigger] tables.entry_seq()[x].1.seats@[s2]) is Some
                            ==> locations.contains_key(
                            tables.entry_seq()[x].1.seats@[s2]->0.player_id,
                        ),
                    forall|s2: int|
                        0 <= s2 < si && (#[trigger] tables.entry_seq()[ti as int].1.seats@[s2])
                            is Some ==> locations.contains_key(
                            tables.entry_seq()[ti as int].1.seats@[s2]->0.player_id,
                        ),
                decreases nseats - si,
            {
                match &tables.val_at(ti).seats[si] {
                    Some(p) => {
                        locations.insert(p.player_id, (tid, si as u8, p.stack));
                        proof {
                            tables.lemma_entry_is_get(ti as int);
                            assert(spec_seat_occurrence(
                                *old(state),
                                listed,
                                tid,
                                si as int,
                                p.player_id,
                            ));
                        }
                    },
                    None => {},
                }
                si += 1;
            }
            proof {
                assert forall|x: int, s2: int|
                    0 <= x < ti + 1 && 0 <= s2 < tables.entry_seq()[x].1.seats@.len() && (
                #[trigger] tables.entry_seq()[x].1.seats@[s2]) is Some implies
                    locations.contains_key(tables.entry_seq()[x].1.seats@[s2]->0.player_id) by {}
            }
            ti += 1;
        }
        proof {
            // Every seat occurrence among the checked-out tables was indexed.
            assert forall|q: PlayerId|
                (exists|t: TableId, s2: int|
                    #[trigger] spec_seat_occurrence(*old(state), listed, t, s2, q)) implies
                locations.contains_key(q) by {
                let (t, s2) = choose|t: TableId, s2: int|
                    #[trigger] spec_seat_occurrence(*old(state), listed, t, s2, q);
                let x = choose|x: int|
                    0 <= x < table_ids@.len() && table_ids@[x] == t;
                assert(pre.tables.contains_key(t));
                assert(tables.contains_key(t));
                let xi = choose|xi: int|
                    0 <= xi < tables.entry_seq().len() && (#[trigger] tables.entry_seq()[xi]).0
                        == t;
                tables.lemma_entry_is_get(xi);
                assert(tables.entry_seq()[xi].1 == pre.tables.spec_get(t));
                assert((tables.entry_seq()[xi].1.seats@[s2]) is Some);
            }
        }
        // Check the tournament out and synchronize survivors with the live
        // seats, collecting the players who are out of chips.
        let mut tournament = state.tournaments.take(tournament_id).unwrap();
        let ghost t0 = pre.tournaments.spec_get(tournament_id);
        let mut candidates: Vec<PlayerId> = Vec::new();
        let nregs = tournament.registrations.len();
        let mut ri: usize = 0;
        while ri < nregs
            invariant
                nregs == tournament.registrations.spec_len(),
                0 <= ri <= nregs,
                tournament.wf(),
                tournament.id == t0.id,
                tournament.owner == t0.owner,
                tournament.config == t0.config,
                tournament.status == t0.status,
                forall|q: PlayerId|
                    tournament.registrations.contains_key(q) == t0.registrations.contains_key(q),
                forall|j: int|
                    0 <= j < tournament.registrations.entry_seq().len()
                        ==> (#[trigger] tournament.registrations.entry_seq()[j]).0
                        == t0.registrations.entry_seq()[j].0,
                forall|q: PlayerId|
                    t0.registrations.contains_key(q) && (#[trigger] t0.registrations.spec_get(
                        q,
                    )).is_busted ==> tournament.registrations.spec_get(q)
                        == t0.registrations.spec_get(q),
                forall|q: PlayerId|
                    tournament.registrations.contains_key(q) && !t0.registrations.spec_get(
                        q,
                    ).is_busted && (#[trigger] tournament.registrations.spec_get(q)).is_busted
                        ==> tournament.registrations.spec_get(q).finish_rank is Some,
                forall|q: PlayerId|
                    tournament.registrations.contains_key(q) && (
                    #[trigger] tournament.registrations.spec_get(q)).is_busted
                        ==> t0.registrations.spec_get(q).is_busted,
                forall|j: int|
                    0 <= j < ri ==> {
                        let e = #[trigger] tournament.registrations.entry_seq()[j];
                        (!e.1.is_busted && locations.contains_key(e.0)) ==> e.1.total_chips
                            == locations.spec_get(e.0).2 && e.1.table_id == Some(
                            locations.spec_get(e.0).0,
                        ) && e.1.seat_index == Some(locations.spec_get(e.0).1)
                    },
                t0.registrations.wf(),
                nregs == t0.registrations.spec_len(),
                forall|j: int|
                    ri <= j < nregs ==> (#[trigger] tournament.registrations.entry_seq()[j]).1
                        == t0.registrations.entry_seq()[j].1,
                forall|j: int|
                    0 <= j < ri ==> {
                        let e = #[trigger] tournament.registrations.entry_seq()[j];
                        (!t0.registrations.spec_get(e.0).is_busted && ((locations.contains_key(e.0)
                            && locations.spec_get(e.0).2 == 0) || (!locations.contains_key(e.0)
                            && t0.registrations.spec_get(e.0).total_chips == 0)))
                            ==> candidates@.contains(e.0)
                    },
                forall|c: int|
                    0 <= c < candidates@.len() ==> tournament.registrations.contains_key(
                        #[trigger] candidates@[c],
                    ),
                forall|c: int|
                    0 <= c < candidates@.len() ==> exists|e: int|
                        0 <= e < ri && (#[trigger] candidates@[c])
                            == tournament.registrations.entry_seq()[e].0,
                forall|c: int|
                    0 <= c < candidates@.len() ==> tournament.registrations.spec_get(
                        #[trigger] candidates@[c],
                    ).total_chips == 0,
                locations.wf(),
                forall|p: PlayerId|
                    #[trigger] locations.contains_key(p) ==> tables.contains_key(
                        locations.spec_get(p).0,
                    ),
            decreases nregs - ri,
        {
            let pid = tournament.registrations.key_at(ri);
            let reg = *tournament.registrations.val_at(ri);
            let ghost cands_pre = candidates@;
            proof {
                t0.registrations.lemma_entry_is_get(ri as int);
            }
            if !reg.is_busted {
                proof {
                    // A registration busted before this hand is never touched.
                    if t0.registrations.contains_key(pid) && t0.registrations.spec_get(
                        pid,
                    ).is_busted {
                        assert(tournament.registrations.spec_get(pid) == t0.registrations.spec_get(
                            pid,
                        ));
                        assert(false);
                    }
                }
                match locations.get(pid) {
                    Some(loc) => {
                        let (ltid, lseat, lstack) = *loc;
                        tournament.registrations.set_val_at(
                            ri,
                            crate::tournament::Registration {
                                total_chips: lstack,
                                table_id: Some(ltid),
                                seat_index: Some(lseat),
                                is_busted: false,
                                finish_rank: reg.finish_rank,
                            },
                        );
                        if lstack == 0 {
                            candidates.push(pid);
                            proof {
                                assert(candidates@[candidates@.len() - 1] == pid);
                            }
                        }
                    },
                    None => {
                        if reg.total_chips == 0 {
                            candidates.push(pid);
                            proof {
                                assert(candidates@[candidates@.len() - 1] == pid);
                            }
                        }
                    },
                }
            }
            proof {
                assert forall|j: int|
                    0 <= j < ri + 1 implies {
                    let e = #[trigger] tournament.registrations.entry_seq()[j];
                    (!t0.registrations.spec_get(e.0).is_busted && ((locations.contains_key(e.0)
                        && locations.spec_get(e.0).2 == 0) || (!locations.contains_key(e.0)
                        && t0.registrations.spec_get(e.0).total_chips == 0)))
                        ==> candidates@.contains(e.0)
                } by {
                    if j < ri as int {
                        let e = tournament.registrations.entry_seq()[j];
                        if cands_pre.contains(e.0) {
                            let c = choose|c: int| 0 <= c < cands_pre.len() && cands_pre[c] == e.0;
                            assert(candidates@[c] == e.0);
                        }
                    }
                }
            }
            ri += 1;
        }
        let ghost t_synced = tournament;
        proof {
            // After synchronization, every chip-holding located survivor's
            // record points at the seat it was read from.
            assert forall|q: PlayerId|
                (tournament.registrations.contains_key(q) && !(
                #[trigger] tournament.registrations.spec_get(q)).is_busted
                    && tournament.registrations.spec_get(q).total_chips > 0
                    && locations.contains_key(q)) implies spec_reg_mirrors_tables(
                tables,
                tournament.registrations.spec_get(q),
                q,
            ) by {
                let j = choose|j: int|
                    0 <= j < tournament.registrations.entry_seq().len() && (
                    #[trigger] tournament.registrations.entry_seq()[j]).0 == q;
                tournament.registrations.lemma_entry_is_get(j);
                assert(tables.contains_key(locations.spec_get(q).0));
                assert(tables.spec_get(locations.spec_get(q).0) == pre.tables.spec_get(
                    locations.spec_get(q).0,
                ));
            }
        }
        // Unseat each bust candidate and mark the bust; busting the last
        // survivor is refused by the tournament itself and absorbed here.
        let ncand = candidates.len();
        let mut ci: usize = 0;
        while ci < ncand
            invariant
                ncand == candidates@.len(),
                0 <= ci <= ncand,
                tournament.wf(),
                tournament.id == t0.id,
                tournament.owner == t0.owner,
                tournament.config == t0.config,
                tournament.status == t0.status || tournament.status == TournamentStatus::Finished,
                forall|q: PlayerId|
                    tournament.registrations.contains_key(q) == t0.registrations.contains_key(q),
                forall|q: PlayerId|
                    t0.registrations.contains_key(q) && (#[trigger] t0.registrations.spec_get(
                        q,
                    )).is_busted ==> tournament.registrations.spec_get(q)
                        == t0.registrations.spec_get(q),
                forall|q: PlayerId|
                    tournament.registrations.contains_key(q) && !t0.registrations.spec_get(
                        q,
                    ).is_busted && (#[trigger] tournament.registrations.spec_get(q)).is_busted
                        ==> tournament.registrations.spec_get(q).finish_rank is Some,
                forall|q: PlayerId|
                    tournament.registrations.contains_key(q) ==> (
                    #[trigger] tournament.registrations.spec_get(q)).total_chips
                        == t_synced.registrations.spec_get(q).total_chips,
                forall|q: PlayerId|
                    tournament.registrations.contains_key(q) && !(
                    #[trigger] tournament.registrations.spec_get(q)).is_busted
                        ==> !t_synced.registrations.spec_get(q).is_busted,
                forall|c: int|
                    0 <= c < candidates@.len() ==> tournament.registrations.contains_key(
                        #[trigger] candidates@[c],
                    ),
                forall|c: int|
                    0 <= c < ci ==> tournament.registrations.spec_get(
                        #[trigger] candidates@[c],
                    ).is_busted || tournament.spec_non_busted() == 1,
                forall|c: int|
                    0 <= c < candidates@.len() ==> t_synced.registrations.spec_get(
                        #[trigger] candidates@[c],
                    ).total_chips == 0,
                forall|q: PlayerId|
                    (tournament.registrations.contains_key(q) && !(
                    #[trigger] tournament.registrations.spec_get(q)).is_busted
                        && tournament.registrations.spec_get(q).total_chips > 0
                        && locations.contains_key(q)) ==> spec_reg_mirrors_tables(
                        tables,
                        tournament.registrations.spec_get(q),
                        q,
                    ),
                tables.wf(),
                locations.wf(),
                forall|j: int|
                    0 <= j < table_ids@.len() && pre.tables.contains_key(#[trigger] table_ids@[j])
                        ==> tables.contains_key(table_ids@[j]),
                forall|k: TableId| #[trigger] tables.contains_key(k) ==> table_ids@.contains(k),
                forall|k: TableId|
                    #[trigger] tables.contains_key(k) ==> tables.spec_get(k).id == k
                        && tables.spec_get(k).wf(),
                forall|k: TableId|
                    #[trigger] tables.contains_key(k) ==> state.active_hands.contains_key(k) && (
                    tables.spec_get(k).hand_in_progress <==> state.active_hands.spec_get(k)
                        is Some) && !state.tables.contains_key(k),
            decreases ncand - ci,
        {
            let pid = candidates[ci];
            let loc_opt: Option<(TableId, SeatIndex, Chips)> = match locations.get(pid) {
                Some(l) => Some(*l),
                None => None,
            };
            match loc_opt {
                Some(loc) => {
                    match tables.take(loc.0) {
                        Some(mut tab) => {
                            let _removed = tab.remove_player(pid);
                            tables.insert(loc.0, tab);
                        },
                        None => {},
                    }
                },
                None => {},
            }
            match tournament.mark_player_busted(pid) {
                Ok(()) => {},
                Err(TournamentError::CannotBustLastPlayer { .. }) => {
                    // A tournament cannot have zero survivors; ignore.
                },
                Err(_) => {
                    // The candidate is a registration, so no other error can
                    // come back.
                    proof {
                        assert(false);
                    }
                },
            }
            ci += 1;
        }
        let ghost t_busted = tournament;
        // Plan the reseating and execute it against the live tables,
        // recording the seats actually used.
        let ghost t_planned = tournament;
        let moves = tournament.compute_rebalance_moves();
        let mut new_seats: IdMap<u64> = IdMap::new();
        let nmoves = moves.len();
        let mut mi: usize = 0;
        while mi < nmoves
            invariant
                nmoves == moves@.len(),
                0 <= mi <= nmoves,
                tables.wf(),
                new_seats.wf(),
                forall|j: int|
                    0 <= j < table_ids@.len() && pre.tables.contains_key(#[trigger] table_ids@[j])
                        ==> tables.contains_key(table_ids@[j]),
                forall|k: TableId| #[trigger] tables.contains_key(k) ==> table_ids@.contains(k),
                forall|k: TableId|
                    #[trigger] tables.contains_key(k) ==> tables.spec_get(k).id == k
                        && tables.spec_get(k).wf(),
                forall|k: TableId|
                    #[trigger] tables.contains_key(k) ==> state.active_hands.contains_key(k) && (
                    tables.spec_get(k).hand_in_progress <==> state.active_hands.spec_get(k)
                        is Some) && !state.tables.contains_key(k),
                forall|p: PlayerId|
                    #[trigger] new_seats.contains_key(p) ==> new_seats.spec_get(p) < 256
                        && crate::tournament::spec_moved(moves@, p),
                forall|q: PlayerId|
                    (tournament.registrations.contains_key(q) && !(
                    #[trigger] tournament.registrations.spec_get(q)).is_busted
                        && tournament.registrations.spec_get(q).total_chips > 0
                        && locations.contains_key(q)) ==> (spec_reg_mirrors_tables(
                        tables,
                        tournament.registrations.spec_get(q),
                        q,
                    ) || crate::tournament::spec_moved(moves@, q)),
                forall|p2: PlayerId|
                    #[trigger] new_seats.contains_key(p2) ==> exists|jm: int|
                        0 <= jm < moves@.len() && (#[trigger] moves@[jm]).player_id == p2
                            && tables.contains_key(moves@[jm].to_table) && 0 <= (new_seats.spec_get(
                            p2,
                        ) as int) < tables.spec_get(moves@[jm].to_table).seats@.len() && (
                        tables.spec_get(moves@[jm].to_table).seats@[new_seats.spec_get(
                            p2,
                        ) as int] matches Some(pp) && pp.player_id == p2),
                forall|x: int, y: int|
                    0 <= x < y < moves@.len() ==> moves@[x].player_id < moves@[y].player_id,
            decreases nmoves - mi,
        {
            let m = moves[mi];
            match tables.take(m.from_table) {
                Some(mut ft) => {
                    let moved = ft.remove_player(m.player_id);
                    tables.insert(m.from_table, ft);
                    match moved {
                        Some(p) => {
                            match tables.take(m.to_table) {
                                Some(mut tt) => {
                                    if tt.find_seat_of(p.player_id).is_none() {
                                        match tt.first_free_seat() {
                                            Some(idx) => {
                                                let ghost tt0 = tt;
                                                let slot = &mut tt.seats[idx];
                                                *slot = Some(p);
                                                proof {
                                                    assert(tt.seats@ == tt0.seats@.update(
                                                        idx as int,
                                                        Some(p),
                                                    ));
                                                    assert forall|a: int, b: int|
                                                        0 <= a < b < tt.seats@.len() && (
                                                    #[trigger] tt.seats@[a]) is Some && (
                                                    #[trigger] tt.seats@[b]) is Some implies
                                                        tt.seats@[a]->0.player_id
                                                        != tt.seats@[b]->0.player_id by {
                                                        if a != idx as int {
                                                            assert(tt.seats@[a] == tt0.seats@[a]);
                                                        }
                                                        if b != idx as int {
                                                            assert(tt.seats@[b] == tt0.seats@[b]);
                                                        }
                                                        assert(!tt0.spec_seated(p.player_id));
                                                    }
                                                    assert(tt.wf());
                                                }
                                                new_seats.insert(m.player_id, idx as u64);
                                                proof {
                                                    assert(moves@[mi as int].player_id
                                                        == m.player_id);
                                                }
                                            },
                                            None => {
                                                // No free seat at the chosen
                                                // destination; the player
                                                // stays unseated in the
                                                // registration record.
                                            },
                                        }
                                    }
                                    tables.insert(m.to_table, tt);
                                },
                                None => {},
                            }
                        },
                        None => {},
                    }
                },
                None => {},
            }
            mi += 1;
        }
        // Record the plan in the registrations, then overwrite the seat
        // assignments with the seats actually used.
        tournament.apply_rebalance_moves(&moves);
        proof {
            // Every move names a player who was not busted when the plan was
            // computed, so a registration busted before the hand is moved by
            // no plan entry and stays frozen through the application step.
            assert forall|q: PlayerId|
                t0.registrations.contains_key(q) && (#[trigger] t0.registrations.spec_get(
                    q,
                )).is_busted implies tournament.registrations.spec_get(q)
                == t0.registrations.spec_get(q) by {
                assert(t_planned.registrations.spec_get(q) == t0.registrations.spec_get(q));
                assert(!crate::tournament::spec_moved(moves@, q)) by {
                    if crate::tournament::spec_moved(moves@, q) {
                        let j = choose|j: int|
                            0 <= j < moves@.len() && (#[trigger] moves@[j]).player_id == q;
                        assert(!t_planned.registrations.spec_get(q).is_busted);
                    }
                }
            }
        }
        let ghost t_applied = tournament;
        proof {
            // After the plan is recorded, every chip-holding survivor whose
            // record still names a seat sits exactly there: moved players
            // carry no seat yet, and unmoved players kept their synchronized
            // one.
            assert forall|q: PlayerId|
                (tournament.registrations.contains_key(q) && !(
                #[trigger] tournament.registrations.spec_get(q)).is_busted
                    && tournament.registrations.spec_get(q).total_chips > 0
                    && locations.contains_key(q) && tournament.registrations.spec_get(
                    q,
                ).seat_index is Some) implies spec_reg_mirrors_tables(
                tables,
                tournament.registrations.spec_get(q),
                q,
            ) by {
                if crate::tournament::spec_moved(moves@, q) {
                    let jm = choose|jm: int|
                        0 <= jm < moves@.len() && (#[trigger] moves@[jm]).player_id == q;
                    assert(forall|k2: int|
                        jm < k2 < moves@.len() ==> moves@[k2].player_id != moves@[jm].player_id);
                    assert(tournament.registrations.spec_get(q).seat_index is None);
                }
            }
        }
        let nnew = new_seats.len();
        let mut wi: usize = 0;
        while wi < nnew
            invariant
                nnew == new_seats.spec_len(),
                tournament.spec_non_busted() == t_applied.spec_non_busted(),
                locations.wf(),
                tables.wf(),
                forall|x: int, y: int|
                    0 <= x < y < moves@.len() ==> moves@[x].player_id < moves@[y].player_id,
                forall|q: PlayerId|
                    (tournament.registrations.contains_key(q) && !(
                    #[trigger] tournament.registrations.spec_get(q)).is_busted
                        && tournament.registrations.spec_get(q).total_chips > 0
                        && locations.contains_key(q) && tournament.registrations.spec_get(
                        q,
                    ).seat_index is Some) ==> spec_reg_mirrors_tables(
                        tables,
                        tournament.registrations.spec_get(q),
                        q,
                    ),
                forall|p2: PlayerId|
                    #[trigger] new_seats.contains_key(p2) ==> exists|jm: int|
                        0 <= jm < moves@.len() && (#[trigger] moves@[jm]).player_id == p2
                            && tables.contains_key(moves@[jm].to_table) && 0 <= (new_seats.spec_get(
                            p2,
                        ) as int) < tables.spec_get(moves@[jm].to_table).seats@.len() && (
                        tables.spec_get(moves@[jm].to_table).seats@[new_seats.spec_get(
                            p2,
                        ) as int] matches Some(pp) && pp.player_id == p2),
                forall|j2: int|
                    0 <= j2 < moves@.len() && t_applied.registrations.contains_key(
                        (#[trigger] moves@[j2]).player_id,
                    ) && (forall|k2: int| j2 < k2 < moves@.len() ==> moves@[k2].player_id
                        != moves@[j2].player_id) ==> t_applied.registrations.spec_get(
                        moves@[j2].player_id,
                    ).table_id == Some(moves@[j2].to_table),
                forall|q: PlayerId|
                    tournament.registrations.contains_key(q) ==> (
                    #[trigger] tournament.registrations.spec_get(q)).table_id
                        == t_applied.registrations.spec_get(q).table_id,
                forall|q: PlayerId|
                    #[trigger] t_applied.registrations.contains_key(q)
                        == tournament.registrations.contains_key(q),
                forall|q: PlayerId|
                    tournament.registrations.contains_key(q) ==> (
                    #[trigger] tournament.registrations.spec_get(q)).is_busted
                        == t_applied.registrations.spec_get(q).is_busted,
                0 <= wi <= nnew,
                new_seats.wf(),
                tournament.wf(),
                tournament.id == t0.id,
                tournament.owner == t0.owner,
                tournament.config == t0.config,
                tournament.status == t0.status || tournament.status == TournamentStatus::Finished,
                forall|q: PlayerId|
                    tournament.registrations.contains_key(q) == t0.registrations.contains_key(q),
                forall|q: PlayerId|
                    t0.registrations.contains_key(q) && (#[trigger] t0.registrations.spec_get(
                        q,
                    )).is_busted ==> tournament.registrations.spec_get(q)
                        == t0.registrations.spec_get(q),
                forall|q: PlayerId|
                    tournament.registrations.contains_key(q) && !t0.registrations.spec_get(
                        q,
                    ).is_busted && (#[trigger] tournament.registrations.spec_get(q)).is_busted
                        ==> tournament.registrations.spec_get(q).finish_rank is Some,
                forall|q: PlayerId|
                    tournament.registrations.contains_key(q) ==> (
                    #[trigger] tournament.registrations.spec_get(q)).total_chips
                        == t_synced.registrations.spec_get(q).total_chips,
                forall|q: PlayerId|
                    tournament.registrations.contains_key(q) && !(
                    #[trigger] tournament.registrations.spec_get(q)).is_busted
                        ==> !t_synced.registrations.spec_get(q).is_busted,
                forall|p: PlayerId|
                    #[trigger] new_seats.contains_key(p) ==> new_seats.spec_get(p) < 256
                        && crate::tournament::spec_moved(moves@, p)
                        && !(t0.registrations.contains_key(p)
                        && t0.registrations.spec_get(p).is_busted),
            decreases nnew - wi,
        {
            let pid = new_seats.key_at(wi);
            let seat = *new_seats.val_at(wi);
            match tournament.registrations.index_of(pid) {
                Some(j) => {
                    let reg = *tournament.registrations.val_at(j);
                    let ghost regs_pre = tournament.registrations;
                    tournament.registrations.set_val_at(
                        j,
                        crate::tournament::Registration { seat_index: Some(seat as u8), ..reg },
                    );
                    proof {
                        crate::tournament::lemma_non_busted_update(
                            regs_pre.entry_seq(),
                            j as int,
                            (pid, crate::tournament::Registration {
                                seat_index: Some(seat as u8),
                                ..reg
                            }),
                        );
                        // The player was physically seated at exactly this
                        // seat of their move's destination.
                        let jm = choose|jm: int|
                            0 <= jm < moves@.len() && (#[trigger] moves@[jm]).player_id == pid
                                && tables.contains_key(moves@[jm].to_table) && 0 <= (
                            new_seats.spec_get(pid) as int) < tables.spec_get(
                                moves@[jm].to_table,
                            ).seats@.len() && (tables.spec_get(
                                moves@[jm].to_table,
                            ).seats@[new_seats.spec_get(pid) as int] matches Some(pp)
                                && pp.player_id == pid);
                        assert(forall|k2: int|
                            jm < k2 < moves@.len() ==> moves@[k2].player_id
                                != moves@[jm].player_id);
                        assert(t_applied.registrations.spec_get(pid).table_id == Some(
                            moves@[jm].to_table,
                        ));
                        assert(reg.table_id == Some(moves@[jm].to_table));
                        assert(spec_reg_mirrors_tables(
                            tables,
                            tournament.registrations.spec_get(pid),
                            pid,
                        ));
                    }
                },
                None => {},
            }
            wi += 1;
        }
        // Drop tables left empty (with their session slot, tournament
        // binding and clock), persist the others, and store the updated
        // table list and tournament.
        let ghost tabs0 = tables;
        let keys = tables.keys();
        proof {
            assert forall|k: TableId| #[trigger] tabs0.contains_key(k) implies keys@.contains(
                k,
            ) by {
                let j = choose|j: int|
                    0 <= j < tabs0.entry_seq().len() && (#[trigger] tabs0.entry_seq()[j]).0 == k;
                assert(keys@[j] == k);
            }
            assert forall|a: int, b: int| 0 <= a < b < keys@.len() implies keys@[a] < keys@[b] by {
                assert(keys@[a] == tabs0.entry_seq()[a].0);
                assert(keys@[b] == tabs0.entry_seq()[b].0);
            }
        }
        let nkeys = keys.len();
        let mut new_table_ids: Vec<TableId> = Vec::new();
        let mut ki: usize = 0;
        while ki < nkeys
            invariant
                nkeys == keys@.len(),
                0 <= ki <= nkeys,
                state.wf(),
                tables.wf(),
                forall|k: TableId|
                    #[trigger] tables.contains_key(k) ==> tables.spec_get(k).id == k
                        && tables.spec_get(k).wf(),
                forall|k: TableId|
                    #[trigger] tables.contains_key(k) ==> state.active_hands.contains_key(k) && (
                    tables.spec_get(k).hand_in_progress <==> state.active_hands.spec_get(k)
                        is Some) && !state.tables.contains_key(k),
                forall|t2: TableId|
                    #[trigger] state.active_hands.contains_key(t2) ==> pre.active_hands.contains_key(
                        t2,
                    ) && state.active_hands.spec_get(t2) == pre.active_hands.spec_get(t2),
                !state.tournaments.contains_key(tournament_id),
                forall|t2: TournamentId|
                    t2 != tournament_id ==> state.tournaments.contains_key(t2)
                        == pre.tournaments.contains_key(t2),
                forall|t2: TournamentId|
                    t2 != tournament_id && pre.tournaments.contains_key(t2)
                        ==> state.tournaments.spec_get(t2) == pre.tournaments.spec_get(t2),
                state.tournament_tables == pre.tournament_tables,
                state.player_names == pre.player_names,
                state.player_accounts == pre.player_accounts,
                state.account_players == pre.account_players,
                state.total_hands_played == pre.total_hands_played,
                state.next_hand_id == pre.next_hand_id,
                state.base_seed == pre.base_seed,
                state.owner == pre.owner,
                forall|k2: TableId| #[trigger] tabs0.contains_key(k2) ==> table_ids@.contains(k2),
                forall|a: int, b: int| 0 <= a < b < keys@.len() ==> keys@[a] < keys@[b],
                forall|j: int| ki <= j < nkeys ==> tables.contains_key(#[trigger] keys@[j]),
                forall|k2: TableId| #[trigger] tables.contains_key(k2) ==> tabs0.contains_key(k2),
                forall|j: int|
                    0 <= j < new_table_ids@.len() ==> state.tables.contains_key(
                        #[trigger] new_table_ids@[j],
                    ) && state.tables.spec_get(new_table_ids@[j]).spec_seated_count() > 0
                        && table_ids@.contains(new_table_ids@[j]),
                forall|k2: TableId|
                    tabs0.contains_key(k2) && #[trigger] state.tables.contains_key(k2)
                        ==> new_table_ids@.contains(k2),
                forall|j: int|
                    0 <= j < ki && !state.tables.contains_key(#[trigger] keys@[j])
                        ==> !state.active_hands.contains_key(keys@[j])
                        && !state.table_tournament.contains_key(keys@[j])
                        && !state.time_controllers.contains_key(keys@[j]),
                locations.wf(),
                forall|k2: TableId|
                    #[trigger] tables.contains_key(k2) ==> exists|j: int|
                        ki <= j < nkeys && keys@[j] == k2,
                forall|q: PlayerId|
                    (tournament.registrations.contains_key(q) && !(
                    #[trigger] tournament.registrations.spec_get(q)).is_busted
                        && tournament.registrations.spec_get(q).total_chips > 0
                        && locations.contains_key(q) && tournament.registrations.spec_get(
                        q,
                    ).seat_index is Some) ==> (spec_reg_mirrors_tables(
                        tables,
                        tournament.registrations.spec_get(q),
                        q,
                    ) || spec_reg_mirrors_tables(
                        state.tables,
                        tournament.registrations.spec_get(q),
                        q,
                    )),
            decreases nkeys - ki,
        {
            let k = keys[ki];
            let ghost tabs_pre = tables;
            let ghost state_pre = *state;
            match tables.take(k) {
                Some(tab) => {
                    proof {
                        assert(tab == tabs_pre.spec_get(k));
                        assert(tab.id == k && tab.wf());
                    }
                    if tab.seated_count() == 0 {
                        state.active_hands.remove(k);
                        state.table_tournament.remove(k);
                        state.time_controllers.remove(k);
                        proof {
                            assert forall|t: TableId|
                                #[trigger] state.tables.contains_key(t) implies
                                state.active_hands.contains_key(t) && (state.tables.spec_get(
                                t,
                            ).hand_in_progress <==> state.active_hands.spec_get(t) is Some) by {
                                assert(t != k);
                                assert(state_pre.tables.contains_key(t));
                            }
                            assert forall|t: TableId|
                                #[trigger] state.time_controllers.contains_key(t) implies
                                state.time_controllers.spec_get(t).wf() by {
                                assert(t != k);
                                assert(state_pre.time_controllers.contains_key(t));
                            }
                            assert forall|k2: TableId|
                                #[trigger] tables.contains_key(k2) implies
                                state.active_hands.contains_key(k2) && (tables.spec_get(
                                k2,
                            ).hand_in_progress <==> state.active_hands.spec_get(k2) is Some)
                                && !state.tables.contains_key(k2) by {
                                assert(k2 != k);
                                assert(tabs_pre.contains_key(k2));
                            }
                            assert(!state.tables.contains_key(k));
                            assert forall|j: int|
                                0 <= j < new_table_ids@.len() implies state.tables.contains_key(
                                #[trigger] new_table_ids@[j],
                            ) && state.tables.spec_get(new_table_ids@[j]).spec_seated_count() > 0
                                && table_ids@.contains(new_table_ids@[j]) by {
                                assert(state_pre.tables.contains_key(new_table_ids@[j]));
                                assert(new_table_ids@[j] != k);
                            }
                            assert forall|j: int|
                                0 <= j < ki + 1 && !state.tables.contains_key(
                                    #[trigger] keys@[j],
                                ) implies !state.active_hands.contains_key(keys@[j])
                                && !state.table_tournament.contains_key(keys@[j])
                                && !state.time_controllers.contains_key(keys@[j]) by {
                                if j < ki as int {
                                    assert(keys@[j] != k);
                                    assert(!state_pre.tables.contains_key(keys@[j]));
                                }
                            }
                            assert forall|q: PlayerId|
                                (tournament.registrations.contains_key(q) && !(
                                #[trigger] tournament.registrations.spec_get(q)).is_busted
                                    && tournament.registrations.spec_get(q).total_chips > 0
                                    && locations.contains_key(q)
                                    && tournament.registrations.spec_get(q).seat_index
                                    is Some) implies (spec_reg_mirrors_tables(
                                tables,
                                tournament.registrations.spec_get(q),
                                q,
                            ) || spec_reg_mirrors_tables(
                                state.tables,
                                tournament.registrations.spec_get(q),
                                q,
                            )) by {
                                let reg = tournament.registrations.spec_get(q);
                                if reg.table_id is Some && reg.table_id->0 == k {
                                    if spec_reg_mirrors_tables(tabs_pre, reg, q) {
                                        tab.lemma_occupied_seat_counts(reg.seat_index->0 as int);
                                        assert(false);
                                    }
                                    assert(!state_pre.tables.contains_key(k));
                                }
                            }
                        }
                    } else {
                        state.tables.insert(k, tab);
                        let ghost pre_ids = new_table_ids@;
                        new_table_ids.push(k);
                        proof {
                            assert forall|t: TableId|
                                #[trigger] state.tables.contains_key(t) implies
                                state.tables.spec_get(t).wf() && state.tables.spec_get(t).id
                                    == t by {
                                if t != k {
                                    assert(state_pre.tables.contains_key(t));
                                }
                            }
                            assert forall|t: TableId|
                                #[trigger] state.tables.contains_key(t) implies
                                state.active_hands.contains_key(t) && (state.tables.spec_get(
                                t,
                            ).hand_in_progress <==> state.active_hands.spec_get(t) is Some) by {
                                if t != k {
                                    assert(state_pre.tables.contains_key(t));
                                }
                            }
                            assert forall|k2: TableId|
                                #[trigger] tables.contains_key(k2) implies
                                state.active_hands.contains_key(k2) && (tables.spec_get(
                                k2,
                            ).hand_in_progress <==> state.active_hands.spec_get(k2) is Some)
                                && !state.tables.contains_key(k2) by {
                                assert(k2 != k);
                                assert(tabs_pre.contains_key(k2));
                            }
                            assert(tab.spec_seated_count() > 0);
                            assert forall|j: int|
                                0 <= j < new_table_ids@.len() implies state.tables.contains_key(
                                #[trigger] new_table_ids@[j],
                            ) && state.tables.spec_get(new_table_ids@[j]).spec_seated_count() > 0
                                && table_ids@.contains(new_table_ids@[j]) by {
                                if j < new_table_ids@.len() - 1 {
                                    assert(state_pre.tables.contains_key(new_table_ids@[j]));
                                    assert(new_table_ids@[j] != k);
                                } else {
                                    assert(new_table_ids@[j] == k);
                                    assert(tabs0.contains_key(k));
                                }
                            }
                            assert forall|k2: TableId|
                                tabs0.contains_key(k2) && #[trigger] state.tables.contains_key(
                                    k2,
                                ) implies new_table_ids@.contains(k2) by {
                                if k2 == k {
                                    assert(new_table_ids@[new_table_ids@.len() - 1] == k);
                                } else {
                                    assert(state_pre.tables.contains_key(k2));
                                    let j = choose|j: int|
                                        0 <= j < pre_ids.len() && #[trigger] pre_ids[j] == k2;
                                    assert(new_table_ids@[j] == k2);
                                }
                            }
                            assert forall|j: int|
                                0 <= j < ki + 1 && !state.tables.contains_key(
                                    #[trigger] keys@[j],
                                ) implies !state.active_hands.contains_key(keys@[j])
                                && !state.table_tournament.contains_key(keys@[j])
                                && !state.time_controllers.contains_key(keys@[j]) by {
                                assert(keys@[j] != k);
                                if j < ki as int {
                                    assert(!state_pre.tables.contains_key(keys@[j]));
                                }
                            }
                            assert forall|q: PlayerId|
                                (tournament.registrations.contains_key(q) && !(
                                #[trigger] tournament.registrations.spec_get(q)).is_busted
                                    && tournament.registrations.spec_get(q).total_chips > 0
                                    && locations.contains_key(q)
                                    && tournament.registrations.spec_get(q).seat_index
                                    is Some) implies (spec_reg_mirrors_tables(
                                tables,
                                tournament.registrations.spec_get(q),
                                q,
                            ) || spec_reg_mirrors_tables(
                                state.tables,
                                tournament.registrations.spec_get(q),
                                q,
                            )) by {
                                let reg = tournament.registrations.spec_get(q);
                                if reg.table_id is Some && reg.table_id->0 == k {
                                    assert(state.tables.spec_get(k) == tab);
                                } else {
                                }
                            }
                        }
                    }
                },
                None => {
                    proof {
                        assert(false);
                    }
                },
            }
            ki += 1;
        }
        proof {
            // A survivor left without chips - every seat they hold is a zero
            // stack, or they hold none and their record says zero - was
            // collected as a bust candidate and marked, unless the mark was
            // refused because they were the last survivor.
            assert forall|q: PlayerId|
                (t0.registrations.contains_key(q) && !(#[trigger] t0.registrations.spec_get(
                    q,
                )).is_busted && spec_out_of_chips(
                    *old(state),
                    listed,
                    t0.registrations.spec_get(q).total_chips,
                    q,
                )) implies (tournament.registrations.spec_get(q).is_busted
                || tournament.spec_non_busted() == 1) by {
                if exists|t: TableId, s2: int|
                    #[trigger] spec_seat_occurrence(*old(state), listed, t, s2, q) {
                    assert(locations.contains_key(q));
                    let (t, s2) = choose|t: TableId, s2: int|
                        #[trigger] spec_seat_occurrence(*old(state), listed, t, s2, q) && old(state).tables.spec_get(t).seats@[s2]->0.stack == locations.spec_get(q).2;
                    assert(locations.spec_get(q).2 == 0);
                } else {
                    assert(!locations.contains_key(q));
                }
                let j = choose|j: int|
                    0 <= j < t_synced.registrations.entry_seq().len() && (
                    #[trigger] t_synced.registrations.entry_seq()[j]).0 == q;
                t_synced.registrations.lemma_entry_is_get(j);
                assert(candidates@.contains(q));
                let c = choose|c: int| 0 <= c < candidates@.len() && candidates@[c] == q;
                assert(t_busted.registrations.spec_get(q).is_busted || t_busted.spec_non_busted()
                    == 1);
            }
            // A survivor seated somewhere among the checked-out tables ends
            // with exactly some live seat's chips: synchronization copied a
            // live stack in, and nothing after the synchronization moves
            // chips between records.
            assert forall|q: PlayerId|
                (t0.registrations.contains_key(q) && !t0.registrations.spec_get(q).is_busted && !(
                #[trigger] tournament.registrations.spec_get(q)).is_busted && (exists|
                    t: TableId,
                    s2: int,
                |
                    #[trigger] spec_seat_occurrence(*old(state), listed, t, s2, q))) implies (
            exists|t: TableId, s2: int|
                #[trigger] spec_seat_occurrence(*old(state), listed, t, s2, q)
                    && tournament.registrations.spec_get(q).total_chips == old(state).tables.spec_get(t).seats@[s2]->0.stack) by {
                assert(locations.contains_key(q));
                let j = choose|j: int|
                    0 <= j < t_synced.registrations.entry_seq().len() && (
                    #[trigger] t_synced.registrations.entry_seq()[j]).0 == q;
                t_synced.registrations.lemma_entry_is_get(j);
                assert(!t_synced.registrations.spec_get(q).is_busted);
                assert(t_synced.registrations.entry_seq()[j].1.total_chips
                    == locations.spec_get(q).2);
                let (t, s2) = choose|t: TableId, s2: int|
                    #[trigger] spec_seat_occurrence(*old(state), listed, t, s2, q) && old(state).tables.spec_get(t).seats@[s2]->0.stack == locations.spec_get(q).2;
                assert(tournament.registrations.spec_get(q).total_chips == locations.spec_get(
                    q,
                ).2);
            }
        }
        state.tournament_tables.insert(tournament_id, new_table_ids);
        let ghost state_pre = *state;
        state.tournaments.insert(tournament_id, tournament);
        proof {
            assert forall|t: TournamentId|
                #[trigger] state.tournaments.contains_key(t) implies state.tournaments.spec_get(
                t,
            ).wf() && state.tournaments.spec_get(t).id == t by {
                if t != tournament_id {
                    assert(state_pre.tournaments.contains_key(t));
                    assert(pre.tournaments.contains_key(t));
                }
            }
        }
        Ok(())
    }
}

impl PokerOrchestrator {
    /// Resume a command once the engine has answered.
    ///
    /// On failure the table and session travel back and are restored exactly
    /// as given, so nothing from the failed command is persisted.  On
    /// progress exactly one of two outcomes is persisted: the hand continues
    /// (snapshot replaced, table marked in-hand, clock re-armed for the new
    /// actor), or the hand finished (snapshot slot emptied, flag cleared,
    /// clock disarmed, and the tournament hook run when the table belongs to
    /// a tournament).  The in-hand flag and the snapshot slot are always
    /// written together, so the at-most-one-hand-per-table invariant holds
    /// whatever the engine returned.
    ///
    /// The table travelling back must satisfy its own invariant; an
    /// unverified host can test that with [`Table::check_wf`] before
    /// resuming.
    pub fn resume_command(&self, state: &mut PokerState, pending: PendingCommand, update: EngineUpdate) -> (r: CommandResponse)
        requires
            old(state).wf(),
            (match update {
                EngineUpdate::Failed { table, .. } => table.wf(),
                EngineUpdate::Progressed { table, .. } => table.wf(),
            }),
        ensures
            final(state).wf(),
            (match update {
                EngineUpdate::Failed { table, session, message } => {
                    &&& r matches CommandResponse::Error(m) && m@ == spec_error_message(
                        OnchainError::EngineError(message),
                    )
                    &&& final(state).tables.contains_key(table.id)
                    &&& final(state).active_hands.contains_key(table.id)
                    &&& final(state).tables.spec_get(table.id) == (Table {
                        hand_in_progress: session is Some && pending is PlayerAction,
                        ..table
                    })
                    &&& (final(state).active_hands.spec_get(table.id) is Some <==> (session
                        is Some && pending is PlayerAction))
                    &&& (session is Some && pending is PlayerAction ==> (final(state).active_hands.spec_get(table.id) matches Some(sn)
                        && snapshot_of(sn, session->0)))
                    &&& final(state).next_hand_id == old(state).next_hand_id
                    &&& final(state).total_hands_played == old(state).total_hands_played
                    &&& final(state).tournaments == old(state).tournaments
                    &&& final(state).time_controllers == old(state).time_controllers
                },
                EngineUpdate::Progressed { table, engine, status } => match pending {
                    PendingCommand::StartHand { table_id, hand_id } => {
                        &&& final(state).next_hand_id == hand_id
                        &&& final(state).total_hands_played == spec_saturating_succ(
                            old(state).total_hands_played,
                        )
                        &&& final(state).tables.contains_key(table.id)
                        &&& final(state).tables.spec_get(table.id) == (Table {
                            hand_in_progress: true,
                            ..table
                        })
                        &&& final(state).active_hands.contains_key(table.id)
                        &&& final(state).active_hands.spec_get(table.id) matches Some(sn)
                            && snapshot_of(sn, engine)
                        &&& final(state).time_controllers.contains_key(table.id)
                        &&& final(state).time_controllers.spec_get(table.id).current_turn
                            == spec_actor_player(table, engine.current_actor)
                        &&& r matches CommandResponse::TableState(v) && table_view_matches(
                            v,
                            final(state).tables.spec_get(table.id),
                            engine.current_actor,
                            final(state).player_names,
                        )
                        &&& final(state).tournaments == old(state).tournaments
                        &&& final(state).player_names == old(state).player_names
                    },
                    PendingCommand::PlayerAction { table_id } => match status {
                        HandStatus::Ongoing => {
                            &&& final(state).tables.contains_key(table.id)
                            &&& final(state).tables.spec_get(table.id) == (Table {
                                hand_in_progress: true,
                                ..table
                            })
                            &&& final(state).active_hands.contains_key(table.id)
                            &&& final(state).active_hands.spec_get(table.id) matches Some(sn)
                                && snapshot_of(sn, engine)
                            &&& final(state).time_controllers.contains_key(table.id)
                            &&& final(state).time_controllers.spec_get(table.id).current_turn
                                == spec_actor_player(table, engine.current_actor)
                            &&& r matches CommandResponse::TableState(v) && table_view_matches(
                                v,
                                final(state).tables.spec_get(table.id),
                                engine.current_actor,
                                final(state).player_names,
                            )
                            &&& final(state).tournaments == old(state).tournaments
                            &&& final(state).next_hand_id == old(state).next_hand_id
                            &&& final(state).total_hands_played == old(state).total_hands_played
                        },
                        HandStatus::Finished { summary } => {
                            &&& (r matches CommandResponse::HandFinished { summary: s2, table: v }
                                ==> s2 == summary && table_view_matches(
                                v,
                                (Table { hand_in_progress: false, ..table }),
                                engine.current_actor,
                                old(state).player_names,
                            ))
                            &&& (r is HandFinished || r is Error)
                            &&& (r is Error ==> old(state).table_tournament.contains_key(table.id)
                                && !old(state).tournaments.contains_key(
                                old(state).table_tournament.spec_get(table.id),
                            ))
                            &&& (!old(state).table_tournament.contains_key(table.id) ==> {
                                &&& final(state).tables.contains_key(table.id)
                                &&& final(state).tables.spec_get(table.id) == (Table {
                                    hand_in_progress: false,
                                    ..table
                                })
                                &&& final(state).active_hands.contains_key(table.id)
                                &&& final(state).active_hands.spec_get(table.id) is None
                                &&& final(state).tournaments == old(state).tournaments
                                &&& (old(state).time_controllers.contains_key(table.id) ==> final(state).time_controllers.contains_key(table.id) && final(state).time_controllers.spec_get(table.id).current_turn is None && final(state).time_controllers.spec_get(table.id).banks == old(state).time_controllers.spec_get(table.id).banks)
                                &&& (!old(state).time_controllers.contains_key(table.id) ==> final(state).time_controllers == old(state).time_controllers)
                            })
                            &&& (final(state).active_hands.contains_key(table.id) ==> final(state).active_hands.spec_get(table.id) is None)
                            &&& final(state).next_hand_id == old(state).next_hand_id
                            &&& final(state).total_hands_played == old(state).total_hands_played
                            &&& final(state).player_names == old(state).player_names
                            &&& final(state).player_accounts == old(state).player_accounts
                            &&& final(state).account_players == old(state).account_players
                            &&& final(state).owner == old(state).owner
                            &&& final(state).base_seed == old(state).base_seed
                        },
                    },
                },
            }),
    {
        match update {
            EngineUpdate::Failed { mut table, session, message } => {
                // Restore what the engine was given; nothing from this
                // command is persisted.
                let restore_hand = match pending {
                    PendingCommand::PlayerAction { .. } => true,
                    PendingCommand::StartHand { .. } => false,
                };
                match session {
                    Some(e) => {
                        if restore_hand {
                            table.hand_in_progress = true;
                            state.active_hands.insert(
                                table.id,
                                Some(HandEngineSnapshot::from_engine(e)),
                            );
                        } else {
                            table.hand_in_progress = false;
                            state.active_hands.insert(table.id, None);
                        }
                    },
                    None => {
                        table.hand_in_progress = false;
                        state.active_hands.insert(table.id, None);
                    },
                }
                let ghost tid = table.id;
                state.tables.insert(table.id, table);
                proof {
                    lemma_state_wf_after_table_touch(*old(state), *state, tid);
                }
                self.error_response(&OnchainError::EngineError(message))
            },
            EngineUpdate::Progressed { mut table, engine, status } => {
                match pending {
                    PendingCommand::StartHand { table_id, hand_id } => {
                        state.next_hand_id = hand_id;
                        if state.total_hands_played != u64::MAX {
                            state.total_hands_played = state.total_hands_played + 1;
                        }
                        table.hand_in_progress = true;
                        let actor = engine.current_actor;
                        let snapshot = HandEngineSnapshot::from_engine(engine);
                        update_time_controller_for_actor(state, &table, actor);
                        let ghost mid = *state;
                        let view = build_table_view(state, &table, Some(&snapshot));
                        state.active_hands.insert(table.id, Some(snapshot));
                        let ghost tid = table.id;
                        state.tables.insert(table.id, table);
                        proof {
                            lemma_state_wf_after_table_touch(mid, *state, tid);
                        }
                        CommandResponse::TableState(view)
                    },
                    PendingCommand::PlayerAction { table_id } => {
                        match status {
                            HandStatus::Ongoing => {
                                table.hand_in_progress = true;
                                let actor = engine.current_actor;
                                let snapshot = HandEngineSnapshot::from_engine(engine);
                                update_time_controller_for_actor(state, &table, actor);
                                let ghost mid = *state;
                                let view = build_table_view(state, &table, Some(&snapshot));
                                state.active_hands.insert(table.id, Some(snapshot));
                                let ghost tid = table.id;
                                state.tables.insert(table.id, table);
                                proof {
                                    lemma_state_wf_after_table_touch(mid, *state, tid);
                                }
                                CommandResponse::TableState(view)
                            },
                            HandStatus::Finished { summary } => {
                                table.hand_in_progress = false;
                                let snapshot = HandEngineSnapshot::from_engine(engine);
                                // The view is built from the just-finished
                                // table, before any rebalancing moves it.
                                let view = build_table_view(state, &table, Some(&snapshot));
                                state.active_hands.insert(table.id, None);
                                let tid = table.id;
                                state.tables.insert(table.id, table);
                                proof {
                                    lemma_state_wf_after_table_touch(*old(state), *state, tid);
                                }
                                // Disarm the clock; the time bank survives.
                                clear_current_turn_for_table(state, tid);
                                // Tournament hook: rebalance after the hand.
                                let tournament_id: Option<TournamentId> = match state
                                    .table_tournament
                                    .get(tid) {
                                    Some(t) => Some(*t),
                                    None => None,
                                };
                                match tournament_id {
                                    Some(tournament_id) => {
                                        match self.handle_tournament_after_hand(
                                            state,
                                            tournament_id,
                                        ) {
                                            Ok(()) => {},
                                            Err(e) => {
                                                return self.error_response(&e);
                                            },
                                        }
                                    },
                                    None => {},
                                }
                                CommandResponse::HandFinished { summary, table: view }
                            },
                        }
                    },
                }
            },
        }
    }
}

impl PokerOrchestrator {
    /// Advance the table's clock by the elapsed seconds.  With no active hand
    /// the current table view is returned unchanged.  A tick that exhausts
    /// the armed player's bank yields a synthetic fold for that player's
    /// seat, routed through the same engine path as an ordinary action; a
    /// tick that does not is persisted to the clock alone.
    pub fn handle_tick_table(&self, state: &mut PokerState, cmd: TickTableCommand) -> (r:
        OnchainResult<CommandStep>)
        requires
            old(state).wf(),
        ensures
            final(state).wf(),
            (match r {
                Ok(step) => {
                    &&& old(state).tables.contains_key(cmd.table_id)
                    &&& match step {
                        CommandStep::Done(resp) => {
                            &&& resp matches CommandResponse::TableState(v)
                            &&& table_view_matches(
                                v,
                                old(state).tables.spec_get(cmd.table_id),
                                crate::view::spec_actor_of(
                                    crate::view::spec_active_of(*old(state), cmd.table_id),
                                ),
                                old(state).player_names,
                            )
                            &&& final(state).tables.contains_key(cmd.table_id)
                            &&& final(state).tables.spec_get(cmd.table_id) == old(state).tables.spec_get(cmd.table_id)
                            &&& final(state).active_hands == old(state).active_hands
                            &&& final(state).tournaments == old(state).tournaments
                            &&& forall|t2: TableId|
                                final(state).tables.contains_key(t2) == old(state).tables.contains_key(t2)
                            &&& forall|t2: TableId|
                                t2 != cmd.table_id && old(state).tables.contains_key(t2) ==> final(state).tables.spec_get(t2) == old(state).tables.spec_get(t2)
                            &&& final(state).table_tournament == old(state).table_tournament
                            &&& final(state).tournament_tables == old(state).tournament_tables
                            &&& final(state).player_names == old(state).player_names
                            &&& final(state).player_accounts == old(state).player_accounts
                            &&& final(state).account_players == old(state).account_players
                            &&& final(state).owner == old(state).owner
                            &&& final(state).base_seed == old(state).base_seed
                            &&& final(state).next_hand_id == old(state).next_hand_id
                            &&& final(state).total_hands_played == old(state).total_hands_played
                            &&& (crate::view::spec_active_of(*old(state), cmd.table_id) is None
                                ==> *final(state) == *old(state))
                            &&& (crate::view::spec_active_of(*old(state), cmd.table_id) is Some
                                && old(state).time_controllers.contains_key(cmd.table_id)
                                ==> final(state).time_controllers.contains_key(cmd.table_id)
                                && tick_rel(
                                old(state).time_controllers.spec_get(cmd.table_id),
                                cmd.delta_secs as u64,
                                final(state).time_controllers.spec_get(cmd.table_id),
                                AutoActionDecision::NoTimeout,
                            ))
                        },
                        CommandStep::NeedsEngine { request, pending } => {
                            &&& old(state).time_controllers.contains_key(cmd.table_id)
                            &&& {
                                let c = old(state).time_controllers.spec_get(cmd.table_id);
                                &&& c.current_turn is Some
                                &&& c.banks.spec_get(c.current_turn->0) <= cmd.delta_secs as u64
                                &&& request matches EngineRequest::ApplyAction {
                                    table,
                                    engine,
                                    action,
                                }
                                &&& request->ApplyAction_table == old(state).tables.spec_get(
                                    cmd.table_id,
                                )
                                &&& request->ApplyAction_action.player_id == c.current_turn->0
                                &&& request->ApplyAction_action.kind == PlayerActionKind::Fold
                                &&& old(state).tables.spec_get(cmd.table_id).spec_seated(
                                    c.current_turn->0,
                                )
                                &&& (request->ApplyAction_action.seat as int) < old(state).tables.spec_get(cmd.table_id).seats@.len()
                                &&& old(state).tables.spec_get(cmd.table_id).seats@[request->ApplyAction_action.seat as int] matches Some(p) && p.player_id == c.current_turn->0
                                &&& crate::view::spec_active_of(*old(state), cmd.table_id) is Some
                                &&& request->ApplyAction_engine.current_actor
                                    == crate::view::spec_active_of(
                                    *old(state),
                                    cmd.table_id,
                                )->0.current_actor
                            }
                            &&& pending == (PendingCommand::PlayerAction {
                                table_id: cmd.table_id,
                            })
                            &&& !final(state).tables.contains_key(cmd.table_id)
                            &&& !final(state).active_hands.contains_key(cmd.table_id)
                            &&& forall|t2: TableId|
                                t2 != cmd.table_id ==> final(state).tables.contains_key(t2) == old(state).tables.contains_key(t2) && final(state).active_hands.contains_key(t2) == old(state).active_hands.contains_key(t2)
                            &&& forall|t2: TableId|
                                t2 != cmd.table_id && old(state).tables.contains_key(t2) ==> final(state).tables.spec_get(t2) == old(state).tables.spec_get(t2)
                            &&& forall|t2: TableId|
                                t2 != cmd.table_id && old(state).active_hands.contains_key(t2)
                                    ==> final(state).active_hands.spec_get(t2) == old(state).active_hands.spec_get(t2)
                            &&& final(state).time_controllers == old(state).time_controllers
                            &&& final(state).tournaments == old(state).tournaments
                            &&& final(state).table_tournament == old(state).table_tournament
                            &&& final(state).tournament_tables == old(state).tournament_tables
                            &&& final(state).player_names == old(state).player_names
                            &&& final(state).player_accounts == old(state).player_accounts
                            &&& final(state).account_players == old(state).account_players
                            &&& final(state).owner == old(state).owner
                            &&& final(state).base_seed == old(state).base_seed
                            &&& final(state).next_hand_id == old(state).next_hand_id
                            &&& final(state).total_hands_played == old(state).total_hands_played
                        },
                    }
                },
                Err(e) => *final(state) == *old(state) && match e {
                    OnchainError::TableNotFound(t) => t == cmd.table_id && !old(state).tables.contains_key(cmd.table_id),
                    OnchainError::NoPlayerAtSeat { table, seat } => {
                        &&& table == cmd.table_id
                        &&& seat == 255
                        &&& old(state).tables.contains_key(cmd.table_id)
                        &&& crate::view::spec_active_of(*old(state), cmd.table_id) is Some
                        &&& old(state).time_controllers.contains_key(cmd.table_id)
                        &&& {
                            let c = old(state).time_controllers.spec_get(cmd.table_id);
                            &&& c.current_turn is Some
                            &&& c.banks.spec_get(c.current_turn->0) <= cmd.delta_secs as u64
                            &&& !old(state).tables.spec_get(cmd.table_id).spec_seated(
                                c.current_turn->0,
                            )
                        }
                    },
                    _ => false,
                },
            }),
    {
        if !state.tables.contains(cmd.table_id) {
            return Err(OnchainError::TableNotFound(cmd.table_id));
        }
        let has_active = match state.active_hands.get(cmd.table_id) {
            Some(slot) => slot.is_some(),
            None => false,
        };
        if !has_active {
            // No hand in play: just return the current view.
            let table_ref = state.tables.get(cmd.table_id).unwrap();
            let view = build_table_view(state, table_ref, None);
            return Ok(CommandStep::Done(CommandResponse::TableState(view)));
        }
        let delta = cmd.delta_secs as u64;
        // Would this tick exhaust the armed player's bank?
        let timeout_player: Option<PlayerId> = match state.time_controllers.get(cmd.table_id) {
            Some(c) => match c.current_turn {
                Some(p) => {
                    let bank = *c.banks.get(p).unwrap();
                    if bank <= delta {
                        Some(p)
                    } else {
                        None
                    }
                },
                None => None,
            },
            None => None,
        };
        match timeout_player {
            None => {
                // No timeout: tick the clock and persist only it.
                let table = state.tables.take(cmd.table_id).unwrap();
                let mut ctrl = ensure_time_controller(state, &table);
                let d = ctrl.on_time_passed(delta);
                proof {
                    assert(d == AutoActionDecision::NoTimeout);
                }
                state.time_controllers.insert(cmd.table_id, ctrl);
                proof {
                    assert forall|t2: TableId|
                        #[trigger] state.time_controllers.contains_key(t2) implies
                        state.time_controllers.spec_get(t2).wf() by {
                        if t2 != cmd.table_id {
                            assert(old(state).time_controllers.contains_key(t2));
                        }
                    }
                }
                let ghost mid = *state;
                let active: Option<&HandEngineSnapshot> = match state.active_hands.get(
                    cmd.table_id,
                ) {
                    Some(slot) => match slot {
                        Some(s) => Some(s),
                        None => None,
                    },
                    None => None,
                };
                let view = build_table_view(state, &table, active);
                state.tables.insert(cmd.table_id, table);
                proof {
                    lemma_state_wf_after_table_touch(mid, *state, cmd.table_id);
                }
                Ok(CommandStep::Done(CommandResponse::TableState(view)))
            },
            Some(p) => {
                // The bank is exhausted: construct the forced fold and route
                // it through the engine like any other action.  The clock is
                // left as it stands; settling the action re-arms or disarms
                // it.
                let seat_opt = {
                    let table_ref = state.tables.get(cmd.table_id).unwrap();
                    table_ref.find_seat_of(p)
                };
                let seat = match seat_opt {
                    Some(s) => s,
                    None => {
                        return Err(
                            OnchainError::NoPlayerAtSeat { table: cmd.table_id, seat: 255 },
                        );
                    },
                };
                let table = state.tables.take(cmd.table_id).unwrap();
                let snapshot = state.active_hands.take(cmd.table_id).unwrap().unwrap();
                let engine = snapshot.into_engine();
                let action = PlayerAction {
                    seat: seat as u8,
                    player_id: p,
                    kind: PlayerActionKind::Fold,
                };
                Ok(
                    CommandStep::NeedsEngine {
                        request: EngineRequest::ApplyAction { table, engine, action },
                        pending: PendingCommand::PlayerAction { table_id: cmd.table_id },
                    },
                )
            },
        }
    }
}

impl PokerOrchestrator {
    /// Create a tournament in the registering state, with an empty table
    /// list.  Admin-only; the id must be fresh and the configuration valid.
    pub fn handle_create_tournament(&self, state: &mut PokerState, cmd: CreateTournamentCommand)
        -> (r: OnchainResult<CommandResponse>)
        requires
            old(state).wf(),
        ensures
            final(state).wf(),
            match r {
                Ok(resp) => {
                    &&& self.signer is Some && old(state).owner == self.signer
                    &&& !old(state).tournaments.contains_key(cmd.tournament_id)
                    &&& cmd.config.table_size >= 2
                    &&& cmd.config.blind_structure.levels@.len() > 0
                    &&& final(state).tournaments.contains_key(cmd.tournament_id)
                    &&& {
                        let t = final(state).tournaments.spec_get(cmd.tournament_id);
                        &&& t.id == cmd.tournament_id
                        &&& t.owner == 0
                        &&& t.config == cmd.config
                        &&& t.status == TournamentStatus::Registering
                        &&& t.current_level == 1u32
                        &&& t.registrations.spec_len() == 0
                        &&& resp matches CommandResponse::TournamentState(v)
                            && crate::view::tournament_view_matches(v, t, 0)
                    }
                    &&& final(state).tournament_tables.contains_key(cmd.tournament_id)
                    &&& final(state).tournament_tables.spec_get(cmd.tournament_id)@
                        == Seq::<TableId>::empty()
                    &&& forall|t2: TournamentId|
                        t2 != cmd.tournament_id ==> final(state).tournaments.contains_key(t2)
                            == old(state).tournaments.contains_key(t2)
                    &&& forall|t2: TournamentId|
                        t2 != cmd.tournament_id && old(state).tournaments.contains_key(t2)
                            ==> final(state).tournaments.spec_get(t2) == old(state).tournaments.spec_get(t2)
                    &&& final(state).tables == old(state).tables
                    &&& final(state).active_hands == old(state).active_hands
                },
                Err(e) => *final(state) == *old(state) && match e {
                    OnchainError::Unauthenticated => self.signer is None,
                    OnchainError::Unauthorized => self.signer is Some && old(state).owner
                        != self.signer,
                    OnchainError::TournamentAlreadyExists(t) => t == cmd.tournament_id && old(state).tournaments.contains_key(cmd.tournament_id),
                    OnchainError::Tournament(te) => te == TournamentError::InvalidConfig && (
                    cmd.config.table_size < 2 || cmd.config.blind_structure.levels@.len() == 0),
                    _ => false,
                },
            },
    {
        self.ensure_admin(state)?;
        if state.tournaments.contains(cmd.tournament_id) {
            return Err(OnchainError::TournamentAlreadyExists(cmd.tournament_id));
        }
        // The tournament's owning player id is the system player.
        let owner_player: PlayerId = 0;
        let tournament = match Tournament::new(cmd.tournament_id, owner_player, cmd.config) {
            Ok(t) => t,
            Err(e) => {
                return Err(OnchainError::Tournament(e));
            },
        };
        let view = crate::view::build_tournament_view(&tournament, 0);
        let ghost state_pre = *state;
        state.tournaments.insert(cmd.tournament_id, tournament);
        state.tournament_tables.insert(cmd.tournament_id, Vec::new());
        proof {
            assert forall|t: TournamentId|
                #[trigger] state.tournaments.contains_key(t) implies state.tournaments.spec_get(
                t,
            ).wf() && state.tournaments.spec_get(t).id == t by {
                if t != cmd.tournament_id {
                    assert(state_pre.tournaments.contains_key(t));
                }
            }
        }
        Ok(CommandResponse::TournamentState(view))
    }

    /// Register the calling player into a tournament that is still open for
    /// registration, recording a display name if one was given.
    pub fn handle_register_player_in_tournament(&self, state: &mut PokerState, cmd: RegisterPlayerInTournamentCommand)
        -> (r: OnchainResult<CommandResponse>)
        requires
            old(state).wf(),
        ensures
            final(state).wf(),
            match r {
                Ok(resp) => {
                    &&& old(state).tournaments.contains_key(cmd.tournament_id)
                    &&& {
                        let t0 = old(state).tournaments.spec_get(cmd.tournament_id);
                        let t1 = final(state).tournaments.spec_get(cmd.tournament_id);
                        &&& t0.status == TournamentStatus::Registering
                        &&& !t0.registrations.contains_key(cmd.player_id)
                        &&& final(state).tournaments.contains_key(cmd.tournament_id)
                        &&& t1.registrations.contains_key(cmd.player_id)
                        &&& t1.registrations.spec_get(cmd.player_id)
                            == (crate::tournament::Registration {
                            total_chips: t0.config.starting_stack,
                            table_id: None,
                            seat_index: None,
                            is_busted: false,
                            finish_rank: None,
                        })
                        &&& forall|q: PlayerId|
                            q != cmd.player_id ==> t1.registrations.contains_key(q)
                                == t0.registrations.contains_key(q)
                        &&& forall|q: PlayerId|
                            q != cmd.player_id && t0.registrations.contains_key(q)
                                ==> t1.registrations.spec_get(q) == t0.registrations.spec_get(q)
                        &&& t1.registrations.spec_len() == t0.registrations.spec_len() + 1
                        &&& t1.status == t0.status
                        &&& t1.config == t0.config
                        &&& t1.owner == t0.owner
                        &&& t1.current_level == t0.current_level
                        &&& t1.started_at == t0.started_at
                        &&& resp matches CommandResponse::TournamentState(v)
                            && crate::view::tournament_view_matches(
                            v,
                            t1,
                            crate::view::spec_tables_running(*old(state), cmd.tournament_id),
                        )
                    }
                    &&& self.signer is Some
                    &&& final(state).account_players.contains_key(self.signer->0)
                    &&& final(state).account_players.spec_get(self.signer->0) == cmd.player_id
                    &&& (cmd.display_name@.len() == 0 ==> final(state).player_names == old(state).player_names)
                    &&& (cmd.display_name@.len() > 0 ==> final(state).player_names.contains_key(
                        cmd.player_id,
                    ) && final(state).player_names.spec_get(cmd.player_id)@ == cmd.display_name@)
                    &&& final(state).tables == old(state).tables
                    &&& final(state).active_hands == old(state).active_hands
                    &&& forall|t2: TournamentId|
                        t2 != cmd.tournament_id ==> final(state).tournaments.contains_key(t2)
                            == old(state).tournaments.contains_key(t2)
                    &&& forall|t2: TournamentId|
                        t2 != cmd.tournament_id && old(state).tournaments.contains_key(t2)
                            ==> final(state).tournaments.spec_get(t2) == old(state).tournaments.spec_get(t2)
                },
                Err(e) => *final(state) == *old(state) && match e {
                    OnchainError::TournamentNotFound(t) => t == cmd.tournament_id && !old(state).tournaments.contains_key(cmd.tournament_id),
                    OnchainError::Tournament(te) => old(state).tournaments.contains_key(
                        cmd.tournament_id,
                    ) && match te {
                        TournamentError::InvalidStatus { expected, found } => expected
                            == TournamentStatus::Registering && found == old(state).tournaments.spec_get(cmd.tournament_id).status && found
                            != TournamentStatus::Registering,
                        TournamentError::AlreadyRegistered { player_id } => player_id
                            == cmd.player_id && old(state).tournaments.spec_get(
                            cmd.tournament_id,
                        ).registrations.contains_key(cmd.player_id),
                        _ => false,
                    },
                    OnchainError::Unauthenticated => self.signer is None,
                    OnchainError::PlayerIdMismatch => self.signer is Some
                        && spec_binding_mismatch(*old(state), self.signer->0, cmd.player_id),
                    _ => false,
                },
            },
    {
        {
            let t_ref = match state.tournaments.get(cmd.tournament_id) {
                Some(t) => t,
                None => {
                    return Err(OnchainError::TournamentNotFound(cmd.tournament_id));
                },
            };
            if !matches!(t_ref.status, TournamentStatus::Registering) {
                return Err(
                    OnchainError::Tournament(
                        TournamentError::InvalidStatus {
                            expected: TournamentStatus::Registering,
                            found: t_ref.status,
                        },
                    ),
                );
            }
            if t_ref.registrations.contains(cmd.player_id) {
                return Err(
                    OnchainError::Tournament(
                        TournamentError::AlreadyRegistered { player_id: cmd.player_id },
                    ),
                );
            }
        }
        let player_id = self.ensure_player_for_signer(state, cmd.player_id)?;
        let mut tournament = state.tournaments.take(cmd.tournament_id).unwrap();
        match tournament.register_player(player_id) {
            Ok(()) => {},
            Err(_) => {
                proof {
                    assert(false);
                }
            },
        }
        if !cmd.display_name.as_str().is_empty() {
            state.player_names.insert(player_id, cmd.display_name);
        }
        let running = crate::view::tables_running_for(state, cmd.tournament_id);
        let view = crate::view::build_tournament_view(&tournament, running);
        let ghost state_pre = *state;
        state.tournaments.insert(cmd.tournament_id, tournament);
        proof {
            assert forall|t: TournamentId|
                #[trigger] state.tournaments.contains_key(t) implies state.tournaments.spec_get(
                t,
            ).wf() && state.tournaments.spec_get(t).id == t by {
                if t != cmd.tournament_id {
                    assert(state_pre.tournaments.contains_key(t));
                }
            }
        }
        Ok(CommandResponse::TournamentState(view))
    }

    /// Withdraw the calling player's registration while registration is
    /// still open.
    pub fn handle_unregister_player_from_tournament(&self, state: &mut PokerState, cmd: UnregisterPlayerFromTournamentCommand)
        -> (r: OnchainResult<CommandResponse>)
        requires
            old(state).wf(),
        ensures
            final(state).wf(),
            match r {
                Ok(resp) => {
                    &&& old(state).tournaments.contains_key(cmd.tournament_id)
                    &&& {
                        let t0 = old(state).tournaments.spec_get(cmd.tournament_id);
                        let t1 = final(state).tournaments.spec_get(cmd.tournament_id);
                        &&& t0.status == TournamentStatus::Registering
                        &&& t0.registrations.contains_key(cmd.player_id)
                        &&& final(state).tournaments.contains_key(cmd.tournament_id)
                        &&& !t1.registrations.contains_key(cmd.player_id)
                        &&& forall|q: PlayerId|
                            q != cmd.player_id ==> t1.registrations.contains_key(q)
                                == t0.registrations.contains_key(q)
                        &&& forall|q: PlayerId|
                            q != cmd.player_id && t0.registrations.contains_key(q)
                                ==> t1.registrations.spec_get(q) == t0.registrations.spec_get(q)
                        &&& t1.registrations.spec_len() == t0.registrations.spec_len() - 1
                        &&& t1.status == t0.status
                        &&& t1.config == t0.config
                        &&& t1.owner == t0.owner
                        &&& t1.current_level == t0.current_level
                        &&& t1.started_at == t0.started_at
                        &&& resp matches CommandResponse::TournamentState(v)
                            && crate::view::tournament_view_matches(
                            v,
                            t1,
                            crate::view::spec_tables_running(*old(state), cmd.tournament_id),
                        )
                    }
                    &&& final(state).tables == old(state).tables
                    &&& final(state).active_hands == old(state).active_hands
                    &&& final(state).player_names == old(state).player_names
                    &&& final(state).tournament_tables == old(state).tournament_tables
                    &&& final(state).table_tournament == old(state).table_tournament
                    &&& final(state).time_controllers == old(state).time_controllers
                },
                Err(e) => *final(state) == *old(state) && match e {
                    OnchainError::TournamentNotFound(t) => t == cmd.tournament_id && !old(state).tournaments.contains_key(cmd.tournament_id),
                    OnchainError::Tournament(te) => old(state).tournaments.contains_key(
                        cmd.tournament_id,
                    ) && match te {
                        TournamentError::InvalidStatus { expected, found } => expected
                            == TournamentStatus::Registering && found == old(state).tournaments.spec_get(cmd.tournament_id).status && found
                            != TournamentStatus::Registering,
                        TournamentError::NotRegistered { player_id, tournament_id } => player_id
                            == cmd.player_id && tournament_id == cmd.tournament_id && !old(state).tournaments.spec_get(cmd.tournament_id).registrations.contains_key(
                            cmd.player_id,
                        ),
                        _ => false,
                    },
                    OnchainError::Unauthenticated => self.signer is None,
                    OnchainError::PlayerIdMismatch => self.signer is Some
                        && spec_binding_mismatch(*old(state), self.signer->0, cmd.player_id),
                    _ => false,
                },
            },
    {
        {
            let t_ref = match state.tournaments.get(cmd.tournament_id) {
                Some(t) => t,
                None => {
                    return Err(OnchainError::TournamentNotFound(cmd.tournament_id));
                },
            };
            if !matches!(t_ref.status, TournamentStatus::Registering) {
                return Err(
                    OnchainError::Tournament(
                        TournamentError::InvalidStatus {
                            expected: TournamentStatus::Registering,
                            found: t_ref.status,
                        },
                    ),
                );
            }
            if !t_ref.registrations.contains(cmd.player_id) {
                return Err(
                    OnchainError::Tournament(
                        TournamentError::NotRegistered {
                            player_id: cmd.player_id,
                            tournament_id: cmd.tournament_id,
                        },
                    ),
                );
            }
        }
        let player_id = self.ensure_player_for_signer(state, cmd.player_id)?;
        let mut tournament = state.tournaments.take(cmd.tournament_id).unwrap();
        tournament.registrations.remove(player_id);
        let running = crate::view::tables_running_for(state, cmd.tournament_id);
        let view = crate::view::build_tournament_view(&tournament, running);
        let ghost state_pre = *state;
        state.tournaments.insert(cmd.tournament_id, tournament);
        proof {
            assert forall|t: TournamentId|
                #[trigger] state.tournaments.contains_key(t) implies state.tournaments.spec_get(
                t,
            ).wf() && state.tournaments.spec_get(t).id == t by {
                if t != cmd.tournament_id {
                    assert(state_pre.tournaments.contains_key(t));
                }
            }
        }
        Ok(CommandResponse::TournamentState(view))
    }

    /// Open play: seat every registered player, in ascending player id, onto
    /// freshly created tournament tables of `table_size` seats each, persist
    /// the tables with empty hand-session slots and tournament bindings, and
    /// move the tournament to `Running`.  Admin-only.
    ///
    /// Table ids are allocated deterministically and collision-free by
    /// packing the tournament id into the high 32 bits and the table's index
    /// within the tournament into the low 32 bits; tournaments with ids past
    /// 32 bits are rejected rather than allowed to collide.
    pub fn handle_start_tournament(&self, state: &mut PokerState, cmd: StartTournamentCommand)
        -> (r: OnchainResult<CommandResponse>)
        requires
            old(state).wf(),
        ensures
            final(state).wf(),
            match r {
                Ok(resp) => {
                    &&& self.signer is Some && old(state).owner == self.signer
                    &&& old(state).tournaments.contains_key(cmd.tournament_id)
                    &&& {
                        let t0 = old(state).tournaments.spec_get(cmd.tournament_id);
                        let t1 = final(state).tournaments.spec_get(cmd.tournament_id);
                        &&& t0.status == TournamentStatus::Registering
                        &&& final(state).tournaments.contains_key(cmd.tournament_id)
                        &&& t1.status == TournamentStatus::Running
                        &&& t1.id == t0.id
                        &&& t1.config == t0.config
                        &&& forall|q: PlayerId|
                            t1.registrations.contains_key(q) == t0.registrations.contains_key(q)
                        &&& forall|q: PlayerId|
                            t0.registrations.contains_key(q) ==> t1.registrations.spec_get(
                                q,
                            ).total_chips == t0.registrations.spec_get(q).total_chips
                                && t1.registrations.spec_get(q).is_busted
                                == t0.registrations.spec_get(q).is_busted
                        &&& {
                            let size = t0.config.table_size as int;
                            forall|a: int|
                                0 <= a < t0.registrations.entry_seq().len() ==> {
                                    let q = (#[trigger] t0.registrations.entry_seq()[a]).0;
                                    &&& t1.registrations.spec_get(q).table_id == Some(
                                        (cmd.tournament_id << 32u64) | ((a / size) as u64),
                                    )
                                    &&& t1.registrations.spec_get(q).seat_index == Some(
                                        (a % size) as u8,
                                    )
                                }
                        }
                        &&& resp matches CommandResponse::TournamentState(v)
                            && crate::view::tournament_view_matches(
                            v,
                            t1,
                            crate::view::spec_tables_running(*final(state), cmd.tournament_id),
                        )
                    }
                    &&& final(state).tournament_tables.contains_key(cmd.tournament_id)
                    &&& {
                        let t0 = old(state).tournaments.spec_get(cmd.tournament_id);
                        final(state).tournament_tables.spec_get(cmd.tournament_id)@.len()
                            == spec_chunks_needed(
                            t0.registrations.spec_len() as int,
                            t0.config.table_size as int,
                        )
                    }
                    &&& {
                        let t0 = old(state).tournaments.spec_get(cmd.tournament_id);
                        let ids = final(state).tournament_tables.spec_get(cmd.tournament_id)@;
                        let size = t0.config.table_size as int;
                        let n = t0.registrations.spec_len() as int;
                        forall|i: int|
                            0 <= i < ids.len() ==> final(state).tables.contains_key(
                                #[trigger] ids[i],
                            ) && final(state).tables.spec_get(ids[i]).config.table_type
                                == TableType::Tournament && !final(state).tables.spec_get(
                                ids[i],
                            ).hand_in_progress && final(state).table_tournament.contains_key(
                                ids[i],
                            ) && final(state).table_tournament.spec_get(ids[i])
                                == cmd.tournament_id && ids[i] == ((cmd.tournament_id << 32u64) | (
                            i as u64)) && final(state).tables.spec_get(ids[i]).config.stakes
                                == spec_stakes_for_level(t0.config, t0.current_level) && final(state).tables.spec_get(ids[i]).config.max_seats == t0.config.table_size
                                && final(state).tables.spec_get(ids[i]).seats@.len() == size && (
                            forall|k2: int|
                                0 <= k2 < size ==> (#[trigger] final(state).tables.spec_get(
                                    ids[i],
                                ).seats@[k2]) == (if i * size + k2 < n {
                                    Some(
                                        PlayerAtTable {
                                            player_id: t0.registrations.entry_seq()[i * size
                                                + k2].0,
                                            stack: t0.registrations.entry_seq()[i * size
                                                + k2].1.total_chips,
                                            current_bet: 0,
                                            status: crate::domain::PlayerStatus::Active,
                                        },
                                    )
                                } else {
                                    None::<PlayerAtTable>
                                }))
                    }
                    &&& final(state).player_names == old(state).player_names
                    &&& final(state).account_players == old(state).account_players
                },
                Err(e) => *final(state) == *old(state) && match e {
                    OnchainError::Unauthenticated => self.signer is None,
                    OnchainError::Unauthorized => self.signer is Some && old(state).owner
                        != self.signer,
                    OnchainError::TournamentNotFound(t) => t == cmd.tournament_id && !old(state).tournaments.contains_key(cmd.tournament_id),
                    OnchainError::Tournament(te) => old(state).tournaments.contains_key(
                        cmd.tournament_id,
                    ) && (te matches TournamentError::InvalidStatus { expected, found } && expected
                        == TournamentStatus::Registering && found == old(state).tournaments.spec_get(cmd.tournament_id).status && found
                        != TournamentStatus::Registering),
                    OnchainError::Storage(m) => (cmd.tournament_id > 0xFFFF_FFFFu64 && m@
                        == "tournament id too large for table allocation"@) || (old(state).tournaments.spec_get(cmd.tournament_id).registrations.spec_len()
                        >= 0x7FFF_FFFF && m@ == "too many registered players to seat"@),
                    _ => false,
                },
            },
    {
        self.ensure_admin(state)?;
        {
            let t_ref = match state.tournaments.get(cmd.tournament_id) {
                Some(t) => t,
                None => {
                    return Err(OnchainError::TournamentNotFound(cmd.tournament_id));
                },
            };
            if !matches!(t_ref.status, TournamentStatus::Registering) {
                return Err(
                    OnchainError::Tournament(
                        TournamentError::InvalidStatus {
                            expected: TournamentStatus::Registering,
                            found: t_ref.status,
                        },
                    ),
                );
            }
        }
        if cmd.tournament_id > 0xFFFF_FFFFu64 {
            return Err(
                OnchainError::Storage(
                    String::from_str("tournament id too large for table allocation"),
                ),
            );
        }
        {
            let t_ref = state.tournaments.get(cmd.tournament_id).unwrap();
            if t_ref.registrations.len() >= 0x7FFF_FFFFusize {
                return Err(
                    OnchainError::Storage(
                        String::from_str("too many registered players to seat"),
                    ),
                );
            }
        }
        let mut tournament = state.tournaments.take(cmd.tournament_id).unwrap();
        let ghost t0 = old(state).tournaments.spec_get(cmd.tournament_id);
        let player_ids = tournament.registrations.keys();
        proof {
            assert forall|a: int, b: int|
                0 <= a < b < player_ids@.len() implies player_ids@[a] < player_ids@[b] by {}
            assert forall|a: int|
                0 <= a < player_ids@.len() implies player_ids@[a]
                == t0.registrations.entry_seq()[a].0 by {}
        }
        let max_seats = tournament.config.table_size;
        let n = player_ids.len();
        let mut chunk_index: u32 = 0;
        let mut base: usize = 0;
        let mut new_table_ids: Vec<TableId> = Vec::new();
        while base < n
            invariant
                old(state).wf(),
                n == player_ids@.len(),
                n == tournament.registrations.spec_len(),
                forall|a: int, b: int|
                    0 <= a < b < player_ids@.len() ==> player_ids@[a] < player_ids@[b],
                forall|a: int|
                    0 <= a < player_ids@.len() ==> tournament.registrations.contains_key(
                        #[trigger] player_ids@[a],
                    ),
                max_seats == tournament.config.table_size,
                max_seats >= 2,
                cmd.tournament_id <= 0xFFFF_FFFFu64,
                n < 0x7FFF_FFFF,
                0 <= base,
                chunk_index as int <= base as int,
                chunk_index as int * (max_seats as int) < n as int + (max_seats as int),
                n == t0.registrations.spec_len(),
                t0.registrations.wf(),
                state.wf(),
                tournament.wf(),
                tournament.current_level == t0.current_level,
                tournament.id == t0.id,
                tournament.owner == t0.owner,
                tournament.config == t0.config,
                tournament.status == t0.status,
                forall|q: PlayerId|
                    tournament.registrations.contains_key(q) == t0.registrations.contains_key(q),
                forall|q: PlayerId|
                    t0.registrations.contains_key(q) ==> tournament.registrations.spec_get(
                        q,
                    ).total_chips == t0.registrations.spec_get(q).total_chips
                        && tournament.registrations.spec_get(q).is_busted
                        == t0.registrations.spec_get(q).is_busted,
                forall|j: int|
                    0 <= j < tournament.registrations.entry_seq().len()
                        ==> (#[trigger] tournament.registrations.entry_seq()[j]).0
                        == t0.registrations.entry_seq()[j].0,
                base <= n,
                forall|a: int|
                    0 <= a < player_ids@.len() ==> player_ids@[a]
                        == t0.registrations.entry_seq()[a].0,
                base == chunk_index as int * (max_seats as int) || (base == n && n as int
                    <= chunk_index as int * (max_seats as int)),
                forall|a: int|
                    0 <= a < base ==> (#[trigger] tournament.registrations.spec_get(
                        player_ids@[a],
                    )).table_id == Some(
                        (cmd.tournament_id << 32u64) | ((a / (max_seats as int)) as u64),
                    ) && tournament.registrations.spec_get(player_ids@[a]).seat_index == Some(
                        (a % (max_seats as int)) as u8,
                    ),
                new_table_ids@.len() == chunk_index as int,
                forall|j: int|
                    0 <= j < new_table_ids@.len() ==> new_table_ids@[j] == ((cmd.tournament_id
                        << 32u64) | (j as u64)),
                !state.tournaments.contains_key(cmd.tournament_id),
                forall|t2: TournamentId|
                    t2 != cmd.tournament_id ==> state.tournaments.contains_key(t2) == old(state).tournaments.contains_key(t2),
                forall|t2: TournamentId|
                    t2 != cmd.tournament_id && old(state).tournaments.contains_key(t2)
                        ==> state.tournaments.spec_get(t2) == old(state).tournaments.spec_get(t2),
                state.tournament_tables == old(state).tournament_tables,
                state.player_names == old(state).player_names,
                state.player_accounts == old(state).player_accounts,
                state.account_players == old(state).account_players,
                state.total_hands_played == old(state).total_hands_played,
                state.next_hand_id == old(state).next_hand_id,
                state.base_seed == old(state).base_seed,
                state.owner == old(state).owner,
                forall|i: int|
                    0 <= i < new_table_ids@.len() ==> state.tables.contains_key(
                        #[trigger] new_table_ids@[i],
                    ) && state.tables.spec_get(new_table_ids@[i]).config.table_type
                        == TableType::Tournament && !state.tables.spec_get(
                        new_table_ids@[i],
                    ).hand_in_progress && state.table_tournament.contains_key(new_table_ids@[i])
                        && state.table_tournament.spec_get(new_table_ids@[i]) == cmd.tournament_id
                        && state.tables.spec_get(new_table_ids@[i]).config.stakes
                        == spec_stakes_for_level(t0.config, t0.current_level)
                        && state.tables.spec_get(new_table_ids@[i]).config.max_seats == max_seats
                        && state.tables.spec_get(new_table_ids@[i]).seats@.len()
                        == max_seats as int && (forall|k2: int|
                        0 <= k2 < max_seats as int ==> (#[trigger] state.tables.spec_get(
                            new_table_ids@[i],
                        ).seats@[k2]) == (if i * (max_seats as int) + k2 < n as int {
                            Some(
                                PlayerAtTable {
                                    player_id: t0.registrations.entry_seq()[i * (max_seats as int)
                                        + k2].0,
                                    stack: t0.registrations.entry_seq()[i * (max_seats as int)
                                        + k2].1.total_chips,
                                    current_bet: 0,
                                    status: crate::domain::PlayerStatus::Active,
                                },
                            )
                        } else {
                            None::<PlayerAtTable>
                        })),
            decreases n - base,
        {
            let ghost ids_entry = new_table_ids@;
            let ghost tables_entry = state.tables;
            let table_id: TableId = (cmd.tournament_id << 32u64) | (chunk_index as u64);
            let stakes = stakes_for_tournament_level(&tournament.config, tournament.current_level);
            let table_config = TableConfig {
                max_seats,
                table_type: TableType::Tournament,
                stakes,
                allow_straddle: false,
                allow_run_it_twice: false,
            };
            proof {
                assert(chunk_index as int <= base as int);
                assert((base as int) < n as int);
                assert((n as int) < 0x8000_0000int);
                assert(chunk_index < u32::MAX);
            }
            let name = String::from_str("T#").concat(
                u64_to_string(cmd.tournament_id).as_str(),
            ).concat("/").concat(u64_to_string((chunk_index + 1) as u64).as_str());
            let mut table = Table::new(table_id, name, table_config);
            // Seat this chunk of players, ascending by player id.
            let mut k: usize = 0;
            while k < max_seats as usize && base + k < n
                invariant
                    n == player_ids@.len(),
                    base < n,
                    n < 0x7FFF_FFFF,
                    n == tournament.registrations.spec_len(),
                    forall|a: int, b: int|
                        0 <= a < b < player_ids@.len() ==> player_ids@[a] < player_ids@[b],
                    forall|a: int|
                        0 <= a < player_ids@.len() ==> tournament.registrations.contains_key(
                            #[trigger] player_ids@[a],
                        ),
                    max_seats == tournament.config.table_size,
                    0 <= k <= max_seats as usize,
                    0 <= base,
                    base + k <= n,
                    n == t0.registrations.spec_len(),
                    t0.registrations.wf(),
                    forall|a: int|
                        0 <= a < player_ids@.len() ==> player_ids@[a]
                            == t0.registrations.entry_seq()[a].0,
                    table.seats@.len() == max_seats as int,
                    table.config == table_config,
                    table.id == table_id,
                    table.hand_in_progress == false,
                    tournament.wf(),
                    tournament.id == t0.id,
                    tournament.owner == t0.owner,
                    tournament.config == t0.config,
                    tournament.status == t0.status,
                    tournament.current_level == t0.current_level,
                    forall|q: PlayerId|
                        tournament.registrations.contains_key(q) == t0.registrations.contains_key(
                            q,
                        ),
                    forall|q: PlayerId|
                        t0.registrations.contains_key(q) ==> tournament.registrations.spec_get(
                            q,
                        ).total_chips == t0.registrations.spec_get(q).total_chips
                            && tournament.registrations.spec_get(q).is_busted
                            == t0.registrations.spec_get(q).is_busted,
                    forall|j: int|
                        0 <= j < tournament.registrations.entry_seq().len()
                            ==> (#[trigger] tournament.registrations.entry_seq()[j]).0
                            == t0.registrations.entry_seq()[j].0,
                    base == chunk_index as int * (max_seats as int),
                    table_id == (cmd.tournament_id << 32u64) | (chunk_index as u64),
                    forall|a: int|
                        0 <= a < base ==> (#[trigger] tournament.registrations.spec_get(
                            player_ids@[a],
                        )).table_id == Some(
                            (cmd.tournament_id << 32u64) | ((a / (max_seats as int)) as u64),
                        ) && tournament.registrations.spec_get(player_ids@[a]).seat_index == Some(
                            (a % (max_seats as int)) as u8,
                        ),
                    forall|a: int|
                        base <= a < base + k ==> (#[trigger] tournament.registrations.spec_get(
                            player_ids@[a],
                        )).table_id == Some(table_id) && tournament.registrations.spec_get(
                            player_ids@[a],
                        ).seat_index == Some((a - base) as u8),
                    forall|s: int|
                        0 <= s < k ==> (#[trigger] table.seats@[s]) == Some(
                            PlayerAtTable {
                                player_id: t0.registrations.entry_seq()[base + s].0,
                                stack: t0.registrations.entry_seq()[base + s].1.total_chips,
                                current_bet: 0,
                                status: crate::domain::PlayerStatus::Active,
                            },
                        ),
                    forall|s: int| k <= s < table.seats@.len() ==> (#[trigger] table.seats@[s]) is None,
                decreases max_seats as usize - k,
            {
                let pid = player_ids[base + k];
                match tournament.registrations.index_of(pid) {
                    Some(j) => {
                        let reg = *tournament.registrations.val_at(j);
                        tournament.registrations.set_val_at(
                            j,
                            crate::tournament::Registration {
                                table_id: Some(table_id),
                                seat_index: Some(k as u8),
                                ..reg
                            },
                        );
                        let pat = PlayerAtTable::new(pid, reg.total_chips);
                        let ghost tb0 = table;
                        let slot = &mut table.seats[k];
                        *slot = Some(pat);
                        proof {
                            assert(table.seats@ == tb0.seats@.update(k as int, Some(pat)));
                            t0.registrations.lemma_entry_is_get(base + k as int);
                            assert(reg.total_chips == t0.registrations.entry_seq()[base
                                + k as int].1.total_chips);
                            assert(pid == t0.registrations.entry_seq()[base + k as int].0);
                        }
                    },
                    None => {
                        proof {
                            assert(false);
                        }
                    },
                }
                k += 1;
            }
            proof {
                // Seats hold strictly ascending player ids, so occupancy is
                // injective.
                assert forall|i: int, j: int|
                    0 <= i < j < table.seats@.len() && (#[trigger] table.seats@[i]) is Some && (
                #[trigger] table.seats@[j]) is Some implies table.seats@[i]->0.player_id
                    != table.seats@[j]->0.player_id by {
                    assert(i < k as int && j < k as int);
                    assert(player_ids@[base + i] < player_ids@[base + j]);
                    assert(table.seats@[i]->0.player_id == player_ids@[base + i]);
                    assert(table.seats@[j]->0.player_id == player_ids@[base + j]);
                }
                assert(table.wf());
                // The chunk fills exactly the seats whose global index is a
                // registered player.
                assert forall|k2: int|
                    0 <= k2 < table.seats@.len() implies (#[trigger] table.seats@[k2]) == (if
                    chunk_index as int * (max_seats as int) + k2 < n as int {
                        Some(
                            PlayerAtTable {
                                player_id: t0.registrations.entry_seq()[chunk_index as int * (
                                max_seats as int) + k2].0,
                                stack: t0.registrations.entry_seq()[chunk_index as int * (
                                max_seats as int) + k2].1.total_chips,
                                current_bet: 0,
                                status: crate::domain::PlayerStatus::Active,
                            },
                        )
                    } else {
                        None::<PlayerAtTable>
                    }) by {
                    if k2 < k as int {
                        assert(base + k2 < n);
                    } else {
                        assert(k as int == max_seats as int || base + k as int == n as int);
                        assert(base + k2 >= n);
                    }
                }
                // The chunk-local seats are exactly the division form of the
                // global layout.
                assert forall|a: int|
                    base <= a < base + k implies (#[trigger] tournament.registrations.spec_get(
                        player_ids@[a],
                    )).table_id == Some(
                        (cmd.tournament_id << 32u64) | ((a / (max_seats as int)) as u64),
                    ) && tournament.registrations.spec_get(player_ids@[a]).seat_index == Some(
                        (a % (max_seats as int)) as u8,
                    ) by {
                    assert(a / (max_seats as int) == chunk_index as int && a % (max_seats as int)
                        == a - base) by (nonlinear_arith)
                        requires
                            base == chunk_index as int * (max_seats as int),
                            base <= a < base + (max_seats as int),
                            max_seats >= 1,
                    ;
                }
            }
            state.table_tournament.insert(table_id, cmd.tournament_id);
            let ghost state_pre = *state;
            state.tables.insert(table_id, table);
            state.active_hands.insert(table_id, None);
            new_table_ids.push(table_id);
            proof {
                lemma_state_wf_after_table_touch(state_pre, *state, table_id);
                assert forall|i: int|
                    0 <= i < new_table_ids@.len() implies state.tables.contains_key(
                    #[trigger] new_table_ids@[i],
                ) && (new_table_ids@[i] == table_id || state.tables.spec_get(new_table_ids@[i])
                    == state_pre.tables.spec_get(new_table_ids@[i]))
                    && state.table_tournament.contains_key(new_table_ids@[i])
                    && state.table_tournament.spec_get(new_table_ids@[i])
                    == cmd.tournament_id by {
                    if i < new_table_ids@.len() - 1 {
                        assert(new_table_ids@[i] == ((cmd.tournament_id << 32u64) | (i as u64)));
                        lemma_packed_ids_distinct(cmd.tournament_id, i as u64, chunk_index as u64);
                        assert(new_table_ids@[i] != table_id);
                        assert(state_pre.tables.contains_key(new_table_ids@[i]));
                        assert(state_pre.table_tournament.contains_key(new_table_ids@[i]));
                    } else {
                        assert(new_table_ids@[i] == table_id);
                    }
                }
            }
            let ghost prev_chunk = chunk_index;
            let ghost prev_base = base;
            chunk_index = chunk_index + 1;
            base = if n - base > max_seats as usize {
                base + max_seats as usize
            } else {
                n
            };
            proof {
                assert((prev_chunk as int + 1) * (max_seats as int) == prev_chunk as int * (
                max_seats as int) + (max_seats as int)) by (nonlinear_arith);
                assert(tables_entry == state_pre.tables);
                assert forall|i: int|
                    0 <= i < new_table_ids@.len() implies state.tables.contains_key(
                    #[trigger] new_table_ids@[i],
                ) && state.tables.spec_get(new_table_ids@[i]).config.table_type
                    == TableType::Tournament && !state.tables.spec_get(
                    new_table_ids@[i],
                ).hand_in_progress && state.table_tournament.contains_key(new_table_ids@[i])
                    && state.table_tournament.spec_get(new_table_ids@[i]) == cmd.tournament_id
                    && state.tables.spec_get(new_table_ids@[i]).config.stakes
                    == spec_stakes_for_level(t0.config, t0.current_level)
                    && state.tables.spec_get(new_table_ids@[i]).config.max_seats == max_seats
                    && state.tables.spec_get(new_table_ids@[i]).seats@.len() == max_seats as int
                    && (forall|k2: int|
                    0 <= k2 < max_seats as int ==> (#[trigger] state.tables.spec_get(
                        new_table_ids@[i],
                    ).seats@[k2]) == (if i * (max_seats as int) + k2 < n as int {
                        Some(
                            PlayerAtTable {
                                player_id: t0.registrations.entry_seq()[i * (max_seats as int)
                                    + k2].0,
                                stack: t0.registrations.entry_seq()[i * (max_seats as int)
                                    + k2].1.total_chips,
                                current_bet: 0,
                                status: crate::domain::PlayerStatus::Active,
                            },
                        )
                    } else {
                        None::<PlayerAtTable>
                    })) by {
                    if i < new_table_ids@.len() - 1 {
                        assert(new_table_ids@[i] == ids_entry[i]);
                        assert(new_table_ids@[i] == ((cmd.tournament_id << 32u64) | (i as u64)));
                        assert(table_id == ((cmd.tournament_id << 32u64) | (prev_chunk as u64)));
                        lemma_packed_ids_distinct(cmd.tournament_id, i as u64, prev_chunk as u64);
                        assert(new_table_ids@[i] != table_id);
                        assert(state.tables.spec_get(new_table_ids@[i])
                            == state_pre.tables.spec_get(new_table_ids@[i]));
                        assert(state.tables.spec_get(new_table_ids@[i])
                            == tables_entry.spec_get(new_table_ids@[i]));
                    } else {
                        assert(new_table_ids@[i] == table_id);
                        assert(i == prev_chunk as int);
                        assert(state.tables.spec_get(table_id).seats@.len() == max_seats as int);
                    }
                }
            }
        }
        proof {
            // Every registration was walked, so every registered player now
            // has a table assignment.
            assert forall|q: PlayerId|
                tournament.registrations.contains_key(q) implies (
            #[trigger] tournament.registrations.spec_get(q)).table_id is Some
                && tournament.registrations.spec_get(q).seat_index is Some by {
                let i = choose|i: int|
                    0 <= i < tournament.registrations.entry_seq().len() && (
                    #[trigger] tournament.registrations.entry_seq()[i]).0 == q;
                assert(player_ids@[i] == q);
                assert(i < base);
            }
        }
        proof {
            // The chunk count is exactly what the players need.
            assert(base == n);
            if n > 0 {
                assert(chunk_index as int == (n as int + (max_seats as int) - 1) / (
                max_seats as int)) by (nonlinear_arith)
                    requires
                        n as int <= chunk_index as int * (max_seats as int),
                        chunk_index as int * (max_seats as int) < n as int + (max_seats as int),
                        max_seats >= 1,
                        n >= 1,
                ;
                assert(chunk_index as int == spec_chunks_needed(n as int, max_seats as int));
            } else {
                assert(chunk_index as int == 0);
            }
        }
        proof {
            // Every registration was walked in key order, so the stored
            // layout is exactly the chunked division form.
            assert(base == n);
            assert forall|a: int|
                0 <= a < t0.registrations.entry_seq().len() implies {
                let q = (#[trigger] t0.registrations.entry_seq()[a]).0;
                &&& tournament.registrations.spec_get(q).table_id == Some(
                    (cmd.tournament_id << 32u64) | ((a / (t0.config.table_size as int)) as u64),
                )
                &&& tournament.registrations.spec_get(q).seat_index == Some(
                    (a % (t0.config.table_size as int)) as u8,
                )
            } by {
                assert(player_ids@[a] == t0.registrations.entry_seq()[a].0);
                assert(tournament.registrations.spec_get(player_ids@[a]).table_id == Some(
                    (cmd.tournament_id << 32u64) | ((a / (max_seats as int)) as u64),
                ));
            }
        }
        match tournament.start(0) {
            Ok(()) => {},
            Err(_) => {
                proof {
                    assert(false);
                }
            },
        }
        let ghost state_pre = *state;
        state.tournament_tables.insert(cmd.tournament_id, new_table_ids);
        let running = crate::view::tables_running_for(state, cmd.tournament_id);
        let view = crate::view::build_tournament_view(&tournament, running);
        state.tournaments.insert(cmd.tournament_id, tournament);
        proof {
            assert forall|t: TournamentId|
                #[trigger] state.tournaments.contains_key(t) implies state.tournaments.spec_get(
                t,
            ).wf() && state.tournaments.spec_get(t).id == t by {
                if t != cmd.tournament_id {
                    assert(state_pre.tournaments.contains_key(t));
                    assert(old(state).tournaments.contains_key(t));
                }
            }
        }
        Ok(CommandResponse::TournamentState(view))
    }

    /// Move the tournament to its next blind level, if the schedule has one,
    /// and restamp every one of its tournament tables with the level's
    /// stakes; past the last level the current state is kept.  Admin-only.
    pub fn handle_advance_tournament_level(&self, state: &mut PokerState, cmd: AdvanceLevelCommand)
        -> (r: OnchainResult<CommandResponse>)
        requires
            old(state).wf(),
        ensures
            final(state).wf(),
            match r {
                Ok(resp) => {
                    &&& self.signer is Some && old(state).owner == self.signer
                    &&& old(state).tournaments.contains_key(cmd.tournament_id)
                    &&& {
                        let t0 = old(state).tournaments.spec_get(cmd.tournament_id);
                        let t1 = final(state).tournaments.spec_get(cmd.tournament_id);
                        let next = if t0.current_level == u32::MAX {
                            u32::MAX
                        } else {
                            (t0.current_level + 1) as u32
                        };
                        &&& final(state).tournaments.contains_key(cmd.tournament_id)
                        &&& t1 == (Tournament {
                            current_level: if t0.config.blind_structure.spec_has_level(next) {
                                next
                            } else {
                                t0.current_level
                            },
                            ..t0
                        })
                        &&& resp matches CommandResponse::TournamentState(v)
                            && crate::view::tournament_view_matches(
                            v,
                            t1,
                            crate::view::spec_tables_running(*old(state), cmd.tournament_id),
                        )
                    }
                    &&& forall|t2: TableId|
                        final(state).tables.contains_key(t2) == old(state).tables.contains_key(t2)
                    &&& {
                        let listed = crate::view::spec_listed_tables(*old(state), cmd.tournament_id);
                        let t1 = final(state).tournaments.spec_get(cmd.tournament_id);
                        let st = spec_stakes_for_level(t1.config, t1.current_level);
                        &&& forall|t2: TableId|
                            !listed.contains(t2) && old(state).tables.contains_key(t2) ==> final(state).tables.spec_get(t2) == old(state).tables.spec_get(t2)
                        &&& forall|t2: TableId|
                            listed.contains(t2) && old(state).tables.contains_key(t2) && old(state).tables.spec_get(t2).config.table_type == TableType::Tournament
                                ==> final(state).tables.spec_get(t2) == (Table {
                                config: (TableConfig {
                                    stakes: st,
                                    ..old(state).tables.spec_get(t2).config
                                }),
                                ..old(state).tables.spec_get(t2)
                            })
                        &&& forall|t2: TableId|
                            listed.contains(t2) && old(state).tables.contains_key(t2) && old(state).tables.spec_get(t2).config.table_type != TableType::Tournament
                                ==> final(state).tables.spec_get(t2) == old(state).tables.spec_get(t2)
                    }
                    &&& final(state).active_hands == old(state).active_hands
                    &&& final(state).player_names == old(state).player_names
                },
                Err(e) => *final(state) == *old(state) && match e {
                    OnchainError::Unauthenticated => self.signer is None,
                    OnchainError::Unauthorized => self.signer is Some && old(state).owner
                        != self.signer,
                    OnchainError::TournamentNotFound(t) => t == cmd.tournament_id && !old(state).tournaments.contains_key(cmd.tournament_id),
                    _ => false,
                },
            },
    {
        self.ensure_admin(state)?;
        let mut tournament = match state.tournaments.take(cmd.tournament_id) {
            Some(t) => t,
            None => {
                return Err(OnchainError::TournamentNotFound(cmd.tournament_id));
            },
        };
        let ghost t0 = old(state).tournaments.spec_get(cmd.tournament_id);
        // Manual advance: move on only when the schedule has a next level.
        let next_level: u32 = if tournament.current_level == u32::MAX {
            u32::MAX
        } else {
            tournament.current_level + 1
        };
        if tournament.config.blind_structure.level_by_number(next_level).is_some() {
            tournament.current_level = next_level;
        }
        let stakes = stakes_for_tournament_level(&tournament.config, tournament.current_level);
        let ghost gst = stakes;
        // Restamp the tournament's tables with the level's stakes.
        let mut table_ids: Vec<TableId> = Vec::new();
        match state.tournament_tables.get(cmd.tournament_id) {
            Some(ids) => {
                let nids = ids.len();
                let mut i: usize = 0;
                while i < nids
                    invariant
                        nids == ids@.len(),
                        0 <= i <= nids,
                        table_ids@ == ids@.subrange(0, i as int),
                    decreases nids - i,
                {
                    table_ids.push(ids[i]);
                    proof {
                        assert(table_ids@ =~= ids@.subrange(0, i + 1int));
                    }
                    i += 1;
                }
            },
            None => {},
        }
        let nids = table_ids.len();
        let mut i: usize = 0;
        while i < nids
            invariant
                nids == table_ids@.len(),
                0 <= i <= nids,
                state.wf(),
                !state.tournaments.contains_key(cmd.tournament_id),
                forall|t2: TournamentId|
                    t2 != cmd.tournament_id ==> state.tournaments.contains_key(t2) == old(state).tournaments.contains_key(t2),
                forall|t2: TournamentId|
                    t2 != cmd.tournament_id && old(state).tournaments.contains_key(t2)
                        ==> state.tournaments.spec_get(t2) == old(state).tournaments.spec_get(t2),
                forall|t2: TableId|
                    state.tables.contains_key(t2) == old(state).tables.contains_key(t2),
                gst == stakes,
                table_ids@ == crate::view::spec_listed_tables(*old(state), cmd.tournament_id),
                forall|t2: TableId|
                    !table_ids@.subrange(0, i as int).contains(t2) && old(state).tables.contains_key(t2) ==> state.tables.spec_get(t2) == old(state).tables.spec_get(t2),
                forall|t2: TableId|
                    table_ids@.subrange(0, i as int).contains(t2) && old(state).tables.contains_key(t2) && old(state).tables.spec_get(
                        t2,
                    ).config.table_type == TableType::Tournament ==> state.tables.spec_get(t2)
                        == (Table {
                        config: (TableConfig {
                            stakes: gst,
                            ..old(state).tables.spec_get(t2).config
                        }),
                        ..old(state).tables.spec_get(t2)
                    }),
                forall|t2: TableId|
                    table_ids@.subrange(0, i as int).contains(t2) && old(state).tables.contains_key(t2) && old(state).tables.spec_get(
                        t2,
                    ).config.table_type != TableType::Tournament ==> state.tables.spec_get(t2)
                        == old(state).tables.spec_get(t2),
                state.active_hands == old(state).active_hands,
                state.tournament_tables == old(state).tournament_tables,
                state.table_tournament == old(state).table_tournament,
                state.time_controllers == old(state).time_controllers,
                state.player_names == old(state).player_names,
                state.player_accounts == old(state).player_accounts,
                state.account_players == old(state).account_players,
                state.total_hands_played == old(state).total_hands_played,
                state.next_hand_id == old(state).next_hand_id,
                state.base_seed == old(state).base_seed,
                state.owner == old(state).owner,
            decreases nids - i,
        {
            let tid = table_ids[i];
            let ghost state_pre = *state;
            match state.tables.take(tid) {
                Some(mut table) => {
                    let ghost cur = table;
                    if matches!(table.config.table_type, TableType::Tournament) {
                        table.config = TableConfig { stakes, ..table.config };
                        proof {
                            assert(table == (Table {
                                config: (TableConfig { stakes: gst, ..cur.config }),
                                ..cur
                            }));
                        }
                    }
                    let ghost newv = table;
                    state.tables.insert(tid, table);
                    proof {
                        lemma_state_wf_after_table_touch(state_pre, *state, tid);
                        assert(cur == state_pre.tables.spec_get(tid));
                        if old(state).tables.contains_key(tid) {
                            let prev = old(state).tables.spec_get(tid);
                            if prev.config.table_type == TableType::Tournament {
                                if table_ids@.subrange(0, i as int).contains(tid) {
                                    assert(cur == (Table {
                                        config: (TableConfig { stakes: gst, ..prev.config }),
                                        ..prev
                                    }));
                                    assert(cur.config.table_type == prev.config.table_type);
                                    assert(newv == (Table {
                                        config: (TableConfig { stakes: gst, ..cur.config }),
                                        ..cur
                                    }));
                                    assert((TableConfig { stakes: gst, ..cur.config })
                                        == cur.config);
                                } else {
                                    assert(cur == prev);
                                }
                                assert(state.tables.spec_get(tid) == (Table {
                                    config: (TableConfig { stakes: gst, ..prev.config }),
                                    ..prev
                                }));
                            } else {
                                assert(cur == prev);
                                assert(state.tables.spec_get(tid) == prev);
                            }
                        }
                    }
                },
                None => {},
            }
            proof {
                let prefix = table_ids@.subrange(0, i as int);
                let prefix1 = table_ids@.subrange(0, i + 1int);
                assert(prefix1[i as int] == tid);
                assert forall|t2: TableId|
                    #[trigger] prefix1.contains(t2) implies t2 == tid || prefix.contains(t2) by {
                    let j = choose|j: int| 0 <= j < prefix1.len() && #[trigger] prefix1[j] == t2;
                    if j < i as int {
                        assert(prefix[j] == t2);
                    }
                }
                assert forall|t2: TableId|
                    #[trigger] prefix.contains(t2) implies prefix1.contains(t2) by {
                    let j = choose|j: int| 0 <= j < prefix.len() && #[trigger] prefix[j] == t2;
                    assert(prefix1[j] == t2);
                }
                assert(prefix1.contains(tid));
                assert forall|t2: TableId|
                    !prefix1.contains(t2) && old(state).tables.contains_key(t2) implies
                    state.tables.spec_get(t2) == old(state).tables.spec_get(t2) by {
                    assert(!prefix.contains(t2));
                    assert(t2 != tid);
                    assert(state.tables.spec_get(t2) == state_pre.tables.spec_get(t2));
                }
                assert forall|t2: TableId|
                    prefix1.contains(t2) && old(state).tables.contains_key(t2) && old(state).tables.spec_get(t2).config.table_type == TableType::Tournament implies
                    state.tables.spec_get(t2) == (Table {
                        config: (TableConfig {
                            stakes: gst,
                            ..old(state).tables.spec_get(t2).config
                        }),
                        ..old(state).tables.spec_get(t2)
                    }) by {
                    if t2 == tid {
                        assert(state_pre.tables.contains_key(tid));
                        if prefix.contains(tid) {
                            assert(state_pre.tables.spec_get(tid) == (Table {
                                config: (TableConfig {
                                    stakes: gst,
                                    ..old(state).tables.spec_get(tid).config
                                }),
                                ..old(state).tables.spec_get(tid)
                            }));
                        } else {
                            assert(state_pre.tables.spec_get(tid) == old(state).tables.spec_get(
                                tid,
                            ));
                        }
                    } else {
                        assert(prefix.contains(t2));
                        assert(state.tables.spec_get(t2) == state_pre.tables.spec_get(t2));
                    }
                }
                assert forall|t2: TableId|
                    prefix1.contains(t2) && old(state).tables.contains_key(t2) && old(state).tables.spec_get(t2).config.table_type != TableType::Tournament implies
                    state.tables.spec_get(t2) == old(state).tables.spec_get(t2) by {
                    if t2 == tid {
                        assert(state_pre.tables.contains_key(tid));
                        assert(state_pre.tables.spec_get(tid) == old(state).tables.spec_get(tid));
                    } else {
                        assert(prefix.contains(t2));
                        assert(state.tables.spec_get(t2) == state_pre.tables.spec_get(t2));
                    }
                }
            }
            i += 1;
        }
        let running = crate::view::tables_running_for(state, cmd.tournament_id);
        let view = crate::view::build_tournament_view(&tournament, running);
        let ghost state_pre = *state;
        state.tournaments.insert(cmd.tournament_id, tournament);
        proof {
            assert forall|t: TournamentId|
                #[trigger] state.tournaments.contains_key(t) implies state.tournaments.spec_get(
                t,
            ).wf() && state.tournaments.spec_get(t).id == t by {
                if t != cmd.tournament_id {
                    assert(state_pre.tournaments.contains_key(t));
                    assert(old(state).tournaments.contains_key(t));
                }
            }
        }
        Ok(CommandResponse::TournamentState(view))
    }

    /// Close a tournament: the status becomes `Finished` unconditionally.
    /// Admin-only.
    pub fn handle_close_tournament(&self, state: &mut PokerState, cmd: CloseTournamentCommand)
        -> (r: OnchainResult<CommandResponse>)
        requires
            old(state).wf(),
        ensures
            final(state).wf(),
            match r {
                Ok(resp) => {
                    &&& self.signer is Some && old(state).owner == self.signer
                    &&& old(state).tournaments.contains_key(cmd.tournament_id)
                    &&& final(state).tournaments.contains_key(cmd.tournament_id)
                    &&& final(state).tournaments.spec_get(cmd.tournament_id) == (Tournament {
                        status: TournamentStatus::Finished,
                        ..old(state).tournaments.spec_get(cmd.tournament_id)
                    })
                    &&& resp matches CommandResponse::TournamentState(v)
                        && crate::view::tournament_view_matches(
                        v,
                        final(state).tournaments.spec_get(cmd.tournament_id),
                        crate::view::spec_tables_running(*old(state), cmd.tournament_id),
                    )
                    &&& final(state).tables == old(state).tables
                    &&& final(state).active_hands == old(state).active_hands
                    &&& forall|t2: TournamentId|
                        t2 != cmd.tournament_id ==> final(state).tournaments.contains_key(t2)
                            == old(state).tournaments.contains_key(t2)
                    &&& forall|t2: TournamentId|
                        t2 != cmd.tournament_id && old(state).tournaments.contains_key(t2)
                            ==> final(state).tournaments.spec_get(t2) == old(state).tournaments.spec_get(t2)
                },
                Err(e) => *final(state) == *old(state) && match e {
                    OnchainError::Unauthenticated => self.signer is None,
                    OnchainError::Unauthorized => self.signer is Some && old(state).owner
                        != self.signer,
                    OnchainError::TournamentNotFound(t) => t == cmd.tournament_id && !old(state).tournaments.contains_key(cmd.tournament_id),
                    _ => false,
                },
            },
    {
        self.ensure_admin(state)?;
        let mut tournament = match state.tournaments.take(cmd.tournament_id) {
            Some(t) => t,
            None => {
                return Err(OnchainError::TournamentNotFound(cmd.tournament_id));
            },
        };
        tournament.status = TournamentStatus::Finished;
        let running = crate::view::tables_running_for(state, cmd.tournament_id);
        let view = crate::view::build_tournament_view(&tournament, running);
        let ghost state_pre = *state;
        state.tournaments.insert(cmd.tournament_id, tournament);
        proof {
            assert forall|t: TournamentId|
                #[trigger] state.tournaments.contains_key(t) implies state.tournaments.spec_get(
                t,
            ).wf() && state.tournaments.spec_get(t).id == t by {
                if t != cmd.tournament_id {
                    assert(state_pre.tournaments.contains_key(t));
                }
            }
        }
        Ok(CommandResponse::TournamentState(view))
    }
}

impl PokerOrchestrator {
    /// Dispatch one table-scoped command.
    pub fn handle_table_command(&self, state: &mut PokerState, cmd: TableCommand) -> (r:
        OnchainResult<CommandStep>)
        requires
            old(state).wf(),
        ensures
            final(state).wf(),
            r matches Ok(CommandStep::NeedsEngine { request, pending }) ==> (cmd is StartHand
                || cmd is PlayerAction || cmd is TickTable),
            r is Err ==> *final(state) == *old(state),
            r matches Ok(CommandStep::Done(resp)) ==> !(resp is Error),
            spec_table_command_success_due(*self, *old(state), cmd) ==> r is Ok,
    {
        match cmd {
            TableCommand::SeatPlayer(c) => match self.handle_seat_player(state, c) {
                Ok(resp) => Ok(CommandStep::Done(resp)),
                Err(e) => Err(e),
            },
            TableCommand::UnseatPlayer(c) => match self.handle_unseat_player(state, c) {
                Ok(resp) => Ok(CommandStep::Done(resp)),
                Err(e) => Err(e),
            },
            TableCommand::AdjustStack(c) => match self.handle_adjust_stack(state, c) {
                Ok(resp) => Ok(CommandStep::Done(resp)),
                Err(e) => Err(e),
            },
            TableCommand::StartHand(c) => self.handle_start_hand(state, c),
            TableCommand::PlayerAction(c) => self.handle_player_action(state, c),
            TableCommand::TickTable(c) => self.handle_tick_table(state, c),
        }
    }

    /// Dispatch one tournament-scoped command.
    pub fn handle_tournament_command(&self, state: &mut PokerState, cmd: TournamentCommand) -> (r:
        OnchainResult<CommandResponse>)
        requires
            old(state).wf(),
        ensures
            final(state).wf(),
            r is Err ==> *final(state) == *old(state),
            r matches Ok(resp) ==> resp is TournamentState,
            spec_tournament_command_success_due(*self, *old(state), cmd) ==> r is Ok,
    {
        match cmd {
            TournamentCommand::CreateTournament(c) => self.handle_create_tournament(state, c),
            TournamentCommand::RegisterPlayer(c) => self.handle_register_player_in_tournament(
                state,
                c,
            ),
            TournamentCommand::UnregisterPlayer(c) => self
                .handle_unregister_player_from_tournament(state, c),
            TournamentCommand::StartTournament(c) => self.handle_start_tournament(state, c),
            TournamentCommand::AdvanceLevel(c) => self.handle_advance_tournament_level(state, c),
            TournamentCommand::CloseTournament(c) => self.handle_close_tournament(state, c),
        }
    }

    /// The top-level entry point: apply one command.  Every command yields
    /// exactly one step; any failure is converted to an error response here,
    /// so no malformed-but-well-typed input ever raises an unrecoverable
    /// failure, and a failed command has written nothing.
    pub fn execute_command(&self, state: &mut PokerState, cmd: Command) -> (step: CommandStep)
        requires
            old(state).wf(),
        ensures
            final(state).wf(),
            step matches CommandStep::NeedsEngine { request, pending } ==> cmd matches
                Command::TableCommand(tc) && (tc is StartHand || tc is PlayerAction
                || tc is TickTable),
            (step matches CommandStep::Done(resp) && resp is Error) ==> *final(state) == *old(state),
            (match cmd {
                Command::CreateTable(c) => (spec_admin_ok(*self, *old(state)) && !old(state).tables.contains_key(c.table_id)) ==> (step matches CommandStep::Done(resp)
                    && resp is TableCreated),
                Command::TableCommand(tc) => spec_table_command_success_due(
                    *self,
                    *old(state),
                    tc,
                ) ==> !(step matches CommandStep::Done(resp) && resp is Error),
                Command::TournamentCommand(tc) => spec_tournament_command_success_due(
                    *self,
                    *old(state),
                    tc,
                ) ==> (step matches CommandStep::Done(resp) && resp is TournamentState),
            }),
    {
        let result: OnchainResult<CommandStep> = match cmd {
            Command::CreateTable(c) => match self.handle_create_table(state, c) {
                Ok(resp) => Ok(CommandStep::Done(resp)),
                Err(e) => Err(e),
            },
            Command::TableCommand(tc) => self.handle_table_command(state, tc),
            Command::TournamentCommand(tc) => match self.handle_tournament_command(state, tc) {
                Ok(resp) => Ok(CommandStep::Done(resp)),
                Err(e) => Err(e),
            },
        };
        match result {
            Ok(step) => step,
            Err(err) => CommandStep::Done(self.error_response(&err)),
        }
    }
}

/// Attribute an action kind to the player currently on the clock.
///
/// The read-side mutation surface lets a caller act naming only the table;
/// the seat and player are resolved here from the stored snapshot's current
/// actor, never from the caller, so an action can only ever be attributed to
/// the seat whose turn it is.
pub fn action_for_current_actor(state: &PokerState, table_id: TableId, kind: PlayerActionKind)
    -> (r: Result<PlayerAction, String>)
    requires
        state.wf(),
    ensures
        (match r {
            Ok(a) => {
                &&& state.tables.contains_key(table_id)
                &&& crate::view::spec_active_of(*state, table_id) is Some
                &&& crate::view::spec_active_of(*state, table_id)->0.current_actor is Some
                &&& {
                    let seat = crate::view::spec_active_of(*state, table_id)->0.current_actor->0;
                    let t = state.tables.spec_get(table_id);
                    &&& (seat as int) < t.seats@.len()
                    &&& t.seats@[seat as int] is Some
                    &&& a == (PlayerAction {
                        seat,
                        player_id: t.seats@[seat as int]->0.player_id,
                        kind,
                    })
                }
            },
            Err(m) => {
                ||| (!state.tables.contains_key(table_id) && m@ == "table_not_found: "@
                    + spec_dec_digits(table_id as nat))
                ||| (state.tables.contains_key(table_id) && crate::view::spec_active_of(
                    *state,
                    table_id,
                ) is None && m@ == "no_active_hand_for_table"@)
                ||| {
                    let active = crate::view::spec_active_of(*state, table_id);
                    &&& state.tables.contains_key(table_id)
                    &&& active is Some
                    &&& active->0.current_actor is None
                    &&& m@ == "no_current_actor_for_table"@
                }
                ||| {
                    let active = crate::view::spec_active_of(*state, table_id);
                    &&& state.tables.contains_key(table_id)
                    &&& active is Some
                    &&& active->0.current_actor is Some
                    &&& (active->0.current_actor->0 as int) >= state.tables.spec_get(
                        table_id,
                    ).seats@.len()
                    &&& m@ == "current_actor_seat_out_of_bounds"@
                }
                ||| {
                    let active = crate::view::spec_active_of(*state, table_id);
                    &&& state.tables.contains_key(table_id)
                    &&& active is Some
                    &&& active->0.current_actor is Some
                    &&& (active->0.current_actor->0 as int) < state.tables.spec_get(
                        table_id,
                    ).seats@.len()
                    &&& state.tables.spec_get(table_id).seats@[active->0.current_actor->0 as int]
                        is None
                    &&& m@ == "current_actor_seat_empty"@
                }
            },
        }),
{
    let table = match state.tables.get(table_id) {
        Some(t) => t,
        None => {
            return Err(
                String::from_str("table_not_found: ").concat(u64_to_string(table_id).as_str()),
            );
        },
    };
    let actor: Option<SeatIndex> = match state.active_hands.get(table_id) {
        Some(slot) => match slot {
            Some(snapshot) => match snapshot.current_actor {
                Some(seat) => Some(seat),
                None => {
                    return Err(String::from_str("no_current_actor_for_table"));
                },
            },
            None => None,
        },
        None => None,
    };
    let seat = match actor {
        Some(seat) => seat,
        None => {
            return Err(String::from_str("no_active_hand_for_table"));
        },
    };
    let idx = seat as usize;
    if idx >= table.seats.len() {
        return Err(String::from_str("current_actor_seat_out_of_bounds"));
    }
    match &table.seats[idx] {
        Some(p) => Ok(PlayerAction { seat, player_id: p.player_id, kind }),
        None => Err(String::from_str("current_actor_seat_empty")),
    }
}

/// A counter's saturating successor: the id handed to the next hand, and the
/// bump applied to the hands-played total.
pub open spec fn spec_saturating_succ(current: u64) -> u64 {
    if current == u64::MAX {
        u64::MAX
    } else {
        (current + 1) as u64
    }
}

/// A stack adjusted by a signed delta, saturating at zero and at the chip
/// ceiling: `max(0, min(u64::MAX, S + D))`.
pub open spec fn spec_adjusted_stack(s: Chips, d: i64) -> Chips {
    let v = s + d;
    if v < 0 {
        0
    } else if v > u64::MAX {
        u64::MAX
    } else {
        v as u64
    }
}

/// The ante type an API ante type maps to.
pub open spec fn spec_map_ante(a: AnteTypeApi) -> AnteType {
    match a {
        AnteTypeApi::NoAnte => AnteType::NoAnte,
        AnteTypeApi::Classic => AnteType::Classic,
        AnteTypeApi::BigBlind => AnteType::BigBlind,
    }
}

/// After one table is created or checked back in, with every other part of
/// the state either untouched or coherently updated, the whole-state
/// invariant holds again.  The touched table must be well-formed, keyed by
/// its own id, and paired with a hand-session slot that matches its
/// `hand_in_progress` flag.
proof fn lemma_state_wf_after_table_touch(pre: PokerState, post: PokerState, id: TableId)
    requires
        pre.wf(),
        post.tables.wf(),
        post.active_hands.wf(),
        post.tables.contains_key(id),
        post.tables.spec_get(id).wf(),
        post.tables.spec_get(id).id == id,
        post.active_hands.contains_key(id),
        (post.tables.spec_get(id).hand_in_progress <==> post.active_hands.spec_get(id) is Some),
        forall|t2: TableId|
            t2 != id ==> post.tables.contains_key(t2) == pre.tables.contains_key(t2),
        forall|t2: TableId|
            t2 != id && pre.tables.contains_key(t2) ==> post.tables.spec_get(t2)
                == pre.tables.spec_get(t2),
        forall|t2: TableId|
            t2 != id ==> post.active_hands.contains_key(t2) == pre.active_hands.contains_key(t2),
        forall|t2: TableId|
            t2 != id && pre.active_hands.contains_key(t2) ==> post.active_hands.spec_get(t2)
                == pre.active_hands.spec_get(t2),
        post.tournaments == pre.tournaments,
        post.tournament_tables == pre.tournament_tables,
        post.table_tournament == pre.table_tournament,
        post.time_controllers == pre.time_controllers,
        post.player_names.wf(),
        post.player_accounts == pre.player_accounts,
        post.account_players == pre.account_players,
    ensures
        post.wf(),
{
    assert forall|t: TableId| #[trigger] post.tables.contains_key(t) implies post.tables.spec_get(
        t,
    ).wf() && post.tables.spec_get(t).id == t by {
        if t != id {
            assert(pre.tables.contains_key(t));
        }
    }
    assert forall|t: TableId| #[trigger] post.tables.contains_key(t) implies
        post.active_hands.contains_key(t) && (post.tables.spec_get(t).hand_in_progress
        <==> post.active_hands.spec_get(t) is Some) by {
        if t != id {
            assert(pre.tables.contains_key(t));
        }
    }
}

/// Map the command-surface ante type into the domain model.
pub fn map_ante_type(api: AnteTypeApi) -> (r: AnteType)
    ensures
        r == match api {
            AnteTypeApi::NoAnte => AnteType::NoAnte,
            AnteTypeApi::Classic => AnteType::Classic,
            AnteTypeApi::BigBlind => AnteType::BigBlind,
        },
{
    match api {
        AnteTypeApi::NoAnte => AnteType::NoAnte,
        AnteTypeApi::Classic => AnteType::Classic,
        AnteTypeApi::BigBlind => AnteType::BigBlind,
    }
}

/// The stakes a blind-level entry prescribes, under the tournament's ante
/// type.
pub open spec fn spec_stakes_of(l: BlindLevelConfig, ante_type: AnteType) -> TableStakes {
    TableStakes { small_blind: l.small_blind, big_blind: l.big_blind, ante_type, ante: l.ante }
}

/// The stakes a tournament level resolves to: the first schedule entry for
/// that level, the entry for level 1 when the level is past the schedule, or
/// the first entry as a last resort, always under the tournament's ante type.
pub open spec fn spec_stakes_for_level(config: TournamentConfig, level: u32) -> TableStakes {
    spec_stakes_of(
        if config.blind_structure.spec_has_level(level) {
            crate::tournament::spec_level_entry(config.blind_structure.levels@, level)
        } else if config.blind_structure.spec_has_level(1u32) {
            crate::tournament::spec_level_entry(config.blind_structure.levels@, 1u32)
        } else {
            config.blind_structure.levels@[0]
        },
        config.ante_type,
    )
}

/// How many tables a chunked seating of `n` players needs at `size` seats
/// per table.
pub open spec fn spec_chunks_needed(n: int, size: int) -> int {
    if n <= 0 {
        0
    } else {
        (n + size - 1) / size
    }
}

/// Packed table ids with distinct low words are distinct.
proof fn lemma_packed_ids_distinct(t: u64, a: u64, b: u64)
    requires
        a < 0x1_0000_0000u64,
        b < 0x1_0000_0000u64,
        a != b,
    ensures
        ((t << 32u64) | a) != ((t << 32u64) | b),
{
    assert(a < 0x1_0000_0000u64 && b < 0x1_0000_0000u64 && a != b ==> ((t << 32u64) | a) != ((t
        << 32u64) | b)) by (bit_vector);
}

/// The table stakes for a tournament level: the entry for that level, the
/// entry for level 1 when the level is past the schedule, or the first entry
/// as a last resort.
pub fn stakes_for_tournament_level(config: &TournamentConfig, level: u32) -> (r: TableStakes)
    requires
        config.blind_structure.levels@.len() > 0,
    ensures
        r == spec_stakes_for_level(*config, level),
{
    let l: BlindLevelConfig = match config.blind_structure.level_by_number(level) {
        Some(l) => l,
        None => match config.blind_structure.level_by_number(1) {
            Some(l) => l,
            None => config.blind_structure.levels[0],
        },
    };
    TableStakes::new(l.small_blind, l.big_blind, config.ante_type, l.ante)
}

} // verus!
