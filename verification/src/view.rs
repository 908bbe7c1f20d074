//! The view projector: pure read-only DTOs over the stored state.
//!
//! Both the mutating command path and the separate query path build their
//! responses here, so identical inputs always project to identical views.

use vstd::prelude::*;
use vstd::string::*;

use crate::commands::{PlayerAtTableDto, TableViewDto, TournamentViewDto};
use crate::domain::{Card, PlayerId, SeatIndex, Table, TableId, TournamentId};
use crate::hand::HandEngineSnapshot;
use crate::idmap::IdMap;
use crate::state::PokerState;
use crate::textutil::{spec_dec_digits, u64_to_string};
use crate::tournament::{Tournament, TournamentStatus};

verus! {

/// The display name served for a player: the stored name, or a generic
/// placeholder naming the player id.
pub open spec fn spec_display_name(names: IdMap<String>, pid: PlayerId) -> Seq<char> {
    if names.contains_key(pid) {
        names.spec_get(pid)@
    } else {
        "Player #"@ + spec_dec_digits(pid as nat)
    }
}

pub fn display_name_for(names: &IdMap<String>, pid: PlayerId) -> (s: String)
    requires
        names.wf(),
    ensures
        s@ == spec_display_name(*names, pid),
{
    match names.get(pid) {
        Some(n) => n.clone(),
        None => String::from_str("Player #").concat(u64_to_string(pid).as_str()),
    }
}

/// One projected player corresponds to one occupied seat of the table, with
/// hole cards withheld and the display name resolved.
pub open spec fn dto_matches_seat(d: PlayerAtTableDto, t: Table, names: IdMap<String>) -> bool {
    &&& (d.seat_index as int) < t.seats@.len()
    &&& t.seats@[d.seat_index as int] is Some
    &&& {
        let p = t.seats@[d.seat_index as int]->0;
        &&& d.player_id == p.player_id
        &&& d.stack == p.stack
        &&& d.current_bet == p.current_bet
        &&& d.status == p.status
    }
    &&& d.hole_cards is None
    &&& d.display_name@ == spec_display_name(names, d.player_id)
}

/// What a faithful table view contains: every scalar copied from the table,
/// the current actor taken from the snapshot (never the table), and one
/// player projection per occupied seat, in seat order.
pub open spec fn table_view_matches(
    v: TableViewDto,
    t: Table,
    actor: Option<SeatIndex>,
    names: IdMap<String>,
) -> bool {
    &&& v.table_id == t.id
    &&& v.name@ == t.name@
    &&& v.max_seats == t.config.max_seats
    &&& v.small_blind == t.config.stakes.small_blind
    &&& v.big_blind == t.config.stakes.big_blind
    &&& v.ante == t.config.stakes.ante
    &&& v.street == t.street
    &&& v.dealer_button == t.dealer_button
    &&& v.total_pot == t.total_pot
    &&& v.board@ == t.board@
    &&& v.hand_in_progress == t.hand_in_progress
    &&& v.current_actor_seat == actor
    &&& v.players@.len() == t.spec_seated_count()
    &&& forall|k: int|
        0 <= k < v.players@.len() ==> dto_matches_seat(#[trigger] v.players@[k], t, names)
    &&& forall|k1: int, k2: int|
        0 <= k1 < k2 < v.players@.len() ==> v.players@[k1].seat_index < v.players@[k2].seat_index
    &&& forall|i: int|
        0 <= i < t.seats@.len() && (#[trigger] t.seats@[i]) is Some ==> exists|k: int|
            0 <= k < v.players@.len() && (#[trigger] v.players@[k]).seat_index == i
}

/// The current actor named by an optional snapshot.
pub open spec fn spec_actor_of(active: Option<HandEngineSnapshot>) -> Option<SeatIndex> {
    match active {
        Some(s) => s.current_actor,
        None => None,
    }
}

/// Build the read view of a table from the table value, the optional hand
/// snapshot and the display-name lookup.  Pure: no state is written.
pub fn build_table_view(state: &PokerState, table: &Table, active: Option<&HandEngineSnapshot>)
    -> (v: TableViewDto)
    requires
        table.wf(),
        state.player_names.wf(),
    ensures
        table_view_matches(
            v,
            *table,
            match active {
                Some(s) => s.current_actor,
                None => None,
            },
            state.player_names,
        ),
{
    let current_actor_seat: Option<SeatIndex> = match active {
        Some(s) => s.current_actor,
        None => None,
    };
    let nseats = table.seats.len();
    let mut players: Vec<PlayerAtTableDto> = Vec::new();
    let mut i: usize = 0;
    while i < nseats
        invariant
            nseats == table.seats@.len(),
            nseats <= 255,
            table.wf(),
            state.player_names.wf(),
            0 <= i <= nseats,
            players@.len() == table.occupied_below(i as int),
            forall|k: int|
                0 <= k < players@.len() ==> dto_matches_seat(
                    #[trigger] players@[k],
                    *table,
                    state.player_names,
                ),
            forall|k: int|
                0 <= k < players@.len() ==> (#[trigger] players@[k]).seat_index < i,
            forall|k1: int, k2: int|
                0 <= k1 < k2 < players@.len() ==> players@[k1].seat_index
                    < players@[k2].seat_index,
            forall|j: int|
                0 <= j < i && (#[trigger] table.seats@[j]) is Some ==> exists|k: int|
                    0 <= k < players@.len() && (#[trigger] players@[k]).seat_index == j,
        decreases nseats - i,
    {
        match &table.seats[i] {
            Some(p) => {
                let display_name = display_name_for(&state.player_names, p.player_id);
                let ghost pre = players@;
                players.push(
                    PlayerAtTableDto {
                        player_id: p.player_id,
                        display_name,
                        seat_index: i as u8,
                        stack: p.stack,
                        current_bet: p.current_bet,
                        status: p.status,
                        hole_cards: None,
                    },
                );
                proof {
                    assert forall|j: int|
                        0 <= j < i + 1 && (#[trigger] table.seats@[j]) is Some implies exists|
                        k: int,
                    |
                        0 <= k < players@.len() && (#[trigger] players@[k]).seat_index == j by {
                        if j < i as int {
                            let k = choose|k: int|
                                0 <= k < pre.len() && (#[trigger] pre[k]).seat_index == j;
                            assert(players@[k].seat_index == j);
                        } else {
                            assert(players@[pre.len() as int].seat_index == j);
                        }
                    }
                }
            },
            None => {},
        }
        i += 1;
    }
    let mut board: Vec<Card> = Vec::new();
    let mut b: usize = 0;
    let nb = table.board.len();
    while b < nb
        invariant
            nb == table.board@.len(),
            0 <= b <= nb,
            board@ == table.board@.subrange(0, b as int),
        decreases nb - b,
    {
        board.push(table.board[b]);
        proof {
            assert(board@ =~= table.board@.subrange(0, b + 1int));
        }
        b += 1;
    }
    proof {
        assert(board@ =~= table.board@);
    }
    TableViewDto {
        table_id: table.id,
        name: table.name.clone(),
        max_seats: table.config.max_seats,
        small_blind: table.config.stakes.small_blind,
        big_blind: table.config.stakes.big_blind,
        ante: table.config.stakes.ante,
        street: table.street,
        dealer_button: table.dealer_button,
        total_pot: table.total_pot,
        board,
        players,
        hand_in_progress: table.hand_in_progress,
        current_actor_seat,
    }
}

/// The label served for a tournament status.
pub open spec fn spec_status_label(s: TournamentStatus) -> Seq<char> {
    match s {
        TournamentStatus::Registering => "Registering"@,
        TournamentStatus::Running => "Running"@,
        TournamentStatus::OnBreak => "OnBreak"@,
        TournamentStatus::Finished => "Finished"@,
    }
}

/// What a faithful tournament view contains.
pub open spec fn tournament_view_matches(
    v: TournamentViewDto,
    t: Tournament,
    tables_running: u32,
) -> bool {
    &&& v.tournament_id == t.id
    &&& v.name@ == t.config.name@
    &&& v.status@ == spec_status_label(t.status)
    &&& v.current_level == t.current_level
    &&& v.players_registered == if t.registrations.spec_len() > u32::MAX {
        u32::MAX
    } else {
        t.registrations.spec_len() as u32
    }
    &&& v.tables_running == tables_running
}

/// Build the read view of a tournament.  Pure: no state is written.
pub fn build_tournament_view(t: &Tournament, tables_running: u32) -> (v: TournamentViewDto)
    requires
        t.registrations.wf(),
    ensures
        tournament_view_matches(v, *t, tables_running),
{
    let status = match t.status {
        TournamentStatus::Registering => String::from_str("Registering"),
        TournamentStatus::Running => String::from_str("Running"),
        TournamentStatus::OnBreak => String::from_str("OnBreak"),
        TournamentStatus::Finished => String::from_str("Finished"),
    };
    let nregs = t.registrations.len();
    let players_registered: u32 = if nregs > u32::MAX as usize {
        u32::MAX
    } else {
        nregs as u32
    };
    TournamentViewDto {
        tournament_id: t.id,
        name: t.config.name.clone(),
        status,
        current_level: t.current_level,
        players_registered,
        tables_running,
    }
}

/// Summary statistics for the whole application.
#[derive(Clone, Copy, Debug, PartialEq, Eq, Structural)]
pub struct Summary {
    pub total_hands_played: u64,
    pub tables_count: usize,
    pub tournaments_count: usize,
}

/// Hand, table and tournament counts.
pub fn summary(state: &PokerState) -> (s: Summary)
    ensures
        s.total_hands_played == state.total_hands_played,
        s.tables_count == state.tables.spec_len(),
        s.tournaments_count == state.tournaments.spec_len(),
{
    Summary {
        total_hands_played: state.total_hands_played,
        tables_count: state.tables.len(),
        tournaments_count: state.tournaments.len(),
    }
}

/// The view of one table, with its active hand snapshot resolved.
pub fn table_view_by_id(state: &PokerState, table_id: TableId) -> (r: Option<TableViewDto>)
    requires
        state.wf(),
    ensures
        match r {
            Some(v) => state.tables.contains_key(table_id) && table_view_matches(
                v,
                state.tables.spec_get(table_id),
                spec_actor_of(spec_active_of(*state, table_id)),
                state.player_names,
            ),
            None => !state.tables.contains_key(table_id),
        },
{
    let table = match state.tables.get(table_id) {
        Some(t) => t,
        None => {
            return None;
        },
    };
    let active: Option<&HandEngineSnapshot> = match state.active_hands.get(table_id) {
        Some(slot) => match slot {
            Some(s) => Some(s),
            None => None,
        },
        None => None,
    };
    Some(build_table_view(state, table, active))
}

/// The stored snapshot slot for a table, flattened: a missing entry and an
/// empty slot both read as no active hand.
pub open spec fn spec_active_of(state: PokerState, table_id: TableId) -> Option<
    HandEngineSnapshot,
> {
    if state.active_hands.contains_key(table_id) {
        state.active_hands.spec_get(table_id)
    } else {
        None
    }
}

/// The views of all tables, in ascending table id.
pub fn all_table_views(state: &PokerState) -> (vs: Vec<TableViewDto>)
    requires
        state.wf(),
    ensures
        vs@.len() == state.tables.spec_len(),
        forall|k: int|
            0 <= k < vs@.len() ==> {
                let t = state.tables.entry_seq()[k].1;
                table_view_matches(
                    #[trigger] vs@[k],
                    t,
                    spec_actor_of(spec_active_of(*state, t.id)),
                    state.player_names,
                )
            },
{
    let n = state.tables.len();
    let mut vs: Vec<TableViewDto> = Vec::new();
    let mut i: usize = 0;
    while i < n
        invariant
            n == state.tables.spec_len(),
            state.wf(),
            0 <= i <= n,
            vs@.len() == i,
            forall|k: int|
                0 <= k < i ==> {
                    let t = state.tables.entry_seq()[k].1;
                    table_view_matches(
                        #[trigger] vs@[k],
                        t,
                        spec_actor_of(spec_active_of(*state, t.id)),
                        state.player_names,
                    )
                },
        decreases n - i,
    {
        let tid = state.tables.key_at(i);
        let table = state.tables.val_at(i);
        proof {
            assert(table.id == tid);
        }
        let active: Option<&HandEngineSnapshot> = match state.active_hands.get(tid) {
            Some(slot) => match slot {
                Some(s) => Some(s),
                None => None,
            },
            None => None,
        };
        vs.push(build_table_view(state, table, active));
        i += 1;
    }
    vs
}

/// The views of all tournaments, in ascending tournament id, each with its
/// running-table count.
pub fn all_tournament_views(state: &PokerState) -> (vs: Vec<TournamentViewDto>)
    requires
        state.wf(),
    ensures
        vs@.len() == state.tournaments.spec_len(),
        forall|k: int|
            0 <= k < vs@.len() ==> tournament_view_matches(
                #[trigger] vs@[k],
                state.tournaments.entry_seq()[k].1,
                spec_tables_running(*state, state.tournaments.entry_seq()[k].0),
            ),
{
    let n = state.tournaments.len();
    let mut vs: Vec<TournamentViewDto> = Vec::new();
    let mut i: usize = 0;
    while i < n
        invariant
            n == state.tournaments.spec_len(),
            state.wf(),
            0 <= i <= n,
            vs@.len() == i,
            forall|k: int|
                0 <= k < i ==> tournament_view_matches(
                    #[trigger] vs@[k],
                    state.tournaments.entry_seq()[k].1,
                    spec_tables_running(*state, state.tournaments.entry_seq()[k].0),
                ),
        decreases n - i,
    {
        let tid = state.tournaments.key_at(i);
        let t = state.tournaments.val_at(i);
        vs.push(build_tournament_view(t, tables_running_for(state, tid)));
        i += 1;
    }
    vs
}

/// The number of tables currently recorded for a tournament, saturated to
/// `u32`.
pub open spec fn spec_tables_running(state: PokerState, tournament_id: TournamentId) -> u32 {
    let n: int = if state.tournament_tables.contains_key(tournament_id) {
        state.tournament_tables.spec_get(tournament_id)@.len() as int
    } else {
        0
    };
    if n > u32::MAX {
        u32::MAX
    } else {
        n as u32
    }
}

pub fn tables_running_for(state: &PokerState, tournament_id: TournamentId) -> (n: u32)
    requires
        state.tournament_tables.wf(),
    ensures
        n == spec_tables_running(*state, tournament_id),
{
    match state.tournament_tables.get(tournament_id) {
        Some(ids) => {
            let len = ids.len();
            if len > u32::MAX as usize {
                u32::MAX
            } else {
                len as u32
            }
        },
        None => 0,
    }
}

/// The view of one tournament.
pub fn tournament_view_by_id(state: &PokerState, tournament_id: TournamentId) -> (r: Option<
    TournamentViewDto,
>)
    requires
        state.wf(),
    ensures
        match r {
            Some(v) => state.tournaments.contains_key(tournament_id) && tournament_view_matches(
                v,
                state.tournaments.spec_get(tournament_id),
                spec_tables_running(*state, tournament_id),
            ),
            None => !state.tournaments.contains_key(tournament_id),
        },
{
    let running = tables_running_for(state, tournament_id);
    match state.tournaments.get(tournament_id) {
        Some(t) => Some(build_tournament_view(t, running)),
        None => None,
    }
}

/// The table ids currently recorded for a tournament, or none.
pub open spec fn spec_listed_tables(state: PokerState, tournament_id: TournamentId) -> Seq<
    TableId,
> {
    if state.tournament_tables.contains_key(tournament_id) {
        state.tournament_tables.spec_get(tournament_id)@
    } else {
        Seq::<TableId>::empty()
    }
}

/// How many of the first `n` listed ids name a stored table.
pub open spec fn stored_prefix_count(state: PokerState, ids: Seq<TableId>, n: int) -> int
    decreases n,
{
    if n <= 0 {
        0
    } else {
        stored_prefix_count(state, ids, n - 1) + if state.tables.contains_key(ids[n - 1]) {
            1int
        } else {
            0int
        }
    }
}

/// Whether `v` is the faithful view of some stored table.
pub open spec fn view_of_some_table(state: PokerState, v: TableViewDto) -> bool {
    exists|t: TableId|
        #[trigger] state.tables.contains_key(t) && table_view_matches(
            v,
            state.tables.spec_get(t),
            spec_actor_of(spec_active_of(state, t)),
            state.player_names,
        )
}

/// The views of the tables currently recorded for a tournament, skipping ids
/// with no stored table.
pub fn tournament_table_views(state: &PokerState, tournament_id: TournamentId) -> (vs: Vec<
    TableViewDto,
>)
    requires
        state.wf(),
    ensures
        forall|k: int| 0 <= k < vs@.len() ==> view_of_some_table(*state, #[trigger] vs@[k]),
        vs@.len() == stored_prefix_count(
            *state,
            spec_listed_tables(*state, tournament_id),
            spec_listed_tables(*state, tournament_id).len() as int,
        ),
        forall|i: int|
            0 <= i < spec_listed_tables(*state, tournament_id).len() && state.tables.contains_key(
                #[trigger] spec_listed_tables(*state, tournament_id)[i],
            ) ==> table_view_matches(
                vs@[stored_prefix_count(*state, spec_listed_tables(*state, tournament_id), i)],
                state.tables.spec_get(spec_listed_tables(*state, tournament_id)[i]),
                spec_actor_of(
                    spec_active_of(*state, spec_listed_tables(*state, tournament_id)[i]),
                ),
                state.player_names,
            ),
{
    let mut vs: Vec<TableViewDto> = Vec::new();
    let ids = match state.tournament_tables.get(tournament_id) {
        Some(ids) => ids,
        None => {
            return vs;
        },
    };
    let ghost lids = spec_listed_tables(*state, tournament_id);
    let n = ids.len();
    let mut i: usize = 0;
    while i < n
        invariant
            n == ids@.len(),
            ids@ == lids,
            lids == spec_listed_tables(*state, tournament_id),
            state.wf(),
            0 <= i <= n,
            forall|k: int| 0 <= k < vs@.len() ==> view_of_some_table(*state, #[trigger] vs@[k]),
            vs@.len() == stored_prefix_count(*state, lids, i as int),
            forall|j: int|
                0 <= j < i && state.tables.contains_key(#[trigger] lids[j]) ==> table_view_matches(
                    vs@[stored_prefix_count(*state, lids, j)],
                    state.tables.spec_get(lids[j]),
                    spec_actor_of(spec_active_of(*state, lids[j])),
                    state.player_names,
                ),
        decreases n - i,
    {
        let tid = ids[i];
        match state.tables.get(tid) {
            Some(table) => {
                let active: Option<&HandEngineSnapshot> = match state.active_hands.get(tid) {
                    Some(slot) => match slot {
                        Some(s) => Some(s),
                        None => None,
                    },
                    None => None,
                };
                let ghost pre = vs@;
                vs.push(build_table_view(state, table, active));
                proof {
                    assert forall|k: int|
                        0 <= k < vs@.len() implies view_of_some_table(
                        *state,
                        #[trigger] vs@[k],
                    ) by {
                        if k < pre.len() {
                            assert(vs@[k] == pre[k]);
                        } else {
                            assert(state.tables.contains_key(tid) && table_view_matches(
                                vs@[k],
                                state.tables.spec_get(tid),
                                spec_actor_of(spec_active_of(*state, tid)),
                                state.player_names,
                            ));
                        }
                    }
                    assert forall|j: int|
                        0 <= j < i + 1 && state.tables.contains_key(
                            #[trigger] lids[j],
                        ) implies table_view_matches(
                        vs@[stored_prefix_count(*state, lids, j)],
                        state.tables.spec_get(lids[j]),
                        spec_actor_of(spec_active_of(*state, lids[j])),
                        state.player_names,
                    ) by {
                        if j < i as int {
                            lemma_stored_prefix_count_monotone(*state, lids, j + 1, i as int);
                            lemma_stored_prefix_count_bound(*state, lids, j);
                            assert(stored_prefix_count(*state, lids, j + 1)
                                == stored_prefix_count(*state, lids, j) + 1);
                            assert(stored_prefix_count(*state, lids, j) < pre.len());
                            assert(vs@[stored_prefix_count(*state, lids, j)] == pre[
                                stored_prefix_count(*state, lids, j)]);
                        } else {
                            assert(stored_prefix_count(*state, lids, j) == pre.len());
                        }
                    }
                }
            },
            None => {},
        }
        i += 1;
    }
    vs
}

/// A prefix's stored count never exceeds the prefix length.
proof fn lemma_stored_prefix_count_bound(state: PokerState, ids: Seq<TableId>, n: int)
    requires
        0 <= n <= ids.len(),
    ensures
        0 <= stored_prefix_count(state, ids, n) <= n,
    decreases n,
{
    if n > 0 {
        lemma_stored_prefix_count_bound(state, ids, n - 1);
    }
}

/// Stored counts grow with the prefix.
proof fn lemma_stored_prefix_count_monotone(state: PokerState, ids: Seq<TableId>, a: int, b: int)
    requires
        0 <= a <= b,
    ensures
        stored_prefix_count(state, ids, a) <= stored_prefix_count(state, ids, b),
    decreases b - a,
{
    if a < b {
        lemma_stored_prefix_count_monotone(state, ids, a, b - 1);
    }
}

} // verus!
