//! The persisted application state and its cross-entity invariants.
//!
//! Everything the application stores lives in this one owned value: keyed
//! collections (tables, hand sessions, tournaments, indexes, time
//! controllers, names, identity bindings) and process-wide scalars (hand
//! counter, base seed, owner).  The host checks the state out of the store,
//! runs one command against it, and checks it back in; `wf` is the invariant
//! that every command preserves.

use vstd::prelude::*;

use crate::domain::{AccountId, PlayerId, Table, TableId, TournamentId};
use crate::hand::HandEngineSnapshot;
use crate::idmap::IdMap;
use crate::time_ctrl::TimeController;
use crate::tournament::Tournament;

verus! {

/// Parameters supplied when the application is deployed.
pub struct ApplicationParameters {
    pub owner: AccountId,
    /// Base seed for deterministic deals; `None` defaults to 1.
    pub base_seed: Option<u64>,
}

pub struct PokerState {
    /// Tables, cash and tournament alike, by table id.
    pub tables: IdMap<Table>,
    /// The at-most-one in-progress hand session per table.
    pub active_hands: IdMap<Option<HandEngineSnapshot>>,
    /// Tournaments by tournament id.
    pub tournaments: IdMap<Tournament>,
    /// Tournament to its current tables.
    pub tournament_tables: IdMap<Vec<TableId>>,
    /// Table back to its tournament, for tournament tables only.
    pub table_tournament: IdMap<TournamentId>,
    /// Per-table time controllers, created lazily.
    pub time_controllers: IdMap<TimeController>,
    /// Global count of hands ever started.
    pub total_hands_played: u64,
    /// The id handed to the next hand; strictly increasing.
    pub next_hand_id: u64,
    /// Base seed for the deterministic deal derivation.
    pub base_seed: u64,
    /// The configured application owner, if instantiated.
    pub owner: Option<AccountId>,
    /// Display names by player id.
    pub player_names: IdMap<String>,
    /// Player id to the account that owns it (one half of the bijection).
    pub player_accounts: IdMap<AccountId>,
    /// Account to the player id it controls (the other half).
    pub account_players: IdMap<PlayerId>,
}

impl PokerState {
    /// The identity binding is a bijection: each bound account controls
    /// exactly one player id and vice versa.
    pub open spec fn identity_bijective(self) -> bool {
        &&& forall|a: AccountId|
            self.account_players.contains_key(a) ==> {
                let p = #[trigger] self.account_players.spec_get(a);
                self.player_accounts.contains_key(p) && self.player_accounts.spec_get(p) == a
            }
        &&& forall|p: PlayerId|
            self.player_accounts.contains_key(p) ==> {
                let a = #[trigger] self.player_accounts.spec_get(p);
                self.account_players.contains_key(a) && self.account_players.spec_get(a) == p
            }
    }

    /// A table is marked in-hand exactly when a hand-session snapshot is
    /// stored for it: the central concurrency invariant, at most one
    /// in-progress hand per table, with no orphaned snapshots for live
    /// tables.
    pub open spec fn hands_consistent(self) -> bool {
        forall|t: TableId|
            #[trigger] self.tables.contains_key(t) ==> self.active_hands.contains_key(t) && (
            self.tables.spec_get(t).hand_in_progress <==> self.active_hands.spec_get(t) is Some)
    }

    pub open spec fn wf(self) -> bool {
        &&& self.tables.wf()
        &&& self.active_hands.wf()
        &&& self.tournaments.wf()
        &&& self.tournament_tables.wf()
        &&& self.table_tournament.wf()
        &&& self.time_controllers.wf()
        &&& self.player_names.wf()
        &&& self.player_accounts.wf()
        &&& self.account_players.wf()
        &&& forall|t: TableId|
            #[trigger] self.tables.contains_key(t) ==> self.tables.spec_get(t).wf()
                && self.tables.spec_get(t).id == t
        &&& forall|t: TournamentId|
            #[trigger] self.tournaments.contains_key(t) ==> self.tournaments.spec_get(t).wf()
                && self.tournaments.spec_get(t).id == t
        &&& forall|t: TableId|
            #[trigger] self.time_controllers.contains_key(t) ==> self.time_controllers.spec_get(
                t,
            ).wf()
        &&& self.hands_consistent()
        &&& self.identity_bijective()
    }

    /// A completely empty state, before instantiation.
    pub fn new() -> (s: Self)
        ensures
            s.wf(),
            s.tables.spec_len() == 0,
            s.active_hands.spec_len() == 0,
            s.tournaments.spec_len() == 0,
            s.tournament_tables.spec_len() == 0,
            s.table_tournament.spec_len() == 0,
            s.time_controllers.spec_len() == 0,
            s.player_names.spec_len() == 0,
            s.player_accounts.spec_len() == 0,
            s.account_players.spec_len() == 0,
            s.total_hands_played == 0,
            s.next_hand_id == 0,
            s.base_seed == 1,
            s.owner is None,
    {
        PokerState {
            tables: IdMap::new(),
            active_hands: IdMap::new(),
            tournaments: IdMap::new(),
            tournament_tables: IdMap::new(),
            table_tournament: IdMap::new(),
            time_controllers: IdMap::new(),
            total_hands_played: 0,
            next_hand_id: 0,
            base_seed: 1,
            owner: None,
            player_names: IdMap::new(),
            player_accounts: IdMap::new(),
            account_players: IdMap::new(),
        }
    }

    /// Apply the deployment parameters: record the owner, take the base seed
    /// (default 1), and reset the hand counter.
    pub fn instantiate(&mut self, params: &ApplicationParameters)
        requires
            old(self).wf(),
        ensures
            final(self).wf(),
            final(self).owner == Some(params.owner),
            final(self).base_seed == match params.base_seed {
                Some(s) => s,
                None => 1u64,
            },
            final(self).next_hand_id == 0,
            final(self).tables == old(self).tables,
            final(self).active_hands == old(self).active_hands,
            final(self).tournaments == old(self).tournaments,
            final(self).tournament_tables == old(self).tournament_tables,
            final(self).table_tournament == old(self).table_tournament,
            final(self).time_controllers == old(self).time_controllers,
            final(self).player_names == old(self).player_names,
            final(self).player_accounts == old(self).player_accounts,
            final(self).account_players == old(self).account_players,
            final(self).total_hands_played == old(self).total_hands_played,
    {
        self.owner = Some(params.owner);
        self.base_seed = match params.base_seed {
            Some(s) => s,
            None => 1,
        };
        self.next_hand_id = 0;
    }
}

/// Once bound, identity follows both ways: the player id an account controls
/// points back at that very account, so no player id can be shared by two
/// accounts and no account can control two player ids.
pub proof fn lemma_identity_binding_bijective(s: PokerState, a: AccountId, b: AccountId)
    requires
        s.wf(),
        s.account_players.contains_key(a),
        s.account_players.contains_key(b),
        s.account_players.spec_get(a) == s.account_players.spec_get(b),
    ensures
        a == b,
        s.player_accounts.spec_get(s.account_players.spec_get(a)) == a,
{
}

} // verus!
