//! Tournament domain model: configuration, registrations, busts and the
//! rebalancing plan.
//!
//! A tournament moves through `Registering -> Running -> [OnBreak] ->
//! Finished`; the transitions are one-directional except for pause and
//! resume.  Rebalancing is split into a pure planning step
//! (`compute_rebalance_moves`) and an application step
//! (`apply_rebalance_moves`); the orchestrator executes the plan against the
//! live tables separately, so the algorithm is testable in isolation from
//! storage.

use vstd::prelude::*;

use crate::domain::{AnteType, Chips, PlayerId, SeatIndex, TableId, TournamentId};
use crate::idmap::IdMap;

verus! {

#[derive(Clone, Copy, Debug, PartialEq, Eq, Structural)]
pub enum BlindPace {
    Slow,
    Standard,
    Turbo,
}

#[derive(Clone, Copy, Debug, PartialEq, Eq, Structural)]
pub struct BlindLevelConfig {
    pub level: u32,
    pub small_blind: Chips,
    pub big_blind: Chips,
    pub ante: Chips,
}

/// The blind schedule, one entry per level number.
pub struct BlindStructure {
    pub levels: Vec<BlindLevelConfig>,
}

/// The first entry of the schedule carrying the given level number; a
/// zeroed entry when none does.
pub open spec fn spec_level_entry(levels: Seq<BlindLevelConfig>, n: u32) -> BlindLevelConfig
    decreases levels.len(),
{
    if levels.len() == 0 {
        BlindLevelConfig { level: 0, small_blind: 0, big_blind: 0, ante: 0 }
    } else if levels[0].level == n {
        levels[0]
    } else {
        spec_level_entry(levels.subrange(1, levels.len() as int), n)
    }
}

/// An entry preceded by no other entry of its level number is the entry the
/// schedule resolves that number to.
proof fn lemma_level_entry_first(levels: Seq<BlindLevelConfig>, n: u32, i: int)
    requires
        0 <= i < levels.len(),
        levels[i].level == n,
        forall|j: int| 0 <= j < i ==> (#[trigger] levels[j]).level != n,
    ensures
        spec_level_entry(levels, n) == levels[i],
    decreases i,
{
    if i > 0 {
        let tail = levels.subrange(1, levels.len() as int);
        assert(tail[i - 1] == levels[i]);
        assert forall|j: int| 0 <= j < i - 1 implies (#[trigger] tail[j]).level != n by {
            assert(tail[j] == levels[j + 1]);
        }
        lemma_level_entry_first(tail, n, i - 1);
    }
}

impl BlindStructure {
    /// Whether some entry carries the given level number.
    pub open spec fn spec_has_level(self, n: u32) -> bool {
        exists|i: int| 0 <= i < self.levels@.len() && (#[trigger] self.levels@[i]).level == n
    }

    /// The first entry carrying the given level number.
    pub fn level_by_number(&self, n: u32) -> (r: Option<BlindLevelConfig>)
        ensures
            match r {
                Some(l) => self.spec_has_level(n) && l.level == n && l == spec_level_entry(
                    self.levels@,
                    n,
                ),
                None => !self.spec_has_level(n),
            },
    {
        let len = self.levels.len();
        let mut i: usize = 0;
        while i < len
            invariant
                0 <= i <= len,
                len == self.levels@.len(),
                forall|j: int| 0 <= j < i ==> (#[trigger] self.levels@[j]).level != n,
            decreases len - i,
        {
            if self.levels[i].level == n {
                proof {
                    lemma_level_entry_first(self.levels@, n, i as int);
                }
                return Some(self.levels[i]);
            }
            i += 1;
        }
        None
    }
}

#[derive(Clone, Copy, Debug, PartialEq, Eq, Structural)]
pub enum TournamentStatus {
    Registering,
    Running,
    OnBreak,
    Finished,
}

/// Tournament configuration, as supplied at creation time.
pub struct TournamentConfig {
    pub name: String,
    pub table_size: u8,
    pub starting_stack: Chips,
    pub max_players: u32,
    pub action_time: u32,
    pub blind_level_duration: u32,
    pub blind_pace: BlindPace,
    pub blind_structure: BlindStructure,
    pub ante_type: AnteType,
    pub time_bank_seconds: u32,
    pub break_every_minutes: u32,
    pub break_duration_minutes: u32,
    pub re_entry_allowed: bool,
    pub rebuys_allowed: bool,
}

/// One player's registration record.
#[derive(Clone, Copy, Debug, PartialEq, Eq, Structural)]
pub struct Registration {
    pub total_chips: Chips,
    pub table_id: Option<TableId>,
    pub seat_index: Option<SeatIndex>,
    pub is_busted: bool,
    pub finish_rank: Option<u64>,
}

/// One planned reseat: move a player from one table to another.
#[derive(Clone, Copy, Debug, PartialEq, Eq, Structural)]
pub struct RebalanceMove {
    pub player_id: PlayerId,
    pub from_table: TableId,
    pub to_table: TableId,
}

#[derive(Clone, Copy, Debug, PartialEq, Eq, Structural)]
pub enum TournamentError {
    InvalidStatus { expected: TournamentStatus, found: TournamentStatus },
    NotRegistered { player_id: PlayerId, tournament_id: TournamentId },
    AlreadyRegistered { player_id: PlayerId },
    CannotBustLastPlayer { player_id: PlayerId },
    InvalidConfig,
}

/// Total chips over a registration entry sequence.
pub open spec fn regs_chip_sum(s: Seq<(u64, Registration)>) -> int
    decreases s.len(),
{
    if s.len() == 0 {
        0
    } else {
        regs_chip_sum(s.drop_last()) + s.last().1.total_chips
    }
}

/// Number of non-busted registrations in an entry sequence.
pub open spec fn non_busted_count(s: Seq<(u64, Registration)>) -> int
    decreases s.len(),
{
    if s.len() == 0 {
        0
    } else {
        non_busted_count(s.drop_last()) + if s.last().1.is_busted {
            0int
        } else {
            1int
        }
    }
}

/// Updating one entry changes the chip sum by exactly the chip delta of that
/// entry.
pub proof fn lemma_chip_sum_update(s: Seq<(u64, Registration)>, i: int, e: (u64, Registration))
    requires
        0 <= i < s.len(),
    ensures
        regs_chip_sum(s.update(i, e)) == regs_chip_sum(s) - s[i].1.total_chips
            + e.1.total_chips,
    decreases s.len(),
{
    if s.len() > 0 {
        if i == s.len() - 1 {
            assert(s.update(i, e).drop_last() =~= s.drop_last());
        } else {
            assert(s.update(i, e).drop_last() =~= s.drop_last().update(i, e));
            lemma_chip_sum_update(s.drop_last(), i, e);
        }
    }
}

/// Updating one entry changes the non-busted count by the flip of that
/// entry's busted flag.
pub proof fn lemma_non_busted_update(s: Seq<(u64, Registration)>, i: int, e: (u64, Registration))
    requires
        0 <= i < s.len(),
    ensures
        non_busted_count(s.update(i, e)) == non_busted_count(s) - (if s[i].1.is_busted {
            0int
        } else {
            1int
        }) + (if e.1.is_busted {
            0int
        } else {
            1int
        }),
    decreases s.len(),
{
    if s.len() > 0 {
        if i == s.len() - 1 {
            assert(s.update(i, e).drop_last() =~= s.drop_last());
        } else {
            assert(s.update(i, e).drop_last() =~= s.drop_last().update(i, e));
            lemma_non_busted_update(s.drop_last(), i, e);
        }
    }
}

/// Number of non-busted, seated registrations in an entry sequence.
pub open spec fn seated_survivor_count(s: Seq<(u64, Registration)>) -> int
    decreases s.len(),
{
    if s.len() == 0 {
        0
    } else {
        seated_survivor_count(s.drop_last()) + if !s.last().1.is_busted && s.last().1.table_id
            is Some {
            1int
        } else {
            0int
        }
    }
}

/// The seated-survivor count is never negative.
pub proof fn lemma_seated_survivor_nonneg(s: Seq<(u64, Registration)>)
    ensures
        seated_survivor_count(s) >= 0,
    decreases s.len(),
{
    if s.len() > 0 {
        lemma_seated_survivor_nonneg(s.drop_last());
    }
}

/// With a zero seated-survivor count, no registration is both unbusted and
/// seated.
pub proof fn lemma_seated_survivor_zero(s: Seq<(u64, Registration)>)
    requires
        seated_survivor_count(s) == 0,
    ensures
        forall|i: int|
            0 <= i < s.len() ==> ((#[trigger] s[i]).1.is_busted || s[i].1.table_id is None),
    decreases s.len(),
{
    if s.len() > 0 {
        lemma_seated_survivor_nonneg(s.drop_last());
        lemma_seated_survivor_zero(s.drop_last());
        assert forall|i: int|
            0 <= i < s.len() implies ((#[trigger] s[i]).1.is_busted || s[i].1.table_id
            is None) by {
            if i < s.len() - 1 {
                assert(s.drop_last()[i] == s[i]);
            }
        }
    }
}

/// A multi-table tournament: configuration, status, blind level and one
/// registration record per player.
pub struct Tournament {
    pub id: TournamentId,
    pub owner: PlayerId,
    pub config: TournamentConfig,
    pub status: TournamentStatus,
    pub current_level: u32,
    pub started_at: Option<u64>,
    pub registrations: IdMap<Registration>,
}

impl TournamentConfig {
    /// Assemble an engine-facing configuration from the basic fields the
    /// front end supplies.
    pub fn from_frontend_basic(
        name: String,
        table_size: u8,
        starting_stack: Chips,
        max_players: u32,
        action_time: u32,
        blind_level_duration: u32,
        blind_pace: BlindPace,
        levels: Vec<BlindLevelConfig>,
        ante_type: AnteType,
        time_bank_seconds: u32,
        break_every_minutes: u32,
        break_duration_minutes: u32,
        re_entry_allowed: bool,
        rebuys_allowed: bool,
    ) -> (c: TournamentConfig)
        ensures
            c.name == name,
            c.table_size == table_size,
            c.starting_stack == starting_stack,
            c.max_players == max_players,
            c.action_time == action_time,
            c.blind_level_duration == blind_level_duration,
            c.blind_pace == blind_pace,
            c.blind_structure.levels == levels,
            c.ante_type == ante_type,
            c.time_bank_seconds == time_bank_seconds,
            c.break_every_minutes == break_every_minutes,
            c.break_duration_minutes == break_duration_minutes,
            c.re_entry_allowed == re_entry_allowed,
            c.rebuys_allowed == rebuys_allowed,
    {
        TournamentConfig {
            name,
            table_size,
            starting_stack,
            max_players,
            action_time,
            blind_level_duration,
            blind_pace,
            blind_structure: BlindStructure { levels },
            ante_type,
            time_bank_seconds,
            break_every_minutes,
            break_duration_minutes,
            re_entry_allowed,
            rebuys_allowed,
        }
    }
}

impl Tournament {
    pub open spec fn wf(self) -> bool {
        &&& self.registrations.wf()
        &&& self.config.table_size >= 2
        &&& self.config.blind_structure.levels@.len() > 0
    }

    pub open spec fn spec_chip_sum(self) -> int {
        regs_chip_sum(self.registrations.entry_seq())
    }

    pub open spec fn spec_non_busted(self) -> int {
        non_busted_count(self.registrations.entry_seq())
    }

    /// Create a tournament in the `Registering` state.  The configuration
    /// must name at least one blind level and seat at least two players per
    /// table.
    pub fn new(id: TournamentId, owner: PlayerId, config: TournamentConfig) -> (r: Result<
        Tournament,
        TournamentError,
    >)
        ensures
            match r {
                Ok(t) => {
                    &&& config.table_size >= 2
                    &&& config.blind_structure.levels@.len() > 0
                    &&& t.wf()
                    &&& t.id == id
                    &&& t.owner == owner
                    &&& t.config == config
                    &&& t.status == TournamentStatus::Registering
                    &&& t.current_level == 1u32
                    &&& t.started_at is None
                    &&& t.registrations.spec_len() == 0
                    &&& forall|p: PlayerId| !t.registrations.contains_key(p)
                },
                Err(e) => e == TournamentError::InvalidConfig && (config.table_size < 2
                    || config.blind_structure.levels@.len() == 0),
            },
    {
        if config.table_size < 2 || config.blind_structure.levels.len() == 0 {
            return Err(TournamentError::InvalidConfig);
        }
        Ok(
            Tournament {
                id,
                owner,
                config,
                status: TournamentStatus::Registering,
                current_level: 1,
                started_at: None,
                registrations: IdMap::new(),
            },
        )
    }

    /// Register a player while registration is open.  The player starts with
    /// the configured starting stack, unseated and not busted.
    pub fn register_player(&mut self, player_id: PlayerId) -> (r: Result<(), TournamentError>)
        requires
            old(self).wf(),
        ensures
            final(self).wf(),
            final(self).id == old(self).id,
            final(self).owner == old(self).owner,
            final(self).config == old(self).config,
            final(self).status == old(self).status,
            final(self).current_level == old(self).current_level,
            final(self).started_at == old(self).started_at,
            match r {
                Ok(()) => {
                    &&& old(self).status == TournamentStatus::Registering
                    &&& !old(self).registrations.contains_key(player_id)
                    &&& final(self).registrations.contains_key(player_id)
                    &&& final(self).registrations.spec_get(player_id) == (Registration {
                        total_chips: old(self).config.starting_stack,
                        table_id: None,
                        seat_index: None,
                        is_busted: false,
                        finish_rank: None,
                    })
                    &&& forall|q: PlayerId|
                        q != player_id ==> final(self).registrations.contains_key(q) == old(self).registrations.contains_key(q)
                    &&& forall|q: PlayerId|
                        q != player_id && old(self).registrations.contains_key(q) ==> final(self).registrations.spec_get(q) == old(self).registrations.spec_get(q)
                    &&& final(self).registrations.spec_len() == old(self).registrations.spec_len()
                        + 1
                },
                Err(TournamentError::InvalidStatus { expected, found }) => {
                    &&& old(self).status != TournamentStatus::Registering
                    &&& expected == TournamentStatus::Registering
                    &&& found == old(self).status
                    &&& *final(self) == *old(self)
                },
                Err(TournamentError::AlreadyRegistered { player_id: p }) => {
                    &&& old(self).status == TournamentStatus::Registering
                    &&& old(self).registrations.contains_key(player_id)
                    &&& p == player_id
                    &&& *final(self) == *old(self)
                },
                Err(_) => false,
            },
    {
        if !matches!(self.status, TournamentStatus::Registering) {
            return Err(
                TournamentError::InvalidStatus {
                    expected: TournamentStatus::Registering,
                    found: self.status,
                },
            );
        }
        if self.registrations.contains(player_id) {
            return Err(TournamentError::AlreadyRegistered { player_id });
        }
        let reg = Registration {
            total_chips: self.config.starting_stack,
            table_id: None,
            seat_index: None,
            is_busted: false,
            finish_rank: None,
        };
        self.registrations.insert(player_id, reg);
        Ok(())
    }

    /// Open play: `Registering -> Running`.
    pub fn start(&mut self, now_ts: u64) -> (r: Result<(), TournamentError>)
        requires
            old(self).wf(),
        ensures
            final(self).wf(),
            match r {
                Ok(()) => {
                    &&& old(self).status == TournamentStatus::Registering
                    &&& *final(self) == (Tournament {
                        status: TournamentStatus::Running,
                        started_at: Some(now_ts),
                        ..*old(self)
                    })
                },
                Err(TournamentError::InvalidStatus { expected, found }) => {
                    &&& old(self).status != TournamentStatus::Registering
                    &&& expected == TournamentStatus::Registering
                    &&& found == old(self).status
                    &&& *final(self) == *old(self)
                },
                Err(_) => false,
            },
    {
        if !matches!(self.status, TournamentStatus::Registering) {
            return Err(
                TournamentError::InvalidStatus {
                    expected: TournamentStatus::Registering,
                    found: self.status,
                },
            );
        }
        self.status = TournamentStatus::Running;
        self.started_at = Some(now_ts);
        Ok(())
    }

    /// The number of non-busted registrations.
    pub fn count_non_busted(&self) -> (n: usize)
        requires
            self.registrations.wf(),
        ensures
            n == self.spec_non_busted(),
    {
        let len = self.registrations.len();
        let mut n: usize = 0;
        let mut i: usize = 0;
        while i < len
            invariant
                0 <= i <= len,
                len == self.registrations.spec_len(),
                self.registrations.wf(),
                n == non_busted_count(self.registrations.entry_seq().subrange(0, i as int)),
                n <= i,
            decreases len - i,
        {
            let busted = self.registrations.val_at(i).is_busted;
            proof {
                assert(self.registrations.entry_seq().subrange(0, i + 1int).drop_last()
                    =~= self.registrations.entry_seq().subrange(0, i as int));
            }
            if !busted {
                n += 1;
            }
            i += 1;
        }
        proof {
            assert(self.registrations.entry_seq().subrange(0, len as int)
                =~= self.registrations.entry_seq());
        }
        n
    }

    /// Mark a player as busted, assign a finishing rank, and clear the seat
    /// assignment.  Busting an already-busted player is a no-op; the last
    /// remaining active player can never be busted (a tournament cannot have
    /// zero survivors).  When exactly one active player remains afterwards,
    /// the tournament finishes.
    pub fn mark_player_busted(&mut self, player_id: PlayerId) -> (r: Result<(), TournamentError>)
        requires
            old(self).wf(),
        ensures
            final(self).wf(),
            final(self).id == old(self).id,
            final(self).owner == old(self).owner,
            final(self).config == old(self).config,
            final(self).current_level == old(self).current_level,
            final(self).started_at == old(self).started_at,
            final(self).spec_chip_sum() == old(self).spec_chip_sum(),
            match r {
                Ok(()) => {
                    &&& old(self).registrations.contains_key(player_id)
                    &&& if old(self).registrations.spec_get(player_id).is_busted {
                        *final(self) == *old(self)
                    } else {
                        &&& old(self).spec_non_busted() >= 2
                        &&& final(self).registrations.contains_key(player_id)
                        &&& final(self).registrations.spec_get(player_id) == (Registration {
                            total_chips: old(self).registrations.spec_get(player_id).total_chips,
                            table_id: None,
                            seat_index: None,
                            is_busted: true,
                            finish_rank: Some(old(self).spec_non_busted() as u64),
                        })
                        &&& forall|q: PlayerId|
                            q != player_id ==> final(self).registrations.contains_key(q) == old(self).registrations.contains_key(q)
                        &&& forall|q: PlayerId|
                            q != player_id && old(self).registrations.contains_key(q) ==> final(self).registrations.spec_get(q) == old(self).registrations.spec_get(q)
                        &&& final(self).spec_non_busted() == old(self).spec_non_busted() - 1
                        &&& final(self).status == if old(self).spec_non_busted() == 2 {
                            TournamentStatus::Finished
                        } else {
                            old(self).status
                        }
                    }
                },
                Err(TournamentError::NotRegistered { player_id: p, tournament_id }) => {
                    &&& !old(self).registrations.contains_key(player_id)
                    &&& p == player_id
                    &&& tournament_id == old(self).id
                    &&& *final(self) == *old(self)
                },
                Err(TournamentError::CannotBustLastPlayer { player_id: p }) => {
                    &&& old(self).registrations.contains_key(player_id)
                    &&& !old(self).registrations.spec_get(player_id).is_busted
                    &&& old(self).spec_non_busted() == 1
                    &&& p == player_id
                    &&& *final(self) == *old(self)
                },
                Err(_) => false,
            },
    {
        let idx = match self.registrations.index_of(player_id) {
            Some(i) => i,
            None => {
                return Err(
                    TournamentError::NotRegistered { player_id, tournament_id: self.id },
                );
            },
        };
        let reg = *self.registrations.val_at(idx);
        if reg.is_busted {
            return Ok(());
        }
        let active = self.count_non_busted();
        proof {
            lemma_non_busted_at_least_one(self.registrations.entry_seq(), idx as int);
        }
        if active <= 1 {
            return Err(TournamentError::CannotBustLastPlayer { player_id });
        }
        let rank = active as u64;
        let updated = Registration {
            total_chips: reg.total_chips,
            table_id: None,
            seat_index: None,
            is_busted: true,
            finish_rank: Some(rank),
        };
        let ghost pre_regs = self.registrations;
        self.registrations.set_val_at(idx, updated);
        proof {
            lemma_chip_sum_update(pre_regs.entry_seq(), idx as int, (player_id, updated));
            lemma_non_busted_update(pre_regs.entry_seq(), idx as int, (player_id, updated));
        }
        if active == 2 {
            // One survivor is left: the tournament is over.
            self.status = TournamentStatus::Finished;
        }
        Ok(())
    }

    /// Plan the cross-table moves that rebalance the tournament after busts.
    ///
    /// The plan consolidates survivors onto the fewest tables the table size
    /// allows: the tables with the most survivors are kept (ties broken
    /// toward the lower table id), every survivor seated at another table
    /// moves, and each mover is directed at the kept table with the fewest
    /// occupants so far (ties again toward the lower id).  Registrations are
    /// walked in ascending player id, so the plan is a reproducible pure
    /// function of the tournament state.
    pub fn compute_rebalance_moves(&self) -> (moves: Vec<RebalanceMove>)
        requires
            self.wf(),
        ensures
            forall|i: int|
                0 <= i < moves@.len() ==> {
                    let m = #[trigger] moves@[i];
                    &&& self.registrations.contains_key(m.player_id)
                    &&& !self.registrations.spec_get(m.player_id).is_busted
                    &&& self.registrations.spec_get(m.player_id).table_id == Some(m.from_table)
                    &&& m.from_table != m.to_table
                },
            forall|i: int, j: int|
                0 <= i < j < moves@.len() ==> moves@[i].player_id < moves@[j].player_id,
            exists|kept: Seq<TableId>| #[trigger] plan_keeps(*self, moves@, kept),
    {
        // Count the survivors seated at each table.
        let nregs = self.registrations.len();
        let mut counts: IdMap<u64> = IdMap::new();
        let mut total: u64 = 0;
        let mut i: usize = 0;
        while i < nregs
            invariant
                nregs == self.registrations.spec_len(),
                self.registrations.wf(),
                0 <= i <= nregs,
                counts.wf(),
                total <= i,
                forall|t: u64| counts.contains_key(t) ==> counts.spec_get(t) <= total,
                total as int == seated_survivor_count(
                    self.registrations.entry_seq().subrange(0, i as int),
                ),
                forall|j: int|
                    0 <= j < i ==> {
                        let e = #[trigger] self.registrations.entry_seq()[j];
                        (!e.1.is_busted && e.1.table_id is Some) ==> counts.contains_key(
                            e.1.table_id->0,
                        )
                    },
            decreases nregs - i,
        {
            let reg = *self.registrations.val_at(i);
            proof {
                assert(self.registrations.entry_seq().subrange(0, i + 1int).drop_last()
                    =~= self.registrations.entry_seq().subrange(0, i as int));
            }
            if !reg.is_busted {
                match reg.table_id {
                    Some(tid) => {
                        let c: u64 = match counts.get(tid) {
                            Some(c) => *c,
                            None => 0,
                        };
                        counts.insert(tid, c + 1);
                        total = total + 1;
                        proof {
                            assert forall|t: u64| counts.contains_key(t) implies counts.spec_get(
                                t,
                            ) <= total by {}
                        }
                    },
                    None => {},
                }
            }
            i += 1;
        }
        proof {
            assert(self.registrations.entry_seq().subrange(0, nregs as int)
                =~= self.registrations.entry_seq());
        }
        if total == 0 {
            let no_moves: Vec<RebalanceMove> = Vec::new();
            proof {
                lemma_seated_survivor_zero(self.registrations.entry_seq());
                assert(no_moves@ =~= Seq::<RebalanceMove>::empty());
                assert(plan_keeps(*self, no_moves@, Seq::<TableId>::empty()));
            }
            return no_moves;
        }
        // How many tables the survivors actually need.
        let size = self.config.table_size as u64;
        proof {
            assert(total / size <= total / 2) by (nonlinear_arith)
                requires size >= 2, total >= 0;
            assert(total / 2 + 1 <= u64::MAX);
        }
        let needed = total / size + (if total % size == 0 {
            0
        } else {
            1
        });
        proof {
            assert(needed as int == spec_tables_needed(*self));
        }
        if counts.len() as u64 <= needed {
            let no_moves: Vec<RebalanceMove> = Vec::new();
            let ghost ckeys = Seq::new(counts.spec_len(), |j: int| counts.entry_seq()[j].0);
            proof {
                assert(no_moves@ =~= Seq::<RebalanceMove>::empty());
                assert forall|i2: int|
                    0 <= i2 < self.registrations.entry_seq().len() implies {
                    let e = #[trigger] self.registrations.entry_seq()[i2];
                    (!e.1.is_busted && e.1.table_id is Some) ==> ckeys.contains(e.1.table_id->0)
                } by {
                    let e = self.registrations.entry_seq()[i2];
                    if !e.1.is_busted && e.1.table_id is Some {
                        assert(counts.contains_key(e.1.table_id->0));
                        let j = choose|j: int|
                            0 <= j < counts.entry_seq().len() && (#[trigger] counts.entry_seq()[j]).0
                                == e.1.table_id->0;
                        assert(ckeys[j] == e.1.table_id->0);
                    }
                }
                assert(plan_keeps(*self, no_moves@, ckeys));
            }
            return no_moves;
        }
        proof {
            assert(needed >= 1) by (nonlinear_arith)
                requires needed == total / size + (if total % size == 0 { 0u64 } else { 1u64 }), total >= 1, size >= 2;
        }
        // Keep the `needed` fullest tables; ties go to the lower table id.
        let ghost c0 = counts.spec_len();
        let mut kept: IdMap<u64> = IdMap::new();
        let mut picked: u64 = 0;
        while picked < needed && counts.len() > 0
            invariant
                counts.wf(),
                kept.wf(),
                picked <= needed,
                kept.spec_len() == picked as int,
                counts.spec_len() + picked as nat == c0,
                forall|k: u64| kept.contains_key(k) ==> !counts.contains_key(k),
            decreases needed - picked,
        {
            let m = counts.len();
            let mut best_idx: usize = 0;
            let mut j: usize = 1;
            while j < m
                invariant
                    counts.wf(),
                    m == counts.spec_len(),
                    1 <= j <= m,
                    0 <= best_idx < j,
                decreases m - j,
            {
                if *counts.val_at(j) > *counts.val_at(best_idx) {
                    best_idx = j;
                }
                j += 1;
            }
            let bid = counts.key_at(best_idx);
            let bcount = *counts.val_at(best_idx);
            proof {
                assert(!kept.contains_key(bid));
            }
            kept.insert(bid, bcount);
            counts.remove(bid);
            picked += 1;
        }
        proof {
            // The selection cannot exhaust the tables first: more tables held
            // survivors than the survivors need, so exactly `needed` were
            // kept.
            assert(picked == needed);
            assert(kept.spec_len() >= 1);
        }
        // Route every survivor on a non-kept table to the emptiest kept
        // table.
        let ghost kept_keys = Seq::new(kept.spec_len(), |j: int| kept.entry_seq()[j].0);
        proof {
            assert forall|k: u64| kept.contains_key(k) implies kept_keys.contains(k) by {
                let j = choose|j: int|
                    0 <= j < kept.entry_seq().len() && (#[trigger] kept.entry_seq()[j]).0 == k;
                assert(kept_keys[j] == k);
            }
            assert forall|k: u64| kept_keys.contains(k) implies kept.contains_key(k) by {
                let j = choose|j: int| 0 <= j < kept_keys.len() && kept_keys[j] == k;
                assert((kept.entry_seq()[j]).0 == k);
                kept.lemma_entry_is_get(j);
            }
        }
        let mut moves: Vec<RebalanceMove> = Vec::new();
        let mut r: usize = 0;
        while r < nregs
            invariant
                nregs == self.registrations.spec_len(),
                self.registrations.wf(),
                0 <= r <= nregs,
                kept.wf(),
                kept.spec_len() >= 1,
                kept_keys.len() <= spec_tables_needed(*self),
                forall|k: u64| kept.contains_key(k) <==> kept_keys.contains(k),
                forall|x: int|
                    0 <= x < moves@.len() ==> kept_keys.contains((#[trigger] moves@[x]).to_table)
                        && !kept_keys.contains(moves@[x].from_table),
                forall|e: int|
                    0 <= e < r ==> {
                        let en = #[trigger] self.registrations.entry_seq()[e];
                        (!en.1.is_busted && en.1.table_id is Some) ==> (spec_moved(moves@, en.0)
                            <==> !kept_keys.contains(en.1.table_id->0))
                    },
                forall|x: int|
                    0 <= x < moves@.len() ==> {
                        let m = #[trigger] moves@[x];
                        &&& self.registrations.contains_key(m.player_id)
                        &&& !self.registrations.spec_get(m.player_id).is_busted
                        &&& self.registrations.spec_get(m.player_id).table_id == Some(
                            m.from_table,
                        )
                        &&& m.from_table != m.to_table
                    },
                forall|x: int|
                    0 <= x < moves@.len() ==> exists|e: int|
                        0 <= e < r && (#[trigger] moves@[x]).player_id
                            == self.registrations.entry_seq()[e].0,
                forall|x: int, y: int|
                    0 <= x < y < moves@.len() ==> moves@[x].player_id < moves@[y].player_id,
            decreases nregs - r,
        {
            let pid = self.registrations.key_at(r);
            let reg = *self.registrations.val_at(r);
            if !reg.is_busted {
                match reg.table_id {
                    Some(tid) => {
                        if !kept.contains(tid) {
                            let m = kept.len();
                            let mut best_idx: usize = 0;
                            let mut j: usize = 1;
                            while j < m
                                invariant
                                    kept.wf(),
                                    m == kept.spec_len(),
                                    1 <= j <= m,
                                    0 <= best_idx < j,
                                decreases m - j,
                            {
                                if *kept.val_at(j) < *kept.val_at(best_idx) {
                                    best_idx = j;
                                }
                                j += 1;
                            }
                            let dest = kept.key_at(best_idx);
                            let dcount = *kept.val_at(best_idx);
                            let ghost pre_moves = moves@;
                            moves.push(
                                RebalanceMove { player_id: pid, from_table: tid, to_table: dest },
                            );
                            proof {
                                assert forall|x: int|
                                    0 <= x < moves@.len() implies exists|e: int|
                                    0 <= e < r + 1 && (#[trigger] moves@[x]).player_id
                                        == self.registrations.entry_seq()[e].0 by {
                                    if x < pre_moves.len() {
                                        assert(moves@[x] == pre_moves[x]);
                                        let e = choose|e: int|
                                            0 <= e < r && (#[trigger] pre_moves[x]).player_id
                                                == self.registrations.entry_seq()[e].0;
                                        assert(moves@[x].player_id
                                            == self.registrations.entry_seq()[e].0);
                                    } else {
                                        assert(moves@[x].player_id
                                            == self.registrations.entry_seq()[r as int].0);
                                    }
                                }
                                assert forall|x: int, y: int|
                                    0 <= x < y < moves@.len() implies moves@[x].player_id
                                    < moves@[y].player_id by {
                                    if y < pre_moves.len() {
                                    } else {
                                        let e = choose|e: int|
                                            0 <= e < r && (#[trigger] pre_moves[x]).player_id
                                                == self.registrations.entry_seq()[e].0;
                                        assert(self.registrations.entry_seq()[e].0
                                            < self.registrations.entry_seq()[r as int].0);
                                    }
                                }
                                assert(kept_keys.contains(dest));
                                assert(!kept_keys.contains(tid));
                                assert forall|x: int|
                                    0 <= x < moves@.len() implies kept_keys.contains(
                                    (#[trigger] moves@[x]).to_table,
                                ) && !kept_keys.contains(moves@[x].from_table) by {
                                    if x < pre_moves.len() {
                                        assert(moves@[x] == pre_moves[x]);
                                    }
                                }
                                assert forall|e: int|
                                    0 <= e < r + 1 implies {
                                    let en = #[trigger] self.registrations.entry_seq()[e];
                                    (!en.1.is_busted && en.1.table_id is Some) ==> (spec_moved(
                                        moves@,
                                        en.0,
                                    ) <==> !kept_keys.contains(en.1.table_id->0))
                                } by {
                                    let en = self.registrations.entry_seq()[e];
                                    if !en.1.is_busted && en.1.table_id is Some {
                                        if e < r {
                                            assert(en.0 != pid) by {
                                                if en.0 == pid {
                                                    self.registrations.lemma_key_unique(
                                                        e,
                                                        r as int,
                                                    );
                                                }
                                            }
                                            if spec_moved(pre_moves, en.0) {
                                                let x = choose|x: int|
                                                    0 <= x < pre_moves.len() && (
                                                    #[trigger] pre_moves[x]).player_id == en.0;
                                                assert((moves@[x]).player_id == en.0);
                                                assert(spec_moved(moves@, en.0));
                                            }
                                            if spec_moved(moves@, en.0) {
                                                let x = choose|x: int|
                                                    0 <= x < moves@.len() && (
                                                    #[trigger] moves@[x]).player_id == en.0;
                                                if x < pre_moves.len() {
                                                    assert((pre_moves[x]).player_id == en.0);
                                                    assert(spec_moved(pre_moves, en.0));
                                                } else {
                                                    assert(moves@[x].player_id == pid);
                                                }
                                            }
                                        } else {
                                            assert((moves@[moves@.len() - 1]).player_id == pid);
                                            assert(spec_moved(moves@, en.0));
                                        }
                                    }
                                }
                            }
                            // Track the destination's new occupancy; the cap
                            // only guards the counter itself, never the plan.
                            let newc: u64 = if dcount == u64::MAX {
                                dcount
                            } else {
                                dcount + 1
                            };
                            kept.insert(dest, newc);
                        } else {
                            // The survivor already sits at a kept table; the
                            // plan leaves them in place.
                            proof {
                                assert(!spec_moved(moves@, pid)) by {
                                    if spec_moved(moves@, pid) {
                                        let x = choose|x: int|
                                            0 <= x < moves@.len() && (#[trigger] moves@[x]).player_id
                                                == pid;
                                        let e2 = choose|e2: int|
                                            0 <= e2 < r && (#[trigger] moves@[x]).player_id
                                                == self.registrations.entry_seq()[e2].0;
                                        self.registrations.lemma_key_unique(r as int, e2);
                                    }
                                }
                            }
                        }
                    },
                    None => {},
                }
            }
            r += 1;
        }
        proof {
            assert(plan_keeps(*self, moves@, kept_keys));
        }
        moves
    }

    /// Record the planned moves in the registrations: each moved player is
    /// now logically at the destination table, with no seat assigned yet (the
    /// physical reseat fills the seat in afterwards).  Chips are never
    /// touched, so the registered chip total is conserved.
    pub fn apply_rebalance_moves(&mut self, moves: &Vec<RebalanceMove>)
        requires
            old(self).wf(),
        ensures
            final(self).wf(),
            final(self).id == old(self).id,
            final(self).owner == old(self).owner,
            final(self).config == old(self).config,
            final(self).status == old(self).status,
            final(self).current_level == old(self).current_level,
            final(self).started_at == old(self).started_at,
            final(self).spec_chip_sum() == old(self).spec_chip_sum(),
            final(self).spec_non_busted() == old(self).spec_non_busted(),
            forall|q: PlayerId|
                final(self).registrations.contains_key(q) == old(self).registrations.contains_key(
                    q,
                ),
            forall|q: PlayerId|
                old(self).registrations.contains_key(q) ==> {
                    let pre = old(self).registrations.spec_get(q);
                    let post = final(self).registrations.spec_get(q);
                    &&& post.total_chips == pre.total_chips
                    &&& post.is_busted == pre.is_busted
                    &&& post.finish_rank == pre.finish_rank
                },
            forall|q: PlayerId|
                old(self).registrations.contains_key(q) && !spec_moved(moves@, q) ==> final(self).registrations.spec_get(q) == old(self).registrations.spec_get(q),
            forall|j: int|
                0 <= j < moves@.len() && old(self).registrations.contains_key(
                    (#[trigger] moves@[j]).player_id,
                ) && (forall|k: int| j < k < moves@.len() ==> moves@[k].player_id
                    != moves@[j].player_id) ==> final(self).registrations.spec_get(
                    moves@[j].player_id,
                ) == (Registration {
                    total_chips: old(self).registrations.spec_get(moves@[j].player_id).total_chips,
                    table_id: Some(moves@[j].to_table),
                    seat_index: None,
                    is_busted: old(self).registrations.spec_get(moves@[j].player_id).is_busted,
                    finish_rank: old(self).registrations.spec_get(moves@[j].player_id).finish_rank,
                }),
    {
        let n = moves.len();
        let mut idx: usize = 0;
        while idx < n
            invariant
                n == moves@.len(),
                0 <= idx <= n,
                self.wf(),
                self.id == old(self).id,
                self.owner == old(self).owner,
                self.config == old(self).config,
                self.status == old(self).status,
                self.current_level == old(self).current_level,
                self.started_at == old(self).started_at,
                self.spec_chip_sum() == old(self).spec_chip_sum(),
                self.spec_non_busted() == old(self).spec_non_busted(),
                forall|q: PlayerId|
                    self.registrations.contains_key(q) == old(self).registrations.contains_key(q),
                forall|q: PlayerId|
                    old(self).registrations.contains_key(q) ==> {
                        let pre = old(self).registrations.spec_get(q);
                        let post = self.registrations.spec_get(q);
                        &&& post.total_chips == pre.total_chips
                        &&& post.is_busted == pre.is_busted
                        &&& post.finish_rank == pre.finish_rank
                    },
                forall|q: PlayerId|
                    old(self).registrations.contains_key(q) && !spec_moved(
                        moves@.subrange(0, idx as int),
                        q,
                    ) ==> self.registrations.spec_get(q) == old(self).registrations.spec_get(q),
                forall|j: int|
                    0 <= j < idx && old(self).registrations.contains_key(
                        (#[trigger] moves@[j]).player_id,
                    ) && (forall|k: int| j < k < idx ==> moves@[k].player_id
                        != moves@[j].player_id) ==> self.registrations.spec_get(
                        moves@[j].player_id,
                    ) == (Registration {
                        total_chips: old(self).registrations.spec_get(
                            moves@[j].player_id,
                        ).total_chips,
                        table_id: Some(moves@[j].to_table),
                        seat_index: None,
                        is_busted: old(self).registrations.spec_get(moves@[j].player_id).is_busted,
                        finish_rank: old(self).registrations.spec_get(
                            moves@[j].player_id,
                        ).finish_rank,
                    }),
            decreases n - idx,
        {
            let m = moves[idx];
            match self.registrations.index_of(m.player_id) {
                Some(i) => {
                    let reg = *self.registrations.val_at(i);
                    let updated = Registration {
                        total_chips: reg.total_chips,
                        table_id: Some(m.to_table),
                        seat_index: None,
                        is_busted: reg.is_busted,
                        finish_rank: reg.finish_rank,
                    };
                    let ghost pre_regs = self.registrations;
                    self.registrations.set_val_at(i, updated);
                    proof {
                        lemma_chip_sum_update(pre_regs.entry_seq(), i as int, (m.player_id, updated));
                        lemma_non_busted_update(pre_regs.entry_seq(), i as int, (m.player_id, updated));
                    }
                },
                None => {},
            }
            proof {
                assert forall|q: PlayerId|
                    old(self).registrations.contains_key(q) && !spec_moved(
                        moves@.subrange(0, idx + 1int),
                        q,
                    ) implies self.registrations.spec_get(q) == old(self).registrations.spec_get(
                    q,
                ) by {
                    assert(!spec_moved(moves@.subrange(0, idx as int), q)) by {
                        if spec_moved(moves@.subrange(0, idx as int), q) {
                            let j = choose|j: int|
                                0 <= j < idx && (#[trigger] moves@.subrange(0, idx as int)[j]).player_id == q;
                            assert(moves@.subrange(0, idx + 1int)[j].player_id == q);
                        }
                    }
                    assert(moves@.subrange(0, idx + 1int)[idx as int] == m);
                    assert(q != m.player_id);
                }
            }
            idx += 1;
        }
        proof {
            assert(moves@.subrange(0, n as int) =~= moves@);
        }
    }
}

/// The number of tables the seated survivors actually need, at the
/// tournament's table size.
pub open spec fn spec_tables_needed(t: Tournament) -> int {
    let total = seated_survivor_count(t.registrations.entry_seq());
    let size = t.config.table_size as int;
    if total == 0 {
        0
    } else {
        total / size + if total % size == 0 {
            0int
        } else {
            1int
        }
    }
}

/// A certificate that a rebalancing plan is complete: a list of kept tables,
/// no longer than the survivors need, such that the plan moves exactly the
/// survivors seated outside the kept tables, and only into them.  An empty
/// plan therefore certifies that every seated survivor already sits on one of
/// at most `spec_tables_needed` tables.  The certificate bounds which tables
/// receive movers, not how many each receives; the planner spreads movers
/// over the least-occupied kept tables, but that evenness is not part of the
/// contract.
pub open spec fn plan_keeps(t: Tournament, moves: Seq<RebalanceMove>, kept: Seq<TableId>) -> bool {
    &&& kept.len() <= spec_tables_needed(t)
    &&& forall|j: int|
        0 <= j < moves.len() ==> kept.contains((#[trigger] moves[j]).to_table) && !kept.contains(
            moves[j].from_table,
        )
    &&& forall|i: int|
        0 <= i < t.registrations.entry_seq().len() ==> {
            let e = #[trigger] t.registrations.entry_seq()[i];
            (!e.1.is_busted && e.1.table_id is Some) ==> (spec_moved(moves, e.0) <==> !kept.contains(
                e.1.table_id->0,
            ))
        }
}

/// Whether some move in the plan names this player.
pub open spec fn spec_moved(moves: Seq<RebalanceMove>, q: PlayerId) -> bool {
    exists|j: int| 0 <= j < moves.len() && (#[trigger] moves[j]).player_id == q
}

/// The non-busted count is never negative.
pub proof fn lemma_non_busted_nonneg(s: Seq<(u64, Registration)>)
    ensures
        non_busted_count(s) >= 0,
    decreases s.len(),
{
    if s.len() > 0 {
        lemma_non_busted_nonneg(s.drop_last());
    }
}

/// A sequence with a non-busted entry has a positive non-busted count.
proof fn lemma_non_busted_at_least_one(s: Seq<(u64, Registration)>, i: int)
    requires
        0 <= i < s.len(),
        !s[i].1.is_busted,
    ensures
        non_busted_count(s) >= 1,
    decreases s.len(),
{
    if i == s.len() - 1 {
        lemma_non_busted_nonneg(s.drop_last());
    } else {
        lemma_non_busted_at_least_one(s.drop_last(), i);
    }
}

} // verus!
