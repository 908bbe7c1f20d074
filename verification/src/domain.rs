//! Domain data model: identifiers, chips, cards, seats and tables.
//!
//! Every type here is plain data.  A table is owned exclusively by the table
//! lifecycle handlers and the hand orchestrator; it is mutated only through
//! load-mutate-store cycles against [`crate::state::PokerState`], never
//! partially written.

use vstd::prelude::*;

verus! {

pub type TableId = u64;

pub type PlayerId = u64;

pub type TournamentId = u64;

pub type HandId = u64;

pub type SeatIndex = u8;

/// Chip amounts.  All chip arithmetic in this crate is explicit about
/// saturation and is proved free of wrap-around.
pub type Chips = u64;

/// The external caller identity, as resolved by the host runtime.  The
/// orchestrator only ever compares identities for equality and uses them as
/// map keys, so a compact numeric identifier is all it needs.
pub type AccountId = u64;

#[derive(Clone, Copy, Debug, PartialEq, Eq, Structural)]
pub struct Card {
    pub rank: u8,
    pub suit: u8,
}

#[derive(Clone, Copy, Debug, PartialEq, Eq, Structural)]
pub enum PlayerStatus {
    Active,
    Folded,
    AllIn,
    SittingOut,
}

/// One seat occupant: a player with a chip stack and a current-street bet.
#[derive(Clone, Copy, Debug, PartialEq, Eq, Structural)]
pub struct PlayerAtTable {
    pub player_id: PlayerId,
    pub stack: Chips,
    pub current_bet: Chips,
    pub status: PlayerStatus,
}

impl PlayerAtTable {
    pub fn new(player_id: PlayerId, stack: Chips) -> (p: Self)
        ensures
            p == (PlayerAtTable {
                player_id,
                stack,
                current_bet: 0,
                status: PlayerStatus::Active,
            }),
    {
        PlayerAtTable { player_id, stack, current_bet: 0, status: PlayerStatus::Active }
    }
}

#[derive(Clone, Copy, Debug, PartialEq, Eq, Structural)]
pub enum Street {
    Preflop,
    Flop,
    Turn,
    River,
    Showdown,
}

#[derive(Clone, Copy, Debug, PartialEq, Eq, Structural)]
pub enum AnteType {
    NoAnte,
    Classic,
    BigBlind,
}

#[derive(Clone, Copy, Debug, PartialEq, Eq, Structural)]
pub enum TableType {
    Cash,
    Tournament,
}

#[derive(Clone, Copy, Debug, PartialEq, Eq, Structural)]
pub struct TableStakes {
    pub small_blind: Chips,
    pub big_blind: Chips,
    pub ante_type: AnteType,
    pub ante: Chips,
}

impl TableStakes {
    pub fn new(small_blind: Chips, big_blind: Chips, ante_type: AnteType, ante: Chips) -> (s:
        Self)
        ensures
            s == (TableStakes { small_blind, big_blind, ante_type, ante }),
    {
        TableStakes { small_blind, big_blind, ante_type, ante }
    }
}

#[derive(Clone, Copy, Debug, PartialEq, Eq, Structural)]
pub struct TableConfig {
    pub max_seats: u8,
    pub table_type: TableType,
    pub stakes: TableStakes,
    pub allow_straddle: bool,
    pub allow_run_it_twice: bool,
}

/// A poker table: configuration, an ordered list of optional seat occupants,
/// and the public state of the hand in progress (street, button, pot, board).
pub struct Table {
    pub id: TableId,
    pub name: String,
    pub config: TableConfig,
    pub seats: Vec<Option<PlayerAtTable>>,
    pub hand_in_progress: bool,
    pub street: Street,
    pub dealer_button: Option<SeatIndex>,
    pub total_pot: Chips,
    pub board: Vec<Card>,
}

impl Table {
    /// Seat occupancy is injective: no player id occupies two seats of the
    /// same table simultaneously.
    pub open spec fn seats_injective(self) -> bool {
        forall|i: int, j: int|
            0 <= i < j < self.seats@.len() && (#[trigger] self.seats@[i]) is Some && (
            #[trigger] self.seats@[j]) is Some ==> self.seats@[i]->0.player_id
                != self.seats@[j]->0.player_id
    }

    /// A table always has exactly `max_seats` seat slots, and occupancy is
    /// injective.  Every constructor establishes this and every mutation
    /// preserves it.
    pub open spec fn wf(self) -> bool {
        &&& self.seats@.len() == self.config.max_seats as int
        &&& self.seats_injective()
    }

    /// Whether `player_id` occupies some seat.
    pub open spec fn spec_seated(self, player_id: PlayerId) -> bool {
        exists|i: int|
            0 <= i < self.seats@.len() && (#[trigger] self.seats@[i]) is Some
                && self.seats@[i]->0.player_id == player_id
    }

    /// The number of occupied seats in the first `n` slots.
    pub open spec fn occupied_below(self, n: int) -> int
        decreases n,
    {
        if n <= 0 {
            0
        } else {
            self.occupied_below(n - 1) + if self.seats@[n - 1] is Some {
                1int
            } else {
                0int
            }
        }
    }

    pub open spec fn spec_seated_count(self) -> int {
        self.occupied_below(self.seats@.len() as int)
    }

    /// Seat occupancy is injective: in a well-formed table, two distinct
    /// occupied seats never hold the same player id.
    pub proof fn lemma_seat_occupancy_injective(self, i: int, j: int)
        requires
            self.wf(),
            0 <= i < self.seats@.len(),
            0 <= j < self.seats@.len(),
            i != j,
            self.seats@[i] is Some,
            self.seats@[j] is Some,
        ensures
            self.seats@[i]->0.player_id != self.seats@[j]->0.player_id,
    {
    }

    /// The occupancy count of any prefix is non-negative.
    pub proof fn lemma_occupied_below_nonneg(self, n: int)
        ensures
            self.occupied_below(n) >= 0,
        decreases n,
    {
        if n > 0 {
            self.lemma_occupied_below_nonneg(n - 1);
        }
    }

    /// A table with an occupied seat holds at least one player.
    pub proof fn lemma_occupied_seat_counts(self, s: int)
        requires
            0 <= s < self.seats@.len(),
            self.seats@[s] is Some,
        ensures
            self.spec_seated_count() >= 1,
    {
        self.lemma_occupied_from(s, self.seats@.len() as int);
    }

    /// Any prefix extending past an occupied seat counts it.
    proof fn lemma_occupied_from(self, s: int, n: int)
        requires
            0 <= s < n <= self.seats@.len(),
            self.seats@[s] is Some,
        ensures
            self.occupied_below(n) >= 1,
        decreases n,
    {
        if s == n - 1 {
            self.lemma_occupied_below_nonneg(n - 1);
        } else {
            self.lemma_occupied_from(s, n - 1);
        }
    }

    /// A prefix of empty seats holds no players.
    pub proof fn lemma_occupied_below_all_none(self, n: int)
        requires
            0 <= n <= self.seats@.len(),
            forall|i: int| 0 <= i < n ==> (#[trigger] self.seats@[i]) is None,
        ensures
            self.occupied_below(n) == 0,
        decreases n,
    {
        if n > 0 {
            self.lemma_occupied_below_all_none(n - 1);
        }
    }

    pub fn new(id: TableId, name: String, config: TableConfig) -> (t: Table)
        ensures
            t.wf(),
            t.id == id,
            t.name == name,
            t.config == config,
            forall|i: int| 0 <= i < t.seats@.len() ==> (#[trigger] t.seats@[i]) is None,
            t.hand_in_progress == false,
            t.street == Street::Preflop,
            t.dealer_button is None,
            t.total_pot == 0,
            t.board@ == Seq::<Card>::empty(),
    {
        let mut seats: Vec<Option<PlayerAtTable>> = Vec::new();
        let mut i: usize = 0;
        let n = config.max_seats as usize;
        while i < n
            invariant
                0 <= i <= n,
                seats@.len() == i,
                forall|j: int| 0 <= j < i ==> (#[trigger] seats@[j]) is None,
            decreases n - i,
        {
            seats.push(None);
            i += 1;
        }
        Table {
            id,
            name,
            config,
            seats,
            hand_in_progress: false,
            street: Street::Preflop,
            dealer_button: None,
            total_pot: 0,
            board: Vec::new(),
        }
    }

    /// True when `seat` names a seat slot that exists and is unoccupied, or
    /// lies outside the seat range (range violations are reported separately,
    /// after this check, as `InvalidSeatIndex`).
    pub fn is_seat_empty(&self, seat: SeatIndex) -> (r: bool)
        ensures
            r == (seat as int >= self.seats@.len() || self.seats@[seat as int] is None),
    {
        let idx = seat as usize;
        if idx >= self.seats.len() {
            true
        } else {
            self.seats[idx].is_none()
        }
    }

    /// The number of occupied seats.
    pub fn seated_count(&self) -> (n: usize)
        ensures
            n == self.spec_seated_count(),
    {
        let mut n: usize = 0;
        let mut i: usize = 0;
        let len = self.seats.len();
        while i < len
            invariant
                0 <= i <= len,
                len == self.seats@.len(),
                n == self.occupied_below(i as int),
                n <= i,
            decreases len - i,
        {
            if self.seats[i].is_some() {
                n += 1;
            }
            i += 1;
        }
        n
    }

    /// The seat occupied by `player_id`, if any.
    pub fn find_seat_of(&self, player_id: PlayerId) -> (r: Option<usize>)
        ensures
            match r {
                Some(i) => i < self.seats@.len() && self.seats@[i as int] is Some
                    && self.seats@[i as int]->0.player_id == player_id,
                None => !self.spec_seated(player_id),
            },
    {
        let len = self.seats.len();
        let mut i: usize = 0;
        while i < len
            invariant
                0 <= i <= len,
                len == self.seats@.len(),
                forall|j: int|
                    0 <= j < i ==> !((#[trigger] self.seats@[j]) is Some
                        && self.seats@[j]->0.player_id == player_id),
            decreases len - i,
        {
            match &self.seats[i] {
                Some(p) => {
                    if p.player_id == player_id {
                        return Some(i);
                    }
                },
                None => {},
            }
            i += 1;
        }
        None
    }

    /// The lowest-numbered free seat, if any.
    pub fn first_free_seat(&self) -> (r: Option<usize>)
        ensures
            match r {
                Some(i) => i < self.seats@.len() && self.seats@[i as int] is None && forall|j: int|
                    0 <= j < i ==> (#[trigger] self.seats@[j]) is Some,
                None => forall|j: int|
                    0 <= j < self.seats@.len() ==> (#[trigger] self.seats@[j]) is Some,
            },
    {
        let len = self.seats.len();
        let mut i: usize = 0;
        while i < len
            invariant
                0 <= i <= len,
                len == self.seats@.len(),
                forall|j: int| 0 <= j < i ==> (#[trigger] self.seats@[j]) is Some,
            decreases len - i,
        {
            if self.seats[i].is_none() {
                return Some(i);
            }
            i += 1;
        }
        None
    }

    /// The ids of all seated players, in seat order.
    pub fn seated_players(&self) -> (ps: Vec<PlayerId>)
        ensures
            forall|p: PlayerId| ps@.contains(p) <==> self.spec_seated(p),
    {
        let len = self.seats.len();
        let mut ps: Vec<PlayerId> = Vec::new();
        let mut i: usize = 0;
        while i < len
            invariant
                0 <= i <= len,
                len == self.seats@.len(),
                forall|p: PlayerId|
                    ps@.contains(p) <==> exists|j: int|
                        0 <= j < i && (#[trigger] self.seats@[j]) is Some
                            && self.seats@[j]->0.player_id == p,
            decreases len - i,
        {
            let ghost pre = ps@;
            match &self.seats[i] {
                Some(p) => {
                    ps.push(p.player_id);
                },
                None => {},
            }
            proof {
                assert forall|q: PlayerId| ps@.contains(q) implies exists|j: int|
                    0 <= j < i + 1 && (#[trigger] self.seats@[j]) is Some
                        && self.seats@[j]->0.player_id == q by {
                    let k = choose|k: int| 0 <= k < ps@.len() && ps@[k] == q;
                    if k < pre.len() {
                        assert(pre.contains(q));
                        let j = choose|j: int|
                            0 <= j < i && (#[trigger] self.seats@[j]) is Some
                                && self.seats@[j]->0.player_id == q;
                        assert((self.seats@[j]) is Some && self.seats@[j]->0.player_id == q);
                    } else {
                        assert((self.seats@[i as int]) is Some && self.seats@[i as int]->0.player_id
                            == q);
                    }
                }
                assert forall|q: PlayerId|
                    (exists|j: int|
                        0 <= j < i + 1 && (#[trigger] self.seats@[j]) is Some
                            && self.seats@[j]->0.player_id == q) implies ps@.contains(q) by {
                    let j = choose|j: int|
                        0 <= j < i + 1 && (#[trigger] self.seats@[j]) is Some
                            && self.seats@[j]->0.player_id == q;
                    if j < i as int {
                        assert(pre.contains(q));
                        let k = choose|k: int| 0 <= k < pre.len() && pre[k] == q;
                        assert(ps@[k] == q);
                    } else {
                        assert(ps@[ps@.len() - 1] == q);
                    }
                }
            }
            i += 1;
        }
        ps
    }

    /// Whether this table satisfies its well-formedness invariant; lets
    /// unverified callers test a table value before handing it back.
    pub fn check_wf(&self) -> (r: bool)
        ensures
            r == self.wf(),
    {
        let len = self.seats.len();
        if len != self.config.max_seats as usize {
            return false;
        }
        let mut i: usize = 0;
        while i < len
            invariant
                0 <= i <= len,
                len == self.seats@.len(),
                forall|a: int, b: int|
                    0 <= a < b < i ==> ((#[trigger] self.seats@[a]) is Some && (
                    #[trigger] self.seats@[b]) is Some ==> self.seats@[a]->0.player_id
                        != self.seats@[b]->0.player_id),
            decreases len - i,
        {
            match &self.seats[i] {
                Some(p) => {
                    let mut j: usize = 0;
                    while j < i
                        invariant
                            0 <= j <= i < len,
                            len == self.seats@.len(),
                            self.seats@[i as int] is Some,
                            self.seats@[i as int]->0.player_id == p.player_id,
                            forall|a: int|
                                0 <= a < j ==> ((#[trigger] self.seats@[a]) is Some
                                    ==> self.seats@[a]->0.player_id != p.player_id),
                        decreases i - j,
                    {
                        match &self.seats[j] {
                            Some(q) => {
                                if q.player_id == p.player_id {
                                    return false;
                                }
                            },
                            None => {},
                        }
                        j += 1;
                    }
                },
                None => {},
            }
            i += 1;
        }
        true
    }

    /// Clear the seat occupied by `player_id` and hand its occupant back.
    pub fn remove_player(&mut self, player_id: PlayerId) -> (r: Option<PlayerAtTable>)
        requires
            old(self).wf(),
        ensures
            final(self).wf(),
            final(self).id == old(self).id,
            final(self).name == old(self).name,
            final(self).config == old(self).config,
            final(self).hand_in_progress == old(self).hand_in_progress,
            final(self).street == old(self).street,
            final(self).dealer_button == old(self).dealer_button,
            final(self).total_pot == old(self).total_pot,
            final(self).board == old(self).board,
            !final(self).spec_seated(player_id),
            match r {
                Some(p) => {
                    &&& old(self).spec_seated(player_id)
                    &&& p.player_id == player_id
                    &&& exists|i: int|
                        0 <= i < old(self).seats@.len() && old(self).seats@[i] == Some(p)
                            && final(self).seats@ == old(self).seats@.update(i, None::<
                        PlayerAtTable>)
                },
                None => !old(self).spec_seated(player_id) && final(self).seats@ == old(
                    self,
                ).seats@,
            },
    {
        let r = self.find_seat_of(player_id);
        match r {
            Some(i) => {
                let p = self.seats[i].unwrap();
                let slot = &mut self.seats[i];
                *slot = None;
                proof {
                    assert(self.seats@ == old(self).seats@.update(i as int, None::<
                    PlayerAtTable>));
                    assert(!self.spec_seated(player_id)) by {
                        if self.spec_seated(player_id) {
                            let j = choose|j: int|
                                0 <= j < self.seats@.len() && (#[trigger] self.seats@[j]) is Some
                                    && self.seats@[j]->0.player_id == player_id;
                            assert(old(self).seats@[j] == self.seats@[j]);
                        }
                    }
                }
                Some(p)
            },
            None => None,
        }
    }
}

/// Total chips on the felt: the sum of the stacks over a seat list.
pub open spec fn seats_stack_sum(s: Seq<Option<PlayerAtTable>>) -> int
    decreases s.len(),
{
    if s.len() == 0 {
        0
    } else {
        seats_stack_sum(s.drop_last()) + match s.last() {
            Some(p) => p.stack as int,
            None => 0,
        }
    }
}

/// Replacing one seat changes the stack total by exactly the stack delta of
/// that seat.
pub proof fn lemma_stack_sum_update(
    s: Seq<Option<PlayerAtTable>>,
    i: int,
    e: Option<PlayerAtTable>,
)
    requires
        0 <= i < s.len(),
    ensures
        seats_stack_sum(s.update(i, e)) == seats_stack_sum(s) - (match s[i] {
            Some(p) => p.stack as int,
            None => 0,
        }) + (match e {
            Some(p) => p.stack as int,
            None => 0,
        }),
    decreases s.len(),
{
    if s.len() > 0 {
        if i == s.len() - 1 {
            assert(s.update(i, e).drop_last() =~= s.drop_last());
        } else {
            assert(s.update(i, e).drop_last() =~= s.drop_last().update(i, e));
            lemma_stack_sum_update(s.drop_last(), i, e);
        }
    }
}

/// One physical reseat conserves the chips on the felt: clearing a player
/// out of a seat on one table and placing the same player into a free seat
/// of another leaves the combined stack total of the two tables unchanged.
pub proof fn lemma_reseat_conserves_stacks(
    from: Seq<Option<PlayerAtTable>>,
    to: Seq<Option<PlayerAtTable>>,
    i: int,
    j: int,
    p: PlayerAtTable,
)
    requires
        0 <= i < from.len(),
        from[i] == Some(p),
        0 <= j < to.len(),
        to[j] is None,
    ensures
        seats_stack_sum(from.update(i, None::<PlayerAtTable>)) + seats_stack_sum(
            to.update(j, Some(p)),
        ) == seats_stack_sum(from) + seats_stack_sum(to),
{
    lemma_stack_sum_update(from, i, None::<PlayerAtTable>);
    lemma_stack_sum_update(to, j, Some(p));
}

} // verus!
