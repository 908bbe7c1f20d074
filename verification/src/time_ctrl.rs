//! Per-table time control: a decrementing time bank per player.
//!
//! `start_player_turn` arms the clock for a player; `clear_current_turn`
//! disarms it without resetting the bank; `on_time_passed` converts elapsed
//! seconds into either no timeout or a single forced check-or-fold for the
//! armed player.  Once a timeout fires, the clock is disarmed, so the same
//! exhaustion can never fire twice.

use vstd::prelude::*;

use crate::domain::PlayerId;
use crate::idmap::IdMap;

verus! {

/// Seconds in a fresh time bank under the standard profile.
pub const DEFAULT_TIME_BANK_SECS: u64 = 60;

#[derive(Clone, Copy, Debug, PartialEq, Eq, Structural)]
pub enum TimeProfile {
    Standard,
}

#[derive(Clone, Copy, Debug, PartialEq, Eq, Structural)]
pub enum AutoActionDecision {
    NoTimeout,
    TimeoutCheckOrFold { player_id: PlayerId },
}

pub struct TimeController {
    pub profile: TimeProfile,
    pub banks: IdMap<u64>,
    pub current_turn: Option<PlayerId>,
}

/// How one `on_time_passed(secs)` step relates a controller before the call
/// to the controller and decision after it.  The contract of
/// `on_time_passed` is exactly this relation, so laws about successive ticks
/// can be stated and proved over it.
pub open spec fn tick_rel(
    pre: TimeController,
    secs: u64,
    post: TimeController,
    d: AutoActionDecision,
) -> bool {
    match pre.current_turn {
        None => post == pre && d == AutoActionDecision::NoTimeout,
        Some(p) => {
            &&& pre.banks.contains_key(p)
            &&& post.profile == pre.profile
            &&& post.banks.contains_key(p)
            &&& forall|q: PlayerId|
                q != p ==> post.banks.contains_key(q) == pre.banks.contains_key(q)
            &&& forall|q: PlayerId|
                q != p && pre.banks.contains_key(q) ==> post.banks.spec_get(q)
                    == pre.banks.spec_get(q)
            &&& if pre.banks.spec_get(p) <= secs {
                &&& d == (AutoActionDecision::TimeoutCheckOrFold { player_id: p })
                &&& post.banks.spec_get(p) == 0
                &&& post.current_turn is None
            } else {
                &&& d == AutoActionDecision::NoTimeout
                &&& post.banks.spec_get(p) == pre.banks.spec_get(p) - secs
                &&& post.current_turn == pre.current_turn
            }
        },
    }
}

impl TimeController {
    /// The clock is only ever armed for a player with a time bank.
    pub open spec fn wf(self) -> bool {
        &&& self.banks.wf()
        &&& match self.current_turn {
            Some(p) => self.banks.contains_key(p),
            None => true,
        }
    }

    pub fn new(profile: TimeProfile) -> (c: Self)
        ensures
            c.wf(),
            c.profile == profile,
            c.current_turn is None,
            c.banks.spec_len() == 0,
            forall|p: PlayerId| !c.banks.contains_key(p),
    {
        TimeController { profile, banks: IdMap::new(), current_turn: None }
    }

    /// Seed a fresh time bank for every listed player, leaving players that
    /// already have a bank untouched.
    pub fn init_players(&mut self, players: &Vec<PlayerId>)
        requires
            old(self).wf(),
        ensures
            final(self).wf(),
            final(self).profile == old(self).profile,
            final(self).current_turn == old(self).current_turn,
            forall|p: PlayerId|
                players@.contains(p) ==> final(self).banks.contains_key(p),
            forall|p: PlayerId|
                players@.contains(p) && !old(self).banks.contains_key(p) ==> final(self).banks.spec_get(p) == DEFAULT_TIME_BANK_SECS,
            forall|p: PlayerId|
                !players@.contains(p) ==> final(self).banks.contains_key(p) == old(self).banks.contains_key(p),
            forall|p: PlayerId|
                old(self).banks.contains_key(p) ==> final(self).banks.contains_key(p) && final(self).banks.spec_get(p) == old(self).banks.spec_get(p),
    {
        let n = players.len();
        let mut i: usize = 0;
        while i < n
            invariant
                n == players@.len(),
                0 <= i <= n,
                self.banks.wf(),
                self.profile == old(self).profile,
                self.current_turn == old(self).current_turn,
                forall|p: PlayerId|
                    players@.subrange(0, i as int).contains(p) ==> self.banks.contains_key(p),
                forall|p: PlayerId|
                    players@.subrange(0, i as int).contains(p) && !old(self).banks.contains_key(p)
                        ==> self.banks.spec_get(p) == DEFAULT_TIME_BANK_SECS,
                forall|p: PlayerId|
                    !players@.subrange(0, i as int).contains(p) ==> self.banks.contains_key(p)
                        == old(self).banks.contains_key(p),
                forall|p: PlayerId|
                    old(self).banks.contains_key(p) ==> self.banks.contains_key(p)
                        && self.banks.spec_get(p) == old(self).banks.spec_get(p),
            decreases n - i,
        {
            let p = players[i];
            if !self.banks.contains(p) {
                self.banks.insert(p, DEFAULT_TIME_BANK_SECS);
            }
            proof {
                assert forall|q: PlayerId|
                    players@.subrange(0, i + 1int).contains(q) implies self.banks.contains_key(
                    q,
                ) by {
                    let j = choose|j: int|
                        0 <= j < i + 1 && #[trigger] players@.subrange(0, i + 1int)[j] == q;
                    if j < i as int {
                        assert(players@.subrange(0, i as int)[j] == q);
                        assert(players@.subrange(0, i as int).contains(q));
                    }
                }
                assert forall|q: PlayerId|
                    !players@.subrange(0, i + 1int).contains(q) implies self.banks.contains_key(q)
                    == old(self).banks.contains_key(q) by {
                    assert(!players@.subrange(0, i as int).contains(q)) by {
                        if players@.subrange(0, i as int).contains(q) {
                            let j = choose|j: int|
                                0 <= j < i && #[trigger] players@.subrange(0, i as int)[j] == q;
                            assert(players@.subrange(0, i + 1int)[j] == q);
                        }
                    }
                    assert(q != p) by {
                        assert(players@.subrange(0, i + 1int)[i as int] == p);
                    }
                }
                assert forall|q: PlayerId|
                    players@.subrange(0, i + 1int).contains(q) && !old(self).banks.contains_key(q)
                        implies self.banks.spec_get(q) == DEFAULT_TIME_BANK_SECS by {
                    let j = choose|j: int|
                        0 <= j < i + 1 && #[trigger] players@.subrange(0, i + 1int)[j] == q;
                    if j < i as int {
                        assert(players@.subrange(0, i as int)[j] == q);
                        assert(players@.subrange(0, i as int).contains(q));
                    }
                }
            }
            i += 1;
        }
        proof {
            assert(players@.subrange(0, n as int) == players@);
        }
    }

    /// Arm the clock for `player_id`, seeding a fresh bank if the player has
    /// none yet.
    pub fn start_player_turn(&mut self, player_id: PlayerId)
        requires
            old(self).wf(),
        ensures
            final(self).wf(),
            final(self).profile == old(self).profile,
            final(self).current_turn == Some(player_id),
            final(self).banks.contains_key(player_id),
            final(self).banks.spec_get(player_id) == if old(self).banks.contains_key(player_id) {
                old(self).banks.spec_get(player_id)
            } else {
                DEFAULT_TIME_BANK_SECS
            },
            forall|q: PlayerId|
                q != player_id ==> final(self).banks.contains_key(q) == old(self).banks.contains_key(q),
            forall|q: PlayerId|
                q != player_id && old(self).banks.contains_key(q) ==> final(self).banks.spec_get(q)
                    == old(self).banks.spec_get(q),
    {
        if !self.banks.contains(player_id) {
            self.banks.insert(player_id, DEFAULT_TIME_BANK_SECS);
        }
        self.current_turn = Some(player_id);
    }

    /// Disarm the clock without resetting any bank.
    pub fn clear_current_turn(&mut self)
        requires
            old(self).wf(),
        ensures
            final(self).wf(),
            final(self).profile == old(self).profile,
            final(self).current_turn is None,
            final(self).banks == old(self).banks,
    {
        self.current_turn = None;
    }

    /// Advance the armed player's clock by `secs` elapsed seconds.
    pub fn on_time_passed(&mut self, secs: u64) -> (d: AutoActionDecision)
        requires
            old(self).wf(),
        ensures
            final(self).wf(),
            tick_rel(*old(self), secs, *final(self), d),
    {
        match self.current_turn {
            None => AutoActionDecision::NoTimeout,
            Some(p) => {
                let bank = *self.banks.get(p).unwrap();
                if bank <= secs {
                    self.banks.insert(p, 0);
                    self.current_turn = None;
                    AutoActionDecision::TimeoutCheckOrFold { player_id: p }
                } else {
                    self.banks.insert(p, bank - secs);
                    AutoActionDecision::NoTimeout
                }
            },
        }
    }
}

/// A time controller that reaches zero for the armed player yields exactly
/// one forced check-or-fold: the tick that fires the timeout disarms the
/// clock, so a second tick on the resulting controller never fires for the
/// same exhaustion.
pub proof fn lemma_timeout_fires_once(
    c0: TimeController,
    c1: TimeController,
    c2: TimeController,
    secs1: u64,
    secs2: u64,
    d1: AutoActionDecision,
    d2: AutoActionDecision,
)
    requires
        tick_rel(c0, secs1, c1, d1),
        tick_rel(c1, secs2, c2, d2),
        d1 is TimeoutCheckOrFold,
    ensures
        d2 == AutoActionDecision::NoTimeout,
        c2 == c1,
{
}

/// A timeout is yielded precisely when the armed player's bank is exhausted
/// by the elapsed time, and it names that player.
pub proof fn lemma_timeout_names_armed_player(
    pre: TimeController,
    secs: u64,
    post: TimeController,
    d: AutoActionDecision,
)
    requires
        tick_rel(pre, secs, post, d),
    ensures
        d is TimeoutCheckOrFold <==> (pre.current_turn is Some && pre.banks.spec_get(
            pre.current_turn->0,
        ) <= secs),
        d is TimeoutCheckOrFold ==> d->player_id == pre.current_turn->0 && post.current_turn
            is None,
{
}

} // verus!
