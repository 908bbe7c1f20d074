//! Mid-hand state: the live engine session and its storable snapshot.
//!
//! The external rules engine owns the meaning of this data (which cards are
//! left in the deck, whose turn it is, how the pots split); the orchestrator
//! only carries it between the engine and the store, and reads the current
//! actor from it.  The codec between the live form and the snapshot form is
//! pure data transformation with no logic.

use vstd::prelude::*;

use crate::domain::{Card, Chips, HandId, SeatIndex, Street, TableId};

verus! {

/// Engine-internal betting-round state.
#[derive(Clone, Copy, Debug, PartialEq, Eq, Structural)]
pub struct BettingState {
    pub street: Street,
    pub current_bet: Chips,
    pub min_raise: Chips,
    pub last_aggressor: Option<SeatIndex>,
}

#[derive(Clone, Copy, Debug, PartialEq, Eq, Structural)]
pub struct Pot {
    pub amount: Chips,
}

/// A side pot and the seats eligible to win it.
pub struct SidePot {
    pub amount: Chips,
    pub eligible: Vec<SeatIndex>,
}

/// What one seat has put into the pot so far this hand.
#[derive(Clone, Copy, Debug, PartialEq, Eq, Structural)]
pub struct SeatContribution {
    pub seat: SeatIndex,
    pub amount: Chips,
}

/// The live, in-memory hand session that the external engine works on.
pub struct HandEngine {
    pub table_id: TableId,
    pub hand_id: HandId,
    pub deck: Vec<Card>,
    pub betting: BettingState,
    pub pot: Pot,
    pub side_pots: Vec<SidePot>,
    pub contributions: Vec<SeatContribution>,
    pub current_actor: Option<SeatIndex>,
    pub history: Vec<String>,
}

/// What the rules engine reports after an action is applied and the betting
/// round is advanced as far as it can be: the hand either continues, or it
/// finished with a settlement summary.
pub enum HandStatus {
    Ongoing,
    Finished { summary: String },
}

/// The serializable snapshot of a hand session, stored between commands.
/// Exactly one snapshot (or none) exists per table at any time.
pub struct HandEngineSnapshot {
    pub table_id: TableId,
    pub hand_id: HandId,
    pub deck: Vec<Card>,
    pub betting: BettingState,
    pub pot: Pot,
    pub side_pots: Vec<SidePot>,
    pub contributions: Vec<SeatContribution>,
    pub current_actor: Option<SeatIndex>,
    pub history: Vec<String>,
}

impl HandEngineSnapshot {
    /// Wrap a live hand session into its storable snapshot.
    pub fn from_engine(engine: HandEngine) -> (s: Self)
        ensures
            s.table_id == engine.table_id,
            s.hand_id == engine.hand_id,
            s.deck == engine.deck,
            s.betting == engine.betting,
            s.pot == engine.pot,
            s.side_pots == engine.side_pots,
            s.contributions == engine.contributions,
            s.current_actor == engine.current_actor,
            s.history == engine.history,
    {
        HandEngineSnapshot {
            table_id: engine.table_id,
            hand_id: engine.hand_id,
            deck: engine.deck,
            betting: engine.betting,
            pot: engine.pot,
            side_pots: engine.side_pots,
            contributions: engine.contributions,
            current_actor: engine.current_actor,
            history: engine.history,
        }
    }

    /// Unwrap a snapshot into a live hand session for the engine.
    pub fn into_engine(self) -> (e: HandEngine)
        ensures
            e.table_id == self.table_id,
            e.hand_id == self.hand_id,
            e.deck == self.deck,
            e.betting == self.betting,
            e.pot == self.pot,
            e.side_pots == self.side_pots,
            e.contributions == self.contributions,
            e.current_actor == self.current_actor,
            e.history == self.history,
    {
        HandEngine {
            table_id: self.table_id,
            hand_id: self.hand_id,
            deck: self.deck,
            betting: self.betting,
            pot: self.pot,
            side_pots: self.side_pots,
            contributions: self.contributions,
            current_actor: self.current_actor,
            history: self.history,
        }
    }
}

} // verus!
