//! The tournament configuration as the user interface submits it, and its
//! conversion into the engine-facing configuration.

use vstd::prelude::*;

use crate::domain::{AnteType, Chips};
use crate::tournament::{BlindLevelConfig, BlindPace, BlindStructure, TournamentConfig};

verus! {

/// One blind level as supplied by the front end.
#[derive(Clone, Copy, Debug, PartialEq, Eq, Structural)]
pub struct UiBlindLevel {
    pub level: u32,
    pub small_blind: u64,
    pub big_blind: u64,
    pub ante: u64,
}

/// The full tournament configuration as supplied by the front end.  Fields
/// the engine-facing configuration does not carry (payouts, bounties,
/// registration windows) are pure presentation data and are dropped by the
/// conversion.
pub struct UiTournamentConfig {
    pub name: String,
    pub description: String,
    pub prize_description: String,
    pub start_time: Option<String>,
    pub reg_close_time: Option<String>,
    pub table_size: u8,
    pub action_time: u32,
    pub blind_level_duration: u32,
    pub blind_pace: BlindPace,
    pub starting_stack: u64,
    pub max_players: u32,
    pub late_reg_minutes: u32,
    pub ante_type: AnteType,
    pub is_progressive_ante: bool,
    pub payout_type: String,
    pub min_payout_places: u32,
    pub guaranteed_prize_pool: u64,
    pub is_bounty: bool,
    pub bounty_amount: u64,
    pub has_final_table_bonus: bool,
    pub final_table_bonus: u64,
    pub time_bank_seconds: u32,
    pub break_every_minutes: u32,
    pub break_duration_minutes: u32,
    pub instant_registration: bool,
    pub re_entry_allowed: bool,
    pub rebuys_allowed: bool,
    pub blind_levels: Vec<UiBlindLevel>,
}

impl UiTournamentConfig {
    /// Convert into the engine-facing configuration, carrying over the
    /// structural and timing fields and the blind schedule one level at a
    /// time.
    pub fn to_engine_config(self) -> (c: TournamentConfig)
        ensures
            c.name == self.name,
            c.table_size == self.table_size,
            c.starting_stack == self.starting_stack,
            c.max_players == self.max_players,
            c.action_time == self.action_time,
            c.blind_level_duration == self.blind_level_duration,
            c.blind_pace == self.blind_pace,
            c.ante_type == self.ante_type,
            c.time_bank_seconds == self.time_bank_seconds,
            c.break_every_minutes == self.break_every_minutes,
            c.break_duration_minutes == self.break_duration_minutes,
            c.re_entry_allowed == self.re_entry_allowed,
            c.rebuys_allowed == self.rebuys_allowed,
            c.blind_structure.levels@.len() == self.blind_levels@.len(),
            forall|i: int|
                0 <= i < self.blind_levels@.len() ==> (#[trigger] c.blind_structure.levels@[i])
                    == (BlindLevelConfig {
                    level: self.blind_levels@[i].level,
                    small_blind: self.blind_levels@[i].small_blind,
                    big_blind: self.blind_levels@[i].big_blind,
                    ante: self.blind_levels@[i].ante,
                }),
    {
        let n = self.blind_levels.len();
        let mut levels: Vec<BlindLevelConfig> = Vec::new();
        let mut i: usize = 0;
        while i < n
            invariant
                n == self.blind_levels@.len(),
                0 <= i <= n,
                levels@.len() == i,
                forall|j: int|
                    0 <= j < i ==> (#[trigger] levels@[j]) == (BlindLevelConfig {
                        level: self.blind_levels@[j].level,
                        small_blind: self.blind_levels@[j].small_blind,
                        big_blind: self.blind_levels@[j].big_blind,
                        ante: self.blind_levels@[j].ante,
                    }),
            decreases n - i,
        {
            let l = self.blind_levels[i];
            levels.push(
                BlindLevelConfig {
                    level: l.level,
                    small_blind: l.small_blind,
                    big_blind: l.big_blind,
                    ante: l.ante,
                },
            );
            i += 1;
        }
        TournamentConfig::from_frontend_basic(
            self.name,
            self.table_size,
            self.starting_stack,
            self.max_players,
            self.action_time,
            self.blind_level_duration,
            self.blind_pace,
            levels,
            self.ante_type,
            self.time_bank_seconds,
            self.break_every_minutes,
            self.break_duration_minutes,
            self.re_entry_allowed,
            self.rebuys_allowed,
        )
    }
}

impl From<UiTournamentConfig> for TournamentConfig {
    fn from(ui: UiTournamentConfig) -> (c: TournamentConfig) {
        ui.to_engine_config()
    }
}

impl vstd::std_specs::convert::FromSpecImpl<UiTournamentConfig> for TournamentConfig {
    open spec fn obeys_from_spec() -> bool {
        false
    }

    open spec fn from_spec(ui: UiTournamentConfig) -> TournamentConfig {
        vstd::pervasive::arbitrary()
    }
}

} // verus!
