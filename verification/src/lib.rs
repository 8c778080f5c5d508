//! Filters for the Lichess monthly PGN database: tag parsing, time-control
//! rules, argument handling, movetext tokenizing, target positions and the
//! per-game keep/drop decisions of the three filter tools.

mod cli;
mod filter;
mod movetext;
mod position;
mod tags;
mod targets;
mod text;

pub use cli::{str_eq, take_flag, take_min_tc, MinTcWarning};
pub use filter::{
    elite_keeps, EcoFilter, EliteFilter, FilterError, GameBuffer, OpeningFilter, Step,
};
pub use movetext::{extract_moves, is_move_number, is_result};
pub use position::{
    fen_key, fen_key_in, matches_target, matches_target_from, moves_key, moves_key_from,
    GamePosition,
};
pub use tags::{parse_u32, tag_value, tc_estimated_seconds, tc_passes};
pub use targets::{search_limit, targets_from_text, targets_from_text_at, Targets};
pub use text::{chars_of, decode_chars, white_space};

use vstd::prelude::*;

verus! {

/// Default minimum time control, in seconds. 180 removes bullet and ultrabullet.
pub const DEFAULT_MIN_TC: u32 = 180;

} // verus!
