//! Combat-log analysis: reads the events of a game client's combat log,
//! totals damage and healing by kind, by opponent and by second, and splits
//! the timeline into fights.
pub mod text;
pub mod stamp;
pub mod tally;
pub mod names;
pub mod grammar;
pub mod dps;
pub mod heal;
pub mod split;
pub mod extract;
pub mod classify;
pub mod log;
pub mod laws;
