//! Cached standings of a yearly puzzle event: member records, the time-limited
//! store of per-year snapshots, the two scoring policies with their rankings,
//! and the multi-year aggregate.

pub mod aoc;
pub mod clock;
pub mod decode;
pub mod events;
pub mod json;
pub mod leaderboard;
pub mod leaders;
pub mod overall;
pub mod overall_view;
pub mod ranking;
pub mod settings;
pub mod text;
pub mod util;
