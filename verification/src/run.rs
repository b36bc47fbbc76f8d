//! The sweep: the filter that selects messages by age, the sweeps of one
//! channel, of one guild and of all guilds, and the report of what was done.

pub mod channel;
pub mod filter;
pub mod guild;
pub mod guilds;
pub mod report;
pub mod sweep;
pub mod transport;
