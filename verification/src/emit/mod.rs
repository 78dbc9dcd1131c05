//! What zor writes: state reports, titles and event records.
pub mod events;
pub mod osc;
pub mod title;
