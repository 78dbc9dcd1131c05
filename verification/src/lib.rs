//! Observation of terminal agents: the OSC 7877 report protocol, the rules that read an agent's
//! state off its screen, the hysteresis that settles it, and the decisions of the wrapper around
//! them.
pub mod boundary;
pub mod boundary_laws;
pub mod callback_laws;
pub mod callbacks;
pub mod cli;
pub mod emit;
pub mod fixture;
pub mod fixture_laws;
pub mod json;
pub mod mending;
pub mod numeral;
pub mod observe;
pub mod observe_laws;
pub mod osc;
pub mod osc_field_laws;
pub mod osc_laws;
pub mod platform;
pub mod program_laws;
pub mod pty;
pub mod rules;
pub mod screen;
pub mod screen_laws;
pub mod session;
pub mod session_laws;
pub mod session_turns;
pub mod state;
pub mod state_history;
pub mod state_laws;
pub mod terminal;
pub mod text;
pub mod text_laws;
pub mod window_laws;
