//! The rules that read an agent's state off its screen.
pub mod bundle;
pub mod eval;
pub mod gate_laws;
pub mod ident;
pub mod ident_laws;
pub mod laws;
pub mod name_laws;
pub mod pattern;
pub mod region_laws;
pub mod schema;
pub mod view;

pub use eval::{evaluate, Verdict};
pub use schema::{load, RuleSet, RuleState};
