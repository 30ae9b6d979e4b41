//! Rotating seat assignment for a horseshoe of sixteen seats: the layout,
//! the rules that a new arrangement must meet against recent history, the
//! randomized search that finds one, and the hub that hands each published
//! arrangement to its viewers.

pub mod layout;
pub mod weights;
pub mod search;
pub mod neighbours;
pub mod generate;
pub mod display;
pub mod history;
pub mod command;
pub mod hub;
pub mod conn;
pub mod session;
