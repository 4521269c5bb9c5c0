//! A verified shell-history browsing library: parsing history lines,
//! time-window predicates, search and free-text refinement, command
//! frequency statistics, and the interactive selection state machine.

pub mod chars;
pub mod entry;
pub mod search;
pub mod session;
pub mod stats;
pub mod window;
