//! Session-exit helper core: tracks desktop application windows and their
//! processes across repeated polls, suppresses resources that failed to
//! answer queries, and plans graduated shutdown actions until nothing is
//! left running.

pub mod driver;
pub mod escalate;
pub mod pattern;
pub mod probe;
pub mod reconcile;
pub mod shrinky;
pub mod state;
pub mod strings;
