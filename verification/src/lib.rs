//! A verified selection-and-review engine for working through a recurring
//! set of files one at a time.
//!
//! Discovery filters a walked directory tree down to candidate paths, a
//! persisted set of already-completed paths is subtracted, the remainder is
//! ordered (randomly or by size), and a session state machine walks the
//! ordered queue, recording each confirmed completion so that interrupted
//! runs resume where they left off.

pub mod cache;
pub mod config;
pub mod filter;
pub mod order;
pub mod session;
pub mod text;
