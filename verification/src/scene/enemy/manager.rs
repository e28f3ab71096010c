//! The enemy manager's per-frame passes.
pub mod deaths;
pub mod ranking;
pub mod updater;
