//! Enemies: per-kind behaviours and the manager's update passes.
pub mod behaviors;
pub mod manager;
