//! The conditions that a patch can carry.

pub mod has;
pub mod needs;
