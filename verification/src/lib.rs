//! Verified core of a launcher for the niri compositor: desktop entries,
//! the launch-frequency cache, the configuration file and the decisions
//! the user interface takes from them.

pub mod apps;
pub mod cache;
pub mod config;
pub mod desktop;
pub mod error;
pub mod launcher;
pub mod order;
pub mod text;
