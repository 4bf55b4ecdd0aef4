//! Verified core of a lightweight Linux network monitor.

pub mod text;
pub mod keyed;
pub mod clock;
pub mod config;
pub mod iface_stats;
pub mod alerts;
pub mod nethogs;
pub mod vnstat;
pub mod shortcut;
pub mod commands;
