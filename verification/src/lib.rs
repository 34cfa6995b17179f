//! Verified core of Warper: the sealed activity log and exit-IP history,
//! the parsers for `warp-cli` output, and the decisions of the tray app.

pub mod text;
pub mod ip;
pub mod hex;
pub mod vault;
pub mod decimal;
pub mod clock;
pub mod log_laws;
pub mod warp;
pub mod control;
pub mod registry;
