//! Pane watchdog: classify terminal pane text by regex rules, and decide
//! which rule commands to run and when.
//!
//! [`config`] holds the rules as written, [`pane_rules`] compiles them and
//! runs them over a captured pane, and [`pane_watchdog`], [`ledger`] and
//! [`command`] hold what the daemon's background loop decides.

pub mod ansi;
pub mod command;
pub mod config;
pub mod ledger;
pub mod ledger_laws;
pub mod normalize;
pub mod pane_rules;
pub mod pane_watchdog;
pub mod regexes;
pub mod rule_laws;
pub mod text;
