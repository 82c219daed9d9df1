//! rumor runs a set of processes side by side.

pub mod app;
pub mod cli;
pub mod clipboard;
pub mod config;
pub mod config_error;
pub mod diag;
pub mod env;
pub mod graph;
pub mod highlight;
pub mod logfile;
pub mod manager;
pub mod output;
pub mod pattern;
pub mod ports;
pub mod probe;
pub mod raw;
pub mod retry;
pub mod search;
pub mod status;
pub mod status_color;
pub mod style;
pub mod tabs;
pub mod template;
pub mod terminal;
pub mod text;
pub mod ui;
pub mod update;
pub mod vt;
pub mod watch;
