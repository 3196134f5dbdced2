//! Core of a segmented, resumable download manager.

pub mod config;
pub mod download;
pub mod engine;
pub mod foreign;
pub mod gate;
pub mod history;
pub mod host;
pub mod limiter;
pub mod names;
pub mod notify;
pub mod num;
pub mod probe;
pub mod queue;
pub mod segment;
pub mod server;
pub mod sidecar;
pub mod taskbar;
pub mod text;
pub mod transfer;
pub mod ui;
pub mod update;
pub mod url;
