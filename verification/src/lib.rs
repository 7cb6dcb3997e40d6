//! One language server per workspace, shared by every client.

pub mod calendar;
pub mod config;
pub mod daemon;
pub mod framing;
pub mod install;
pub mod json;
pub mod msg;
pub mod paths;
pub mod shim;
pub mod status;
pub mod strings;
pub mod table;
pub mod text;
