//! Sessions of the GitHub Copilot CLI, read out of its logs and event streams.
pub mod collector;
pub mod decimal;
pub mod discovery;
pub mod events;
pub mod host;
pub mod json;
pub mod log;
pub mod ordering;
pub mod paths;
pub mod processes;
pub mod resolve;
pub mod session;
pub mod settings;
pub mod tail;
pub mod text;
