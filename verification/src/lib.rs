//! Verified core of the Talon Sandbox SDK: request shaping, response
//! interpretation, error classification and the parsing of human-readable
//! sizes and durations.

pub mod text;
pub mod labels;
pub mod errors;
pub mod parse;
pub mod types;
pub mod fs;
pub mod client;
pub mod process;
pub mod sandbox;
pub mod expose;
pub mod terminal;
pub mod env;
pub mod browser;
pub mod images;
pub mod agent;

pub use agent::{AgentRunOpts, AgentRunRequest};
pub use browser::BrowserSession;
pub use client::{ClientBuilder, Config};
pub use errors::Error;
pub use fs::clean_path;
pub use images::ImageInfo;
pub use labels::StringMap;
pub use parse::{parse_duration, parse_size};
pub use process::{PollOutcome, RunOpts, SpawnOpts, SpawnedProcess};
pub use types::{
    CreateOpts, ExposeOpts, ExposedPort, FsEntry, ListOpts, ProcessInfo, ProcessResult, Resources,
    SandboxInfo, SandboxState,
};
