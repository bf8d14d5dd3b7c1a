//! Verified core of an SSH command server: guards, parsing, planning and
//! rendering, each with the contract it is proved to meet.

pub mod audit;
pub mod bytes;
pub mod config;
pub mod confirm;
pub mod errors;
pub mod forward;
pub mod guards;
pub mod json;
pub mod known_hosts;
pub mod output;
pub mod paths;
pub mod server;
pub mod session;
pub mod sftp;
pub mod ssh_config;
pub mod tail;
pub mod text;
pub mod tools;
