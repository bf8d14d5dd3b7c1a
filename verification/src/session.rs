//! What a session does with its channels: one-shot commands, persistent
//! shells, connections and the pool that holds them.

pub mod connect;
pub mod exec;
pub mod pool;
pub mod pty;
