//! Download engine core: file-name handling, size formatting, chunk planning,
//! the task table, and the local HTTP bridge's request handling.

pub mod text;
pub mod filename;
pub mod chunks;
pub mod urls;
pub mod sizes;
pub mod task;
pub mod bridge;
pub mod folders;
