//! A small memo ("quick note") library: memo records, a store that keeps them
//! ordered by creation time, its stored form as bytes, and the decisions of the
//! `jot` command line.
pub mod cli;
pub mod codec;
pub mod models;
pub mod repository;
pub mod store;

pub use cli::{Cli, CliCommand, Outcome};
pub use models::{Memo, MemoId, MemoView, Timestamp};
pub use repository::{MemoRepository, StoreError};
pub use store::MemoStore;
