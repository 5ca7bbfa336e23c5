//! MIME-aware clipboard history.

pub mod answering;
pub mod cli;
pub mod daemon;
pub mod db;
pub mod hash;
pub mod history;
pub mod ipc;
pub mod keeping;
pub mod label;
pub mod notation;
pub mod order;
pub mod outside;
pub mod payload;
pub mod reading;
pub mod restore;
pub mod retry;
pub mod rows;
pub mod server;
pub mod suppress;
pub mod text;
pub mod time;
pub mod types;
pub mod watcher;
