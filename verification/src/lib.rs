//! A log-structured merge-tree store.

pub mod compact;
pub mod data_stores;
pub mod db;
pub mod err;
pub mod order;
pub mod reads;
pub mod text;
pub mod write_req;
