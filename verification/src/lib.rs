//! An in-memory, multi-version key-value store with snapshot transactions.
//!
//! [`database::Database`] is the store and [`tx::Transaction`] a transaction on it. What a
//! caller gets from each call stands in [`calls`], and what the operations of the model come to
//! in [`promises`]. What is proved of several calls together stands in [`laws`], and of whole
//! histories of calls in [`history`].

pub mod calls;
pub mod commit;
pub mod database;
pub mod err;
pub mod event;
pub mod history;
pub mod laws;
pub mod merge;
pub mod order;
pub mod ordered_map;
pub mod promises;
pub mod tx;
pub mod version;
