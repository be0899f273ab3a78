//! Client-side transaction layer over a column-family-organized, ordered
//! key-value store.
//!
//! A [`transaction::Transaction`] is one in-flight atomic unit of work: puts
//! and deletes accumulate in a pending write set per column family, reads see
//! the pending writes layered over the state captured when the transaction
//! began, and `commit` publishes the pending writes to the owning
//! [`db::TransactionDb`] while `rollback` discards them.  Cursors scan one
//! column family in ascending or descending key order, and snapshots expose
//! the begin-time state either borrowed from the transaction or as an owned
//! value that outlives it.

pub mod cursor;
pub mod db;
pub mod keys;
pub mod laws;
pub mod options;
pub mod slice;
pub mod snapshot;
pub mod status;
pub mod store;
pub mod transaction;
