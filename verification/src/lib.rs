//! In-memory indexes over an append-only log of commands.
//!
//! The centerpiece is a skip list (`skip_list::BestTransactionLog`) that maps
//! monotonically appended offsets to command payloads. Beside it stand three
//! simpler siblings: a doubly linked transaction log, a binary-search-tree
//! keyed device registry, and a growable fixed-capacity timestamp buffer.

pub mod better_transaction_log;
pub mod binary_search_tree;
pub mod skip_list;
pub mod timestamp_saver;
