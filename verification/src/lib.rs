//! Agent-oriented extensions to a shell-history tool: a store of "memories"
//! (natural-language notes linked to history entries, organised as a forest)
//! and the decision logic of the client commands that report on history,
//! the record store, sync and import.
pub mod text;
pub mod memory;
pub mod order;
pub mod like;
pub mod database;
pub mod laws;
pub mod tree;
pub mod tree_text;
pub mod memory_cmd;
pub mod stats;
pub mod import;
pub mod sync;
pub mod store;
