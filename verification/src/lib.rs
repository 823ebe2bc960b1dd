//! An in-memory hash table with open addressing and linear probing.
//!
//! Keys of any type that implements [`Key`] are mapped to values of any type.
//! The table doubles its slot array whenever half of the slots hold an entry.

pub mod content;
pub mod growth;
pub mod key;
pub mod laws;
pub mod model;
pub mod probe;
pub mod slot;
pub mod table;

pub use key::Key;
pub use slot::Slot;
pub use table::HashTable;
