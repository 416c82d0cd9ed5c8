//! A hash table with separate chaining, seeded per instance with secret
//! SipHash keys drawn from the operating system's secure random source.
pub mod hash_state;
pub mod key;
pub mod laws;
pub mod table;

pub use key::TableKey;
pub use table::HashTable;
