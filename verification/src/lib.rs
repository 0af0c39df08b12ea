//! A hash table built from scratch: separate chaining for collisions, a
//! doubling bucket array for growth, and machine-checked contracts for every
//! operation.

pub mod key;
pub mod table;

pub use key::HashKey;
pub use table::HashMap;
pub use table::Iter;
