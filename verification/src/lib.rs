//! A fixed-capacity hash table with per-bucket chaining.
//!
//! The table owns a fixed number of buckets chosen at construction; a key is
//! routed to exactly one bucket by a hash of its value, and the bucket keeps
//! the colliding entries in a small list.  The public operations are proved
//! against a mathematical view of the table as a map from key values to
//! stored values.

pub mod bucket;
pub mod keys;
pub mod laws;
pub mod table;

pub use keys::HashKey;
pub use table::HashMap;
pub use table::HashMapIter;
