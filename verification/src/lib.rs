//! A byte-tagged linear-probing hash map in the "bytell" style.
//!
//! Every slot carries one metadata byte that both marks occupancy and encodes
//! a jump index into a fixed table of probe offsets; occupied slots whose
//! keys share a direct-hit coordinate form a chain linked by those jumps.
pub mod hashing;
pub mod jumps;
pub mod metadata;
pub mod table;

pub use hashing::DirectHasher;
pub use hashing::EqKey;
pub use hashing::KeyHasher;
pub use jumps::jump_distance;
pub use metadata::Metadata;
pub use table::split_hash;
pub use table::HashMap;
pub use table::Iter;
