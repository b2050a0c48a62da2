//! Jump consistent hashing: maps a key to one of `n` ordered buckets so that
//! growing `n` by one moves only the keys that land in the new bucket.
pub mod jump;

pub use jump::{jump_hash_from_str, jump_hash_from_u64};
