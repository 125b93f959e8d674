//! A log-structured key/value store: an append-only log of checksummed
//! records and an index from each key to the offset of its latest record.
pub mod codec;
pub mod index;
pub mod store;

pub use codec::{decode, encode, KeyValuePair, KvError, HEADER_LEN};
pub use index::{bytes_eq, KeyIndex};
pub use store::ActionKV;
