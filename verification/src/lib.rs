//! A document layer over an ordered, transactional key-value store.
//!
//! Documents are JSON values addressed by a collection and an id. The crate
//! computes the flat byte keys and key ranges, merges field-level updates into
//! documents and turns raw scan results into pages; talking to the store is
//! left to the caller, who performs each [`StoreRequest`] and hands back the
//! [`StoreReply`].

pub mod codec;
pub mod errors;
pub mod json;
pub mod key;
pub mod laws;
pub mod merge;
pub mod order;
pub mod scan;
pub mod text;
pub mod transaction;
pub mod utils;

pub use errors::OsunbitDBError;
pub use json::{Json, JsonObject};
pub use merge::{array_remove, array_union, increment, remove};
pub use transaction::{Outcome, Step, StoreReply, StoreRequest, TransactionHandle};
