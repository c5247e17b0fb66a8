//! A line-oriented key-value store: a frame decoder for `get` / `set` / `quit`
//! request lines, a response encoder, a shared string-to-string store, and the
//! state machine of one connection.

pub mod codec;
pub mod connection;
pub mod service;
pub mod store;

pub use codec::{Command, DecodeError, LineCodec, parse_frame};
pub use connection::{Connection, Step};
pub use service::{new_shared_store, SharedStore, StoreWf, KV};
pub use store::Store;
