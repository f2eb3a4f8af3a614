//! A typed, safe access layer over an embedded key-value store: environments,
//! transactions, byte-ordered cursors and a pluggable codec layer.

pub mod bound;
pub mod bytes;
pub mod db;
pub mod env;
pub mod errors;
pub mod rck;
pub mod store;
pub mod traits;
pub mod tree;
pub mod txn;
pub mod types;

pub use bound::TypedBound;
pub use db::{Database, PolyDatabase};
pub use env::{
    env_closing_event, CompactionOption, Env, EnvClosingEvent, EnvOpenOptions, Geometry, Registry,
};
pub use errors::{Error, Result};
pub use store::{
    bytecopy, paged, readtx, writetx, MdbStore, Store, Table, Tables, Transaction, Typed,
};
pub use traits::{BytesDecode, BytesEncode, CodecType};
pub use txn::{RoTxn, RwTxn};
