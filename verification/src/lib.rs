//! A keyed-record store kept as line-delimited JSON.
//!
//! A [`Table`] maps string keys to [`Record`]s. Changes are expressed as
//! [`Operations`], which carry their own conflict rules, and a log of
//! operations is folded into a table by replaying it in order. A table is
//! written back one line per key, in ascending key order, so that equal tables
//! always produce identical text.

pub mod codec;
pub mod error;
pub mod json;
pub mod key;
pub mod log;
pub mod ops;
pub mod record;
pub mod snapshot;
pub mod table;
pub mod wasm;

pub use error::Error;
pub use ops::Operations;
pub use record::Record;
pub use table::Table;
