//! A compact binary layout: variable-length integers, length-prefixed
//! sequences and text, and records with a fixed-width length field.
//!
//! Values are encoded by appending their wire bytes to a `Vec<u8>` and
//! decoded from a `data_view::DataView` over a byte vector, which tracks
//! the read offset.

pub mod buffer;
pub mod codec;
pub mod containers;
pub mod error;
pub mod lencoder;
pub mod record;

pub use codec::{deserialize, from_bytes, serialize, to_bytes, DataType};
pub use containers::{decode_bytes, encode_bytes, encode_str};
pub use error::ErrorKind;
pub use lencoder::{Lencoder, L2, L3};
pub use record::{LenField, Record};
