//! Encoding and decoding of WeakAura import strings.
//!
//! An import string is `!WA:2!` followed by the printable encoding of a
//! DEFLATE stream, which in turn holds a LibSerialize image of a Lua value.

pub mod text;
pub mod encodeforprint;
pub mod types;
pub mod number;
pub mod floattext;
pub mod libserialize;
pub mod roundtrip;
pub mod floatvalues;
pub mod readlaws;
pub mod compress;
pub mod decoder;
pub mod encoder;
pub mod requests;

pub use decoder::{validate, DecodeError, ValidationResult};
pub use encoder::{encode, encode_value, EncodeError};
pub use types::LuaValue;
