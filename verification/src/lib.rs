//! A codec for bencode, the data-interchange format of BitTorrent metadata.
//!
//! A [`Value`] is an integer, a byte string, a list or a dictionary.
//! [`encode`] writes a value in canonical form; [`decode`] reads one back, or
//! reports the first failure with its offset. What each of them returns is
//! stated over the model of a value and the grammar read as a function on
//! bytes, and the laws that join the two are proved beside them.

pub mod error;
pub mod model;
pub mod grammar;
pub mod order;
pub mod entries;
pub mod text;
pub mod value;
pub mod convert;
pub mod encode;
pub mod decode;
pub mod laws;
pub mod accept;
pub mod render;

pub use crate::decode::{decode, decode_strict};
pub use crate::encode::encode;
pub use crate::error::{Error, ErrorKind};
pub use crate::value::{Dict, List, Value};
