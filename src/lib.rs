//! A JSON codec: a byte-level parser that builds a dynamic value tree, and an
//! emitter with compact and indented formatters.

pub mod error;
pub mod io;
pub mod iter;
pub mod read;
pub mod map;
pub mod value;
pub mod ser;
pub mod grammar;
pub mod de;

pub use crate::de::{from_reader, from_slice, from_str, Deserializer, StreamDeserializer};
pub use crate::error::{Category, Error, ErrorCode, Result};
pub use crate::map::JsonMap;
pub use crate::ser::{
    to_string, to_string_pretty, to_vec, to_vec_pretty, CompactFormatter, Formatter,
    PrettyFormatter, Serializer,
};
pub use crate::value::{Number, Value};
