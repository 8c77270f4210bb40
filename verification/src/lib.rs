//! A verified encoder for the D-Bus wire format: values are marshalled
//! against a type signature, with positional alignment padding and
//! back-patched array lengths.
pub mod serializer;
pub mod signature_parser;
pub mod utils;
pub mod value;

pub use serializer::{to_bytes, SeqSerializer, Serializer, StructSerializer};
pub use utils::{ByteOrder, EncodingFormat, Error};
pub use value::Value;
