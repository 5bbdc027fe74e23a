//! Typed values to documents and back.
//!
//! A typed value is laid out as a [`Value`]; [`to_cjson`] turns it into a
//! document and [`from_cjson`] turns a document into one. The builders that
//! `to_cjson` works with are public, so that a caller who walks its own
//! values can drive them directly.

pub mod c_string;
pub mod de;
pub mod error;
pub mod laws;
pub mod ser;
pub mod value;

pub use de::from_cjson;
pub use de::Deserializer;
pub use error::Error;
pub use ser::to_cjson;
pub use ser::MapKeySerializer;
pub use ser::SerializeCJsonArray;
pub use ser::SerializeCJsonObject;
pub use ser::SerializeStructVariant;
pub use ser::SerializeTupleVariant;
pub use ser::Serializer;
pub use value::Value;
