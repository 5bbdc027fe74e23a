//! JSON documents as owned trees with borrowed views.
//!
//! A document is a tree of nodes of six kinds: null, boolean, number,
//! string, array and object. [`CJson`] owns a whole tree; [`CJsonRef`] is a
//! node seen through a borrow of the tree that holds it. [`CJsonArray`] and
//! [`CJsonObject`] wrap either of them, once the kind has been checked, and
//! give the operations of a list and of a list of named members. Moving a
//! document into a container hands the tree over; taking a child out of a
//! container yields a document of its own.
//!
//! Every contract speaks of documents through the model [`JsonValue`].
//! Numbers are held as the bit patterns of binary64 values, and nothing in
//! this crate computes with floating-point numbers: what integer arithmetic
//! can convert exactly is converted here, and the rest goes through a table
//! that the caller supplies.

pub mod array;
pub mod cjson;
pub mod cjsonref;
pub mod convert;
pub mod decimal;
pub mod error;
pub mod laws;
pub mod number;
pub mod object;
pub mod serde;
pub mod string;
pub mod text;
pub mod value;

pub use array::CJsonArray;
pub use cjson::CJson;
pub use cjsonref::AsCJsonRef;
pub use cjsonref::CJsonIter;
pub use cjsonref::CJsonRef;
pub use convert::IntoCJson;
pub use error::Error;
pub use object::CJsonObject;
pub use string::CJsonString;
pub use text::NumberTable;
pub use value::JsonValue;
