//! JSON values whose strings are views into a shared byte buffer, and a
//! JSONPath evaluator over them.

pub mod builder;
pub mod bytestring;
pub mod filter;
pub mod laws;
pub mod map;
pub mod model;
pub mod number;
pub mod path;
pub mod pattern;
pub mod selected;
pub mod semantics;
pub mod slice;
pub mod tree;
pub mod value;

pub use bytestring::ByteString;
pub use map::OrderedMap;
pub use number::Number;
pub use path::JsonPathInst;
pub use selected::Selected;
pub use value::Value;
