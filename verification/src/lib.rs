//! An in-memory JSON document model: the value type, the conversions from
//! native values into it, and a builder that assembles nested values from
//! literal-shaped input.

pub mod builder;
pub mod convert;
pub mod grammar;
pub mod laws;
pub mod model;
pub mod number;
pub mod value;
