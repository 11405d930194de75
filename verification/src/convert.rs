//! The conversions from native values into JSON values.

use crate::model::JsonModel;
use crate::number::{double_of_int, Double};
use crate::value::Json;
use vstd::prelude::*;
use vstd::std_specs::convert::FromSpecImpl;

verus! {

impl From<bool> for Json {
    /// A boolean becomes a `Boolean`.
    fn from(b: bool) -> (r: Json) {
        Json::Boolean(b)
    }
}

impl FromSpecImpl<bool> for Json {
    open spec fn obeys_from_spec() -> bool {
        true
    }

    open spec fn from_spec(b: bool) -> Json {
        Json::Boolean(b)
    }
}

impl From<String> for Json {
    /// An owned text becomes a `String` that holds it.
    fn from(s: String) -> (r: Json) {
        Json::String(s)
    }
}

impl FromSpecImpl<String> for Json {
    open spec fn obeys_from_spec() -> bool {
        true
    }

    open spec fn from_spec(s: String) -> Json {
        Json::String(s)
    }
}

impl<'a> From<&'a str> for Json {
    /// A borrowed text becomes a `String` that holds a copy of it.
    fn from(s: &'a str) -> (r: Json)
        ensures
            r@ == JsonModel::String(s@),
    {
        Json::String(s.to_owned())
    }
}

/// No `String` can be named in a specification from a `str` alone, so this
/// conversion is specified by the model of its result, not by a value.
impl<'a> FromSpecImpl<&'a str> for Json {
    open spec fn obeys_from_spec() -> bool {
        false
    }

    open spec fn from_spec(s: &'a str) -> Json {
        arbitrary()
    }
}

impl From<Double> for Json {
    /// A double becomes a `Number` that holds it.
    fn from(n: Double) -> (r: Json) {
        Json::Number(n)
    }
}

impl FromSpecImpl<Double> for Json {
    open spec fn obeys_from_spec() -> bool {
        true
    }

    open spec fn from_spec(n: Double) -> Json {
        Json::Number(n)
    }
}

impl From<u8> for Json {
    /// An `u8` becomes the `Number` nearest to it.
    fn from(n: u8) -> (r: Json) {
        Json::Number(Double::from_u128(n as u128))
    }
}

impl FromSpecImpl<u8> for Json {
    open spec fn obeys_from_spec() -> bool {
        true
    }

    open spec fn from_spec(n: u8) -> Json {
        Json::Number(double_of_int(n as int))
    }
}

impl From<u16> for Json {
    /// An `u16` becomes the `Number` nearest to it.
    fn from(n: u16) -> (r: Json) {
        Json::Number(Double::from_u128(n as u128))
    }
}

impl FromSpecImpl<u16> for Json {
    open spec fn obeys_from_spec() -> bool {
        true
    }

    open spec fn from_spec(n: u16) -> Json {
        Json::Number(double_of_int(n as int))
    }
}

impl From<u32> for Json {
    /// An `u32` becomes the `Number` nearest to it.
    fn from(n: u32) -> (r: Json) {
        Json::Number(Double::from_u128(n as u128))
    }
}

impl FromSpecImpl<u32> for Json {
    open spec fn obeys_from_spec() -> bool {
        true
    }

    open spec fn from_spec(n: u32) -> Json {
        Json::Number(double_of_int(n as int))
    }
}

impl From<u64> for Json {
    /// An `u64` becomes the `Number` nearest to it.
    fn from(n: u64) -> (r: Json) {
        Json::Number(Double::from_u128(n as u128))
    }
}

impl FromSpecImpl<u64> for Json {
    open spec fn obeys_from_spec() -> bool {
        true
    }

    open spec fn from_spec(n: u64) -> Json {
        Json::Number(double_of_int(n as int))
    }
}

impl From<u128> for Json {
    /// An `u128` becomes the `Number` nearest to it.
    fn from(n: u128) -> (r: Json) {
        Json::Number(Double::from_u128(n))
    }
}

impl FromSpecImpl<u128> for Json {
    open spec fn obeys_from_spec() -> bool {
        true
    }

    open spec fn from_spec(n: u128) -> Json {
        Json::Number(double_of_int(n as int))
    }
}

impl From<usize> for Json {
    /// An `usize` becomes the `Number` nearest to it.
    fn from(n: usize) -> (r: Json) {
        Json::Number(Double::from_u128(n as u128))
    }
}

impl FromSpecImpl<usize> for Json {
    open spec fn obeys_from_spec() -> bool {
        true
    }

    open spec fn from_spec(n: usize) -> Json {
        Json::Number(double_of_int(n as int))
    }
}

impl From<i8> for Json {
    /// A `i8` becomes the `Number` nearest to it.
    fn from(n: i8) -> (r: Json) {
        Json::Number(Double::from_i128(n as i128))
    }
}

impl FromSpecImpl<i8> for Json {
    open spec fn obeys_from_spec() -> bool {
        true
    }

    open spec fn from_spec(n: i8) -> Json {
        Json::Number(double_of_int(n as int))
    }
}

impl From<i16> for Json {
    /// A `i16` becomes the `Number` nearest to it.
    fn from(n: i16) -> (r: Json) {
        Json::Number(Double::from_i128(n as i128))
    }
}

impl FromSpecImpl<i16> for Json {
    open spec fn obeys_from_spec() -> bool {
        true
    }

    open spec fn from_spec(n: i16) -> Json {
        Json::Number(double_of_int(n as int))
    }
}

impl From<i32> for Json {
    /// A `i32` becomes the `Number` nearest to it.
    fn from(n: i32) -> (r: Json) {
        Json::Number(Double::from_i128(n as i128))
    }
}

impl FromSpecImpl<i32> for Json {
    open spec fn obeys_from_spec() -> bool {
        true
    }

    open spec fn from_spec(n: i32) -> Json {
        Json::Number(double_of_int(n as int))
    }
}

impl From<i64> for Json {
    /// A `i64` becomes the `Number` nearest to it.
    fn from(n: i64) -> (r: Json) {
        Json::Number(Double::from_i128(n as i128))
    }
}

impl FromSpecImpl<i64> for Json {
    open spec fn obeys_from_spec() -> bool {
        true
    }

    open spec fn from_spec(n: i64) -> Json {
        Json::Number(double_of_int(n as int))
    }
}

impl From<i128> for Json {
    /// A `i128` becomes the `Number` nearest to it.
    fn from(n: i128) -> (r: Json) {
        Json::Number(Double::from_i128(n))
    }
}

impl FromSpecImpl<i128> for Json {
    open spec fn obeys_from_spec() -> bool {
        true
    }

    open spec fn from_spec(n: i128) -> Json {
        Json::Number(double_of_int(n as int))
    }
}

impl From<isize> for Json {
    /// A `isize` becomes the `Number` nearest to it.
    fn from(n: isize) -> (r: Json) {
        Json::Number(Double::from_i128(n as i128))
    }
}

impl FromSpecImpl<isize> for Json {
    open spec fn obeys_from_spec() -> bool {
        true
    }

    open spec fn from_spec(n: isize) -> Json {
        Json::Number(double_of_int(n as int))
    }
}

} // verus!
