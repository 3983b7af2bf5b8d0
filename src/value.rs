use vstd::prelude::*;

verus! {

/// A JSON number as it was written. Floating point values are held as the
/// IEEE-754 bit pattern of a 64-bit float; an integer also carries the bit
/// pattern of its nearest 64-bit float, which is what it compares as when
/// numbers are taken as floats.
#[derive(Debug, Clone, Copy, PartialEq, Eq, Structural)]
#[allow(inconsistent_fields)]
pub enum Number {
    PosInt { value: u64, as_float: u64 },
    NegInt { value: i64, as_float: u64 },
    Float { bits: u64 },
}

/// A JSON value. An object is a list of members whose keys are meant to be
/// unique; where a key repeats, its first member is the one that is looked up.
#[derive(Debug, PartialEq)]
pub enum Json {
    Null,
    Bool(bool),
    Number(Number),
    String(String),
    Array(Vec<Json>),
    Object(Vec<(String, Json)>),
}

pub const SIGN_BIT: u64 = 0x8000_0000_0000_0000;

pub const MANTISSA_SPAN: u64 = 0x10_0000_0000_0000;

pub const EXPONENT_SPAN: u64 = 0x800;

/// The bit pattern is a NaN: every exponent bit set and a non-zero mantissa.
pub open spec fn is_nan_bits(b: u64) -> bool {
    (b / MANTISSA_SPAN) % EXPONENT_SPAN == EXPONENT_SPAN - 1 && b % MANTISSA_SPAN != 0
}

/// The bit pattern is positive or negative zero.
pub open spec fn is_zero_bits(b: u64) -> bool {
    b % SIGN_BIT == 0
}

/// IEEE-754 equality of two 64-bit floats given by their bit patterns: no NaN
/// equals anything, the two zeros are equal, and otherwise equal values have
/// equal bit patterns.
pub open spec fn float_bits_eq(a: u64, b: u64) -> bool {
    !is_nan_bits(a) && !is_nan_bits(b) && (a == b || (is_zero_bits(a) && is_zero_bits(b)))
}

pub fn float_bits_equal(a: u64, b: u64) -> (r: bool)
    ensures
        r == float_bits_eq(a, b),
{
    let a_nan = (a / MANTISSA_SPAN) % EXPONENT_SPAN == EXPONENT_SPAN - 1 && a % MANTISSA_SPAN != 0;
    let b_nan = (b / MANTISSA_SPAN) % EXPONENT_SPAN == EXPONENT_SPAN - 1 && b % MANTISSA_SPAN != 0;
    !a_nan && !b_nan && (a == b || (a % SIGN_BIT == 0 && b % SIGN_BIT == 0))
}

impl Number {
    /// The bit pattern of the number taken as a 64-bit float.
    pub open spec fn float_view(&self) -> u64 {
        match *self {
            Number::PosInt { as_float, .. } => as_float,
            Number::NegInt { as_float, .. } => as_float,
            Number::Float { bits } => bits,
        }
    }

    /// Equality by representation: integers of the same sign kind by value,
    /// floats by float equality, and never across kinds.
    pub open spec fn repr_eq(&self, other: &Number) -> bool {
        match (*self, *other) {
            (Number::PosInt { value: a, .. }, Number::PosInt { value: b, .. }) => a == b,
            (Number::NegInt { value: a, .. }, Number::NegInt { value: b, .. }) => a == b,
            (Number::Float { bits: a }, Number::Float { bits: b }) => float_bits_eq(a, b),
            _ => false,
        }
    }

    pub fn as_float(&self) -> (r: u64)
        ensures
            r == self.float_view(),
    {
        match self {
            Number::PosInt { as_float, .. } => *as_float,
            Number::NegInt { as_float, .. } => *as_float,
            Number::Float { bits } => *bits,
        }
    }

    pub fn is_float(&self) -> (r: bool)
        ensures
            r == (self is Float),
    {
        match self {
            Number::Float { .. } => true,
            _ => false,
        }
    }

    pub fn repr_equal(&self, other: &Number) -> (r: bool)
        ensures
            r == self.repr_eq(other),
    {
        match (self, other) {
            (Number::PosInt { value: a, .. }, Number::PosInt { value: b, .. }) => *a == *b,
            (Number::NegInt { value: a, .. }, Number::NegInt { value: b, .. }) => *a == *b,
            (Number::Float { bits: a }, Number::Float { bits: b }) => float_bits_equal(*a, *b),
            _ => false,
        }
    }
}

/// No two members of the object share a key.
pub open spec fn keys_unique(o: Seq<(String, Json)>) -> bool {
    forall|i: int, j: int| 0 <= i < j < o.len() ==> #[trigger] o[i].0@ != #[trigger] o[j].0@
}

impl Json {
    /// A well-formed value: object keys are unique, no number is NaN, and a
    /// number kept as a negative integer is below zero, at every depth.
    pub open spec fn wf(&self) -> bool
        decreases *self,
    {
        match *self {
            Json::Number(n) => !is_nan_bits(n.float_view()) && match n {
                Number::NegInt { value, .. } => value < 0,
                _ => true,
            },
            Json::Array(v) => forall|i: int| 0 <= i < v@.len() ==> (#[trigger] v@[i]).wf(),
            Json::Object(o) => keys_unique(o@) && forall|i: int|
                0 <= i < o@.len() ==> (#[trigger] o@[i]).1.wf(),
            _ => true,
        }
    }

    /// Equality of two values whose left side is null, a boolean or a string:
    /// same kind and same contents.
    pub open spec fn scalar_eq(&self, other: &Json) -> bool {
        match (*self, *other) {
            (Json::Null, Json::Null) => true,
            (Json::Bool(a), Json::Bool(b)) => a == b,
            (Json::String(a), Json::String(b)) => a@ == b@,
            _ => false,
        }
    }

    pub fn scalar_equal(&self, other: &Json) -> (r: bool)
        ensures
            r == self.scalar_eq(other),
    {
        match (self, other) {
            (Json::Null, Json::Null) => true,
            (Json::Bool(a), Json::Bool(b)) => *a == *b,
            (Json::String(a), Json::String(b)) => *a == *b,
            _ => false,
        }
    }
}

/// Two values with the same contents, member for member and element for
/// element.
pub open spec fn same_value(a: Json, b: Json) -> bool
    decreases a,
{
    match (a, b) {
        (Json::Null, Json::Null) => true,
        (Json::Bool(x), Json::Bool(y)) => x == y,
        (Json::Number(x), Json::Number(y)) => x == y,
        (Json::String(x), Json::String(y)) => x@ == y@,
        (Json::Array(x), Json::Array(y)) => x@.len() == y@.len() && forall|i: int|
            0 <= i < x@.len() ==> same_value(#[trigger] x@[i], y@[i]),
        (Json::Object(x), Json::Object(y)) => x@.len() == y@.len() && forall|i: int|
            0 <= i < x@.len() ==> (#[trigger] x@[i]).0@ == y@[i].0@ && same_value(x@[i].1, y@[i].1),
        _ => false,
    }
}

} // verus!
