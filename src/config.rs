use vstd::prelude::*;

verus! {

/// How much of the two values must agree.
#[derive(Debug, Clone, Copy, PartialEq, Eq, Structural)]
pub enum CompareMode {
    /// The right-hand value is the expected subset of the left-hand one.
    Inclusive,
    /// Both sides must match exactly.
    Strict,
}

/// Whether the order of array elements matters.
#[derive(Debug, Clone, Copy, PartialEq, Eq, Structural)]
pub enum ArraySortingMode {
    Exact,
    Ignore,
}

/// How numbers are compared.
#[derive(Debug, Clone, Copy, PartialEq, Eq, Structural)]
pub enum NumericMode {
    /// Numbers are compared by value and representation.
    Strict,
    /// Numbers are always compared as floating point values.
    AssumeFloat,
}

/// How two floating point values are compared; the epsilon is held as the
/// IEEE-754 bit pattern of a 64-bit float.
#[derive(Debug, Clone, Copy, PartialEq, Eq, Structural)]
pub enum FloatCompareMode {
    Exact,
    Epsilon(u64),
}

/// The comparison policy: four independent choices.
#[derive(Debug, Clone, Copy, PartialEq, Eq, Structural)]
pub struct Config {
    pub compare_mode: CompareMode,
    pub array_sorting_mode: ArraySortingMode,
    pub numeric_mode: NumericMode,
    pub float_compare_mode: FloatCompareMode,
}

impl Config {
    /// A configuration with the given compare mode and the default for the rest.
    pub fn new(compare_mode: CompareMode) -> (r: Config)
        ensures
            r.compare_mode == compare_mode,
            r.array_sorting_mode == ArraySortingMode::Exact,
            r.numeric_mode == NumericMode::Strict,
            r.float_compare_mode == FloatCompareMode::Exact,
    {
        Config {
            compare_mode,
            array_sorting_mode: ArraySortingMode::Exact,
            numeric_mode: NumericMode::Strict,
            float_compare_mode: FloatCompareMode::Exact,
        }
    }

    pub fn compare_mode(self, compare_mode: CompareMode) -> (r: Config)
        ensures
            r == (Config { compare_mode, ..self }),
    {
        Config { compare_mode, ..self }
    }

    pub fn array_sorting_mode(self, array_sorting_mode: ArraySortingMode) -> (r: Config)
        ensures
            r == (Config { array_sorting_mode, ..self }),
    {
        Config { array_sorting_mode, ..self }
    }

    pub fn numeric_mode(self, numeric_mode: NumericMode) -> (r: Config)
        ensures
            r == (Config { numeric_mode, ..self }),
    {
        Config { numeric_mode, ..self }
    }

    pub fn float_compare_mode(self, float_compare_mode: FloatCompareMode) -> (r: Config)
        ensures
            r == (Config { float_compare_mode, ..self }),
    {
        Config { float_compare_mode, ..self }
    }
}

} // verus!
