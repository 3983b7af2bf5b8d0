//! Structural comparison of JSON values under a configurable policy.

pub mod config;
pub mod copy;
pub mod diff;
pub mod laws;
pub mod message;
pub mod path;
pub mod value;

pub use config::{ArraySortingMode, CompareMode, Config, FloatCompareMode, NumericMode};
pub use diff::{diff, Difference, DifferenceRef};
pub use path::{Key, KeyRef, Path, PathRef};
pub use value::{Json, Number};
