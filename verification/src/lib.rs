//! Structural comparison of two semi-structured tree documents (the in-memory
//! form of parsed JSON or YAML). Every difference between the two trees is
//! classified into one of four disjoint categories: keys present on only one
//! side, matching keys whose value kinds differ, matching keys whose values
//! differ, and array-content differences counted as multisets.

pub mod array_checker;
pub mod diff_types;
pub mod key_checker;
pub mod key_symmetry;
pub mod path_laws;
pub mod paths;
pub mod render;
pub mod type_checker;
pub mod value;
pub mod value_checker;
