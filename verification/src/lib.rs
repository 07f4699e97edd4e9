//! An adaptive value-coercion engine: it converts a dynamically typed host
//! value (a native array, a bare scalar, a flat sequence, or arbitrarily
//! nested sequences) into a strongly typed, dimension-checked numeric array,
//! borrowing the host buffer when it already matches and building a fresh
//! owned array otherwise.

pub mod array_like;
pub mod extract;
pub mod laws;
pub mod num;
pub mod rank;
pub mod value;
