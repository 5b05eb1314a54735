//! Identifiers and scalar types shared by the whole engine.

use vstd::prelude::*;

verus! {

/// Identifier of one field (one column of one series).
pub type FieldId = u64;

/// A point on the time axis; the unit is left to the caller.
pub type Timestamp = i64;

/// The scalar type of a field. `Unknown` marks a field that has not
/// received a sample yet.
#[derive(Debug, Clone, Copy, PartialEq, Eq, Structural)]
pub enum ValueType {
    Unknown,
    Float,
    Integer,
    Unsigned,
    Boolean,
    String,
}

} // verus!
