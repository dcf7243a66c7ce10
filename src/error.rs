//! The errors that the registry reports.
use vstd::prelude::*;

verus! {

/// What went wrong.
#[derive(PartialEq, Eq, Structural, Clone, Copy, Debug)]
pub enum ErrorKind {
    /// The condition references no dimension, so its priority would be zero.
    NoDimensionInContext,
    /// The condition references a dimension that is not registered.
    UnknownDimension,
    /// A `var` node of the condition does not name a dimension by a string.
    MalformedPredicate,
    /// The sum of the priorities does not fit an `i32`.
    PriorityOverflow,
    /// The override names a key that has no default configuration.
    UnknownOverrideKey,
    /// The schema registered for a key does not compile as Draft 7.
    BadSchema,
    /// A schema may hold a `$ref` (or a `\u` escape that could spell one),
    /// which this registry does not accept: a reference can lead validation
    /// back to itself without end.
    SchemaReference,
    /// An override value does not validate against its key's schema.
    SchemaValidation,
    /// No context is stored under the given id.
    NotFound,
    /// A pagination parameter is below 1.
    BadPagination,
    /// A new dimension has a priority below 1 or a name already in use.
    InvalidDimension,
    /// A dimension that a stored condition references cannot be deleted.
    DimensionInUse,
    /// A configuration key that a stored override uses cannot be deleted.
    KeyInUse,
}

/// An error, with the name, key, id or field that it is about (empty when
/// there is none).
#[derive(Debug)]
pub struct ContextError {
    pub kind: ErrorKind,
    pub subject: String,
}

impl ContextError {
    pub open spec fn view(&self) -> (ErrorKind, Seq<char>) {
        (self.kind, self.subject@)
    }

    pub fn new(kind: ErrorKind, subject: String) -> (r: ContextError)
        ensures
            r.kind == kind,
            r.subject@ == subject@,
    {
        ContextError { kind, subject }
    }
}

} // verus!
