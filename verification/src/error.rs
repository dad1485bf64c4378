use vstd::prelude::*;

verus! {

/// The shape a dynamic value had, named in errors that report a mismatch.
#[derive(Clone, Copy, Debug, PartialEq, Eq, Structural)]
pub enum ValueKind {
    Nothing,
    Bool,
    Int,
    Float,
    Text,
    Binary,
    List,
    Record,
    Duration,
}

/// Every failure the library reports.  All errors are values; no verified
/// function of this crate panics.
#[derive(Clone, Copy, Debug, PartialEq, Eq, Structural)]
pub enum Error {
    /// The signature text broke the type-code grammar.
    MalformedSignature,
    /// A multi-level wildcard stood anywhere but the final segment.
    InvalidPattern,
    /// A value's kind cannot be coerced to the wire type it was encoded
    /// against.  `expected` is the leading type code of the target
    /// signature; `found` is the dynamic value's kind.
    TypeMismatch { expected: char, found: ValueKind },
    /// A numeric value cannot be represented exactly in the target width
    /// or signedness.  `target` is the target's type code.
    OutOfRange { target: char },
    /// A list was encoded against a struct of a different arity.
    ArityMismatch { expected_arity: usize, actual_arity: usize },
    /// No single inner signature could be inferred for a variant.
    AmbiguousVariant,
    /// The number of arguments differs from the resolved signature count.
    ArgumentCountMismatch { expected_count: usize, actual_count: usize },
    /// The named interface, method or property is absent from the tree.
    NotFound,
    /// A write was requested on a property whose access is read-only.
    PropertyNotWritable,
    /// The target does not implement introspection.
    IntrospectionUnavailable,
    /// The introspection description could not be parsed.
    MalformedIntrospection,
    /// The transport reported a failure.
    BusError,
    /// The operation exceeded its deadline.
    Timeout,
}

} // verus!
