use vstd::prelude::*;

verus! {

/// The kinds of failure the coprocessor core reports.
#[derive(Clone, Copy, Debug, PartialEq, Eq, Structural)]
pub enum Error {
    /// Malformed wire bytes.
    Decode,
    /// Invalid context, unresolved column or unsupported construct.
    Eval,
    /// An ill-formed expression (wrong arity, wrong child type).
    Expr,
    /// A value left the representable range.
    Overflow,
    /// A fractional-second precision outside `-1..=6`.
    InvalidFsp,
    /// A string or a set of fields that is no valid datetime.
    InvalidTime,
    /// A type change that is not allowed.
    Unsupported,
    /// A key outside the range of a region.
    KeyNotInRegion,
}

} // verus!
