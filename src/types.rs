use vstd::prelude::*;

verus! {

/// MySQL column type code of TIMESTAMP.
pub const TIMESTAMP: u8 = 7;

/// MySQL column type code of DATE.
pub const DATE: u8 = 10;

/// MySQL column type code of DATETIME.
pub const DATETIME: u8 = 12;

/// Largest fractional-second precision.
pub const MAX_FSP: i8 = 6;

/// Smallest fractional-second precision.
pub const MIN_FSP: i8 = 0;

/// Precision that stands for "use the default".
pub const UN_SPECIFIED_FSP: i8 = -1;

/// Precision used when none is given.
pub const DEFAULT_FSP: i8 = 0;

} // verus!
