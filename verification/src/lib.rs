//! Three historical numerical failures, reproduced with exact integer
//! arithmetic over IEEE 754 bit patterns.
//!
//! * [`time_drift`]: a clock whose count is held in a float with a short
//!   significand that was cut off, not rounded.
//! * [`overflow_conversion`]: a double-precision number converted to a
//!   16-bit integer that cannot hold it.
//! * [`lookup_division`]: a divider that is wrong for one pair of operands.
//!
//! No hardware floating point is used anywhere in this crate: a binary32 or
//! binary64 number is carried as its bit pattern ([`binary32`], [`binary64`]),
//! and every operation on it ([`arith`]) is defined as the exact rational
//! result ([`exact`]) rounded to nearest, ties to even ([`rounding`]).
pub mod arith;
pub mod arith_laws;
pub mod binary32;
pub mod binary64;
pub mod exact;
pub mod format;
pub mod lookup_division;
pub mod overflow_conversion;
pub mod power_of_two;
pub mod rounding;
pub mod time_drift;

pub use binary32::Binary32;
pub use binary64::Binary64;
pub use lookup_division::{bad_divide, simulate_lookup_division, LookupDivisionResult};
pub use overflow_conversion::{
    simulate_overflow_conversion, OverflowConversionInput, OverflowConversionResult,
};
pub use time_drift::{simulate_time_drift, TimeDriftInput, TimeDriftResult};
