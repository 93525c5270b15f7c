//! A scalar numeric type for magnitudes far beyond the range of a native
//! floating-point number, stored as mantissa × 10^exponent, where the exponent
//! itself may recursively be another value of the same type.
//!
//! The mantissa is held as a fixed-point decimal with 15 significant digits
//! (an integer count of units of 10^-14), so all arithmetic here is exact
//! integer arithmetic; results beyond 15 significant digits are truncated
//! toward zero. The exponent is a signed 64-bit integer in the common case;
//! when an operation would overflow that width, the exponent is promoted to a
//! nested value of the same type.

pub mod arithmetic;
pub mod bigfloat;
pub mod convert;
pub mod laws;
pub mod math;
pub mod roundtrip;
pub mod traits;

pub use bigfloat::BigFloat;
pub use bigfloat::Exponent;
pub use bigfloat::Mantissa;
pub use bigfloat::SCALE;
pub use bigfloat::TEN_SCALE;
pub use convert::ParseError;
