//! Arithmetization core of a 256-bit modular multiplication precompile, together with a
//! curve-agnostic library of affine-point arithmetic.
//!
//! * [`utils`] holds the little-endian word/byte codec and the affine-point capability
//!   traits (double-and-add scalar multiplication, two-scalar multiplication and the
//!   complete-addition special cases).
//! * [`additive`] holds a group of limbs under limb-wise addition, the simplest thing that
//!   meets the point capability.
//! * [`bigint`] holds the integer model of little-endian byte strings and the calls into
//!   arbitrary-precision arithmetic.
//! * [`uint256`] holds the precompile itself: the event model, the executor, the trace
//!   generator and the single-row constraint evaluator.

pub mod additive;
pub mod bigint;
pub mod uint256;
pub mod utils;
