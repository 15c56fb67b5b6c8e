//! Floating-point numbers, from the ladder of representable magnitudes up to the
//! arithmetic of the interchange formats, with what is known of its rounding.
//!
//! * [`scale`] is the ladder, [`rounding`] finds the nearest rung.
//! * [`binary`] is the type, with the meaning of every operation.
//! * [`addition`], [`multiplication`], [`division`], [`conversion`], [`order`],
//!   [`equality`] and [`integer`] compute them; [`encoding`] is their bits.
//! * [`nearest`] says what they promise.
//! * [`reals`], [`exact`] and [`error`] are what proofs need to know.
pub mod addition;
pub mod binary;
pub mod conversion;
pub mod division;
pub mod encoding;
pub mod equality;
pub mod error;
pub mod exact;
pub mod integer;
pub mod multiplication;
pub mod nearest;
pub mod order;
pub mod reals;
pub mod rounding;
pub mod scale;
