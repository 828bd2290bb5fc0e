//! A verified pocket-calculator engine.
//!
//! The engine interprets a stream of button presses (digits, decimal point,
//! the four binary operators, square, square root, negate, equals) over two
//! registers, `total` and `current`, and an append-only history of the
//! operations applied. Numbers are exact decimals with a bounded mantissa;
//! results that leave the representable range become explicit infinities,
//! and undefined operations (such as the square root of a negative number)
//! become an explicit not-a-number value rather than an error.

pub mod engine;
pub mod laws;
pub mod number;
