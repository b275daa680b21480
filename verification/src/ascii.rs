//! The ASCII bytes that the text formats are made of.

use vstd::prelude::*;

verus! {

/// Carriage return.
pub const CR: u8 = 13;

/// Line feed.
pub const LF: u8 = 10;

/// Space.
pub const SPACE: u8 = 32;

/// `+`
pub const PLUS: u8 = 43;

/// `-`
pub const MINUS: u8 = 45;

/// `.`
pub const POINT: u8 = 46;

/// `0`
pub const ZERO: u8 = 48;

/// `9`
pub const NINE: u8 = 57;

/// `a`
pub const LOWER_A: u8 = 97;

/// `b`
pub const LOWER_B: u8 = 98;

/// `f`
pub const LOWER_F: u8 = 102;

/// `w`
pub const LOWER_W: u8 = 119;

/// `?`
pub const QUESTION: u8 = 63;

/// `,`
pub const COMMA: u8 = 44;

} // verus!
