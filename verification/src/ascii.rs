use vstd::prelude::*;

verus! {

/// `\n`
pub const LF: u8 = 10;
/// `\r`
pub const CR: u8 = 13;
/// `$`, which starts a bulk string.
pub const DOLLAR: u8 = 36;
/// `*`, which starts an array.
pub const STAR: u8 = 42;
/// `+`, which starts a simple string, or gives a number's sign.
pub const PLUS: u8 = 43;
/// `-`, which starts an error, or gives a number's sign.
pub const MINUS: u8 = 45;
/// `0`
pub const ZERO: u8 = 48;
/// `1`
pub const ONE: u8 = 49;
/// `9`
pub const NINE: u8 = 57;
/// `:`, which starts an integer.
pub const COLON: u8 = 58;

} // verus!
