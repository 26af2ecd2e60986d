//! ASCII codes of the characters the formats give a meaning to.

use vstd::prelude::*;

verus! {

pub const TAB: u8 = 9;

pub const NEWLINE: u8 = 10;

pub const RETURN: u8 = 13;

pub const SPACE: u8 = 32;

pub const QUOTE: u8 = 34;

pub const APOSTROPHE: u8 = 39;

pub const LPAREN: u8 = 40;

pub const RPAREN: u8 = 41;

pub const PLUS: u8 = 43;

pub const COMMA: u8 = 44;

pub const MINUS: u8 = 45;

pub const DOT: u8 = 46;

pub const SLASH: u8 = 47;

pub const ZERO: u8 = 48;

pub const COLON: u8 = 58;

pub const UPPER_E: u8 = 69;

pub const LBRACKET: u8 = 91;

pub const BACKSLASH: u8 = 92;

pub const RBRACKET: u8 = 93;

pub const LOWER_B: u8 = 98;

pub const LOWER_E: u8 = 101;

pub const LOWER_F: u8 = 102;

pub const LOWER_N: u8 = 110;

pub const LOWER_R: u8 = 114;

pub const LOWER_T: u8 = 116;

pub const LOWER_U: u8 = 117;

pub const LBRACE: u8 = 123;

pub const RBRACE: u8 = 125;

} // verus!
