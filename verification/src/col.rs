//! The XTerm256 color indices the screens use (as `Color::AnsiValue`).

use vstd::prelude::*;

verus! {

pub const BLACK: u8 = 0;
pub const GRAY: u8 = 244;
pub const WHITE: u8 = 15;
pub const RED: u8 = 196;
pub const GREEN: u8 = 46;
pub const DARK_GREEN: u8 = 28;
pub const YELLOW: u8 = 226;
pub const ORANGE: u8 = 208;
pub const BLUE: u8 = 27;
pub const DARK_BLUE: u8 = 24;
pub const MAGENTA: u8 = 129;
pub const PURPLE: u8 = 135;
pub const PINK: u8 = 213;
pub const CYAN: u8 = 51;

} // verus!
