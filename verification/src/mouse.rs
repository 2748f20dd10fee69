//! The mouse actions that a browser sends.

use vstd::prelude::*;

verus! {

pub const POSITION: u8 = 10;

pub const MOVE: u8 = 11;

pub const SCROLL_UP: u8 = 20;

pub const SCROLL_DOWN: u8 = 21;

pub const BUTTON_PRESS: u8 = 30;

pub const BUTTON_RELEASE: u8 = 31;

pub const BUTTON: u8 = 40;

pub const BUTTON_LEFT: u8 = 41;

pub const BUTTON_MIDDLE: u8 = 42;

pub const BUTTON_RIGHT: u8 = 43;

} // verus!
