//! Event types and codes of the kernel's input devices, for mouse buttons and axes.

use vstd::prelude::*;

verus! {

pub const BTN_LEFT: (u16, u16) = (0x01, 0x110);

pub const BTN_MIDDLE: (u16, u16) = (0x01, 0x112);

pub const BTN_RIGHT: (u16, u16) = (0x01, 0x111);

pub const REL_X: (u16, u16) = (0x02, 0x00);

pub const REL_Y: (u16, u16) = (0x02, 0x01);

pub const REL_WHEEL: (u16, u16) = (0x02, 0x08);

} // verus!
