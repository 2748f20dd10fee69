//! Input events: gamepad packets, and the resolutions that a browser asks for.

use vstd::prelude::*;
use crate::gamepad;
use crate::number;
use crate::text;

verus! {

broadcast use vstd::string::group_string_axioms;

/// The axis of an Xbox 360 controller that an axis of the W3C standard gamepad stands for: the
/// triggers stand between the two sticks. Other axes pass through.
pub fn remap_gamepad_axis(browser_axis: u8) -> (r: u8)
    ensures
        r == (if browser_axis == 2 {
            3
        } else if browser_axis == 3 {
            4
        } else {
            browser_axis
        }),
        gamepad::axis_code(browser_axis) matches Some(code) ==> r == code,
        gamepad::axis_code(browser_axis) is None ==> r == browser_axis,
{
    match browser_axis {
        2 => 3,
        3 => 4,
        n => n,
    }
}

/// The number whose two's complement the two bytes are, the low one first.
pub open spec fn from_le(low: u8, high: u8) -> int {
    let n = low + 256 * high;
    if n < 0x8000 {
        n
    } else {
        n - 0x1_0000
    }
}

fn le_bytes(v: i16) -> (r: (u8, u8))
    ensures
        from_le(r.0, r.1) == v,
{
    let n: i32 = if v < 0 {
        v as i32 + 0x1_0000
    } else {
        v as i32
    };
    ((n % 256) as u8, (n / 256) as u8)
}

/// The packet that reports a button: its kind, the button, and the value in two bytes, the low one
/// first.
pub fn pack_gamepad_button(btn_num: u8, btn_val: i16) -> (r: [u8; 4])
    ensures
        r@[0] == 1,
        r@[1] == btn_num,
        from_le(r@[2], r@[3]) == btn_val,
{
    let (low, high) = le_bytes(btn_val);
    [1, btn_num, low, high]
}

/// The packet that reports an axis: its kind, the axis, and the value in two bytes, the low one
/// first.
pub fn pack_gamepad_axis(axis_num: u8, axis_val: i16) -> (r: [u8; 4])
    ensures
        r@[0] == 2,
        r@[1] == axis_num,
        from_le(r@[2], r@[3]) == axis_val,
{
    let (low, high) = le_bytes(axis_val);
    [2, axis_num, low, high]
}

/// Two bytes are determined by the number that they stand for.
pub proof fn law_le_bytes_unique(a: u8, b: u8, c: u8, d: u8)
    requires
        from_le(a, b) == from_le(c, d),
    ensures
        a == c,
        b == d,
{
}

/// The width and the height that a text `WxH` names.
pub open spec fn dimensions(res: Seq<char>) -> Option<(u32, u32)> {
    let parts = text::split(res, "x"@);
    if parts.len() != 2 {
        None
    } else {
        match (number::as_u32(parts[0]), number::as_u32(parts[1])) {
            (Ok(w), Ok(h)) => Some((w, h)),
            _ => None,
        }
    }
}

/// The smallest even number that is at least `n`.
pub open spec fn rounded_up(n: u32) -> int {
    if n % 2 == 0 {
        n as int
    } else {
        n + 1
    }
}

/// The even width and height that a text `WxH` asks for.
pub open spec fn resolution(res: Seq<char>) -> Option<(int, int)> {
    match dimensions(res) {
        Some((w, h)) => Some((rounded_up(w), rounded_up(h))),
        None => None,
    }
}

/// Reads a resolution `WxH`, and rounds both dimensions up to even numbers: video encoders need
/// them. There is none if the text is not of that form.
pub fn validate_resolution(res: &str) -> (r: Option<(u32, u32)>)
    requires
        resolution(res@) matches Some((w, h)) ==> w <= u32::MAX && h <= u32::MAX,
    ensures
        match r {
            Some((w, h)) => resolution(res@) == Some((w as int, h as int)) && w % 2 == 0 && h % 2
                == 0,
            None => resolution(res@) is None,
        },
{
    proof {
        reveal_strlit("x");
    }
    let chars = text::to_chars(res);
    let parts = text::split_all(chars.as_slice(), "x");
    assert(text::texts(parts@).len() == parts@.len());
    if parts.len() != 2 {
        return None;
    }
    assert(text::texts(parts@)[0] == parts@[0]@);
    assert(text::texts(parts@)[1] == parts@[1]@);
    let w = match number::parse_u32(parts[0].as_slice()) {
        Ok(w) => w,
        Err(_) => {
            return None;
        },
    };
    let h = match number::parse_u32(parts[1].as_slice()) {
        Ok(h) => h,
        Err(_) => {
            return None;
        },
    };
    assert(resolution(res@) == Some((rounded_up(w), rounded_up(h))));
    Some((w + w % 2, h + h % 2))
}

/// A resolution as a text.
pub open spec fn resolution_text(w: u32, h: u32) -> Seq<char> {
    number::decimal(w as nat) + "x"@ + number::decimal(h as nat)
}

/// Writes a resolution as `WxH`.
pub fn format_resolution(w: u32, h: u32) -> (r: String)
    ensures
        r@ == resolution_text(w, h),
{
    let mut out = number::decimal_text(w as u64);
    text::push_str(&mut out, "x");
    number::push_decimal(&mut out, h as u64);
    text::to_text(out.as_slice())
}

/// A resolution that was written is read back, rounded up to even numbers.
pub proof fn law_resolution_reads_back(w: u32, h: u32)
    ensures
        dimensions(resolution_text(w, h)) == Some((w, h)),
        resolution(resolution_text(w, h)) == Some((rounded_up(w), rounded_up(h))),
        w % 2 == 0 && h % 2 == 0 ==> resolution(resolution_text(w, h)) == Some(
            (w as int, h as int),
        ),
{
    reveal_strlit("x");
    let (a, b) = (number::decimal(w as nat), number::decimal(h as nat));
    let s = resolution_text(w, h);
    number::law_decimal_reads_back(w as nat);
    number::law_decimal_reads_back(h as nat);
    lemma_digits_hold_no_x(a);
    lemma_digits_hold_no_x(b);
    text::lemma_split_first(a, "x"@, b, s.len() + 1);
    text::lemma_split_none(b, "x"@, s.len());
    assert(text::split(s, "x"@) =~= seq![a, b]);
    number::law_digits_are_read(a, false, 0, u32::MAX as nat);
    number::law_digits_are_read(b, false, 0, u32::MAX as nat);
}

proof fn lemma_digits_hold_no_x(s: Seq<char>)
    requires
        number::all_digits(s),
    ensures
        !s.contains('x'),
{
    if s.contains('x') {
        let i = choose|i: int| 0 <= i < s.len() && s[i] == 'x';
        assert(number::digit(s[i]));
    }
}

/// Rounding up gives an even number, the least one that is not below.
pub proof fn law_rounded_up(n: u32, even: int)
    ensures
        rounded_up(n) % 2 == 0,
        rounded_up(n) >= n,
        even % 2 == 0 && even >= n ==> rounded_up(n) <= even,
{
}

/// The bytes of a number: the low one is its remainder, the high one carries the sign.
pub proof fn law_le_bytes(low: u8, high: u8)
    ensures
        from_le(low, high) % 256 == low,
        from_le(low, 0) == low,
        high < 128 ==> from_le(low, high) == from_le(low, 0) + 256 * high,
        high >= 128 ==> from_le(low, high) == from_le(low, 0) - 256 * (256 - high),
        -32768 <= from_le(low, high) <= 32767,
{
}

/// A text is a resolution exactly if two numbers stand before and behind its only `x`; these,
/// each rounded up to an even number, are its width and its height.
pub proof fn law_resolutions(a: Seq<char>, b: Seq<char>, rest: Seq<char>)
    requires
        !a.contains('x'),
        !b.contains('x'),
    ensures
        resolution(a) is None,
        resolution(a + seq!['x'] + b) is Some <==> number::as_u32(a) is Ok && number::as_u32(
            b,
        ) is Ok,
        number::as_u32(a) matches Ok(w) ==> (number::as_u32(b) matches Ok(h) ==> (resolution(
            a + seq!['x'] + b,
        ) matches Some((x, y)) && x == w + w % 2 && y == h + h % 2)),
        resolution(a + seq!['x'] + b + seq!['x'] + rest) is None,
{
    reveal_strlit("x");
    let x = "x"@;
    assert(x =~= seq!['x']);
    text::lemma_split_none(a, x, a.len() + 1);
    let s = a + x + b;
    text::lemma_split_first(a, x, b, s.len() + 1);
    text::lemma_split_none(b, x, s.len());
    assert(text::split(s, x) =~= seq![a, b]);
    let tail = b + x + rest;
    let t = a + x + tail;
    assert(a + seq!['x'] + b + seq!['x'] + rest =~= t);
    text::lemma_split_first(a, x, tail, t.len() + 1);
    text::lemma_split_first(b, x, rest, t.len());
    text::lemma_split_n_len(rest, x, (t.len() - 1) as nat);
    assert(text::split(t, x).len() >= 3);
}

/// A device that input is handed to: an X server, a virtual device, a compositor.
pub trait InputInjector: Send + Sync {
    /// Presses or releases a key.
    fn send_keypress(&self, keysym: u32, down: bool);

    /// Releases all keys that are held.
    fn reset_keyboard(&self);

    /// Moves the mouse, to a position or by a distance, and sets its buttons and wheel.
    fn send_mouse(&self, x: i32, y: i32, button_mask: u32, scroll: i32, relative: bool);
}

} // verus!
