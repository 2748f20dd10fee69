//! Messages that a client sends over the data channel: comma-separated text.

use vstd::prelude::*;
use crate::number;
use crate::number::FloatText;
use crate::text;

verus! {

broadcast use vstd::string::group_string_axioms;

/// The point of a cursor that points.
#[derive(Debug, Clone, Copy, PartialEq, Eq, Structural)]
pub struct CursorHotspot {
    pub x: i32,
    pub y: i32,
}

/// A message from the client to the server.
#[derive(Debug, Clone)]
pub enum ClientMessage {
    KeyDown { keysym: u32 },
    KeyUp { keysym: u32 },
    KeyReset,
    MouseAbsolute { x: i32, y: i32, button_mask: u8, scroll_mag: i32 },
    MouseRelative { dx: i32, dy: i32, button_mask: u8, scroll_mag: i32 },
    PointerVisibility { visible: bool },
    SetVideoBitrate { bitrate_kbps: u32 },
    SetAudioBitrate { bitrate_bps: u32 },
    ClipboardRead,
    ClipboardWrite { data_b64: String },
    Resize { resolution: String },
    DpiScale { scale: FloatText },
    JoystickConnect { num: u8, name_b64: String, num_axes: u8, num_btns: u8 },
    JoystickDisconnect { num: u8 },
    JoystickButton { js_num: u8, btn_num: u8, btn_val: FloatText },
    JoystickAxis { js_num: u8, axis_num: u8, axis_val: FloatText },
    Pong,
    SetFramerate { fps: u32 },
    SetResize { enabled: bool, resolution: String },
    ClientFps { fps: FloatText },
    ClientLatency { latency_ms: FloatText },
    StatsVideo { json: String },
    StatsAudio { json: String },
}

/// What a client message says, with texts as sequences of characters.
pub enum ClientMessageView {
    KeyDown { keysym: u32 },
    KeyUp { keysym: u32 },
    KeyReset,
    MouseAbsolute { x: i32, y: i32, button_mask: u8, scroll_mag: i32 },
    MouseRelative { dx: i32, dy: i32, button_mask: u8, scroll_mag: i32 },
    PointerVisibility { visible: bool },
    SetVideoBitrate { bitrate_kbps: u32 },
    SetAudioBitrate { bitrate_bps: u32 },
    ClipboardRead,
    ClipboardWrite { data_b64: Seq<char> },
    Resize { resolution: Seq<char> },
    DpiScale { scale: Seq<char> },
    JoystickConnect { num: u8, name_b64: Seq<char>, num_axes: u8, num_btns: u8 },
    JoystickDisconnect { num: u8 },
    JoystickButton { js_num: u8, btn_num: u8, btn_val: Seq<char> },
    JoystickAxis { js_num: u8, axis_num: u8, axis_val: Seq<char> },
    Pong,
    SetFramerate { fps: u32 },
    SetResize { enabled: bool, resolution: Seq<char> },
    ClientFps { fps: Seq<char> },
    ClientLatency { latency_ms: Seq<char> },
    StatsVideo { json: Seq<char> },
    StatsAudio { json: Seq<char> },
}

impl View for ClientMessage {
    type V = ClientMessageView;

    open spec fn view(&self) -> ClientMessageView {
        match *self {
            ClientMessage::KeyDown { keysym } => ClientMessageView::KeyDown { keysym },
            ClientMessage::KeyUp { keysym } => ClientMessageView::KeyUp { keysym },
            ClientMessage::KeyReset => ClientMessageView::KeyReset,
            ClientMessage::MouseAbsolute { x, y, button_mask, scroll_mag } =>
                ClientMessageView::MouseAbsolute { x, y, button_mask, scroll_mag },
            ClientMessage::MouseRelative { dx, dy, button_mask, scroll_mag } =>
                ClientMessageView::MouseRelative { dx, dy, button_mask, scroll_mag },
            ClientMessage::PointerVisibility { visible } => ClientMessageView::PointerVisibility {
                visible,
            },
            ClientMessage::SetVideoBitrate { bitrate_kbps } => ClientMessageView::SetVideoBitrate {
                bitrate_kbps,
            },
            ClientMessage::SetAudioBitrate { bitrate_bps } => ClientMessageView::SetAudioBitrate {
                bitrate_bps,
            },
            ClientMessage::ClipboardRead => ClientMessageView::ClipboardRead,
            ClientMessage::ClipboardWrite { data_b64 } => ClientMessageView::ClipboardWrite {
                data_b64: data_b64@,
            },
            ClientMessage::Resize { resolution } => ClientMessageView::Resize {
                resolution: resolution@,
            },
            ClientMessage::DpiScale { scale } => ClientMessageView::DpiScale { scale: scale@ },
            ClientMessage::JoystickConnect { num, name_b64, num_axes, num_btns } =>
                ClientMessageView::JoystickConnect {
                num,
                name_b64: name_b64@,
                num_axes,
                num_btns,
            },
            ClientMessage::JoystickDisconnect { num } => ClientMessageView::JoystickDisconnect {
                num,
            },
            ClientMessage::JoystickButton { js_num, btn_num, btn_val } =>
                ClientMessageView::JoystickButton { js_num, btn_num, btn_val: btn_val@ },
            ClientMessage::JoystickAxis { js_num, axis_num, axis_val } =>
                ClientMessageView::JoystickAxis { js_num, axis_num, axis_val: axis_val@ },
            ClientMessage::Pong => ClientMessageView::Pong,
            ClientMessage::SetFramerate { fps } => ClientMessageView::SetFramerate { fps },
            ClientMessage::SetResize { enabled, resolution } => ClientMessageView::SetResize {
                enabled,
                resolution: resolution@,
            },
            ClientMessage::ClientFps { fps } => ClientMessageView::ClientFps { fps: fps@ },
            ClientMessage::ClientLatency { latency_ms } => ClientMessageView::ClientLatency {
                latency_ms: latency_ms@,
            },
            ClientMessage::StatsVideo { json } => ClientMessageView::StatsVideo { json: json@ },
            ClientMessage::StatsAudio { json } => ClientMessageView::StatsAudio { json: json@ },
        }
    }
}

/// The outcome of reading a message, taken by the characters of its texts.
pub open spec fn outcome(r: Result<ClientMessage, String>) -> Result<
    ClientMessageView,
    Seq<char>,
> {
    match r {
        Ok(m) => Ok(m@),
        Err(e) => Err(e@),
    }
}

/// The field at position `i`, or the given complaint where there is none.
pub open spec fn field(f: Seq<Seq<char>>, i: int, missing: Seq<char>) -> Result<
    Seq<char>,
    Seq<char>,
> {
    if i < f.len() {
        Ok(f[i])
    } else {
        Err(missing)
    }
}

/// The `u8` in the field at position `i`; `label` stands before the reason why it is none.
pub open spec fn field_u8(
    f: Seq<Seq<char>>,
    i: int,
    missing: Seq<char>,
    label: Seq<char>,
) -> Result<u8, Seq<char>> {
    match field(f, i, missing) {
        Err(e) => Err(e),
        Ok(t) => match number::as_u8(t) {
            Ok(n) => Ok(n),
            Err(e) => Err(label + e.words()),
        },
    }
}

/// The `u32` in the field at position `i`; `label` stands before the reason why it is none.
pub open spec fn field_u32(
    f: Seq<Seq<char>>,
    i: int,
    missing: Seq<char>,
    label: Seq<char>,
) -> Result<u32, Seq<char>> {
    match field(f, i, missing) {
        Err(e) => Err(e),
        Ok(t) => match number::as_u32(t) {
            Ok(n) => Ok(n),
            Err(e) => Err(label + e.words()),
        },
    }
}

/// The `i32` in the field at position `i`; `label` stands before the reason why it is none.
pub open spec fn field_i32(
    f: Seq<Seq<char>>,
    i: int,
    missing: Seq<char>,
    label: Seq<char>,
) -> Result<i32, Seq<char>> {
    match field(f, i, missing) {
        Err(e) => Err(e),
        Ok(t) => match number::as_i32(t) {
            Ok(n) => Ok(n),
            Err(e) => Err(label + e.words()),
        },
    }
}

/// The floating-point literal in the field at position `i`; `label` stands before the reason why
/// it is none.
pub open spec fn field_float(
    f: Seq<Seq<char>>,
    i: int,
    missing: Seq<char>,
    label: Seq<char>,
) -> Result<Seq<char>, Seq<char>> {
    match field(f, i, missing) {
        Err(e) => Err(e),
        Ok(t) => match number::as_float(t) {
            Ok(n) => Ok(n),
            Err(e) => Err(label + e.words()),
        },
    }
}

/// The scroll magnitude in the fifth field; 0 where there is none.
pub open spec fn scroll(f: Seq<Seq<char>>) -> i32 {
    if f.len() > 4 {
        match number::as_i32(f[4]) {
            Ok(n) => n,
            Err(_) => 0,
        }
    } else {
        0
    }
}

/// The fields of a mouse message: two coordinates, the button mask and the scroll magnitude.
pub open spec fn mouse_fields(
    f: Seq<Seq<char>>,
    missing_x: Seq<char>,
    missing_y: Seq<char>,
    missing_mask: Seq<char>,
    label: Seq<char>,
) -> Result<(i32, i32, u8, i32), Seq<char>> {
    match field_i32(f, 1, missing_x, label) {
        Err(e) => Err(e),
        Ok(x) => match field_i32(f, 2, missing_y, label) {
            Err(e) => Err(e),
            Ok(y) => match field_u8(f, 3, missing_mask, label) {
                Err(e) => Err(e),
                Ok(mask) => Ok((x, y, mask, scroll(f))),
            },
        },
    }
}

/// What a joystick message says; `f` holds its fields.
pub open spec fn joystick_message(f: Seq<Seq<char>>) -> Result<ClientMessageView, Seq<char>> {
    match field(f, 1, "js: missing subcommand"@) {
        Err(e) => Err(e),
        Ok(sub) => if sub == "c"@ {
            match field_u8(f, 2, "js,c: missing num"@, "js,c: "@) {
                Err(e) => Err(e),
                Ok(num) => match field(f, 3, "js,c: missing name"@) {
                    Err(e) => Err(e),
                    Ok(name_b64) => match field_u8(f, 4, "js,c: missing axes"@, "js,c: "@) {
                        Err(e) => Err(e),
                        Ok(num_axes) => match field_u8(f, 5, "js,c: missing btns"@, "js,c: "@) {
                            Err(e) => Err(e),
                            Ok(num_btns) => Ok(
                                ClientMessageView::JoystickConnect {
                                    num,
                                    name_b64,
                                    num_axes,
                                    num_btns,
                                },
                            ),
                        },
                    },
                },
            }
        } else if sub == "d"@ {
            match field_u8(f, 2, "js,d: missing num"@, "js,d: "@) {
                Err(e) => Err(e),
                Ok(num) => Ok(ClientMessageView::JoystickDisconnect { num }),
            }
        } else if sub == "b"@ {
            match field_u8(f, 2, "js,b: missing js_num"@, "js,b: "@) {
                Err(e) => Err(e),
                Ok(js_num) => match field_u8(f, 3, "js,b: missing btn_num"@, "js,b: "@) {
                    Err(e) => Err(e),
                    Ok(btn_num) => match field_float(f, 4, "js,b: missing btn_val"@, "js,b: "@) {
                        Err(e) => Err(e),
                        Ok(btn_val) => Ok(
                            ClientMessageView::JoystickButton { js_num, btn_num, btn_val },
                        ),
                    },
                },
            }
        } else if sub == "a"@ {
            match field_u8(f, 2, "js,a: missing js_num"@, "js,a: "@) {
                Err(e) => Err(e),
                Ok(js_num) => match field_u8(f, 3, "js,a: missing axis_num"@, "js,a: "@) {
                    Err(e) => Err(e),
                    Ok(axis_num) => match field_float(f, 4, "js,a: missing axis_val"@, "js,a: "@) {
                        Err(e) => Err(e),
                        Ok(axis_val) => Ok(
                            ClientMessageView::JoystickAxis { js_num, axis_num, axis_val },
                        ),
                    },
                },
            }
        } else {
            Err("js: unknown subcommand: "@ + sub)
        },
    }
}

/// What a message with a `u32` in its second field says.
pub open spec fn number_message(
    n: Result<u32, Seq<char>>,
    build: spec_fn(u32) -> ClientMessageView,
) -> Result<ClientMessageView, Seq<char>> {
    match n {
        Ok(n) => Ok(build(n)),
        Err(e) => Err(e),
    }
}

/// What a message with a text in its second field says.
pub open spec fn text_message(
    t: Result<Seq<char>, Seq<char>>,
    build: spec_fn(Seq<char>) -> ClientMessageView,
) -> Result<ClientMessageView, Seq<char>> {
    match t {
        Ok(t) => Ok(build(t)),
        Err(e) => Err(e),
    }
}

/// What the text of a client message says. Its fields stand between commas: at most five of them,
/// six in a joystick message; the last one holds what is left. The first field is the command.
pub open spec fn client_message(msg: Seq<char>) -> Result<ClientMessageView, Seq<char>> {
    let f = text::split_n(msg, ","@, 5);
    let command = f[0];
    if command == "kd"@ {
        number_message(
            field_u32(f, 1, "kd: missing keysym"@, "kd: invalid keysym: "@),
            |keysym: u32| ClientMessageView::KeyDown { keysym },
        )
    } else if command == "ku"@ {
        number_message(
            field_u32(f, 1, "ku: missing keysym"@, "ku: invalid keysym: "@),
            |keysym: u32| ClientMessageView::KeyUp { keysym },
        )
    } else if command == "kr"@ {
        Ok(ClientMessageView::KeyReset)
    } else if command == "m"@ {
        match mouse_fields(
            f,
            "m: missing x"@,
            "m: missing y"@,
            "m: missing button_mask"@,
            "m: "@,
        ) {
            Err(e) => Err(e),
            Ok((x, y, button_mask, scroll_mag)) => Ok(
                ClientMessageView::MouseAbsolute { x, y, button_mask, scroll_mag },
            ),
        }
    } else if command == "m2"@ {
        match mouse_fields(
            f,
            "m2: missing dx"@,
            "m2: missing dy"@,
            "m2: missing button_mask"@,
            "m2: "@,
        ) {
            Err(e) => Err(e),
            Ok((dx, dy, button_mask, scroll_mag)) => Ok(
                ClientMessageView::MouseRelative { dx, dy, button_mask, scroll_mag },
            ),
        }
    } else if command == "p"@ {
        text_message(
            field(f, 1, "p: missing value"@),
            |t: Seq<char>| ClientMessageView::PointerVisibility { visible: t == "1"@ },
        )
    } else if command == "vb"@ {
        number_message(
            field_u32(f, 1, "vb: missing bitrate"@, "vb: "@),
            |bitrate_kbps: u32| ClientMessageView::SetVideoBitrate { bitrate_kbps },
        )
    } else if command == "ab"@ {
        number_message(
            field_u32(f, 1, "ab: missing bitrate"@, "ab: "@),
            |bitrate_bps: u32| ClientMessageView::SetAudioBitrate { bitrate_bps },
        )
    } else if command == "cr"@ {
        Ok(ClientMessageView::ClipboardRead)
    } else if command == "cw"@ {
        text_message(
            field(f, 1, "cw: missing data"@),
            |data_b64: Seq<char>| ClientMessageView::ClipboardWrite { data_b64 },
        )
    } else if command == "r"@ {
        text_message(
            field(f, 1, "r: missing resolution"@),
            |resolution: Seq<char>| ClientMessageView::Resize { resolution },
        )
    } else if command == "s"@ {
        text_message(
            field_float(f, 1, "s: missing scale"@, "s: "@),
            |scale: Seq<char>| ClientMessageView::DpiScale { scale },
        )
    } else if command == "pong"@ {
        Ok(ClientMessageView::Pong)
    } else if command == "_arg_fps"@ {
        number_message(
            field_u32(f, 1, "_arg_fps: missing fps"@, "_arg_fps: "@),
            |fps: u32| ClientMessageView::SetFramerate { fps },
        )
    } else if command == "_f"@ {
        text_message(
            field_float(f, 1, "_f: missing fps"@, "_f: "@),
            |fps: Seq<char>| ClientMessageView::ClientFps { fps },
        )
    } else if command == "_l"@ {
        text_message(
            field_float(f, 1, "_l: missing latency"@, "_l: "@),
            |latency_ms: Seq<char>| ClientMessageView::ClientLatency { latency_ms },
        )
    } else if command == "js"@ {
        joystick_message(text::split_n(msg, ","@, 6))
    } else if command == "_stats_video"@ {
        text_message(
            field(f, 1, "_stats_video: missing json"@),
            |json: Seq<char>| ClientMessageView::StatsVideo { json },
        )
    } else if command == "_stats_audio"@ {
        text_message(
            field(f, 1, "_stats_audio: missing json"@),
            |json: Seq<char>| ClientMessageView::StatsAudio { json },
        )
    } else if command == "_arg_resize"@ {
        text_message(
            field(f, 1, "_arg_resize: missing enabled"@),
            |enabled: Seq<char>|
                ClientMessageView::SetResize {
                    enabled: enabled == "true"@,
                    resolution: if f.len() > 2 {
                        f[2]
                    } else {
                        ""@
                    },
                },
        )
    } else {
        Err("Unknown command: "@ + command)
    }
}

fn get_text(f: &Vec<Vec<char>>, i: usize, missing: &str) -> (r: Result<String, String>)
    ensures
        match r {
            Ok(t) => field(text::texts(f@), i as int, missing@) == Ok::<Seq<char>, Seq<char>>(t@),
            Err(e) => field(text::texts(f@), i as int, missing@) == Err::<Seq<char>, Seq<char>>(e@),
        },
{
    if i < f.len() {
        Ok(text::to_text(f[i].as_slice()))
    } else {
        Err(missing.to_string())
    }
}

fn get_u8(f: &Vec<Vec<char>>, i: usize, missing: &str, label: &str) -> (r: Result<u8, String>)
    ensures
        text::told(r) == field_u8(text::texts(f@), i as int, missing@, label@),
{
    if i < f.len() {
        match number::parse_u8(f[i].as_slice()) {
            Ok(n) => Ok(n),
            Err(e) => Err(text::cat(label, e.message())),
        }
    } else {
        Err(missing.to_string())
    }
}

fn get_u32(f: &Vec<Vec<char>>, i: usize, missing: &str, label: &str) -> (r: Result<u32, String>)
    ensures
        text::told(r) == field_u32(text::texts(f@), i as int, missing@, label@),
{
    if i < f.len() {
        match number::parse_u32(f[i].as_slice()) {
            Ok(n) => Ok(n),
            Err(e) => Err(text::cat(label, e.message())),
        }
    } else {
        Err(missing.to_string())
    }
}

fn get_i32(f: &Vec<Vec<char>>, i: usize, missing: &str, label: &str) -> (r: Result<i32, String>)
    ensures
        text::told(r) == field_i32(text::texts(f@), i as int, missing@, label@),
{
    if i < f.len() {
        match number::parse_i32(f[i].as_slice()) {
            Ok(n) => Ok(n),
            Err(e) => Err(text::cat(label, e.message())),
        }
    } else {
        Err(missing.to_string())
    }
}

fn get_float(f: &Vec<Vec<char>>, i: usize, missing: &str, label: &str) -> (r: Result<
    FloatText,
    String,
>)
    ensures
        match r {
            Ok(t) => field_float(text::texts(f@), i as int, missing@, label@) == Ok::<
                Seq<char>,
                Seq<char>,
            >(t@),
            Err(e) => field_float(text::texts(f@), i as int, missing@, label@) == Err::<
                Seq<char>,
                Seq<char>,
            >(e@),
        },
{
    if i < f.len() {
        match FloatText::parse(f[i].as_slice()) {
            Ok(t) => Ok(t),
            Err(e) => Err(text::cat(label, e.message())),
        }
    } else {
        Err(missing.to_string())
    }
}

fn get_scroll(f: &Vec<Vec<char>>) -> (r: i32)
    ensures
        r == scroll(text::texts(f@)),
{
    if f.len() > 4 {
        match number::parse_i32(f[4].as_slice()) {
            Ok(n) => n,
            Err(_) => 0,
        }
    } else {
        0
    }
}

fn get_mouse(
    f: &Vec<Vec<char>>,
    missing_x: &str,
    missing_y: &str,
    missing_mask: &str,
    label: &str,
) -> (r: Result<(i32, i32, u8, i32), String>)
    ensures
        text::told(r) == mouse_fields(
            text::texts(f@),
            missing_x@,
            missing_y@,
            missing_mask@,
            label@,
        ),
{
    let x = match get_i32(f, 1, missing_x, label) {
        Ok(x) => x,
        Err(e) => return Err(e),
    };
    let y = match get_i32(f, 2, missing_y, label) {
        Ok(y) => y,
        Err(e) => return Err(e),
    };
    let mask = match get_u8(f, 3, missing_mask, label) {
        Ok(mask) => mask,
        Err(e) => return Err(e),
    };
    Ok((x, y, mask, get_scroll(f)))
}

fn parse_joystick(f: &Vec<Vec<char>>) -> (r: Result<ClientMessage, String>)
    ensures
        outcome(r) == joystick_message(text::texts(f@)),
{
    if f.len() < 2 {
        return Err("js: missing subcommand".to_string());
    }
    let sub = &f[1];
    if text::is(sub.as_slice(), "c") {
        let num = match get_u8(f, 2, "js,c: missing num", "js,c: ") {
            Ok(n) => n,
            Err(e) => return Err(e),
        };
        let name_b64 = match get_text(f, 3, "js,c: missing name") {
            Ok(t) => t,
            Err(e) => return Err(e),
        };
        let num_axes = match get_u8(f, 4, "js,c: missing axes", "js,c: ") {
            Ok(n) => n,
            Err(e) => return Err(e),
        };
        let num_btns = match get_u8(f, 5, "js,c: missing btns", "js,c: ") {
            Ok(n) => n,
            Err(e) => return Err(e),
        };
        Ok(ClientMessage::JoystickConnect { num, name_b64, num_axes, num_btns })
    } else if text::is(sub.as_slice(), "d") {
        match get_u8(f, 2, "js,d: missing num", "js,d: ") {
            Ok(num) => Ok(ClientMessage::JoystickDisconnect { num }),
            Err(e) => Err(e),
        }
    } else if text::is(sub.as_slice(), "b") {
        let js_num = match get_u8(f, 2, "js,b: missing js_num", "js,b: ") {
            Ok(n) => n,
            Err(e) => return Err(e),
        };
        let btn_num = match get_u8(f, 3, "js,b: missing btn_num", "js,b: ") {
            Ok(n) => n,
            Err(e) => return Err(e),
        };
        match get_float(f, 4, "js,b: missing btn_val", "js,b: ") {
            Ok(btn_val) => Ok(ClientMessage::JoystickButton { js_num, btn_num, btn_val }),
            Err(e) => Err(e),
        }
    } else if text::is(sub.as_slice(), "a") {
        let js_num = match get_u8(f, 2, "js,a: missing js_num", "js,a: ") {
            Ok(n) => n,
            Err(e) => return Err(e),
        };
        let axis_num = match get_u8(f, 3, "js,a: missing axis_num", "js,a: ") {
            Ok(n) => n,
            Err(e) => return Err(e),
        };
        match get_float(f, 4, "js,a: missing axis_val", "js,a: ") {
            Ok(axis_val) => Ok(ClientMessage::JoystickAxis { js_num, axis_num, axis_val }),
            Err(e) => Err(e),
        }
    } else {
        Err(text::cat("js: unknown subcommand: ", text::to_text(sub.as_slice()).as_str()))
    }
}

impl ClientMessage {
    /// Reads a message.
    pub fn parse(msg: &str) -> (r: Result<Self, String>)
        ensures
            outcome(r) == client_message(msg@),
    {
        proof {
            reveal_strlit(",");
            text::lemma_split_n_len(msg@, ","@, 5);
        }
        let chars = text::to_chars(msg);
        let comma = text::to_chars(",");
        let f = text::split_limited(chars.as_slice(), comma.as_slice(), Some(5));
        let command = &f[0];
        if text::is(command.as_slice(), "kd") {
            match get_u32(&f, 1, "kd: missing keysym", "kd: invalid keysym: ") {
                Ok(keysym) => Ok(ClientMessage::KeyDown { keysym }),
                Err(e) => Err(e),
            }
        } else if text::is(command.as_slice(), "ku") {
            match get_u32(&f, 1, "ku: missing keysym", "ku: invalid keysym: ") {
                Ok(keysym) => Ok(ClientMessage::KeyUp { keysym }),
                Err(e) => Err(e),
            }
        } else if text::is(command.as_slice(), "kr") {
            Ok(ClientMessage::KeyReset)
        } else if text::is(command.as_slice(), "m") {
            match get_mouse(&f, "m: missing x", "m: missing y", "m: missing button_mask", "m: ") {
                Ok((x, y, button_mask, scroll_mag)) => Ok(
                    ClientMessage::MouseAbsolute { x, y, button_mask, scroll_mag },
                ),
                Err(e) => Err(e),
            }
        } else if text::is(command.as_slice(), "m2") {
            match get_mouse(
                &f,
                "m2: missing dx",
                "m2: missing dy",
                "m2: missing button_mask",
                "m2: ",
            ) {
                Ok((dx, dy, button_mask, scroll_mag)) => Ok(
                    ClientMessage::MouseRelative { dx, dy, button_mask, scroll_mag },
                ),
                Err(e) => Err(e),
            }
        } else if text::is(command.as_slice(), "p") {
            if f.len() < 2 {
                return Err("p: missing value".to_string());
            }
            Ok(ClientMessage::PointerVisibility { visible: text::is(f[1].as_slice(), "1") })
        } else if text::is(command.as_slice(), "vb") {
            match get_u32(&f, 1, "vb: missing bitrate", "vb: ") {
                Ok(bitrate_kbps) => Ok(ClientMessage::SetVideoBitrate { bitrate_kbps }),
                Err(e) => Err(e),
            }
        } else if text::is(command.as_slice(), "ab") {
            match get_u32(&f, 1, "ab: missing bitrate", "ab: ") {
                Ok(bitrate_bps) => Ok(ClientMessage::SetAudioBitrate { bitrate_bps }),
                Err(e) => Err(e),
            }
        } else if text::is(command.as_slice(), "cr") {
            Ok(ClientMessage::ClipboardRead)
        } else if text::is(command.as_slice(), "cw") {
            match get_text(&f, 1, "cw: missing data") {
                Ok(data_b64) => Ok(ClientMessage::ClipboardWrite { data_b64 }),
                Err(e) => Err(e),
            }
        } else if text::is(command.as_slice(), "r") {
            match get_text(&f, 1, "r: missing resolution") {
                Ok(resolution) => Ok(ClientMessage::Resize { resolution }),
                Err(e) => Err(e),
            }
        } else if text::is(command.as_slice(), "s") {
            match get_float(&f, 1, "s: missing scale", "s: ") {
                Ok(scale) => Ok(ClientMessage::DpiScale { scale }),
                Err(e) => Err(e),
            }
        } else if text::is(command.as_slice(), "pong") {
            Ok(ClientMessage::Pong)
        } else if text::is(command.as_slice(), "_arg_fps") {
            match get_u32(&f, 1, "_arg_fps: missing fps", "_arg_fps: ") {
                Ok(fps) => Ok(ClientMessage::SetFramerate { fps }),
                Err(e) => Err(e),
            }
        } else if text::is(command.as_slice(), "_f") {
            match get_float(&f, 1, "_f: missing fps", "_f: ") {
                Ok(fps) => Ok(ClientMessage::ClientFps { fps }),
                Err(e) => Err(e),
            }
        } else if text::is(command.as_slice(), "_l") {
            match get_float(&f, 1, "_l: missing latency", "_l: ") {
                Ok(latency_ms) => Ok(ClientMessage::ClientLatency { latency_ms }),
                Err(e) => Err(e),
            }
        } else if text::is(command.as_slice(), "js") {
            parse_joystick(&text::split_limited(chars.as_slice(), comma.as_slice(), Some(6)))
        } else if text::is(command.as_slice(), "_stats_video") {
            match get_text(&f, 1, "_stats_video: missing json") {
                Ok(json) => Ok(ClientMessage::StatsVideo { json }),
                Err(e) => Err(e),
            }
        } else if text::is(command.as_slice(), "_stats_audio") {
            match get_text(&f, 1, "_stats_audio: missing json") {
                Ok(json) => Ok(ClientMessage::StatsAudio { json }),
                Err(e) => Err(e),
            }
        } else if text::is(command.as_slice(), "_arg_resize") {
            if f.len() < 2 {
                return Err("_arg_resize: missing enabled".to_string());
            }
            let enabled = text::is(f[1].as_slice(), "true");
            let resolution = if f.len() > 2 {
                text::to_text(f[2].as_slice())
            } else {
                "".to_string()
            };
            Ok(ClientMessage::SetResize { enabled, resolution })
        } else {
            Err(text::cat("Unknown command: ", text::to_text(command.as_slice()).as_str()))
        }
    }
}

proof fn lemma_number_fields(command: Seq<char>, n: u32)
    requires
        !command.contains(','),
    ensures
        text::split_n(command + ","@ + number::decimal(n as nat), ","@, 5) == seq![
            command,
            number::decimal(n as nat),
        ],
        number::as_u32(number::decimal(n as nat)) == Ok::<u32, number::IntError>(n),
{
    reveal_strlit(",");
    let d = number::decimal(n as nat);
    number::law_decimal_reads_back(n as nat);
    number::law_digits_are_read(d, false, 0, u32::MAX as nat);
    assert(!d.contains(',')) by {
        if d.contains(',') {
            let i = choose|i: int| 0 <= i < d.len() && d[i] == ',';
            assert(number::digit(d[i]));
        }
    }
    text::lemma_split_first(command, ","@, d, 5);
    text::lemma_split_none(d, ","@, 4);
    assert(seq![command] + seq![d] =~= seq![command, d]);
}

/// `kd` with a number, written in decimal digits, is read as that command with that number.
pub proof fn law_kd_is_read(n: u32)
    ensures
        client_message("kd"@ + ","@ + number::decimal(n as nat)) == Ok::<
            ClientMessageView,
            Seq<char>,
        >((ClientMessageView::KeyDown { keysym: n })),
{
    reveal_strlit("kd");
    let command = "kd"@;
    assert(command.len() == 2 && command[0] == 'k' && command[1] == 'd');
    lemma_number_fields(command, n);
}

/// `ku` with a number, written in decimal digits, is read as that command with that number.
pub proof fn law_ku_is_read(n: u32)
    ensures
        client_message("ku"@ + ","@ + number::decimal(n as nat)) == Ok::<
            ClientMessageView,
            Seq<char>,
        >((ClientMessageView::KeyUp { keysym: n })),
{
    reveal_strlit("kd");
    reveal_strlit("ku");
    let command = "ku"@;
    assert(command.len() == 2 && command[0] == 'k' && command[1] == 'u');
    lemma_number_fields(command, n);
}

/// `vb` with a number, written in decimal digits, is read as that command with that number.
pub proof fn law_vb_is_read(n: u32)
    ensures
        client_message("vb"@ + ","@ + number::decimal(n as nat)) == Ok::<
            ClientMessageView,
            Seq<char>,
        >((ClientMessageView::SetVideoBitrate { bitrate_kbps: n })),
{
    reveal_strlit("kd");
    reveal_strlit("ku");
    reveal_strlit("kr");
    reveal_strlit("m");
    reveal_strlit("m2");
    reveal_strlit("p");
    reveal_strlit("vb");
    let command = "vb"@;
    assert(command.len() == 2 && command[0] == 'v' && command[1] == 'b');
    lemma_number_fields(command, n);
}

/// `ab` with a number, written in decimal digits, is read as that command with that number.
pub proof fn law_ab_is_read(n: u32)
    ensures
        client_message("ab"@ + ","@ + number::decimal(n as nat)) == Ok::<
            ClientMessageView,
            Seq<char>,
        >((ClientMessageView::SetAudioBitrate { bitrate_bps: n })),
{
    reveal_strlit("kd");
    reveal_strlit("ku");
    reveal_strlit("kr");
    reveal_strlit("m");
    reveal_strlit("m2");
    reveal_strlit("p");
    reveal_strlit("vb");
    reveal_strlit("ab");
    let command = "ab"@;
    assert(command.len() == 2 && command[0] == 'a' && command[1] == 'b');
    lemma_number_fields(command, n);
}

/// `_arg_fps` with a number, written in decimal digits, is read as that command with that number.
pub proof fn law_arg_fps_is_read(n: u32)
    ensures
        client_message("_arg_fps"@ + ","@ + number::decimal(n as nat)) == Ok::<
            ClientMessageView,
            Seq<char>,
        >((ClientMessageView::SetFramerate { fps: n })),
{
    reveal_strlit("kd");
    reveal_strlit("ku");
    reveal_strlit("kr");
    reveal_strlit("m");
    reveal_strlit("m2");
    reveal_strlit("p");
    reveal_strlit("vb");
    reveal_strlit("ab");
    reveal_strlit("cr");
    reveal_strlit("cw");
    reveal_strlit("r");
    reveal_strlit("s");
    reveal_strlit("pong");
    reveal_strlit("_arg_fps");
    let command = "_arg_fps"@;
    assert(command.len() == 8 && command[0] == '_' && command[1] == 'a');
    lemma_number_fields(command, n);
}

} // verus!
