//! Virtual Xbox 360 controllers: how a device is declared to the kernel, which events it is sent,
//! and which controller holds which slot.

use vstd::prelude::*;
use crate::codec;
use crate::number;
use crate::text;

verus! {

broadcast use vstd::string::group_string_axioms;

pub const EV_SYN: u16 = 0x00;

pub const EV_KEY: u16 = 0x01;

pub const EV_ABS: u16 = 0x03;

pub const EV_FF: u16 = 0x15;

pub const SYN_REPORT: u16 = 0;

pub const BTN_A: u16 = 0x130;

pub const BTN_B: u16 = 0x131;

pub const BTN_X: u16 = 0x133;

pub const BTN_Y: u16 = 0x134;

pub const BTN_TL: u16 = 0x136;

pub const BTN_TR: u16 = 0x137;

pub const BTN_SELECT: u16 = 0x13a;

pub const BTN_START: u16 = 0x13b;

pub const BTN_MODE: u16 = 0x13c;

pub const BTN_THUMBL: u16 = 0x13d;

pub const BTN_THUMBR: u16 = 0x13e;

pub const ABS_X: u16 = 0x00;

pub const ABS_Y: u16 = 0x01;

pub const ABS_Z: u16 = 0x02;

pub const ABS_RX: u16 = 0x03;

pub const ABS_RY: u16 = 0x04;

pub const ABS_RZ: u16 = 0x05;

pub const ABS_HAT0X: u16 = 0x10;

pub const ABS_HAT0Y: u16 = 0x11;

pub const FF_RUMBLE: u16 = 0x50;

pub const BUS_USB: u16 = 0x03;

pub const XBOX_VENDOR: u16 = 0x045e;

pub const XBOX_PRODUCT: u16 = 0x028e;

pub const XBOX_VERSION: u16 = 0x0110;

/// The bytes that the kernel keeps of a device's name, the zero at the end included.
pub const UINPUT_MAX_NAME_SIZE: usize = 80;

/// How many controllers there can be.
pub const MAX_SLOTS: usize = 4;

/// A trigger's travel: from 0 to 255, rounded to the nearest.
pub open spec fn trigger_travel(btn_val: i16) -> int {
    let v = if btn_val < 0 {
        0
    } else {
        btn_val as int
    };
    (v * 255 + 16383) / 32767
}

/// Scales the value of a trigger button, 0 to 32767, to the travel of an axis, 0 to 255. Negative
/// values count as 0.
pub fn scale_trigger(btn_val: i16) -> (r: i32)
    ensures
        r == trigger_travel(btn_val),
        0 <= r <= 255,
{
    let v: i32 = if btn_val < 0 {
        0
    } else {
        btn_val as i32
    };
    (v * 255 + 16383) / 32767
}

/// A trigger that is pressed further travels at least as far; at rest it has not travelled, fully
/// pressed it has travelled all the way; and the travel is the nearest to the exact one.
pub proof fn law_trigger_travel(a: i16, b: i16)
    requires
        a <= b,
    ensures
        trigger_travel(a) <= trigger_travel(b),
        a <= 0 ==> trigger_travel(a) == 0,
        trigger_travel(32767) == 255,
        a >= 0 ==> -16383 <= trigger_travel(a) * 32767 - a * 255 <= 16383,
{
}

/// An event that a device is sent.
#[derive(Debug, Clone, Copy, PartialEq, Eq, Structural)]
pub struct DeviceEvent {
    pub ev_type: u16,
    pub code: u16,
    pub value: i32,
}

/// The key that a button of the W3C standard gamepad stands for. The triggers and the directional
/// pad are axes.
pub open spec fn key_code(button: u8) -> Option<u16> {
    if button == 0 {
        Some(BTN_A)
    } else if button == 1 {
        Some(BTN_B)
    } else if button == 2 {
        Some(BTN_X)
    } else if button == 3 {
        Some(BTN_Y)
    } else if button == 4 {
        Some(BTN_TL)
    } else if button == 5 {
        Some(BTN_TR)
    } else if button == 8 {
        Some(BTN_SELECT)
    } else if button == 9 {
        Some(BTN_START)
    } else if button == 10 {
        Some(BTN_THUMBL)
    } else if button == 11 {
        Some(BTN_THUMBR)
    } else if button == 16 {
        Some(BTN_MODE)
    } else {
        None
    }
}

/// Finds the key that a button of the W3C standard gamepad stands for.
pub fn btn_map(button: u8) -> (r: Option<u16>)
    ensures
        r == key_code(button),
{
    match button {
        0 => Some(BTN_A),
        1 => Some(BTN_B),
        2 => Some(BTN_X),
        3 => Some(BTN_Y),
        4 => Some(BTN_TL),
        5 => Some(BTN_TR),
        8 => Some(BTN_SELECT),
        9 => Some(BTN_START),
        10 => Some(BTN_THUMBL),
        11 => Some(BTN_THUMBR),
        16 => Some(BTN_MODE),
        _ => None,
    }
}

/// The axis that an axis of the W3C standard gamepad stands for: the two sticks.
pub open spec fn axis_code(axis: u8) -> Option<u16> {
    if axis == 0 {
        Some(ABS_X)
    } else if axis == 1 {
        Some(ABS_Y)
    } else if axis == 2 {
        Some(ABS_RX)
    } else if axis == 3 {
        Some(ABS_RY)
    } else {
        None
    }
}

/// Finds the axis that an axis of the W3C standard gamepad stands for.
pub fn axis_map(axis: u8) -> (r: Option<u16>)
    ensures
        r == axis_code(axis),
{
    match axis {
        0 => Some(ABS_X),
        1 => Some(ABS_Y),
        2 => Some(ABS_RX),
        3 => Some(ABS_RY),
        _ => None,
    }
}

/// The event of a button: a trigger moves its axis, the directional pad moves a hat to one side or
/// back, other buttons are keys. Unknown buttons have none.
pub open spec fn button_event(button: u8, value: i16) -> Option<DeviceEvent> {
    let pressed: i32 = if value != 0 {
        1
    } else {
        0
    };
    if button == 6 {
        Some(
            DeviceEvent { ev_type: EV_ABS, code: ABS_Z, value: trigger_travel(value) as i32 },
        )
    } else if button == 7 {
        Some(
            DeviceEvent { ev_type: EV_ABS, code: ABS_RZ, value: trigger_travel(value) as i32 },
        )
    } else if button == 12 {
        Some(DeviceEvent { ev_type: EV_ABS, code: ABS_HAT0Y, value: (-pressed) as i32 })
    } else if button == 13 {
        Some(DeviceEvent { ev_type: EV_ABS, code: ABS_HAT0Y, value: pressed })
    } else if button == 14 {
        Some(DeviceEvent { ev_type: EV_ABS, code: ABS_HAT0X, value: (-pressed) as i32 })
    } else if button == 15 {
        Some(DeviceEvent { ev_type: EV_ABS, code: ABS_HAT0X, value: pressed })
    } else {
        match key_code(button) {
            Some(code) => Some(DeviceEvent { ev_type: EV_KEY, code, value: pressed }),
            None => None,
        }
    }
}

/// The event of an axis. Unknown axes have none.
pub open spec fn axis_event(axis: u8, value: i16) -> Option<DeviceEvent> {
    match axis_code(axis) {
        Some(code) => Some(DeviceEvent { ev_type: EV_ABS, code, value: value as i32 }),
        None => None,
    }
}

/// An event, and the report that closes it.
pub open spec fn reported(event: Option<DeviceEvent>) -> Seq<DeviceEvent> {
    match event {
        Some(e) => seq![e, DeviceEvent { ev_type: EV_SYN, code: SYN_REPORT, value: 0 }],
        None => Seq::empty(),
    }
}

fn report(event: Option<DeviceEvent>) -> (r: Vec<DeviceEvent>)
    ensures
        r@ == reported(event),
{
    let mut out: Vec<DeviceEvent> = Vec::new();
    match event {
        Some(e) => {
            out.push(e);
            out.push(DeviceEvent { ev_type: EV_SYN, code: SYN_REPORT, value: 0 });
        },
        None => {},
    }
    assert(out@ =~= reported(event));
    out
}

/// The events of a button.
pub fn button_events(btn_num: u8, btn_val: i16) -> (r: Vec<DeviceEvent>)
    ensures
        r@ == reported(button_event(btn_num, btn_val)),
{
    let pressed: i32 = if btn_val != 0 {
        1
    } else {
        0
    };
    let event = match btn_num {
        6 => Some(DeviceEvent { ev_type: EV_ABS, code: ABS_Z, value: scale_trigger(btn_val) }),
        7 => Some(DeviceEvent { ev_type: EV_ABS, code: ABS_RZ, value: scale_trigger(btn_val) }),
        12 => Some(DeviceEvent { ev_type: EV_ABS, code: ABS_HAT0Y, value: -pressed }),
        13 => Some(DeviceEvent { ev_type: EV_ABS, code: ABS_HAT0Y, value: pressed }),
        14 => Some(DeviceEvent { ev_type: EV_ABS, code: ABS_HAT0X, value: -pressed }),
        15 => Some(DeviceEvent { ev_type: EV_ABS, code: ABS_HAT0X, value: pressed }),
        n => match btn_map(n) {
            Some(code) => Some(DeviceEvent { ev_type: EV_KEY, code, value: pressed }),
            None => None,
        },
    };
    report(event)
}

/// The events of an axis.
pub fn axis_events(axis_num: u8, axis_val: i16) -> (r: Vec<DeviceEvent>)
    ensures
        r@ == reported(axis_event(axis_num, axis_val)),
{
    match axis_map(axis_num) {
        Some(code) => report(
            Some(DeviceEvent { ev_type: EV_ABS, code, value: axis_val as i32 }),
        ),
        None => report(None),
    }
}

/// The range of an axis.
#[derive(Debug, Clone, Copy, PartialEq, Eq, Structural)]
pub struct AxisRange {
    pub code: u16,
    pub minimum: i32,
    pub maximum: i32,
    pub fuzz: i32,
    pub flat: i32,
}

/// The range of an axis: triggers travel one way, hats have three positions, sticks move both
/// ways.
pub open spec fn range_of(code: u16) -> AxisRange {
    if code == ABS_Z || code == ABS_RZ {
        AxisRange { code, minimum: 0, maximum: 255, fuzz: 0, flat: 0 }
    } else if code == ABS_HAT0X || code == ABS_HAT0Y {
        AxisRange { code, minimum: -1i32, maximum: 1, fuzz: 0, flat: 0 }
    } else {
        AxisRange { code, minimum: -32768i32, maximum: 32767, fuzz: 16, flat: 128 }
    }
}

/// The range of an axis.
pub fn axis_range(code: u16) -> (r: AxisRange)
    ensures
        r == range_of(code),
{
    if code == ABS_Z || code == ABS_RZ {
        AxisRange { code, minimum: 0, maximum: 255, fuzz: 0, flat: 0 }
    } else if code == ABS_HAT0X || code == ABS_HAT0Y {
        AxisRange { code, minimum: -1, maximum: 1, fuzz: 0, flat: 0 }
    } else {
        AxisRange { code, minimum: -32768, maximum: 32767, fuzz: 16, flat: 128 }
    }
}

/// Every event on an axis lies within the range that the axis is declared with.
pub proof fn law_events_in_range(number: u8, value: i16)
    ensures
        button_event(number, value) matches Some(e) ==> e.ev_type == EV_ABS ==> range_of(
            e.code,
        ).minimum <= e.value <= range_of(e.code).maximum,
        axis_event(number, value) matches Some(e) ==> range_of(e.code).minimum <= e.value
            <= range_of(e.code).maximum,
{
}

/// A step in the declaration of a device.
#[derive(Debug)]
pub enum SetupStep {
    /// The device sends events of this type.
    EventType(u16),
    /// The device has this key.
    Key(u16),
    /// The device has this axis.
    Axis(u16),
    /// The device has this force feedback.
    ForceFeedback(u16),
    /// The axis has this range.
    Range(AxisRange),
    /// The device has this identity. Without it there is no device.
    Identity(DeviceIdentity),
    /// The device is created. Without it there is no device.
    Create,
}

/// Who a device is: its bus and numbers, its name padded with zeros, and how many effects it plays
/// at once.
#[derive(Debug)]
pub struct DeviceIdentity {
    pub bustype: u16,
    pub vendor: u16,
    pub product: u16,
    pub version: u16,
    pub name: Vec<u8>,
    pub ff_effects_max: u32,
}

/// What a step in the declaration of a device says.
pub enum SetupView {
    EventType(u16),
    Key(u16),
    Axis(u16),
    ForceFeedback(u16),
    Range(AxisRange),
    Identity { bustype: u16, vendor: u16, product: u16, version: u16, name: Seq<u8>, effects: u32 },
    Create,
}

impl View for SetupStep {
    type V = SetupView;

    open spec fn view(&self) -> SetupView {
        match self {
            SetupStep::EventType(c) => SetupView::EventType(*c),
            SetupStep::Key(c) => SetupView::Key(*c),
            SetupStep::Axis(c) => SetupView::Axis(*c),
            SetupStep::ForceFeedback(c) => SetupView::ForceFeedback(*c),
            SetupStep::Range(range) => SetupView::Range(*range),
            SetupStep::Identity(i) => SetupView::Identity {
                bustype: i.bustype,
                vendor: i.vendor,
                product: i.product,
                version: i.version,
                name: i.name@,
                effects: i.ff_effects_max,
            },
            SetupStep::Create => SetupView::Create,
        }
    }
}

/// What the steps of a list say.
pub open spec fn steps_of(v: Seq<SetupStep>) -> Seq<SetupView> {
    Seq::new(v.len(), |i: int| v[i]@)
}

/// The keys of a controller.
pub open spec fn keys() -> Seq<u16> {
    seq![
        BTN_A,
        BTN_B,
        BTN_X,
        BTN_Y,
        BTN_TL,
        BTN_TR,
        BTN_SELECT,
        BTN_START,
        BTN_MODE,
        BTN_THUMBL,
        BTN_THUMBR,
    ]
}

/// The axes of a controller.
pub open spec fn axes() -> Seq<u16> {
    seq![ABS_X, ABS_Y, ABS_Z, ABS_RX, ABS_RY, ABS_RZ, ABS_HAT0X, ABS_HAT0Y]
}

/// Bytes cut so that a zero fits behind them, and padded with zeros to the size of a name.
pub open spec fn padded(bytes: Seq<u8>) -> Seq<u8> {
    Seq::new(
        UINPUT_MAX_NAME_SIZE as nat,
        |i: int|
            if i < bytes.len() && i < UINPUT_MAX_NAME_SIZE - 1 {
                bytes[i]
            } else {
                0
            },
    )
}

/// The name of the controller in a slot.
pub open spec fn device_label(slot: u8) -> Seq<char> {
    "Xbox 360 Controller (slot "@ + number::decimal(slot as nat) + ")"@
}

/// The steps that declare the keys.
pub open spec fn key_steps() -> Seq<SetupView> {
    Seq::new(keys().len(), |i: int| SetupView::Key(keys()[i]))
}

/// The steps that declare the axes.
pub open spec fn axis_steps() -> Seq<SetupView> {
    Seq::new(axes().len(), |i: int| SetupView::Axis(axes()[i]))
}

/// The steps that declare the ranges of the axes.
pub open spec fn range_steps() -> Seq<SetupView> {
    Seq::new(axes().len(), |i: int| SetupView::Range(range_of(axes()[i])))
}

/// The steps that declare the types of events.
pub open spec fn type_steps() -> Seq<SetupView> {
    seq![
        SetupView::EventType(EV_KEY),
        SetupView::EventType(EV_ABS),
        SetupView::EventType(EV_FF),
    ]
}

/// The step that declares force feedback.
pub open spec fn feedback_steps() -> Seq<SetupView> {
    seq![SetupView::ForceFeedback(FF_RUMBLE)]
}

/// The steps that give the controller its identity and create it.
pub open spec fn last_steps(slot: u8) -> Seq<SetupView> {
    seq![
        SetupView::Identity {
            bustype: BUS_USB,
            vendor: XBOX_VENDOR,
            product: XBOX_PRODUCT,
            version: XBOX_VERSION,
            name: padded(vstd::utf8::encode_utf8(device_label(slot))),
            effects: 1,
        },
        SetupView::Create,
    ]
}

/// The declaration of the controller in a slot: types of events, keys, axes, force feedback, the
/// ranges of the axes, the identity, and the creation.
pub open spec fn declaration(slot: u8) -> Seq<SetupView> {
    type_steps() + key_steps() + axis_steps() + feedback_steps() + range_steps() + last_steps(slot)
}

fn device_name(slot: u8) -> (r: Vec<u8>)
    ensures
        r@ == padded(vstd::utf8::encode_utf8(device_label(slot))),
{
    let mut label = text::to_chars("Xbox 360 Controller (slot ");
    number::push_decimal(&mut label, slot as u64);
    text::push_str(&mut label, ")");
    let whole = text::to_text(label.as_slice());
    let bytes = whole.as_str().as_bytes();
    let mut out: Vec<u8> = Vec::new();
    let ghost wanted = padded(bytes@);
    while out.len() < UINPUT_MAX_NAME_SIZE
        invariant
            wanted == padded(bytes@),
            out@.len() <= UINPUT_MAX_NAME_SIZE,
            out@ == wanted.take(out@.len() as int),
        decreases UINPUT_MAX_NAME_SIZE - out@.len(),
    {
        let i: usize = out.len();
        let b: u8 = if i < bytes.len() && i < UINPUT_MAX_NAME_SIZE - 1 {
            bytes[i]
        } else {
            0
        };
        out.push(b);
        assert(wanted.take(i + 1) =~= wanted.take(i as int).push(wanted[i as int]));
    }
    assert(wanted.take(out@.len() as int) =~= wanted);
    out
}

fn key_list() -> (r: Vec<u16>)
    ensures
        r@ == keys(),
{
    vec![
        BTN_A,
        BTN_B,
        BTN_X,
        BTN_Y,
        BTN_TL,
        BTN_TR,
        BTN_SELECT,
        BTN_START,
        BTN_MODE,
        BTN_THUMBL,
        BTN_THUMBR,
    ]
}

fn axis_list() -> (r: Vec<u16>)
    ensures
        r@ == axes(),
{
    vec![ABS_X, ABS_Y, ABS_Z, ABS_RX, ABS_RY, ABS_RZ, ABS_HAT0X, ABS_HAT0Y]
}

fn push_keys(out: &mut Vec<SetupStep>)
    ensures
        steps_of(final(out)@) == steps_of(old(out)@) + key_steps(),
{
    let codes = key_list();
    let mut i: usize = 0;
    assert(steps_of(out@) =~= steps_of(old(out)@) + key_steps().take(0));
    while i < codes.len()
        invariant
            i <= codes@.len(),
            codes@ == keys(),
            steps_of(out@) == steps_of(old(out)@) + key_steps().take(i as int),
        decreases codes@.len() - i,
    {
        let ghost before = steps_of(out@);
        out.push(SetupStep::Key(codes[i]));
        i += 1;
        assert(steps_of(out@) =~= before.push(key_steps()[i - 1]));
        assert(steps_of(out@) =~= steps_of(old(out)@) + key_steps().take(i as int));
    }
    assert(key_steps().take(i as int) =~= key_steps());
}

fn push_axes(out: &mut Vec<SetupStep>)
    ensures
        steps_of(final(out)@) == steps_of(old(out)@) + axis_steps(),
{
    let codes = axis_list();
    let mut i: usize = 0;
    assert(steps_of(out@) =~= steps_of(old(out)@) + axis_steps().take(0));
    while i < codes.len()
        invariant
            i <= codes@.len(),
            codes@ == axes(),
            steps_of(out@) == steps_of(old(out)@) + axis_steps().take(i as int),
        decreases codes@.len() - i,
    {
        let ghost before = steps_of(out@);
        out.push(SetupStep::Axis(codes[i]));
        i += 1;
        assert(steps_of(out@) =~= before.push(axis_steps()[i - 1]));
        assert(steps_of(out@) =~= steps_of(old(out)@) + axis_steps().take(i as int));
    }
    assert(axis_steps().take(i as int) =~= axis_steps());
}

fn push_ranges(out: &mut Vec<SetupStep>)
    ensures
        steps_of(final(out)@) == steps_of(old(out)@) + range_steps(),
{
    let codes = axis_list();
    let mut i: usize = 0;
    assert(steps_of(out@) =~= steps_of(old(out)@) + range_steps().take(0));
    while i < codes.len()
        invariant
            i <= codes@.len(),
            codes@ == axes(),
            steps_of(out@) == steps_of(old(out)@) + range_steps().take(i as int),
        decreases codes@.len() - i,
    {
        let ghost before = steps_of(out@);
        out.push(SetupStep::Range(axis_range(codes[i])));
        i += 1;
        assert(steps_of(out@) =~= before.push(range_steps()[i - 1]));
        assert(steps_of(out@) =~= steps_of(old(out)@) + range_steps().take(i as int));
    }
    assert(range_steps().take(i as int) =~= range_steps());
}

/// Declares the controller in a slot, step by step.
pub fn declare(slot: u8) -> (r: Vec<SetupStep>)
    ensures
        steps_of(r@) == declaration(slot),
{
    let mut out: Vec<SetupStep> = Vec::new();
    out.push(SetupStep::EventType(EV_KEY));
    out.push(SetupStep::EventType(EV_ABS));
    out.push(SetupStep::EventType(EV_FF));
    assert(steps_of(out@) =~= type_steps());
    push_keys(&mut out);
    push_axes(&mut out);
    let ghost before = steps_of(out@);
    out.push(SetupStep::ForceFeedback(FF_RUMBLE));
    assert(steps_of(out@) =~= before + feedback_steps());
    push_ranges(&mut out);
    let ghost before = steps_of(out@);
    out.push(
        SetupStep::Identity(
            DeviceIdentity {
                bustype: BUS_USB,
                vendor: XBOX_VENDOR,
                product: XBOX_PRODUCT,
                version: XBOX_VERSION,
                name: device_name(slot),
                ff_effects_max: 1,
            },
        ),
    );
    out.push(SetupStep::Create);
    assert(steps_of(out@) =~= before + last_steps(slot));
    out
}

impl SetupStep {
    /// Whether there is no device if the step fails.
    pub fn is_required(&self) -> (r: bool)
        ensures
            r == (self is Identity || self is Create),
    {
        match self {
            SetupStep::Identity(_) | SetupStep::Create => true,
            _ => false,
        }
    }
}

/// The name of a controller, given its decoded bytes, if they could be decoded: bytes that are not
/// UTF-8, or none, give a name by the slot.
pub open spec fn controller_name(slot: u8, decoded: Option<Seq<u8>>) -> Seq<char> {
    match decoded {
        Some(bytes) => if vstd::utf8::valid_utf8(bytes) {
            vstd::utf8::decode_utf8(bytes)
        } else {
            "Controller "@ + number::decimal(slot as nat)
        },
        None => "Controller "@ + number::decimal(slot as nat),
    }
}

/// Names a controller, given its decoded bytes, if they could be decoded.
pub fn name_controller(slot: u8, decoded: Option<Vec<u8>>) -> (r: String)
    ensures
        r@ == controller_name(slot, codec::bytes_of(decoded)),
{
    match decoded {
        Some(bytes) => match codec::from_utf8(bytes) {
            Some(name) => {
                return name;
            },
            None => {},
        },
        None => {},
    }
    let mut out = text::to_chars("Controller ");
    number::push_decimal(&mut out, slot as u64);
    text::to_text(out.as_slice())
}

/// The slots after a device was put into one: a device that could not be created leaves it as it
/// is, and so does a slot that there is not.
pub open spec fn connected<D>(slots: Seq<Option<D>>, slot: u8, created: Option<D>) -> Seq<
    Option<D>,
> {
    if slot < MAX_SLOTS && created is Some {
        slots.update(slot as int, created)
    } else {
        slots
    }
}

/// The slots after one was emptied.
pub open spec fn disconnected<D>(slots: Seq<Option<D>>, slot: u8) -> Seq<Option<D>> {
    if slot < MAX_SLOTS {
        slots.update(slot as int, None)
    } else {
        slots
    }
}

/// Emptying a slot undoes putting a device into it, where it was empty; and neither touches
/// another slot.
pub proof fn law_disconnect_undoes_connect<D>(
    slots: Seq<Option<D>>,
    slot: u8,
    created: Option<D>,
    other: u8,
)
    requires
        slots.len() == MAX_SLOTS,
        slot < MAX_SLOTS ==> slots[slot as int] is None,
        other < MAX_SLOTS,
        other != slot,
    ensures
        disconnected(connected(slots, slot, created), slot) == slots,
        connected(slots, slot, created)[other as int] == slots[other as int],
        disconnected(slots, slot)[other as int] == slots[other as int],
{
    assert(disconnected(connected(slots, slot, created), slot) =~= slots);
}

/// The controllers in their slots. `D` is what the callers hold of a device.
pub struct GamepadManager<D> {
    slots: Vec<Option<D>>,
}

impl<D> GamepadManager<D> {
    /// What each slot holds.
    pub closed spec fn slots(&self) -> Seq<Option<D>> {
        self.slots@
    }

    #[verifier::type_invariant]
    spec fn well_formed(self) -> bool {
        self.slots@.len() == MAX_SLOTS
    }

    /// All slots are empty.
    pub fn new() -> (r: Self)
        ensures
            r.slots() == seq![None::<D>, None::<D>, None::<D>, None::<D>],
    {
        let mut slots: Vec<Option<D>> = Vec::new();
        slots.push(None);
        slots.push(None);
        slots.push(None);
        slots.push(None);
        assert(slots@ =~= seq![None::<D>, None::<D>, None::<D>, None::<D>]);
        GamepadManager { slots }
    }

    /// The name for a device in a slot, from the base64 text that a browser sends; none if there is
    /// no such slot.
    pub fn device_name(slot: u8, name_b64: &str) -> (r: Option<String>)
        ensures
            text::text_of(r) == (if slot < MAX_SLOTS {
                Some(controller_name(slot, codec::base64_decoded(name_b64@)))
            } else {
                None
            }),
    {
        if slot as usize >= MAX_SLOTS {
            return None;
        }
        Some(name_controller(slot, codec::base64_decode(name_b64)))
    }

    /// Puts a device into a slot. A device that could not be created leaves the slot as it is, and
    /// so does a slot that there is not.
    pub fn connect(&mut self, slot: u8, created: Option<D>)
        ensures
            old(self).slots().len() == MAX_SLOTS,
            final(self).slots() == connected(old(self).slots(), slot, created),
            final(self).slots().len() == MAX_SLOTS,
    {
        proof {
            use_type_invariant(&*self);
        }
        let slot: usize = slot as usize;
        if slot < MAX_SLOTS && created.is_some() {
            self.slots[slot] = created;
        }
    }

    /// Empties a slot, if there is such a slot.
    pub fn disconnect(&mut self, slot: u8)
        ensures
            old(self).slots().len() == MAX_SLOTS,
            final(self).slots() == disconnected(old(self).slots(), slot),
            final(self).slots().len() == MAX_SLOTS,
    {
        proof {
            use_type_invariant(&*self);
        }
        let slot: usize = slot as usize;
        if slot < MAX_SLOTS {
            self.slots[slot] = None;
        }
    }

    /// The device in a slot, if there is one.
    pub fn device(&self, slot: u8) -> (r: Option<&D>)
        ensures
            self.slots().len() == MAX_SLOTS,
            match r {
                Some(d) => slot < MAX_SLOTS && self.slots()[slot as int] == Some(*d),
                None => slot >= MAX_SLOTS || self.slots()[slot as int] is None,
            },
    {
        proof {
            use_type_invariant(self);
        }
        if slot as usize >= MAX_SLOTS {
            return None;
        }
        match &self.slots[slot as usize] {
            Some(d) => Some(d),
            None => None,
        }
    }

    /// The events of a button, and the device that they go to, if there is one in the slot.
    pub fn button(&self, js_num: u8, btn_num: u8, btn_val: i16) -> (r: Option<
        (&D, Vec<DeviceEvent>),
    >)
        ensures
            self.slots().len() == MAX_SLOTS,
            match r {
                Some((d, events)) => js_num < MAX_SLOTS && self.slots()[js_num as int] == Some(*d)
                    && events@ == reported(button_event(btn_num, btn_val)),
                None => js_num >= MAX_SLOTS || self.slots()[js_num as int] is None,
            },
    {
        match self.device(js_num) {
            Some(d) => Some((d, button_events(btn_num, btn_val))),
            None => None,
        }
    }

    /// The events of an axis, and the device that they go to, if there is one in the slot.
    pub fn axis(&self, js_num: u8, axis_num: u8, axis_val: i16) -> (r: Option<
        (&D, Vec<DeviceEvent>),
    >)
        ensures
            self.slots().len() == MAX_SLOTS,
            match r {
                Some((d, events)) => js_num < MAX_SLOTS && self.slots()[js_num as int] == Some(*d)
                    && events@ == reported(axis_event(axis_num, axis_val)),
                None => js_num >= MAX_SLOTS || self.slots()[js_num as int] is None,
            },
    {
        match self.device(js_num) {
            Some(d) => Some((d, axis_events(axis_num, axis_val))),
            None => None,
        }
    }
}

/// What each button does: the face buttons, the shoulders, the middle buttons and the sticks are
/// keys, pressed or released; the triggers and the directional pad are axes; there is no other
/// button.
pub proof fn law_buttons(value: i16)
    ensures
        button_event(0, value) == Some(key_event(0x130, value)),
        button_event(1, value) == Some(key_event(0x131, value)),
        button_event(2, value) == Some(key_event(0x133, value)),
        button_event(3, value) == Some(key_event(0x134, value)),
        button_event(4, value) == Some(key_event(0x136, value)),
        button_event(5, value) == Some(key_event(0x137, value)),
        button_event(8, value) == Some(key_event(0x13a, value)),
        button_event(9, value) == Some(key_event(0x13b, value)),
        button_event(10, value) == Some(key_event(0x13d, value)),
        button_event(11, value) == Some(key_event(0x13e, value)),
        button_event(16, value) == Some(key_event(0x13c, value)),
        button_event(6, value) == Some(
            DeviceEvent { ev_type: 3, code: 2, value: trigger_travel(value) as i32 },
        ),
        button_event(7, value) == Some(
            DeviceEvent { ev_type: 3, code: 5, value: trigger_travel(value) as i32 },
        ),
        button_event(12, value) == Some(hat_event(0x11, true, value)),
        button_event(13, value) == Some(hat_event(0x11, false, value)),
        button_event(14, value) == Some(hat_event(0x10, true, value)),
        button_event(15, value) == Some(hat_event(0x10, false, value)),
        forall|b: u8| b > 16 ==> #[trigger] button_event(b, value) is None,
{
}

/// A key is pressed, or released if the value is 0.
pub open spec fn key_event(code: u16, value: i16) -> DeviceEvent {
    DeviceEvent {
        ev_type: 1,
        code,
        value: if value == 0 {
            0
        } else {
            1
        },
    }
}

/// A hat is pushed to its lower or its upper side, or back to the middle if the value is 0.
pub open spec fn hat_event(code: u16, lower: bool, value: i16) -> DeviceEvent {
    DeviceEvent {
        ev_type: 3,
        code,
        value: if value == 0 {
            0
        } else if lower {
            -1i32
        } else {
            1
        },
    }
}

/// Different buttons do different things: two that move the same part are the two sides of a hat,
/// and move it to opposite sides.
pub proof fn law_buttons_differ(a: u8, b: u8, value: i16)
    requires
        a != b,
        value != 0,
    ensures
        button_event(a, value) matches Some(x) ==> (button_event(b, value) matches Some(y) ==> (
        x.ev_type == y.ev_type && x.code == y.code ==> x.value == -y.value && (x.code == 0x10
            || x.code == 0x11))),
{
}

/// What each axis does: the first two are the left stick, the next two the right one, each with
/// the value as it is; there is no other axis.
pub proof fn law_axes(axis: u8, value: i16)
    ensures
        axis_event(0, value) == Some(DeviceEvent { ev_type: 3, code: 0, value: value as i32 }),
        axis_event(1, value) == Some(DeviceEvent { ev_type: 3, code: 1, value: value as i32 }),
        axis_event(2, value) == Some(DeviceEvent { ev_type: 3, code: 3, value: value as i32 }),
        axis_event(3, value) == Some(DeviceEvent { ev_type: 3, code: 4, value: value as i32 }),
        axis > 3 ==> axis_event(axis, value) is None,
{
}

/// Each event is followed by the report that closes it, and nothing is sent where there is none.
pub proof fn law_reports(event: Option<DeviceEvent>)
    ensures
        event matches Some(e) ==> reported(event).len() == 2 && reported(event)[0] == e
            && reported(event)[1] == (DeviceEvent { ev_type: 0, code: 0, value: 0 }),
        event is None ==> reported(event).len() == 0,
{
}

/// The ranges of the axes: 0 to 255 for the triggers, -1 to 1 for the hats, and the whole of 16
/// bits for the sticks, which alone are smoothed.
pub proof fn law_ranges(code: u16)
    ensures
        range_of(code).code == code,
        code == 2 || code == 5 ==> range_of(code).minimum == 0 && range_of(code).maximum == 255,
        code == 0x10 || code == 0x11 ==> range_of(code).minimum == -1 && range_of(code).maximum == 1,
        code == 0 || code == 1 || code == 3 || code == 4 ==> range_of(code).minimum == -32768
            && range_of(code).maximum == 32767 && range_of(code).fuzz == 16 && range_of(code).flat
            == 128,
        code == 2 || code == 5 || code == 0x10 || code == 0x11 ==> range_of(code).fuzz == 0
            && range_of(code).flat == 0,
{
}

/// A controller is declared with what it sends: every key and every axis of an event is declared
/// before the controller is created, the axes with their ranges; and so are the types of these
/// events and the rumble.
pub proof fn law_declared(slot: u8, number: u8, value: i16)
    ensures
        declares(slot, SetupView::EventType(1)),
        declares(slot, SetupView::EventType(3)),
        declares(slot, SetupView::EventType(0x15)),
        declares(slot, SetupView::ForceFeedback(0x50)),
        button_event(number, value) matches Some(e) ==> {
            &&& e.ev_type == 1 ==> declares(slot, SetupView::Key(e.code))
            &&& e.ev_type == 3 ==> declares(slot, SetupView::Axis(e.code)) && declares(
                slot,
                SetupView::Range(range_of(e.code)),
            )
        },
        axis_event(number, value) matches Some(e) ==> declares(slot, SetupView::Axis(e.code))
            && declares(slot, SetupView::Range(range_of(e.code))),
{
    let all = declaration(slot);
    assert forall|i: int| 0 <= i < 11 implies all[3 + i] == SetupView::Key(#[trigger] keys()[i]) by {}
    assert forall|i: int| 0 <= i < 8 implies all[14 + i] == SetupView::Axis(#[trigger] axes()[i])
        && all[23 + i] == SetupView::Range(range_of(axes()[i])) by {}
    assert(all[0] == SetupView::EventType(1));
    assert(all[1] == SetupView::EventType(3));
    assert(all[2] == SetupView::EventType(0x15));
    assert(all[22] == SetupView::ForceFeedback(0x50));
    assert(keys()[0] == BTN_A && keys()[1] == BTN_B && keys()[2] == BTN_X && keys()[3] == BTN_Y
        && keys()[4] == BTN_TL && keys()[5] == BTN_TR && keys()[6] == BTN_SELECT && keys()[7]
        == BTN_START && keys()[8] == BTN_MODE && keys()[9] == BTN_THUMBL && keys()[10]
        == BTN_THUMBR);
    assert(axes()[0] == ABS_X && axes()[1] == ABS_Y && axes()[2] == ABS_Z && axes()[3] == ABS_RX
        && axes()[4] == ABS_RY && axes()[5] == ABS_RZ && axes()[6] == ABS_HAT0X && axes()[7]
        == ABS_HAT0Y);
}

/// The declaration of the controller in a slot holds a step, before its last one.
pub open spec fn declares(slot: u8, step: SetupView) -> bool {
    exists|i: int|
        0 <= i < declaration(slot).len() - 1 && #[trigger] declaration(slot)[i] == step
}

/// Every controller is declared as an Xbox 360 controller on USB, under a name with its slot, and
/// is created in the last step, right behind its identity and only there.
pub proof fn law_identity(slot: u8, i: int)
    requires
        0 <= i < declaration(slot).len(),
    ensures
        declaration(slot)[i] is Create <==> i == declaration(slot).len() - 1,
        declaration(slot)[i] is Identity <==> i == declaration(slot).len() - 2,
        declaration(slot)[i] matches SetupView::Identity {
            bustype,
            vendor,
            product,
            version,
            name,
            effects,
        } ==> bustype == 3 && vendor == 0x45e && product == 0x28e && version == 0x110 && effects
            == 1 && name.len() == 80 && name[79] == 0,
        declaration(slot)[i] matches SetupView::Identity {
            bustype,
            vendor,
            product,
            version,
            name,
            effects,
        } ==> ({
            let label = vstd::utf8::encode_utf8(
                "Xbox 360 Controller (slot "@ + number::decimal(slot as nat) + ")"@,
            );
            label.len() < 80 ==> name.take(label.len() as int) == label && (forall|k: int|
                label.len() <= k < 80 ==> #[trigger] name[k] == 0)
        }),
{
    let all = declaration(slot);
    assert(all.len() == 33);
    assert(all[31] == last_steps(slot)[0]);
    assert(all[32] == last_steps(slot)[1]);
    if i < 3 {
        assert(all[i] == type_steps()[i]);
    } else if i < 14 {
        assert(all[i] == key_steps()[i - 3]);
    } else if i < 22 {
        assert(all[i] == axis_steps()[i - 14]);
    } else if i < 23 {
        assert(all[i] == feedback_steps()[i - 22]);
    } else if i < 31 {
        assert(all[i] == range_steps()[i - 23]);
    } else if i == 31 {
        let label = vstd::utf8::encode_utf8(
            "Xbox 360 Controller (slot "@ + number::decimal(slot as nat) + ")"@,
        );
        if label.len() < 80 {
            assert(padded(label).take(label.len() as int) =~= label);
        }
    }
}

/// A controller has the name that was sent for it, if that is text; otherwise it is named by its
/// slot.
pub proof fn law_controller_names(slot: u8, bytes: Seq<u8>)
    ensures
        vstd::utf8::valid_utf8(bytes) ==> controller_name(slot, Some(bytes))
            == vstd::utf8::decode_utf8(bytes),
        !vstd::utf8::valid_utf8(bytes) ==> controller_name(slot, Some(bytes)) == "Controller "@
            + number::decimal(slot as nat),
        controller_name(slot, None) == "Controller "@ + number::decimal(slot as nat),
{
}

/// A device that was created stands in its slot until the slot is emptied; without one, and in a
/// slot that there is not, nothing changes.
pub proof fn law_slots<D>(slots: Seq<Option<D>>, slot: u8, d: D)
    requires
        slots.len() == 4,
    ensures
        slot < 4 ==> connected(slots, slot, Some(d))[slot as int] == Some(d),
        slot < 4 ==> disconnected(slots, slot)[slot as int] is None,
        slot >= 4 ==> connected(slots, slot, Some(d)) == slots && disconnected(slots, slot) == slots,
        connected(slots, slot, None) == slots,
        connected(slots, slot, Some(d)).len() == 4,
        disconnected(slots, slot).len() == 4,
{
}

} // verus!
