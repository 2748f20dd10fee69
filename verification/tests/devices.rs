use selkies::gamepad::{
    axis_events, axis_map, axis_range, btn_map, button_events, declare, name_controller,
    scale_trigger, AxisRange, DeviceEvent, GamepadManager, SetupStep, ABS_HAT0X, ABS_HAT0Y, ABS_RX,
    ABS_RY, ABS_X, ABS_Y, ABS_Z, BTN_A, BTN_B, BTN_MODE, BTN_X, BTN_Y, EV_ABS, EV_KEY, EV_SYN,
};
use selkies::input::{
    format_resolution, pack_gamepad_axis, pack_gamepad_button, remap_gamepad_axis,
    validate_resolution, InputInjector,
};
use selkies::{mouse, uinput};

#[test]
fn test_scale_trigger_endpoints() {
    assert_eq!(scale_trigger(0), 0);
    assert_eq!(scale_trigger(32767), 255);
    assert_eq!(scale_trigger(-1), 0);
}

#[test]
fn test_scale_trigger_midpoint() {
    let mid = scale_trigger(16383);
    assert!(mid >= 127 && mid <= 128, "mid={mid}");
}

#[test]
fn test_btn_map_triggers_are_none() {
    assert!(btn_map(6).is_none(), "LT should map to ABS_Z, not a button");
    assert!(btn_map(7).is_none(), "RT should map to ABS_RZ, not a button");
}

#[test]
fn test_btn_map_dpad_are_none() {
    for i in 12..=15 {
        assert!(btn_map(i).is_none(), "D-pad {i} should map to HAT axis, not a button");
    }
}

#[test]
fn test_btn_map_face_buttons() {
    assert_eq!(btn_map(0), Some(BTN_A));
    assert_eq!(btn_map(1), Some(BTN_B));
    assert_eq!(btn_map(2), Some(BTN_X));
    assert_eq!(btn_map(3), Some(BTN_Y));
}

#[test]
fn test_axis_map() {
    assert_eq!(axis_map(0), Some(ABS_X));
    assert_eq!(axis_map(1), Some(ABS_Y));
    assert_eq!(axis_map(2), Some(ABS_RX));
    assert_eq!(axis_map(3), Some(ABS_RY));
    assert_eq!(axis_map(4), None);
}

#[test]
fn test_remap_gamepad_axis() {
    assert_eq!(remap_gamepad_axis(0), 0);
    assert_eq!(remap_gamepad_axis(1), 1);
    assert_eq!(remap_gamepad_axis(2), 3);
    assert_eq!(remap_gamepad_axis(3), 4);
    assert_eq!(remap_gamepad_axis(5), 5);
}

#[test]
fn test_pack_gamepad_button() {
    let pkt = pack_gamepad_button(3, 1);
    assert_eq!(pkt[0], 1);
    assert_eq!(pkt[1], 3);
    assert_eq!(i16::from_le_bytes([pkt[2], pkt[3]]), 1);
}

#[test]
fn test_pack_gamepad_axis() {
    let pkt = pack_gamepad_axis(2, -16384);
    assert_eq!(pkt[0], 2);
    assert_eq!(pkt[1], 2);
    assert_eq!(i16::from_le_bytes([pkt[2], pkt[3]]), -16384);
}

#[test]
fn test_validate_resolution() {
    assert_eq!(validate_resolution("1920x1080"), Some((1920, 1080)));
    assert_eq!(validate_resolution("1921x1081"), Some((1922, 1082)));
    assert_eq!(validate_resolution("invalid"), None);
    assert_eq!(validate_resolution("1920"), None);
    assert_eq!(validate_resolution("axb"), None);
}

#[test]
fn test_format_resolution() {
    assert_eq!(format_resolution(1920, 1080), "1920x1080");
}

#[test]
fn every_value_is_packed() {
    for v in i16::MIN..=i16::MAX {
        let [low, high] = v.to_le_bytes();
        assert_eq!(pack_gamepad_axis(9, v), [2, 9, low, high]);
        assert_eq!(pack_gamepad_button(8, v), [1, 8, low, high]);
    }
}

#[test]
fn triggers_travel_in_order() {
    let mut last = 0;
    for v in 0..=i16::MAX {
        let travel = scale_trigger(v);
        assert!(travel >= last && travel <= 255);
        assert!((travel * 32767 - v as i32 * 255).abs() <= 16383);
        last = travel;
    }
    assert_eq!(scale_trigger(i16::MIN), 0);
}

#[test]
fn resolutions_are_read_back() {
    for (w, h) in [(0, 0), (2, 4), (1920, 1080), (4294967294, 4294967294)] {
        assert_eq!(validate_resolution(&format_resolution(w, h)), Some((w, h)));
    }
    assert_eq!(validate_resolution("1x2x3"), None);
    assert_eq!(validate_resolution("x"), None);
    assert_eq!(validate_resolution("-2x2"), None);
    assert_eq!(validate_resolution("+3x5"), Some((4, 6)));
    assert_eq!(validate_resolution("4294967296x2"), None);
}

fn reported(ev_type: u16, code: u16, value: i32) -> Vec<DeviceEvent> {
    vec![
        DeviceEvent { ev_type, code, value },
        DeviceEvent { ev_type: EV_SYN, code: 0, value: 0 },
    ]
}

#[test]
fn events_of_buttons() {
    assert_eq!(button_events(0, 1), reported(EV_KEY, BTN_A, 1));
    assert_eq!(button_events(0, 0), reported(EV_KEY, BTN_A, 0));
    assert_eq!(button_events(16, -5), reported(EV_KEY, BTN_MODE, 1));
    assert_eq!(button_events(6, 32767), reported(EV_ABS, ABS_Z, 255));
    assert_eq!(button_events(7, 0), reported(EV_ABS, 5, 0));
    assert_eq!(button_events(12, 1), reported(EV_ABS, ABS_HAT0Y, -1));
    assert_eq!(button_events(13, 1), reported(EV_ABS, ABS_HAT0Y, 1));
    assert_eq!(button_events(14, 1), reported(EV_ABS, ABS_HAT0X, -1));
    assert_eq!(button_events(15, 0), reported(EV_ABS, ABS_HAT0X, 0));
    assert_eq!(button_events(17, 1), vec![]);
}

#[test]
fn events_of_axes() {
    assert_eq!(axis_events(3, -32768), reported(EV_ABS, ABS_RY, -32768));
    assert_eq!(axis_events(4, 1), vec![]);
}

#[test]
fn ranges_of_axes() {
    assert_eq!(
        axis_range(ABS_Z),
        AxisRange { code: ABS_Z, minimum: 0, maximum: 255, fuzz: 0, flat: 0 }
    );
    assert_eq!(
        axis_range(ABS_HAT0X),
        AxisRange { code: ABS_HAT0X, minimum: -1, maximum: 1, fuzz: 0, flat: 0 }
    );
    assert_eq!(
        axis_range(ABS_RX),
        AxisRange { code: ABS_RX, minimum: -32768, maximum: 32767, fuzz: 16, flat: 128 }
    );
}

#[test]
fn the_declaration_of_a_device() {
    let steps = declare(2);
    assert_eq!(steps.len(), 3 + 11 + 8 + 1 + 8 + 2);
    assert!(matches!(steps[0], SetupStep::EventType(1)));
    assert!(matches!(steps[3], SetupStep::Key(0x130)));
    assert!(matches!(steps[14], SetupStep::Axis(0)));
    assert!(matches!(steps[22], SetupStep::ForceFeedback(0x50)));
    assert!(matches!(steps[25], SetupStep::Range(AxisRange { code: 2, maximum: 255, .. })));
    match &steps[31] {
        SetupStep::Identity(i) => {
            assert_eq!((i.bustype, i.vendor, i.product, i.version), (3, 0x45e, 0x28e, 0x110));
            assert_eq!(i.ff_effects_max, 1);
            let mut name = b"Xbox 360 Controller (slot 2)".to_vec();
            name.resize(80, 0);
            assert_eq!(i.name, name);
        }
        _ => panic!("Expected the identity"),
    }
    assert!(matches!(steps[32], SetupStep::Create));
    let required: Vec<usize> =
        steps.iter().enumerate().filter(|(_, s)| s.is_required()).map(|(i, _)| i).collect();
    assert_eq!(required, vec![31, 32]);
}

#[test]
fn names_of_controllers() {
    let name = |slot: u8, b64: &str| GamepadManager::<u32>::device_name(slot, b64);
    assert_eq!(name(0, "WGJveCBDb250cm9sbGVy"), Some("Xbox Controller".to_string()));
    assert_eq!(name(3, "???"), Some("Controller 3".to_string()));
    assert_eq!(name(1, "/w=="), Some("Controller 1".to_string()));
    assert_eq!(name(4, "WGJveCBDb250cm9sbGVy"), None);
    assert_eq!(name_controller(2, None), "Controller 2");
    assert_eq!(name_controller(2, Some("ä".as_bytes().to_vec())), "ä");
}

#[test]
fn slots_hold_their_devices() {
    let mut manager: GamepadManager<&str> = GamepadManager::new();
    assert!(manager.device(0).is_none());
    manager.connect(1, Some("one"));
    manager.connect(3, Some("three"));
    manager.connect(4, Some("four"));
    manager.connect(1, None);
    assert_eq!(manager.device(1), Some(&"one"));
    assert_eq!(manager.device(3), Some(&"three"));
    assert!(manager.device(4).is_none());
    match manager.button(1, 0, 1) {
        Some((d, events)) => {
            assert_eq!(*d, "one");
            assert_eq!(events, reported(EV_KEY, BTN_A, 1));
        }
        None => panic!("no device"),
    }
    match manager.axis(3, 0, 5) {
        Some((d, events)) => {
            assert_eq!(*d, "three");
            assert_eq!(events, reported(EV_ABS, ABS_X, 5));
        }
        None => panic!("no device"),
    }
    assert!(manager.button(0, 0, 1).is_none());
    assert!(manager.axis(200, 0, 1).is_none());
    manager.disconnect(1);
    manager.disconnect(9);
    assert!(manager.device(1).is_none());
    assert_eq!(manager.device(3), Some(&"three"));
}

struct Silent;

impl InputInjector for Silent {
    fn send_keypress(&self, _keysym: u32, _down: bool) {}
    fn reset_keyboard(&self) {}
    fn send_mouse(&self, _x: i32, _y: i32, _button_mask: u32, _scroll: i32, _relative: bool) {}
}

#[test]
fn constants_and_injectors() {
    let injector: &dyn InputInjector = &Silent;
    injector.send_keypress(65507, true);
    injector.send_mouse(1, 2, 0, 0, false);
    injector.reset_keyboard();
    assert_eq!(
        [mouse::POSITION, mouse::MOVE, mouse::SCROLL_UP, mouse::SCROLL_DOWN, mouse::BUTTON_PRESS],
        [10, 11, 20, 21, 30]
    );
    assert_eq!(
        [
            mouse::BUTTON_RELEASE,
            mouse::BUTTON,
            mouse::BUTTON_LEFT,
            mouse::BUTTON_MIDDLE,
            mouse::BUTTON_RIGHT
        ],
        [31, 40, 41, 42, 43]
    );
    assert_eq!(uinput::BTN_LEFT, (1, 0x110));
    assert_eq!(uinput::BTN_MIDDLE, (1, 0x112));
    assert_eq!(uinput::BTN_RIGHT, (1, 0x111));
    assert_eq!((uinput::REL_X, uinput::REL_Y, uinput::REL_WHEEL), ((2, 0), (2, 1), (2, 8)));
}
