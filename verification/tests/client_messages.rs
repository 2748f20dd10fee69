use selkies::messages::ClientMessage;

fn float(text: &str) -> f64 {
    text.parse::<f64>().unwrap()
}

#[test]
fn test_parse_key_down() {
    let msg = ClientMessage::parse("kd,65507").unwrap();
    match msg {
        ClientMessage::KeyDown { keysym } => assert_eq!(keysym, 65507),
        _ => panic!("Expected KeyDown, got {:?}", msg),
    }
}

#[test]
fn test_parse_key_up() {
    let msg = ClientMessage::parse("ku,65507").unwrap();
    match msg {
        ClientMessage::KeyUp { keysym } => assert_eq!(keysym, 65507),
        _ => panic!("Expected KeyUp"),
    }
}

#[test]
fn test_parse_mouse_absolute() {
    let msg = ClientMessage::parse("m,500,300,1,0").unwrap();
    match msg {
        ClientMessage::MouseAbsolute { x, y, button_mask, scroll_mag } => {
            assert_eq!(x, 500);
            assert_eq!(y, 300);
            assert_eq!(button_mask, 1);
            assert_eq!(scroll_mag, 0);
        }
        _ => panic!("Expected MouseAbsolute"),
    }
}

#[test]
fn test_parse_mouse_relative() {
    let msg = ClientMessage::parse("m2,-5,10,0,0").unwrap();
    match msg {
        ClientMessage::MouseRelative { dx, dy, button_mask, scroll_mag } => {
            assert_eq!(dx, -5);
            assert_eq!(dy, 10);
            assert_eq!(button_mask, 0);
            assert_eq!(scroll_mag, 0);
        }
        _ => panic!("Expected MouseRelative"),
    }
}

#[test]
fn test_parse_joystick_button() {
    let msg = ClientMessage::parse("js,b,0,3,1").unwrap();
    match msg {
        ClientMessage::JoystickButton { js_num, btn_num, btn_val } => {
            assert_eq!(js_num, 0);
            assert_eq!(btn_num, 3);
            assert_eq!(float(btn_val.as_str()) as i16, 1);
        }
        _ => panic!("Expected JoystickButton"),
    }
}

#[test]
fn test_parse_joystick_axis() {
    let msg = ClientMessage::parse("js,a,0,2,0.75").unwrap();
    match msg {
        ClientMessage::JoystickAxis { js_num, axis_num, axis_val } => {
            assert_eq!(js_num, 0);
            assert_eq!(axis_num, 2);
            assert!((float(axis_val.as_str()) - 0.75).abs() < f64::EPSILON);
        }
        _ => panic!("Expected JoystickAxis"),
    }
}

#[test]
fn test_parse_joystick_connect() {
    let msg = ClientMessage::parse("js,c,0,WGJveCBDb250cm9sbGVy,4,11").unwrap();
    match msg {
        ClientMessage::JoystickConnect { num, name_b64, num_axes, num_btns } => {
            assert_eq!(num, 0);
            assert_eq!(name_b64, "WGJveCBDb250cm9sbGVy");
            assert_eq!(num_axes, 4);
            assert_eq!(num_btns, 11);
        }
        _ => panic!("Expected JoystickConnect"),
    }
}

#[test]
fn test_parse_pong() {
    let msg = ClientMessage::parse("pong").unwrap();
    assert!(matches!(msg, ClientMessage::Pong));
}

#[test]
fn test_parse_set_bitrate() {
    let msg = ClientMessage::parse("vb,25000").unwrap();
    match msg {
        ClientMessage::SetVideoBitrate { bitrate_kbps } => assert_eq!(bitrate_kbps, 25000),
        _ => panic!("Expected SetVideoBitrate"),
    }
}

#[test]
fn test_parse_clipboard_write() {
    let msg = ClientMessage::parse("cw,SGVsbG8gV29ybGQ=").unwrap();
    match msg {
        ClientMessage::ClipboardWrite { data_b64 } => assert_eq!(data_b64, "SGVsbG8gV29ybGQ="),
        _ => panic!("Expected ClipboardWrite"),
    }
}

#[test]
fn test_parse_unknown_command() {
    let result = ClientMessage::parse("xyz,123");
    assert!(result.is_err());
}

#[test]
fn test_parse_empty_message() {
    let result = ClientMessage::parse("");
    assert!(result.is_err());
}

#[test]
fn commands_without_fields() {
    assert!(matches!(ClientMessage::parse("kr").unwrap(), ClientMessage::KeyReset));
    assert!(matches!(ClientMessage::parse("cr").unwrap(), ClientMessage::ClipboardRead));
}

#[test]
fn commands_with_one_field() {
    assert!(matches!(
        ClientMessage::parse("p,1").unwrap(),
        ClientMessage::PointerVisibility { visible: true }
    ));
    assert!(matches!(
        ClientMessage::parse("p,true").unwrap(),
        ClientMessage::PointerVisibility { visible: false }
    ));
    assert!(matches!(
        ClientMessage::parse("ab,96000").unwrap(),
        ClientMessage::SetAudioBitrate { bitrate_bps: 96000 }
    ));
    assert!(matches!(
        ClientMessage::parse("_arg_fps,144").unwrap(),
        ClientMessage::SetFramerate { fps: 144 }
    ));
    assert!(matches!(
        ClientMessage::parse("js,d,2").unwrap(),
        ClientMessage::JoystickDisconnect { num: 2 }
    ));
    match ClientMessage::parse("r,1920x1080").unwrap() {
        ClientMessage::Resize { resolution } => assert_eq!(resolution, "1920x1080"),
        _ => panic!("Expected Resize"),
    }
    match ClientMessage::parse("s,1.5").unwrap() {
        ClientMessage::DpiScale { scale } => assert_eq!(float(scale.as_str()), 1.5),
        _ => panic!("Expected DpiScale"),
    }
    match ClientMessage::parse("_f,59.9").unwrap() {
        ClientMessage::ClientFps { fps } => assert_eq!(fps.as_str(), "59.9"),
        _ => panic!("Expected ClientFps"),
    }
    match ClientMessage::parse("_l,12").unwrap() {
        ClientMessage::ClientLatency { latency_ms } => assert_eq!(latency_ms.as_str(), "12"),
        _ => panic!("Expected ClientLatency"),
    }
}

#[test]
fn a_field_ends_at_its_comma() {
    match ClientMessage::parse("_stats_video,{\"a\":1,\"b\":2}").unwrap() {
        ClientMessage::StatsVideo { json } => assert_eq!(json, "{\"a\":1"),
        _ => panic!("Expected StatsVideo"),
    }
    match ClientMessage::parse("_stats_audio,[]").unwrap() {
        ClientMessage::StatsAudio { json } => assert_eq!(json, "[]"),
        _ => panic!("Expected StatsAudio"),
    }
}

#[test]
fn resizing_with_and_without_a_resolution() {
    match ClientMessage::parse("_arg_resize,true,800x600").unwrap() {
        ClientMessage::SetResize { enabled, resolution } => {
            assert!(enabled);
            assert_eq!(resolution, "800x600");
        }
        _ => panic!("Expected SetResize"),
    }
    match ClientMessage::parse("_arg_resize,yes").unwrap() {
        ClientMessage::SetResize { enabled, resolution } => {
            assert!(!enabled);
            assert_eq!(resolution, "");
        }
        _ => panic!("Expected SetResize"),
    }
}

#[test]
fn an_unreadable_scroll_counts_as_none() {
    match ClientMessage::parse("m,1,2,3,x").unwrap() {
        ClientMessage::MouseAbsolute { scroll_mag, .. } => assert_eq!(scroll_mag, 0),
        _ => panic!("Expected MouseAbsolute"),
    }
    match ClientMessage::parse("m,1,2,3").unwrap() {
        ClientMessage::MouseAbsolute { scroll_mag, .. } => assert_eq!(scroll_mag, 0),
        _ => panic!("Expected MouseAbsolute"),
    }
    match ClientMessage::parse("m2,1,2,3,-4").unwrap() {
        ClientMessage::MouseRelative { scroll_mag, .. } => assert_eq!(scroll_mag, -4),
        _ => panic!("Expected MouseRelative"),
    }
}

#[test]
fn complaints_name_the_command_and_the_reason() {
    let complaint = |msg: &str| ClientMessage::parse(msg).unwrap_err();
    assert_eq!(complaint(""), "Unknown command: ");
    assert_eq!(complaint("xyz,123"), "Unknown command: xyz");
    assert_eq!(complaint("kd"), "kd: missing keysym");
    assert_eq!(complaint("kd,"), "kd: invalid keysym: cannot parse integer from empty string");
    assert_eq!(complaint("kd,x"), "kd: invalid keysym: invalid digit found in string");
    assert_eq!(
        complaint("ku,4294967296"),
        "ku: invalid keysym: number too large to fit in target type"
    );
    assert_eq!(complaint("m,1,-2147483649,0"), "m: number too small to fit in target type");
    assert_eq!(complaint("m,1,2"), "m: missing button_mask");
    assert_eq!(complaint("m2,1"), "m2: missing dy");
    assert_eq!(complaint("m,1,2,256"), "m: number too large to fit in target type");
    assert_eq!(complaint("s,"), "s: cannot parse float from empty string");
    assert_eq!(complaint("s,one"), "s: invalid float literal");
    assert_eq!(complaint("js"), "js: missing subcommand");
    assert_eq!(complaint("js,z"), "js: unknown subcommand: z");
    assert_eq!(complaint("js,c,0,x,4"), "js,c: missing btns");
    assert_eq!(complaint("js,a,0,1"), "js,a: missing axis_val");
    assert_eq!(complaint("js,b,0,1,y"), "js,b: invalid float literal");
}

#[test]
fn a_key_that_was_written_is_read() {
    for n in [0u32, 7, 65507, u32::MAX] {
        match ClientMessage::parse(&format!("kd,{n}")).unwrap() {
            ClientMessage::KeyDown { keysym } => assert_eq!(keysym, n),
            _ => panic!("Expected KeyDown"),
        }
    }
}
