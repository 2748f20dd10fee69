use selkies::number::Double;
use selkies::oracle::band::{is_close, is_near, read_number};
use selkies::oracle::differ::{
    compare_bwe, compare_events, compare_ice_candidate, compare_messages, compare_sdp, compare_stats,
    diff, DiffReport, Divergence,
};
use selkies::oracle::recorder::{load_events, record_line, recorded_lines};
use selkies::oracle::{OracleEvent, OracleEventType};

fn at(ts: f64, event: OracleEventType) -> OracleEvent {
    OracleEvent { ts: Double { bits: ts.to_bits() }, event }
}

fn input(ts: f64, raw: &str) -> OracleEvent {
    at(ts, OracleEventType::Input { raw: raw.into() })
}

fn bwe(bitrate_bps: u64) -> OracleEvent {
    at(0.0, OracleEventType::BweUpdate { bitrate_bps })
}

fn stats(json: &str) -> OracleEvent {
    at(0.0, OracleEventType::Stats { json: json.into() })
}

fn reason(a: OracleEvent, b: OracleEvent) -> Option<String> {
    compare_events(&a, &b)
}

#[test]
fn test_identical_inputs() {
    let events = vec![input(0.0, "kd,65507"), input(0.1, "m,500,300,1,0")];

    let report = diff(&events, &events);
    assert!(report.is_clean());
    assert_eq!(report.matches, 2);
    assert_eq!(report.divergences.len(), 0);
}

#[test]
fn test_divergent_inputs() {
    let events_a = vec![input(0.0, "kd,65507")];
    let events_b = vec![input(0.0, "kd,65508")];

    let report = diff(&events_a, &events_b);
    assert!(!report.is_clean());
    assert_eq!(report.divergences.len(), 1);
    assert!(report.divergences[0].reason.contains("Input mismatch"));
}

#[test]
fn test_bwe_within_tolerance() {
    let events_a = vec![bwe(1000000)];
    let events_b = vec![bwe(1040000)];

    let report = diff(&events_a, &events_b);
    assert!(report.is_clean());
}

#[test]
fn test_bwe_outside_tolerance() {
    let events_a = vec![bwe(1000000)];
    let events_b = vec![bwe(1100000)];

    let report = diff(&events_a, &events_b);
    assert!(!report.is_clean());
}

#[test]
fn test_length_mismatch() {
    let events_a = vec![input(0.0, "kd,65507"), input(0.1, "ku,65507")];
    let events_b = vec![input(0.0, "kd,65507")];

    let report = diff(&events_a, &events_b);
    assert!(!report.is_clean());
    assert_eq!(report.divergences.len(), 1);
    assert!(report.divergences[0].reason.contains("not in B"));
}

#[test]
fn test_type_mismatch() {
    let events_a = vec![input(0.0, "kd,65507")];
    let events_b = vec![bwe(1000000)];

    let report = diff(&events_a, &events_b);
    assert!(!report.is_clean());
    assert!(report.divergences[0].reason.contains("type mismatch"));
}

#[test]
fn test_sdp_ignores_session_fields() {
    let sdp_a = "v=0\r\no=- 123 1 IN IP4 127.0.0.1\r\ns=-\r\nt=0 0\r\na=group:BUNDLE 0\r\nm=video 9 UDP/TLS/RTP/SAVPF 96\r\n";
    let sdp_b = "v=0\r\no=- 456 2 IN IP4 127.0.0.1\r\ns=-\r\nt=0 0\r\na=group:BUNDLE 0\r\nm=video 9 UDP/TLS/RTP/SAVPF 96\r\n";

    let result = compare_sdp(sdp_a, sdp_b);
    assert!(result.is_none(), "SDPs should match after filtering: {:?}", result);
}

#[test]
fn test_diff_report_summary() {
    let report = DiffReport {
        total_events_a: 10,
        total_events_b: 10,
        matches: 10,
        divergences: vec![],
    };
    assert!(report.summary().starts_with("PASS"));

    let report_fail = DiffReport {
        total_events_a: 10,
        total_events_b: 10,
        matches: 8,
        divergences: vec![
            Divergence { index: 0, event_a: None, event_b: None, reason: "test".into() },
            Divergence { index: 1, event_a: None, event_b: None, reason: "test2".into() },
        ],
    };
    assert!(report_fail.summary().starts_with("FAIL"));
}

#[test]
fn summaries_in_full() {
    let a = vec![input(0.0, "x"), input(0.1, "y")];
    let b = vec![input(0.0, "x"), input(0.1, "z"), input(0.2, "w")];
    assert_eq!(diff(&a, &a).summary(), "PASS: 2 events matched (A=2, B=2)");
    assert_eq!(diff(&a, &b).summary(), "FAIL: 2 divergences out of 3 events (A=2, B=3)");
}

#[test]
fn divergences_in_order() {
    let a = vec![input(0.0, "x"), input(0.1, "y")];
    let b = vec![input(0.0, "q"), input(0.1, "y"), input(0.2, "w")];
    let report = diff(&a, &b);
    assert_eq!(report.matches, 1);
    let at: Vec<usize> = report.divergences.iter().map(|d| d.index).collect();
    assert_eq!(at, vec![0, 2]);
    assert_eq!(report.divergences[0].reason, "Input mismatch: 'x' vs 'q'");
    assert_eq!(report.divergences[1].reason, "Event exists in B but not in A");
    assert!(report.divergences[1].event_a.is_none());
    match &report.divergences[1].event_b {
        Some(e) => {
            assert_eq!(f64::from_bits(e.ts.bits), 0.2);
            assert!(matches!(&e.event, OracleEventType::Input { raw } if raw == "w"));
        }
        None => panic!("no event"),
    }
}

#[test]
fn equal_events_of_each_kind_match() {
    let s = |t: &str| t.to_string();
    let events = vec![
        at(0.0, OracleEventType::SdpOffer { sdp: s("v=0\r\nm=audio\r\n") }),
        at(0.0, OracleEventType::SdpAnswer { sdp: s("") }),
        at(
            0.0,
            OracleEventType::IceCandidate {
                candidate: s("candidate:1 1 UDP 9 h 1 typ host"),
                sdp_m_line_index: 1,
                direction: s("out"),
            },
        ),
        input(0.0, "kr"),
        bwe(0),
        at(0.0, OracleEventType::EncoderProp { property: s("bitrate"), value: s("1") }),
        at(0.0, OracleEventType::DataChannelSend { message: s("{\"a\": 1.5}") }),
        at(0.0, OracleEventType::DataChannelSend { message: s("no json") }),
        stats("{\"fps\": 59.9, \"list\": [1, -2, 3e5]}"),
        stats("no json"),
        at(0.0, OracleEventType::PipelineState { state: s("PLAYING") }),
        at(0.0, OracleEventType::Signaling { direction: s("in"), message: s("HELLO") }),
    ];
    let report = diff(&events, &events);
    assert!(report.is_clean());
    assert_eq!(report.matches, events.len());
}

fn same_as_doubles(a: u64, b: u64) {
    let tolerance = (a as f64 * 0.05).max(1.0);
    let expected = if (a as f64 - b as f64).abs() > tolerance {
        Some(format!("BWE divergence: {} vs {} (±5% = {})", a, b, tolerance))
    } else {
        None
    };
    assert_eq!(compare_bwe(a, b), expected);
}

#[test]
fn bandwidth_estimates_are_compared_as_doubles() {
    let mut seed: u64 = 1;
    for _ in 0..4000 {
        seed = seed.wrapping_mul(6364136223846793005).wrapping_add(1442695040888963407);
        for shift in [0, 4, 8, 9, 10, 11, 12, 13, 16, 24, 40] {
            let a = seed >> shift;
            same_as_doubles(a, a.wrapping_mul(3));
        }
    }
    for k in 0..64 {
        let a = 1u64 << k;
        for a in [a - 1, a, a + 1, a.wrapping_mul(20), a.wrapping_mul(5)] {
            same_as_doubles(a, 0);
            for b in [a + a / 20 - a / 20 % 2, a - a / 20, (a - a / 20).wrapping_sub(1), a ^ (a >> 4)] {
                same_as_doubles(a, b);
            }
        }
    }
}

#[test]
fn tolerances_between_two_decimals_are_told_by_the_greater() {
    for a in [
        34901540911652693,
        3571272929050842,
        42050514675801427,
        29562793752570110,
        17677773579768105,
        14432172116420024,
        15709046440548685,
    ] {
        same_as_doubles(a, 0);
    }
    assert_eq!(
        compare_bwe(3571272929050842, 0).unwrap(),
        "BWE divergence: 3571272929050842 vs 0 (±5% = 178563646452542.13)"
    );
}

#[test]
fn where_doubles_tell_five_per_cent() {
    let edge: u64 = 6755399441055744;
    for a in edge - 200..edge {
        assert_eq!(compare_bwe(a, a + a / 20), None);
        assert!(compare_bwe(a, a + a / 20 + 1).is_some());
    }
    assert_eq!(compare_bwe(edge + 15, edge + 15 + 337769972052788), None);
    same_as_doubles(edge + 15, edge + 15 + 337769972052788);
}

#[test]
fn bandwidth_bands() {
    assert_eq!(compare_bwe(1000000, 1050000), None);
    assert_eq!(
        compare_bwe(1000000, 1050001).unwrap(),
        "BWE divergence: 1000000 vs 1050001 (±5% = 50000)"
    );
    assert_eq!(compare_bwe(3, 4), None);
    assert_eq!(compare_bwe(0, 2).unwrap(), "BWE divergence: 0 vs 2 (±5% = 1)");
    assert_eq!(compare_bwe(30, 28).unwrap(), "BWE divergence: 30 vs 28 (±5% = 1.5)");
    assert_eq!(compare_bwe(21, 19).unwrap(), "BWE divergence: 21 vs 19 (±5% = 1.05)");
    assert_eq!(compare_bwe(u64::MAX, u64::MAX), None);
    assert!(compare_bwe(u64::MAX, 0).is_some());
    assert_eq!(
        compare_bwe(23, 21).unwrap(),
        "BWE divergence: 23 vs 21 (±5% = 1.1500000000000001)"
    );
    for a in (0u64..4000).chain([999_999_999_999, 123_456_789]) {
        for d in [0, 1, 2, a / 20, a / 20 + 1, a / 10] {
            same_as_doubles(a, a + d);
        }
    }
}

#[test]
fn statistics_within_ten_per_cent() {
    assert_eq!(reason(stats("{\"fps\": 60}"), stats("{\"fps\": 54}")), None);
    assert_eq!(reason(stats("{\"fps\": 60}"), stats("{\"fps\":66.0}")), None);
    assert_eq!(
        reason(stats("{\"fps\": 60}"), stats("{\"fps\": 53.9}")).unwrap(),
        "Stats divergence (check manually)"
    );
    assert_eq!(reason(stats("{\"b\":1,\"a\":[2]}"), stats("{ \"a\": [2.1], \"b\": 1 }")), None);
    assert!(reason(stats("{\"a\":1}"), stats("{\"b\":1}")).is_some());
    assert!(reason(stats("{\"a\":\"1\"}"), stats("{\"a\":1}")).is_some());
    assert!(reason(stats("[1,2]"), stats("[1,2,3]")).is_some());
    assert!(reason(stats("{\"a\":\"x 10\"}"), stats("{\"a\":\"x 11\"}")).is_some());
    assert!(reason(stats("[0]"), stats("[0.001]")).is_some());
    assert_eq!(reason(stats("[-100]"), stats("[-91]")), None);
    assert!(reason(stats("[-100]"), stats("[91]")).is_some());
    assert!(reason(stats("x10"), stats("x11")).is_some());
    assert!(reason(stats("{\"a\":true}"), stats("{\"a\":false}")).is_some());
}

#[test]
fn numbers_that_are_near() {
    let near = |a: &str, b: &str| {
        let read = |s: &str| read_number(&s.chars().collect::<Vec<char>>()).unwrap();
        is_near(read(a), read(b))
    };
    assert!(near("100", "110"));
    assert!(near("100", "90"));
    assert!(!near("100", "110.0001"));
    assert!(!near("100", "89.9999"));
    assert!(near("1e2", "0.11e3"));
    assert!(near("1e300", "1.05e300"));
    assert!(!near("1e300", "1"));
    assert!(!near("1", "1e300"));
    assert!(near("0", "0.0"));
    assert!(near("-0", "0e5"));
    assert!(!near("0", "1e-9"));
    assert!(!near("1e-9", "0"));
    assert!(near("18446744073709551615", "18446744073709551615"));
    assert!(near("18446744073709551615", "1.8e19"));
    assert!(!near("5", "-5"));
    let none = |s: &str| read_number(&s.chars().collect::<Vec<char>>()).is_none();
    assert!(none(""));
    assert!(none("-"));
    assert!(none(".5"));
    assert!(none("1e"));
    assert!(none("18446744073709551616"));
    assert!(none("1e10000"));
}

#[test]
fn texts_that_are_close() {
    assert!(is_close("{\"a\":100,\"b\":\"q\\\"1\"}", "{\"a\":105,\"b\":\"q\\\"1\"}"));
    assert!(!is_close("{\"b\":\"q\\\"1\"}", "{\"b\":\"q\\\"2\"}"));
    assert!(is_close("[1.0,null]", "[1,null]"));
    assert!(!is_close("[1,2]", "[1,2"));
    assert!(is_close("", ""));
}

#[test]
fn compared_by_given_results() {
    assert_eq!(compare_messages("a", "b", Some(true)), None);
    assert_eq!(compare_messages("a", "a", Some(false)).unwrap(), "DC message JSON mismatch");
    assert_eq!(
        compare_messages("a", "b", None).unwrap(),
        "DC message string mismatch: 'a' vs 'b'"
    );
    assert_eq!(compare_messages("a", "a", None), None);
    let some = |t: &str| Some(t.to_string());
    assert_eq!(compare_stats("a", "b", some("[10]"), some("[11]")), None);
    assert!(compare_stats("a", "b", some("[10]"), None).is_some());
    assert_eq!(compare_stats("a", "a", some("[10]"), None), None);
}

#[test]
fn messages_as_json() {
    let dc = |m: &str| at(0.0, OracleEventType::DataChannelSend { message: m.into() });
    assert_eq!(reason(dc("{\"a\":1,\"b\":2}"), dc("{ \"b\": 2, \"a\": 1 }")), None);
    assert_eq!(reason(dc("{\"a\":1}"), dc("{\"a\":2}")).unwrap(), "DC message JSON mismatch");
    assert_eq!(
        reason(dc("{\"a\":1}"), dc("x")).unwrap(),
        "DC message string mismatch: '{\"a\":1}' vs 'x'"
    );
}

#[test]
fn reasons_in_words() {
    let s = |t: &str| t.to_string();
    let prop = |p: &str, v: &str| {
        at(0.0, OracleEventType::EncoderProp { property: s(p), value: s(v) })
    };
    assert_eq!(
        reason(prop("a", "1"), prop("a", "2")).unwrap(),
        "Encoder prop mismatch: a=1 vs a=2"
    );
    let state = |t: &str| at(0.0, OracleEventType::PipelineState { state: s(t) });
    assert_eq!(reason(state("A"), state("B")).unwrap(), "Pipeline state mismatch: A vs B");
    let signal = |d: &str, m: &str| {
        at(0.0, OracleEventType::Signaling { direction: s(d), message: s(m) })
    };
    assert_eq!(reason(signal("in", "x"), signal("out", "x")).unwrap(), "Signaling mismatch");
    assert_eq!(reason(signal("in", "x"), signal("in", "y")).unwrap(), "Signaling mismatch");
    assert_eq!(
        reason(state("A"), signal("in", "x")).unwrap(),
        "Event type mismatch: Discriminant(8) vs Discriminant(9)"
    );
    let offer = at(0.0, OracleEventType::SdpOffer { sdp: s("") });
    let answer = at(0.0, OracleEventType::SdpAnswer { sdp: s("") });
    assert_eq!(
        reason(offer, answer).unwrap(),
        "Event type mismatch: Discriminant(0) vs Discriminant(1)"
    );
    let ice = |c: &str, i: u32, d: &str| {
        at(
            0.0,
            OracleEventType::IceCandidate {
                candidate: s(c),
                sdp_m_line_index: i,
                direction: s(d),
            },
        )
    };
    assert_eq!(
        reason(ice("a", 0, "in"), ice("b", 1, "out")).unwrap(),
        "ICE direction mismatch: in vs out"
    );
    assert_eq!(
        reason(ice("a", 0, "in"), ice("b", 1, "in")).unwrap(),
        "ICE mline index mismatch: 0 vs 1"
    );
    assert_eq!(
        reason(ice("a", 0, "in"), ice("b", 0, "in")).unwrap(),
        "ICE candidate field 0 mismatch: 'a' vs 'b'"
    );
}

#[test]
fn candidates_by_their_fields() {
    let a = "candidate:1 1 UDP 2122252543 192.168.1.1 12345 typ host";
    let b = "candidate:1 1 UDP 1 192.168.1.1 12345 typ host";
    assert_eq!(compare_ice_candidate(a, b), None);
    assert_eq!(
        compare_ice_candidate(a, "candidate:1 1").unwrap(),
        "ICE candidate field count: 8 vs 2"
    );
    assert_eq!(
        compare_ice_candidate(a, "candidate:1 1 TCP 1 192.168.1.1 12345 typ host").unwrap(),
        "ICE candidate field 2 mismatch: 'UDP' vs 'TCP'"
    );
}

#[test]
fn descriptions_by_their_lines() {
    assert_eq!(
        compare_sdp("v=0\r\nm=audio\r\n", "v=0\r\no=x\r\nm=video\r\n").unwrap(),
        "SDP diverges at line 1: 'm=audio' vs 'm=video'"
    );
    assert_eq!(
        compare_sdp("v=0\r\n", "v=0\r\na=b\r\n").unwrap(),
        "SDP line count differs: 1 vs 2"
    );
    assert_eq!(
        compare_sdp(
            "v=0\na=ice-ufrag:1\na=ice-pwd:1\na=fingerprint:1\na=setup:1\na=msid:1",
            "v=0\r\nt=1"
        ),
        None
    );
}

#[test]
fn what_was_recorded_is_read_back() {
    let texts = ["{\"ts\":0.0}", "{\"ts\":0.1,\"type\":\"input\"}"];
    let mut content = String::new();
    for t in texts {
        content.push_str(&record_line(t));
    }
    let read = |content: &str| -> Vec<String> {
        recorded_lines(content).into_iter().map(|c| c.into_iter().collect()).collect()
    };
    assert_eq!(read(&content), texts);
    assert_eq!(read("\n  \n{}\r\n\t\n[]"), ["{}", "[]"]);
    assert!(read("").is_empty());
}

fn read_event(line: &str) -> Result<OracleEvent, String> {
    let value: serde_json::Value = serde_json::from_str(line).map_err(|e| e.to_string())?;
    let data = &value["data"];
    let event = match value["type"].as_str() {
        Some("input") => {
            OracleEventType::Input { raw: data["raw"].as_str().unwrap_or("").to_string() }
        }
        Some("bwe_update") => {
            OracleEventType::BweUpdate { bitrate_bps: data["bitrate_bps"].as_u64().unwrap_or(0) }
        }
        _ => return Err(format!("unknown event: {line}")),
    };
    Ok(at(value["ts"].as_f64().unwrap_or(0.0), event))
}

#[test]
fn recorded_events_are_loaded() {
    let lines = [
        "{\"ts\":0.5,\"type\":\"input\",\"data\":{\"raw\":\"kd,65507\"}}",
        "{\"ts\":0.75,\"type\":\"input\",\"data\":{\"raw\":\"m,500,300,1,0\"}}",
        "{\"ts\":1.0,\"type\":\"bwe_update\",\"data\":{\"bitrate_bps\":25000000}}",
    ];
    let mut content = String::new();
    for line in lines {
        content.push_str(&record_line(line));
    }
    let events = load_events(&content, read_event).unwrap();
    assert_eq!(events.len(), 3);
    assert_eq!(events[0].ts, Double { bits: 0.5f64.to_bits() });
    assert!(matches!(&events[0].event, OracleEventType::Input { raw } if raw == "kd,65507"));
    assert!(matches!(&events[1].event, OracleEventType::Input { raw } if raw == "m,500,300,1,0"));
    assert!(matches!(events[2].event, OracleEventType::BweUpdate { bitrate_bps: 25000000 }));
    assert!(load_events("", read_event).unwrap().is_empty());
    content.push_str("\n{}\nnothing");
    assert_eq!(load_events(&content, read_event).unwrap_err(), "unknown event: {}");
}

#[test]
fn the_same_events_at_other_times_do_not_diverge() {
    assert!(diff(&[input(0.5, "kr")], &[input(2.5, "kr")]).is_clean());
    assert!(!diff(&[input(0.5, "kr")], &[]).is_clean());
}
