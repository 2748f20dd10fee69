use base64::Engine;
use selkies::sdp::{
    inject_h264_profile, inject_hevc_level, inject_level_id, inject_opus_ptime, inject_ptime,
    inject_rtx_time, inject_sps_pps_idr, is_foreign, munge_offer_sdp, offer_codecs, replace_sps,
    rewrite_hevc_sps_in_buffer, rewrite_sps_level_b64,
};

const SAMPLE_SDP: &str = "v=0\r\n\
    o=- 123 1 IN IP4 0.0.0.0\r\n\
    s=-\r\n\
    t=0 0\r\n\
    m=video 9 UDP/TLS/RTP/SAVPF 96 97\r\n\
    a=rtpmap:96 H264/90000\r\n\
    a=fmtp:96 packetization-mode=1\r\n\
    a=rtpmap:97 rtx/90000\r\n\
    a=fmtp:97 apt=96\r\n\
    m=audio 9 UDP/TLS/RTP/SAVPF 111\r\n\
    a=rtpmap:111 opus/48000/2\r\n\
    a=fmtp:111 minptime=10;sprop-stereo=0\r\n";

fn encode(bytes: &[u8]) -> String {
    base64::engine::general_purpose::STANDARD.encode(bytes)
}

fn decode(text: &str) -> Vec<u8> {
    base64::engine::general_purpose::STANDARD.decode(text).unwrap()
}

#[test]
fn test_rtx_time_injection() {
    let result = inject_rtx_time(SAMPLE_SDP);
    assert!(result.contains("apt=96;rtx-time=125"));
}

#[test]
fn test_rtx_time_already_correct() {
    let sdp = SAMPLE_SDP.replace("apt=96", "apt=96;rtx-time=125");
    let result = inject_rtx_time(&sdp);
    assert_eq!(result, sdp);
}

#[test]
fn test_rtx_time_wrong_value() {
    let sdp = SAMPLE_SDP.replace("apt=96", "apt=96;rtx-time=500");
    let result = inject_rtx_time(&sdp);
    assert!(result.contains("rtx-time=125"));
    assert!(!result.contains("rtx-time=500"));
}

#[test]
fn test_h264_profile_injection() {
    let result = inject_h264_profile(SAMPLE_SDP);
    assert!(result.contains("profile-level-id=42e01f"));
    assert!(result.contains("level-asymmetry-allowed=1"));
    assert!(result.contains("packetization-mode=1"));
}

#[test]
fn test_h264_profile_already_present() {
    let sdp = SAMPLE_SDP.replace(
        "packetization-mode=1",
        "profile-level-id=42e01f;level-asymmetry-allowed=1;packetization-mode=1",
    );
    let result = inject_h264_profile(&sdp);
    assert_eq!(result.matches("profile-level-id").count(), 1);
}

#[test]
fn test_sps_pps_idr_injection() {
    let result = inject_sps_pps_idr(SAMPLE_SDP);
    assert!(result.contains("sps-pps-idr-in-keyframe=1;packetization-mode="));
}

#[test]
fn test_opus_ptime_injection() {
    let result = inject_opus_ptime(SAMPLE_SDP);
    assert!(result.contains("a=ptime:10"));
}

#[test]
fn test_opus_ptime_no_opus() {
    let sdp = "v=0\r\nm=video 9 UDP/TLS/RTP/SAVPF 96\r\n";
    let result = inject_opus_ptime(sdp);
    assert!(!result.contains("ptime"));
}

#[test]
fn test_hevc_level_injection() {
    let sdp = "v=0\r\n\
        m=video 9 UDP/TLS/RTP/SAVPF 96 97\r\n\
        a=rtpmap:96 H265/90000\r\n\
        a=fmtp:96 tx-mode=SRST\r\n\
        a=fmtp:97 apt=96\r\n";
    let result = inject_hevc_level(sdp);
    assert!(result.contains("level-id=180"));
    assert!(result.contains("profile-id=1"));
    assert!(result.contains("a=fmtp:97 apt=96"));
}

#[test]
fn test_hevc_level_existing_value() {
    let sdp = "v=0\r\n\
        m=video 9 UDP/TLS/RTP/SAVPF 96\r\n\
        a=fmtp:96 level-id=150;tx-mode=SRST\r\n";
    let result = inject_hevc_level(sdp);
    assert!(result.contains("level-id=180"));
    assert!(!result.contains("level-id=150"));
}

#[test]
fn test_sps_level_rewrite_b64() {
    let mut sps = vec![0x42, 0x01];
    sps.extend_from_slice(&[0u8; 12]);
    sps.push(150);
    sps.push(0);

    let b64 = encode(&sps);
    let result = rewrite_sps_level_b64(&b64).unwrap();
    let decoded = decode(&result);
    assert_eq!(decoded[14], 180);
}

#[test]
fn test_sps_level_already_180() {
    let mut sps = vec![0x42, 0x01];
    sps.extend_from_slice(&[0u8; 12]);
    sps.push(180);
    sps.push(0);

    let b64 = encode(&sps);
    assert!(rewrite_sps_level_b64(&b64).is_none());
}

#[test]
fn test_hevc_sps_buffer_rewrite() {
    let mut buf = vec![0, 0, 0, 1];
    buf.push(0x42);
    buf.push(0x01);
    buf.extend_from_slice(&[0u8; 12]);
    buf.push(150);
    buf.extend_from_slice(&[0u8; 20]);

    assert!(rewrite_hevc_sps_in_buffer(&mut buf));
    assert_eq!(buf[18], 180);
}

#[test]
fn test_hevc_sps_buffer_with_epb() {
    let mut buf = vec![0, 0, 0, 1];
    buf.push(0x42);
    buf.push(0x01);
    buf.extend_from_slice(&[0, 0, 0, 0]);
    buf.extend_from_slice(&[0, 0, 3]);
    buf.extend_from_slice(&[0, 0, 0, 0, 0, 0]);
    buf.push(150);
    buf.extend_from_slice(&[0u8; 20]);

    assert!(rewrite_hevc_sps_in_buffer(&mut buf));
    assert_eq!(buf[19], 180);
}

#[test]
fn test_munge_offer_h264() {
    let result = munge_offer_sdp(SAMPLE_SDP, "nvh264enc");
    assert!(result.contains("rtx-time=125"));
    assert!(result.contains("profile-level-id=42e01f"));
    assert!(result.contains("level-asymmetry-allowed=1"));
    assert!(result.contains("sps-pps-idr-in-keyframe=1"));
    assert!(result.contains("a=ptime:10"));
    assert!(!result.contains("level-id=180"));
}

#[test]
fn test_munge_offer_h265() {
    let sdp = "v=0\r\n\
        m=video 9 UDP/TLS/RTP/SAVPF 96 97\r\n\
        a=rtpmap:96 H265/90000\r\n\
        a=fmtp:96 packetization-mode=1\r\n\
        a=fmtp:97 apt=96\r\n\
        m=audio 9 UDP/TLS/RTP/SAVPF 111\r\n\
        a=rtpmap:111 opus/48000/2\r\n\
        a=fmtp:111 minptime=10;sprop-stereo=0\r\n";
    let result = munge_offer_sdp(sdp, "nvh265enc");
    assert!(result.contains("rtx-time=125"));
    assert!(result.contains("level-id=180"));
    assert!(result.contains("sps-pps-idr-in-keyframe=1"));
    assert!(result.contains("a=ptime:10"));
    assert!(!result.contains("profile-level-id=42e01f"));
}

#[test]
fn test_munge_offer_vp8() {
    let sdp = "v=0\r\n\
        m=video 9 UDP/TLS/RTP/SAVPF 96 97\r\n\
        a=rtpmap:96 VP8/90000\r\n\
        a=fmtp:97 apt=96\r\n\
        m=audio 9 UDP/TLS/RTP/SAVPF 111\r\n\
        a=rtpmap:111 opus/48000/2\r\n\
        a=fmtp:111 minptime=10;sprop-stereo=0\r\n";
    let result = munge_offer_sdp(sdp, "vp8enc");
    assert!(result.contains("rtx-time=125"));
    assert!(result.contains("a=ptime:10"));
    assert!(!result.contains("profile-level-id"));
    assert!(!result.contains("level-id=180"));
    assert!(!result.contains("sps-pps-idr-in-keyframe"));
}

#[test]
fn the_whole_offer_for_h264() {
    let expected = "v=0\r\n\
        o=- 123 1 IN IP4 0.0.0.0\r\n\
        s=-\r\n\
        t=0 0\r\n\
        m=video 9 UDP/TLS/RTP/SAVPF 96 97\r\n\
        a=rtpmap:96 H264/90000\r\n\
        a=fmtp:96 profile-level-id=42e01f;level-asymmetry-allowed=1;sps-pps-idr-in-keyframe=1;packetization-mode=1\r\n\
        a=rtpmap:97 rtx/90000\r\n\
        a=fmtp:97 apt=96;rtx-time=125\r\n\
        m=audio 9 UDP/TLS/RTP/SAVPF 111\r\n\
        a=rtpmap:111 opus/48000/2\r\n\
        a=fmtp:111 minptime=10;sprop-stereo=0\r\na=ptime:10\r\n";
    assert_eq!(munge_offer_sdp(SAMPLE_SDP, "NVH264enc"), expected);
}

#[test]
fn injecting_again_changes_nothing() {
    for sdp in [SAMPLE_SDP, "", "apt=1", "packetization-mode=0 rtx-time=7", "rtx-time=x apt=2"] {
        let once = inject_rtx_time(sdp);
        assert_eq!(inject_rtx_time(&once), once);
        let once = inject_sps_pps_idr(sdp);
        assert_eq!(inject_sps_pps_idr(&once), once);
        let once = inject_h264_profile(sdp);
        assert_eq!(inject_h264_profile(&once), once);
    }
}

#[test]
fn wrong_h264_settings_are_corrected() {
    let sdp = "profile-level-id=640032;level-asymmetry-allowed=0;sps-pps-idr-in-keyframe=0";
    assert_eq!(
        inject_sps_pps_idr(&inject_h264_profile(sdp)),
        "profile-level-id=42e01f;level-asymmetry-allowed=1;sps-pps-idr-in-keyframe=1"
    );
}

#[test]
fn the_level_among_the_parameters() {
    assert_eq!(inject_level_id("a=b"), "level-id=180;profile-id=1;tier-flag=0;a=b");
    assert_eq!(inject_level_id("level-id=93;a=b"), "level-id=180;a=b");
    assert_eq!(inject_level_id("level-id=;a=b"), "level-id=;a=b");
}

#[test]
fn the_parameter_set_of_a_format_is_raised() {
    let mut sps = vec![0x42, 0x01];
    sps.extend_from_slice(&[9u8; 12]);
    sps.extend_from_slice(&[93, 7, 7]);
    let mut raised = sps.clone();
    raised[14] = 180;
    let sdp = format!(
        "m=audio 1\r\na=fmtp:1 x\r\nm=video 2\r\na=fmtp:2 sprop-sps={};z=1\r\nb=2",
        encode(&sps)
    );
    let expected = format!(
        "m=audio 1\r\na=fmtp:1 x\r\nm=video 2\r\na=fmtp:2 level-id=180;profile-id=1;tier-flag=0;sprop-sps={};z=1\r\nb=2",
        encode(&raised)
    );
    assert_eq!(inject_hevc_level(&sdp), expected);
    assert_eq!(
        replace_sps("a sprop-sps=X b", "sprop-sps=X", &encode(&sps)),
        format!("a sprop-sps={} b", encode(&raised))
    );
    assert_eq!(replace_sps("a sprop-sps=X b", "sprop-sps=X", "!"), "a sprop-sps=X b");
}

#[test]
fn media_lines_and_retransmissions_stay() {
    let sdp = "m=video 2\r\na=fmtp:3 apt=2\r\na=rtpmap:2 H265/90000\r\nm=audio\r\na=fmtp:4 q=1";
    assert_eq!(inject_hevc_level(sdp), sdp);
    assert_eq!(inject_hevc_level("a=fmtp:1 b"), "a=fmtp:1 b");
}

#[test]
fn a_raised_parameter_set_is_not_raised_again() {
    let mut sps = vec![0x42, 0x01];
    sps.extend_from_slice(&[1, 2, 3, 4, 0, 0, 3, 7, 8, 9, 10, 11, 12]);
    sps.extend_from_slice(&[60, 1, 1]);
    let once = rewrite_sps_level_b64(&encode(&sps)).unwrap();
    assert_eq!(decode(&once).iter().zip(&sps).filter(|(a, b)| a != b).count(), 1);
    assert!(rewrite_sps_level_b64(&once).is_none());
    assert!(rewrite_sps_level_b64("not base64!").is_none());
    assert!(rewrite_sps_level_b64("").is_none());
    assert!(rewrite_sps_level_b64(&encode(&[0x42, 1, 2, 3])).is_none());
}

#[test]
fn a_stream_keeps_its_length_and_its_other_bytes() {
    let mut buf = vec![0, 0, 1, 0x42, 1];
    buf.extend_from_slice(&[5; 12]);
    buf.push(30);
    buf.extend_from_slice(&[0, 0, 0, 1, 0x40, 1]);
    buf.extend_from_slice(&[6; 30]);
    let before = buf.clone();
    assert!(rewrite_hevc_sps_in_buffer(&mut buf));
    assert_eq!(buf.len(), before.len());
    for (i, (a, b)) in before.iter().zip(&buf).enumerate() {
        assert!(a == b || (i == 17 && *b == 180), "{i}");
    }
    assert!(!rewrite_hevc_sps_in_buffer(&mut buf));
    let mut short = vec![0, 0, 1, 0x42, 1];
    assert!(!rewrite_hevc_sps_in_buffer(&mut short));
    let mut empty: Vec<u8> = Vec::new();
    assert!(!rewrite_hevc_sps_in_buffer(&mut empty));
}

#[test]
fn raising_a_stream_again_changes_nothing() {
    let mut seed = 12345u32;
    for _ in 0..3000 {
        let mut buf = Vec::new();
        for _ in 0..90 {
            seed = seed.wrapping_mul(1664525).wrapping_add(1013904223);
            buf.push([0, 0, 0, 0, 1, 1, 3, 0x42, 0x42, 200, 30][(seed >> 16) as usize % 11]);
        }
        let before = buf.clone();
        let changed = rewrite_hevc_sps_in_buffer(&mut buf);
        assert_eq!(changed, buf != before);
        let once = buf.clone();
        assert!(!rewrite_hevc_sps_in_buffer(&mut buf));
        assert_eq!(buf, once);
    }
}

#[test]
fn settings_stand_before_the_packetization_mode() {
    assert_eq!(
        inject_h264_profile("x packetization-mode=0 packetization-mode=1"),
        "x profile-level-id=42e01f;level-asymmetry-allowed=1;packetization-mode=0 \
         profile-level-id=42e01f;level-asymmetry-allowed=1;packetization-mode=1"
    );
    assert_eq!(inject_h264_profile("nothing to do"), "nothing to do");
    assert_eq!(
        inject_sps_pps_idr("packetization-mode=1"),
        "sps-pps-idr-in-keyframe=1;packetization-mode=1"
    );
}

#[test]
fn opus_is_found_whatever_its_case() {
    assert_eq!(inject_opus_ptime("OPUS/ sprop-x=1"), "OPUS/ sprop-x=1\r\na=ptime:10");
    assert_eq!(inject_ptime("a sprop-x=1", "no such codec"), "a sprop-x=1");
    assert_eq!(inject_ptime("a sprop-x=1", "opus/"), "a sprop-x=1\r\na=ptime:10");
    assert_eq!(inject_ptime("a-sprop-x=1", "opus/"), "a-sprop-x=1");
}

#[test]
fn the_codecs_of_an_encoder() {
    let both = |name: &str| {
        let c = offer_codecs(name);
        (c.h264, c.h265)
    };
    assert_eq!(both("h264"), (true, false));
    assert_eq!(both("x265enc"), (false, true));
    assert_eq!(both("vp9enc"), (false, false));
    assert_eq!(both("h264-h265"), (true, true));
}

#[test]
fn every_retransmission_time_is_corrected() {
    assert_eq!(
        inject_rtx_time("a=fmtp:97 apt=96;rtx-time=125\r\na=fmtp:99 apt=98;rtx-time=500\r\n"),
        "a=fmtp:97 apt=96;rtx-time=125\r\na=fmtp:99 apt=98;rtx-time=125\r\n"
    );
    assert_eq!(inject_rtx_time("apt=96;rtx-time=1250"), "apt=96;rtx-time=125");
    assert_eq!(inject_rtx_time("apt=96 rtx-time"), "apt=96 rtx-time");
}

#[test]
fn every_h264_setting_is_corrected() {
    let sdp = "packetization-mode=1;profile-level-id=42e01f00;level-asymmetry-allowed=1\r\n\
        packetization-mode=1;profile-level-id=42e01f;level-asymmetry-allowed=0";
    let expected = "packetization-mode=1;profile-level-id=42e01f;level-asymmetry-allowed=1\r\n\
        packetization-mode=1;profile-level-id=42e01f;level-asymmetry-allowed=1";
    assert_eq!(inject_h264_profile(sdp), expected);
    assert_eq!(inject_h264_profile(expected), expected);
    assert_eq!(
        inject_sps_pps_idr("sps-pps-idr-in-keyframe=1;sps-pps-idr-in-keyframe=0"),
        "sps-pps-idr-in-keyframe=1;sps-pps-idr-in-keyframe=1"
    );
}

#[test]
fn inserted_retransmission_times_can_be_taken_out() {
    let sdp = "a=fmtp:97 apt=96\r\na=fmtp:99 apt=98;q=1\r\na=fmtp:1 apt=\r\n";
    let timed = inject_rtx_time(sdp);
    assert_eq!(
        timed,
        "a=fmtp:97 apt=96;rtx-time=125\r\na=fmtp:99 apt=98;rtx-time=125;q=1\r\na=fmtp:1 apt=\r\n"
    );
    assert_eq!(timed.replace(";rtx-time=125", ""), sdp);
    assert_eq!(inject_rtx_time(&timed), timed);
}

#[test]
fn formats_of_other_codecs_stay() {
    let vp8 = "m=video 9 UDP/TLS/RTP/SAVPF 98\r\na=rtpmap:98 VP8/90000\r\na=fmtp:98 max-fs=12288\r\n";
    assert_eq!(inject_hevc_level(vp8), vp8);
    assert_eq!(munge_offer_sdp(vp8, "nvh265enc"), vp8);
    let behind = "m=video\r\na=fmtp:98 max-fs=1\r\na=rtpmap:98 VP8/90000";
    assert_eq!(inject_hevc_level(behind), behind);
    let both = "m=video\r\na=rtpmap:96 h265/90000\r\na=fmtp:96 q=1\r\n\
        a=rtpmap:98 H2650/90000\r\na=fmtp:98 q=1\r\na=rtpmap:9 VP8/90000";
    assert_eq!(
        inject_hevc_level(both),
        "m=video\r\na=rtpmap:96 h265/90000\r\n\
        a=fmtp:96 level-id=180;profile-id=1;tier-flag=0;q=1\r\n\
        a=rtpmap:98 H2650/90000\r\na=fmtp:98 q=1\r\na=rtpmap:9 VP8/90000"
    );
    let elsewhere = "m=video\r\na=fmtp:96 q=1\r\nm=video\r\na=rtpmap:96 VP8/90000";
    assert_eq!(
        inject_hevc_level(elsewhere),
        "m=video\r\na=fmtp:96 level-id=180;profile-id=1;tier-flag=0;q=1\r\n\
        m=video\r\na=rtpmap:96 VP8/90000"
    );
}

#[test]
fn the_mapping_of_a_format() {
    let lines: Vec<Vec<char>> =
        ["m=video", "a=fmtp:96 q=1", "a=rtpmap:96 VP8/90000", "m=video", "a=fmtp:96 q=1"]
            .iter()
            .map(|l| l.chars().collect())
            .collect();
    assert!(is_foreign(&lines, 1));
    assert!(!is_foreign(&lines, 4));
}

#[test]
fn correcting_the_level_again_changes_nothing() {
    let mut sps = vec![0x42, 0x01];
    sps.extend_from_slice(&[0u8; 12]);
    sps.extend_from_slice(&[93, 7]);
    let sdp = format!(
        "m=video 9 96 97\r\na=rtpmap:96 H265/90000\r\na=fmtp:96 tier=1;sprop-sps={};level-id=93\r\n\
        a=fmtp:97 sprop-sps={}\r\na=rtpmap:98 VP8/90000\r\na=fmtp:98 q=1\r\n",
        encode(&sps),
        encode(&sps)
    );
    let once = inject_hevc_level(&sdp);
    assert_ne!(once, sdp);
    assert!(!once.contains(&encode(&sps)));
    assert!(once.contains("a=fmtp:98 q=1\r\n"));
    assert_eq!(inject_hevc_level(&once), once);
}

#[test]
fn settings_do_not_disturb_one_another() {
    let sdp = "m=video 9 96 97\r\n\
        a=fmtp:96 rtx-time=9;profile-level-id=640028;packetization-mode=1;sprop-x=1\r\n\
        a=fmtp:97 apt=96;level-asymmetry-allowed=0;sps-pps-idr-in-keyframe=00\r\n\
        m=audio 9 111\r\na=rtpmap:111 OPUS/48000/2\r\n";
    assert_eq!(
        munge_offer_sdp(sdp, "x264enc"),
        "m=video 9 96 97\r\n\
        a=fmtp:96 rtx-time=125;profile-level-id=42e01f;packetization-mode=1;sprop-x=1\r\n\
        a=ptime:10\r\n\
        a=fmtp:97 apt=96;level-asymmetry-allowed=1;sps-pps-idr-in-keyframe=1\r\n\
        m=audio 9 111\r\na=rtpmap:111 OPUS/48000/2\r\n"
    );
    assert_eq!(
        munge_offer_sdp("m=video\r\na=fmtp:96 rtx-time=9;packetization-mode=1", "x265enc"),
        "m=video\r\na=fmtp:96 level-id=180;profile-id=1;tier-flag=0;rtx-time=125;\
        sps-pps-idr-in-keyframe=1;packetization-mode=1"
    );
}

#[test]
fn setting_the_profile_again_changes_nothing() {
    for sdp in [
        "a=fmtp:96 packetization-mode=1",
        "a=fmtp:96 profile-level-id=packetization-mode=1",
        "a=fmtp:96 profile-level-id=1level-asymmetry-allowed=0;packetization-mode=1",
        "profile-packetization-mode=1;level-asymmetry-allowed",
        "",
    ] {
        let once = inject_h264_profile(sdp);
        assert_eq!(inject_h264_profile(&once), once);
    }
}

#[test]
fn a_level_that_a_parameter_set_runs_into() {
    let once = inject_hevc_level("m=video\r\na=fmtp:96 sprop-sps=QgEBAQEBAQEBAQEBAQAlevel-id=93");
    assert_eq!(once, "m=video\r\na=fmtp:96 sprop-sps=QgEBAQEBAQEBAQEBAQC0evel-id=180");
    assert_eq!(
        inject_hevc_level(&once),
        "m=video\r\na=fmtp:96 level-id=180;profile-id=1;tier-flag=0;\
        sprop-sps=QgEBAQEBAQEBAQEBAQC0evel-id=180"
    );
}
