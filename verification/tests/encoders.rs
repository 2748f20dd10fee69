use selkies::number::Double;
use selkies::pipeline::{
    DerivedParams, Figures, PipelineConfig, PipelinePlan, PipelineState, PropertyValue, VideoCodec,
};
use selkies::sdp::munge_offer_sdp;
use selkies::stats::{
    bitrate_for_encoder, cc_range_for_audio, cc_range_for_video, log_bitrate_change,
    nvenc_vbv_buffer_size, vaapi_frame_size, EncoderType, LogLevel,
};

fn figures(config: &PipelineConfig) -> Figures {
    let video_loss = f64::from_bits(config.video_packetloss_percent.bits);
    let audio_loss = f64::from_bits(config.audio_packetloss_percent.bits);
    let distance = f64::from_bits(config.keyframe_distance.bits);
    Figures {
        fec_video_bitrate: (config.video_bitrate as u32 as f64 / (1.0 + (video_loss / 100.0)))
            as u32,
        fec_audio_bitrate: (config.audio_bitrate as u32 as f64 * (1.0 + (audio_loss / 100.0)))
            as u32,
        keyframe_frames: (config.framerate as f64 * distance) as i32,
    }
}

fn derive(config: &PipelineConfig) -> DerivedParams {
    DerivedParams::from_config(config, figures(config))
}

fn double(v: f64) -> Double {
    Double { bits: v.to_bits() }
}

#[test]
fn test_encoder_type_from_name() {
    assert_eq!(EncoderType::from_encoder_name("nvh264enc"), Some(EncoderType::NvH264));
    assert_eq!(EncoderType::from_encoder_name("nvh265enc"), Some(EncoderType::NvH265));
    assert_eq!(EncoderType::from_encoder_name("x264enc"), Some(EncoderType::X264));
    assert_eq!(EncoderType::from_encoder_name("vp8enc"), Some(EncoderType::Vp8));
    assert_eq!(EncoderType::from_encoder_name("vp9enc"), Some(EncoderType::Vp9));
    assert_eq!(EncoderType::from_encoder_name("svtav1enc"), Some(EncoderType::SvtAv1));
    assert_eq!(EncoderType::from_encoder_name("rav1enc"), Some(EncoderType::Rav1));
    assert_eq!(EncoderType::from_encoder_name("nvfbcenc"), None);
    assert_eq!(EncoderType::from_encoder_name("unknown"), None);
}

#[test]
fn test_nvenc_vbv() {
    assert_eq!(nvenc_vbv_buffer_size(23809), 11904);
}

#[test]
fn test_cc_range() {
    let range = cc_range_for_video(25000, 100800);
    assert_eq!(range.min_bitrate, 2600800);
    assert_eq!(range.max_bitrate, 25100800);
}

#[test]
fn test_cc_range_low_bitrate() {
    let range = cc_range_for_video(500, 96000);
    assert_eq!(range.min_bitrate, 196000);
}

#[test]
fn test_bitrate_for_encoder() {
    assert_eq!(bitrate_for_encoder(&EncoderType::NvH264, 25000), 25000);
    assert_eq!(bitrate_for_encoder(&EncoderType::Vp8, 25000), 25000000);
    assert_eq!(bitrate_for_encoder(&EncoderType::OpenH264, 2000), 2000000);
}

#[test]
fn test_encoder_pipeline_names() {
    assert_eq!(EncoderType::NvH264.pipeline_element_name(), "nvenc");
    assert_eq!(EncoderType::NvH265.pipeline_element_name(), "nvenc");
    assert_eq!(EncoderType::VaH264.pipeline_element_name(), "vaenc");
    assert_eq!(EncoderType::Vp8.pipeline_element_name(), "vpenc");
    assert_eq!(EncoderType::Vp9.pipeline_element_name(), "vpenc");
}

#[test]
fn test_encoder_is_h264_h265() {
    assert!(EncoderType::NvH264.is_h264());
    assert!(!EncoderType::NvH264.is_h265());
    assert!(EncoderType::NvH265.is_h265());
    assert!(!EncoderType::NvH265.is_h264());
    assert!(!EncoderType::Vp8.is_h264());
    assert!(!EncoderType::Vp8.is_h265());
}

#[test]
fn test_default_config() {
    let c = PipelineConfig::default();
    assert_eq!(c.framerate, 60);
    assert_eq!(c.video_bitrate, 8000);
    assert_eq!(c.audio_bitrate, 128_000);
    assert_eq!(c.codec, VideoCodec::H265);
    assert_eq!(c.keyframe_distance, double(-1.0));
    assert_eq!(c.video_packetloss_percent, double(0.0));
}

#[test]
fn test_derived_params_defaults() {
    let c = PipelineConfig::default();
    let d = derive(&c);
    assert_eq!(d.encoder_type, EncoderType::NvH265);
    assert_eq!(d.fec_video_bitrate, 8000);
    assert_eq!(d.keyframe_frame_distance, -1);
    assert_eq!(f64::from_bits(d.vbv_multiplier.bits), 1.5);
}

#[test]
fn test_derived_params_with_fec() {
    let c = PipelineConfig {
        video_bitrate: 25000,
        video_packetloss_percent: double(5.0),
        audio_bitrate: 96000,
        audio_packetloss_percent: double(5.0),
        ..PipelineConfig::default()
    };
    let d = derive(&c);
    assert_eq!(d.fec_video_bitrate, 23809);
    assert_eq!(d.fec_audio_bitrate, 100800);
}

#[test]
fn test_derived_params_with_keyframes() {
    let c = PipelineConfig {
        framerate: 144,
        keyframe_distance: double(2.0),
        ..PipelineConfig::default()
    };
    let d = derive(&c);
    assert_eq!(d.keyframe_frame_distance, 288);
    assert_eq!(f64::from_bits(d.vbv_multiplier.bits), 3.0);
}

#[test]
fn test_derived_params_min_keyframe_distance() {
    let c = PipelineConfig {
        framerate: 30,
        keyframe_distance: double(0.5),
        ..PipelineConfig::default()
    };
    let d = derive(&c);
    assert_eq!(d.keyframe_frame_distance, 60);
}

#[test]
fn test_codec_h264_props() {
    assert_eq!(VideoCodec::H264.nvfbcenc_codec_id(), 0);
    assert_eq!(VideoCodec::H264.encoding_name(), "H264");
    assert_eq!(VideoCodec::H264.encoder_type(), EncoderType::NvH264);
}

#[test]
fn test_codec_h265_props() {
    assert_eq!(VideoCodec::H265.nvfbcenc_codec_id(), 1);
    assert_eq!(VideoCodec::H265.encoding_name(), "H265");
    assert_eq!(VideoCodec::H265.encoder_type(), EncoderType::NvH265);
}

#[test]
fn encoders_by_name() {
    let found = EncoderType::from_encoder_name;
    assert_eq!(found("X265ENC"), Some(EncoderType::X265));
    assert_eq!(found("openh264enc"), Some(EncoderType::OpenH264));
    assert_eq!(found("av1enc"), Some(EncoderType::Av1));
    assert_eq!(found("NVHEVCenc"), Some(EncoderType::NvH265));
    assert_eq!(found("nv"), Some(EncoderType::NvH264));
    assert_eq!(found("vaH265enc"), Some(EncoderType::VaH265));
    assert_eq!(found("vah264enc"), Some(EncoderType::VaH264));
    assert_eq!(found(""), None);
    assert_eq!(EncoderType::from_lowercase_name("X264enc"), None);
}

#[test]
fn units_of_encoders() {
    for (encoder, bits) in [
        (EncoderType::NvH264, false),
        (EncoderType::SvtAv1, false),
        (EncoderType::Rav1, true),
        (EncoderType::Vp9, true),
    ] {
        assert_eq!(encoder.bitrate_in_kbps(), !bits);
        let property = if bits { "target-bitrate" } else { "bitrate" };
        assert_eq!(encoder.bitrate_property(), property);
    }
}

#[test]
fn frames_round_up() {
    assert_eq!(vaapi_frame_size(25000, 144), 174);
    assert_eq!(vaapi_frame_size(0, 7), 0);
    assert_eq!(vaapi_frame_size(14, 7), 2);
    assert_eq!(vaapi_frame_size(15, 7), 3);
    assert_eq!(vaapi_frame_size(u32::MAX, 1), u32::MAX);
    assert_eq!((vaapi_frame_size(25000, 144) as f64 * 1.5) as u32, 261);
}

#[test]
fn ranges_of_the_congestion_control() {
    let range = cc_range_for_audio(25000, 100800);
    assert_eq!(range.min_bitrate, 2600800);
    assert_eq!(range.max_bitrate, 25100800);
    assert_eq!(range.estimated_bitrate, 25100800);
    let range = cc_range_for_video(0, u32::MAX);
    assert_eq!(range.min_bitrate, 99_999);
    assert_eq!(range.max_bitrate, u32::MAX);
}

#[test]
fn lines_of_the_log() {
    let (level, line) = log_bitrate_change(2000, true);
    assert_eq!(level, LogLevel::Debug);
    assert_eq!(line, "video bitrate set with congestion control to: 2000");
    let (level, line) = log_bitrate_change(2000, false);
    assert_eq!(level, LogLevel::Info);
    assert_eq!(line, "video bitrate set to: 2000");
}

#[test]
fn the_plan_of_a_pipeline() {
    let c = PipelineConfig {
        codec: VideoCodec::H264,
        audio_device: Some("monitor".into()),
        stun_server: Some("stun://x".into()),
        turn_servers: vec!["turn://y".into(), "turn://z".into()],
        ..PipelineConfig::default()
    };
    let plan = PipelinePlan::new(&c);
    let chain = |v: &Vec<usize>| -> Vec<&'static str> {
        v.iter().map(|i| plan.elements[*i].factory).collect()
    };
    assert_eq!(chain(&plan.video_chain), ["nvfbcenc", "h264parse", "rtph264pay", "capsfilter"]);
    assert_eq!(
        chain(&plan.audio_chain),
        ["pulsesrc", "audioconvert", "audioresample", "opusenc", "rtpopuspay", "capsfilter"]
    );
    assert_eq!(plan.elements[plan.webrtc].factory, "webrtcbin");
    assert_eq!(plan.elements[plan.encoder].name, Some("enc"));
    assert_eq!(plan.stun_server.as_deref(), Some("stun://x"));
    assert_eq!(plan.turn_servers, ["turn://y", "turn://z"]);
    let source = &plan.elements[3];
    assert_eq!(source.properties.len(), 1);
    assert!(matches!(&source.properties[0].value, PropertyValue::Text(t) if t == "monitor"));
    let encoder = &plan.elements[0];
    assert_eq!(encoder.properties[1].name, "bitrate");
    assert!(matches!(encoder.properties[1].value, PropertyValue::Int(8000)));
    assert!(matches!(encoder.properties[2].value, PropertyValue::Int(0)));
    match &plan.elements[9].properties[0].value {
        PropertyValue::Caps { media, encoding_name, payload } => {
            assert_eq!((*media, *encoding_name, *payload), ("video", "H264", 96));
        }
        _ => panic!("Expected caps"),
    }
    let bare = PipelinePlan::new(&PipelineConfig::default());
    assert_eq!(bare.elements[1].factory, "h265parse");
    assert!(bare.elements[3].properties.is_empty());
    assert!(bare.stun_server.is_none());
    assert_eq!(bare.elements.len(), 11);
}

#[test]
fn bitrates_stay_within_bounds() {
    let mut state = PipelineState::new(100);
    assert_eq!(state.bitrate(), 100);
    assert_eq!(state.set_bitrate(100), 500);
    assert_eq!(state.bitrate(), 500);
    assert_eq!(state.set_bitrate(i32::MAX), 50_000);
    assert_eq!(state.set_bitrate(2500), 2500);
    assert_eq!(state.bitrate(), 2500);
}

#[test]
fn offers_of_a_codec() {
    let sdp = "m=video 1\r\na=fmtp:96 packetization-mode=1\r\na=fmtp:97 apt=96";
    assert_eq!(VideoCodec::H264.munge_offer(sdp), munge_offer_sdp(sdp, "h264"));
    assert_eq!(VideoCodec::H265.munge_offer(sdp), munge_offer_sdp(sdp, "h265"));
}
