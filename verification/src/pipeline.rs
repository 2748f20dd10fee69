//! The media pipeline: its parameters, and the plan by which it is built.

use vstd::prelude::*;
use crate::number;
use crate::sdp;
use crate::stats;
use crate::text;

verus! {

broadcast use vstd::string::group_string_axioms;

/// The video codecs.
#[derive(Debug, Clone, Copy, PartialEq, Eq, Structural)]
pub enum VideoCodec {
    H264,
    H265,
}

impl VideoCodec {
    /// The number of the codec for the capturing encoder.
    pub fn nvfbcenc_codec_id(self) -> (r: i32)
        ensures
            r == (if self is H264 {
                0i32
            } else {
                1i32
            }),
    {
        match self {
            VideoCodec::H264 => 0,
            VideoCodec::H265 => 1,
        }
    }

    /// The name of the codec in a session description.
    pub open spec fn name(self) -> Seq<char> {
        match self {
            VideoCodec::H264 => "H264"@,
            VideoCodec::H265 => "H265"@,
        }
    }

    /// The name of the codec in a session description.
    pub fn encoding_name(self) -> (r: &'static str)
        ensures
            r@ == self.name(),
    {
        match self {
            VideoCodec::H264 => "H264",
            VideoCodec::H265 => "H265",
        }
    }

    /// The encoder that makes the codec.
    pub fn encoder_type(self) -> (r: stats::EncoderType)
        ensures
            r == (if self is H264 {
                stats::EncoderType::NvH264
            } else {
                stats::EncoderType::NvH265
            }),
            r.makes_h264() == (self is H264),
            r.makes_h265() == (self is H265),
    {
        match self {
            VideoCodec::H264 => stats::EncoderType::NvH264,
            VideoCodec::H265 => stats::EncoderType::NvH265,
        }
    }

    /// Corrects an outgoing offer of this codec.
    pub fn munge_offer(self, sdp: &str) -> (r: String)
        ensures
            r@ == sdp::munged(
                sdp@,
                (sdp::OfferCodecs { h264: self is H264, h265: self is H265 }),
            ),
    {
        sdp::munge_offer_for(
            sdp,
            sdp::OfferCodecs {
                h264: match self {
                    VideoCodec::H264 => true,
                    VideoCodec::H265 => false,
                },
                h265: match self {
                    VideoCodec::H264 => false,
                    VideoCodec::H265 => true,
                },
            },
        )
    }
}

/// What a pipeline is to do.
#[derive(Debug, Clone)]
pub struct PipelineConfig {
    pub codec: VideoCodec,
    /// Kilobits per second.
    pub video_bitrate: i32,
    pub framerate: i32,
    pub show_pointer: bool,
    /// The source of the audio; without one, the default.
    pub audio_device: Option<String>,
    pub audio_channels: u32,
    /// Bits per second.
    pub audio_bitrate: i32,
    pub stun_server: Option<String>,
    /// With the credentials in them.
    pub turn_servers: Vec<String>,
    /// Seconds between key frames; below zero, none are forced.
    pub keyframe_distance: number::Double,
    pub congestion_control: bool,
    pub video_packetloss_percent: number::Double,
    pub audio_packetloss_percent: number::Double,
}

/// The bit pattern of -1.
pub const MINUS_ONE: u64 = 0xbff0_0000_0000_0000;

/// The bit pattern of 1.5.
pub const ONE_AND_A_HALF: u64 = 0x3ff8_0000_0000_0000;

/// The bit pattern of 3.
pub const THREE: u64 = 0x4008_0000_0000_0000;

impl Default for PipelineConfig {
    fn default() -> (r: PipelineConfig)
        ensures
            r.codec is H265,
            r.video_bitrate == 8000,
            r.framerate == 60,
            r.show_pointer,
            r.audio_device is None,
            r.audio_channels == 2,
            r.audio_bitrate == 128_000,
            r.stun_server is None,
            r.turn_servers@.len() == 0,
            r.keyframe_distance.bits == MINUS_ONE,
            !r.congestion_control,
            r.video_packetloss_percent.bits == 0,
            r.audio_packetloss_percent.bits == 0,
    {
        PipelineConfig {
            codec: VideoCodec::H265,
            video_bitrate: 8000,
            framerate: 60,
            show_pointer: true,
            audio_device: None,
            audio_channels: 2,
            audio_bitrate: 128_000,
            stun_server: None,
            turn_servers: Vec::new(),
            keyframe_distance: number::Double { bits: MINUS_ONE },
            congestion_control: false,
            video_packetloss_percent: number::Double { bits: 0 },
            audio_packetloss_percent: number::Double { bits: 0 },
        }
    }
}

/// Figures of a configuration that are computed in floating point.
#[derive(Debug, Clone, Copy)]
pub struct Figures {
    /// The video bitrate after forward error correction, in kilobits per second.
    pub fec_video_bitrate: u32,
    /// The audio bitrate after forward error correction, in bits per second.
    pub fec_audio_bitrate: u32,
    /// The frames in the distance of the key frames.
    pub keyframe_frames: i32,
}

/// What follows from a configuration.
#[derive(Debug, Clone, Copy)]
pub struct DerivedParams {
    pub encoder_type: stats::EncoderType,
    pub fec_video_bitrate: u32,
    pub fec_audio_bitrate: u32,
    /// The frames between key frames; -1 if none are forced.
    pub keyframe_frame_distance: i32,
    pub min_keyframe_frame_distance: u32,
    /// How much larger the buffer is than a frame.
    pub vbv_multiplier: number::Double,
}

/// The least number of frames between key frames.
pub const MIN_KEYFRAME_FRAMES: u32 = 60;

impl DerivedParams {
    /// Derives the parameters from a configuration and its figures: key frames, if they are forced,
    /// are at least sixty frames apart, and need a buffer twice as large.
    pub fn from_config(config: &PipelineConfig, figures: Figures) -> (r: DerivedParams)
        ensures
            r.encoder_type == (if config.codec is H264 {
                stats::EncoderType::NvH264
            } else {
                stats::EncoderType::NvH265
            }),
            r.fec_video_bitrate == figures.fec_video_bitrate,
            r.fec_audio_bitrate == figures.fec_audio_bitrate,
            r.keyframe_frame_distance == (if config.keyframe_distance.negative() {
                -1
            } else if figures.keyframe_frames < MIN_KEYFRAME_FRAMES {
                MIN_KEYFRAME_FRAMES as int
            } else {
                figures.keyframe_frames as int
            }),
            r.min_keyframe_frame_distance == MIN_KEYFRAME_FRAMES,
            r.vbv_multiplier.bits == (if config.keyframe_distance.negative() {
                ONE_AND_A_HALF
            } else {
                THREE
            }),
    {
        let free = config.keyframe_distance.is_negative();
        let distance: i32 = if free {
            -1
        } else if figures.keyframe_frames < 60 {
            60
        } else {
            figures.keyframe_frames
        };
        let bits: u64 = if free {
            ONE_AND_A_HALF
        } else {
            THREE
        };
        DerivedParams {
            encoder_type: config.codec.encoder_type(),
            fec_video_bitrate: figures.fec_video_bitrate,
            fec_audio_bitrate: figures.fec_audio_bitrate,
            keyframe_frame_distance: distance,
            min_keyframe_frame_distance: MIN_KEYFRAME_FRAMES,
            vbv_multiplier: number::Double { bits },
        }
    }
}

/// The value of a property.
#[derive(Debug)]
pub enum PropertyValue {
    Int(i32),
    Unsigned(u32),
    Bool(bool),
    Text(String),
    /// The name of a value of an enumeration.
    Choice(&'static str),
    /// The format of a stream.
    Caps { media: &'static str, encoding_name: &'static str, payload: i32 },
}

/// What the value of a property says.
pub enum ValueView {
    Int(i32),
    Unsigned(u32),
    Bool(bool),
    Text(Seq<char>),
    Choice(Seq<char>),
    Caps { media: Seq<char>, encoding_name: Seq<char>, payload: i32 },
}

/// A property of an element.
#[derive(Debug)]
pub struct Property {
    pub name: &'static str,
    pub value: PropertyValue,
}

/// An element of the pipeline: what it is made of, its name, its properties, and what is said if
/// it cannot be made.
#[derive(Debug)]
pub struct ElementPlan {
    pub factory: &'static str,
    pub name: Option<&'static str>,
    pub properties: Vec<Property>,
    pub missing: &'static str,
}

/// What an element of the pipeline says.
pub struct ElementView {
    pub factory: Seq<char>,
    pub name: Option<Seq<char>>,
    pub properties: Seq<(Seq<char>, ValueView)>,
    pub missing: Seq<char>,
}

impl View for PropertyValue {
    type V = ValueView;

    open spec fn view(&self) -> ValueView {
        match self {
            PropertyValue::Int(n) => ValueView::Int(*n),
            PropertyValue::Unsigned(n) => ValueView::Unsigned(*n),
            PropertyValue::Bool(b) => ValueView::Bool(*b),
            PropertyValue::Text(t) => ValueView::Text(t@),
            PropertyValue::Choice(t) => ValueView::Choice(t@),
            PropertyValue::Caps { media, encoding_name, payload } => ValueView::Caps {
                media: media@,
                encoding_name: encoding_name@,
                payload: *payload,
            },
        }
    }
}

impl View for Property {
    type V = (Seq<char>, ValueView);

    open spec fn view(&self) -> (Seq<char>, ValueView) {
        (self.name@, self.value@)
    }
}

/// What the properties of a list say.
pub open spec fn properties_of(v: Seq<Property>) -> Seq<(Seq<char>, ValueView)> {
    Seq::new(v.len(), |i: int| v[i]@)
}

impl View for ElementPlan {
    type V = ElementView;

    open spec fn view(&self) -> ElementView {
        ElementView {
            factory: self.factory@,
            name: match self.name {
                Some(n) => Some(n@),
                None => None,
            },
            properties: properties_of(self.properties@),
            missing: self.missing@,
        }
    }
}

/// What the elements of a list say.
pub open spec fn elements_of(v: Seq<ElementPlan>) -> Seq<ElementView> {
    Seq::new(v.len(), |i: int| v[i]@)
}

fn element(factory: &'static str, name: Option<&'static str>, missing: &'static str) -> (r:
    ElementPlan)
    ensures
        r@ == (ElementView {
            factory: factory@,
            name: match name {
                Some(n) => Some(n@),
                None => None,
            },
            properties: Seq::empty(),
            missing: missing@,
        }),
{
    let r = ElementPlan { factory, name, properties: Vec::new(), missing };
    assert(properties_of(r.properties@) =~= Seq::empty());
    r
}

impl ElementPlan {
    /// The element with one more property.
    fn with(self, name: &'static str, value: PropertyValue) -> (r: ElementPlan)
        ensures
            r@ == (ElementView {
                properties: self@.properties.push((name@, value@)),
                factory: self@.factory,
                name: self@.name,
                missing: self@.missing,
            }),
    {
        let ghost before = properties_of(self.properties@);
        let ghost said = (name@, value@);
        let mut r = self;
        r.properties.push(Property { name, value });
        assert(properties_of(r.properties@) =~= before.push(said));
        r
    }
}

/// An element without properties.
pub open spec fn bare(factory: Seq<char>, name: Option<Seq<char>>, missing: Seq<char>) -> ElementView {
    ElementView { factory, name, properties: Seq::empty(), missing }
}

impl ElementView {
    /// The element with one more property.
    pub open spec fn having(self, name: Seq<char>, value: ValueView) -> ElementView {
        ElementView { properties: self.properties.push((name, value)), ..self }
    }
}

/// The capturing encoder.
pub open spec fn encoder_element(config: PipelineConfig) -> ElementView {
    bare(
        "nvfbcenc"@,
        Some("enc"@),
        "nvfbcenc not found — build gpu-streaming/gstreamer-plugin first"@,
    ).having("framerate"@, ValueView::Int(config.framerate)).having(
        "bitrate"@,
        ValueView::Int(config.video_bitrate),
    ).having(
        "codec"@,
        ValueView::Int(
            if config.codec is H264 {
                0
            } else {
                1
            },
        ),
    ).having("show-pointer"@, ValueView::Bool(config.show_pointer)).having(
        "push-model"@,
        ValueView::Bool(true),
    )
}

/// The parser of the encoded video.
pub open spec fn parse_element(codec: VideoCodec) -> ElementView {
    let name = match codec {
        VideoCodec::H264 => "h264parse"@,
        VideoCodec::H265 => "h265parse"@,
    };
    bare(name, None, name).having("config-interval"@, ValueView::Int(-1i32))
}

/// The payloader of the video.
pub open spec fn pay_element(codec: VideoCodec) -> ElementView {
    let name = match codec {
        VideoCodec::H264 => "rtph264pay"@,
        VideoCodec::H265 => "rtph265pay"@,
    };
    bare(name, Some("videopay"@), name).having("config-interval"@, ValueView::Int(-1i32)).having(
        "aggregate-mode"@,
        ValueView::Choice("zero-latency"@),
    )
}

/// The source of the audio.
pub open spec fn audio_source(device: Option<String>) -> ElementView {
    let source = bare("pulsesrc"@, Some("audiosrc"@), "pulsesrc"@);
    match device {
        Some(d) => source.having("device"@, ValueView::Text(d@)),
        None => source,
    }
}

/// The encoder of the audio.
pub open spec fn opus_element(bitrate: i32) -> ElementView {
    bare("opusenc"@, Some("opusenc"@), "opusenc"@).having("bitrate"@, ValueView::Int(bitrate)).having(
        "audio-type"@,
        ValueView::Choice("voice"@),
    ).having("frame-size"@, ValueView::Int(10))
}

/// A filter that fixes the format of a stream.
pub open spec fn caps_element(
    name: Seq<char>,
    missing: Seq<char>,
    media: Seq<char>,
    encoding_name: Seq<char>,
    payload: i32,
) -> ElementView {
    bare("capsfilter"@, Some(name), missing).having(
        "caps"@,
        ValueView::Caps { media, encoding_name, payload },
    )
}

/// The elements of the pipeline, in the order in which they are made.
pub open spec fn elements(config: PipelineConfig) -> Seq<ElementView> {
    seq![
        encoder_element(config),
        parse_element(config.codec),
        pay_element(config.codec),
        audio_source(config.audio_device),
        bare("audioconvert"@, None, "audioconvert"@),
        bare("audioresample"@, None, "audioresample"@),
        opus_element(config.audio_bitrate),
        bare("rtpopuspay"@, Some("audiopay"@), "rtpopuspay"@).having(
            "pt"@,
            ValueView::Unsigned(111),
        ),
        bare("webrtcbin"@, Some("sendrecv"@), "webrtcbin"@).having(
            "bundle-policy"@,
            ValueView::Choice("max-bundle"@),
        ),
        caps_element(
            "videocapsfilter"@,
            "capsfilter (video)"@,
            "video"@,
            config.codec.name(),
            96,
        ),
        caps_element("audiocapsfilter"@, "capsfilter (audio)"@, "audio"@, "OPUS"@, 111),
    ]
}

/// The plan of a pipeline: its elements, the chains in which they are linked, and the servers that
/// the last element is told. Each chain ends at the element for the peer connection.
#[derive(Debug)]
pub struct PipelinePlan {
    pub elements: Vec<ElementPlan>,
    /// The positions of the elements of the video, in the order of the stream.
    pub video_chain: Vec<usize>,
    /// The positions of the elements of the audio, in the order of the stream.
    pub audio_chain: Vec<usize>,
    /// The position of the element for the peer connection.
    pub webrtc: usize,
    /// The position of the encoder, whose bitrate can change.
    pub encoder: usize,
    pub stun_server: Option<String>,
    pub turn_servers: Vec<String>,
}

/// The characters of each text of a list.
pub open spec fn strings(v: Seq<String>) -> Seq<Seq<char>> {
    Seq::new(v.len(), |i: int| v[i]@)
}

/// Every position below `n` stands in one of the chains or is the last element, and in one only.
pub open spec fn covers(video: Seq<usize>, audio: Seq<usize>, last: usize, n: int) -> bool {
    &&& forall|i: int|
        0 <= i < n ==> #[trigger] video.contains(i as usize) || audio.contains(i as usize) || i
            == last
    &&& video.len() + audio.len() + 1 == n
    &&& last < n
}

impl PipelinePlan {
    /// The plan for a configuration.
    pub open spec fn plans(&self, config: PipelineConfig) -> bool {
        &&& elements_of(self.elements@) == elements(config)
        &&& self.video_chain@ == seq![0usize, 1, 2, 9]
        &&& self.audio_chain@ == seq![3usize, 4, 5, 6, 7, 10]
        &&& self.webrtc == 8
        &&& self.encoder == 0
        &&& text::text_of(self.stun_server) == text::text_of(config.stun_server)
        &&& strings(self.turn_servers@) == strings(config.turn_servers@)
    }

    /// Plans the pipeline for a configuration: encoder, parser, payloader and filter make the video
    /// chain; source, converter, resampler, encoder, payloader and filter make the audio chain.
    pub fn new(config: &PipelineConfig) -> (r: PipelinePlan)
        ensures
            r.plans(*config),
            covers(r.video_chain@, r.audio_chain@, r.webrtc, r.elements@.len() as int),
    {
        let mut list: Vec<ElementPlan> = Vec::new();
        list.push(plan_encoder(config));
        list.push(plan_parse(config.codec));
        list.push(plan_pay(config.codec));
        list.push(plan_audio_source(&config.audio_device));
        list.push(element("audioconvert", None, "audioconvert"));
        list.push(element("audioresample", None, "audioresample"));
        list.push(plan_opus(config.audio_bitrate));
        list.push(
            element("rtpopuspay", Some("audiopay"), "rtpopuspay").with(
                "pt",
                PropertyValue::Unsigned(111),
            ),
        );
        list.push(
            element("webrtcbin", Some("sendrecv"), "webrtcbin").with(
                "bundle-policy",
                PropertyValue::Choice("max-bundle"),
            ),
        );
        list.push(
            element("capsfilter", Some("videocapsfilter"), "capsfilter (video)").with(
                "caps",
                PropertyValue::Caps {
                    media: "video",
                    encoding_name: config.codec.encoding_name(),
                    payload: 96,
                },
            ),
        );
        list.push(
            element("capsfilter", Some("audiocapsfilter"), "capsfilter (audio)").with(
                "caps",
                PropertyValue::Caps { media: "audio", encoding_name: "OPUS", payload: 111 },
            ),
        );
        assert(elements_of(list@) =~= elements(*config));
        let stun_server = match &config.stun_server {
            Some(s) => Some(s.clone()),
            None => None,
        };
        let r = PipelinePlan {
            elements: list,
            video_chain: vec![0, 1, 2, 9],
            audio_chain: vec![3, 4, 5, 6, 7, 10],
            webrtc: 8,
            encoder: 0,
            stun_server,
            turn_servers: copy_strings(&config.turn_servers),
        };
        assert(covers(r.video_chain@, r.audio_chain@, r.webrtc, 11)) by {
            let (v, a) = (r.video_chain@, r.audio_chain@);
            assert(v[0] == 0 && v[1] == 1 && v[2] == 2 && v[3] == 9);
            assert(a[0] == 3 && a[1] == 4 && a[2] == 5 && a[3] == 6 && a[4] == 7 && a[5] == 10);
        }
        r
    }
}

fn copy_strings(v: &Vec<String>) -> (r: Vec<String>)
    ensures
        strings(r@) == strings(v@),
{
    let mut out: Vec<String> = Vec::new();
    let mut i: usize = 0;
    while i < v.len()
        invariant
            i <= v@.len(),
            strings(out@) == strings(v@).take(i as int),
        decreases v@.len() - i,
    {
        let ghost before = strings(out@);
        let t = v[i].clone();
        out.push(t);
        i += 1;
        assert(strings(out@) =~= before.push(t@));
        assert(strings(v@).take(i as int) =~= strings(v@).take(i - 1).push(strings(v@)[i - 1]));
    }
    assert(strings(v@).take(i as int) =~= strings(v@));
    out
}

fn plan_encoder(config: &PipelineConfig) -> (r: ElementPlan)
    ensures
        r@ == encoder_element(*config),
{
    element(
        "nvfbcenc",
        Some("enc"),
        "nvfbcenc not found — build gpu-streaming/gstreamer-plugin first",
    ).with("framerate", PropertyValue::Int(config.framerate)).with(
        "bitrate",
        PropertyValue::Int(config.video_bitrate),
    ).with("codec", PropertyValue::Int(config.codec.nvfbcenc_codec_id())).with(
        "show-pointer",
        PropertyValue::Bool(config.show_pointer),
    ).with("push-model", PropertyValue::Bool(true))
}

fn plan_parse(codec: VideoCodec) -> (r: ElementPlan)
    ensures
        r@ == parse_element(codec),
{
    let name: &'static str = match codec {
        VideoCodec::H264 => "h264parse",
        VideoCodec::H265 => "h265parse",
    };
    element(name, None, name).with("config-interval", PropertyValue::Int(-1))
}

fn plan_pay(codec: VideoCodec) -> (r: ElementPlan)
    ensures
        r@ == pay_element(codec),
{
    let name: &'static str = match codec {
        VideoCodec::H264 => "rtph264pay",
        VideoCodec::H265 => "rtph265pay",
    };
    element(name, Some("videopay"), name).with("config-interval", PropertyValue::Int(-1)).with(
        "aggregate-mode",
        PropertyValue::Choice("zero-latency"),
    )
}

fn plan_audio_source(device: &Option<String>) -> (r: ElementPlan)
    ensures
        r@ == audio_source(*device),
{
    let source = element("pulsesrc", Some("audiosrc"), "pulsesrc");
    match device {
        Some(d) => source.with("device", PropertyValue::Text(d.clone())),
        None => source,
    }
}

fn plan_opus(bitrate: i32) -> (r: ElementPlan)
    ensures
        r@ == opus_element(bitrate),
{
    element("opusenc", Some("opusenc"), "opusenc").with("bitrate", PropertyValue::Int(bitrate)).with(
        "audio-type",
        PropertyValue::Choice("voice"),
    ).with("frame-size", PropertyValue::Int(10))
}

/// The bitrate of a running pipeline, in kilobits per second.
#[derive(Debug)]
pub struct PipelineState {
    bitrate: i32,
}

impl PipelineState {
    /// The bitrate.
    pub closed spec fn kbps(&self) -> int {
        self.bitrate as int
    }

    /// A pipeline starts with the bitrate that it was configured with.
    pub fn new(video_bitrate: i32) -> (r: PipelineState)
        ensures
            r.kbps() == video_bitrate,
    {
        PipelineState { bitrate: video_bitrate }
    }

    /// Changes the bitrate, kept between 500 and 50000, and gives the one that the encoder is told.
    pub fn set_bitrate(&mut self, kbps: i32) -> (r: i32)
        ensures
            r == (if kbps < 500 {
                500i32
            } else if kbps > 50_000 {
                50_000i32
            } else {
                kbps
            }),
            final(self).kbps() == r,
            500 <= r <= 50_000,
            kbps <= r ==> r == kbps || r == 500,
            kbps >= r ==> r == kbps || r == 50_000,
    {
        let kept: i32 = if kbps < 500 {
            500
        } else if kbps > 50_000 {
            50_000
        } else {
            kbps
        };
        self.bitrate = kept;
        kept
    }

    /// The current bitrate.
    pub fn bitrate(&self) -> (r: i32)
        ensures
            r == self.kbps(),
    {
        self.bitrate
    }
}

/// An element has a property with the given value, and no other value of it.
pub open spec fn has(e: ElementView, name: Seq<char>, value: ValueView) -> bool {
    &&& e.properties.contains((name, value))
    &&& forall|i: int|
        0 <= i < e.properties.len() && (#[trigger] e.properties[i]).0 == name ==> e.properties[i].1
            == value
}

/// The element of a plan at a position of its video chain.
pub open spec fn video_element(plan: PipelinePlan, i: int) -> ElementView {
    plan.elements@[plan.video_chain@[i] as int]@
}

/// The element of a plan at a position of its audio chain.
pub open spec fn audio_element(plan: PipelinePlan, i: int) -> ElementView {
    plan.elements@[plan.audio_chain@[i] as int]@
}

/// The elements of the video chain agree on the codec of the configuration: what the encoder makes
/// is what the parser reads, what the payloader packs, and what the caps call it.
pub proof fn law_video_chain_agrees(plan: PipelinePlan, config: PipelineConfig)
    requires
        plan.plans(config),
    ensures
        plan.video_chain@.len() == 4,
        video_element(plan, 0).factory == "nvfbcenc"@,
        video_element(plan, 3).factory == "capsfilter"@,
        config.codec is H264 ==> {
            &&& has(video_element(plan, 0), "codec"@, ValueView::Int(0))
            &&& video_element(plan, 1).factory == "h264parse"@
            &&& video_element(plan, 2).factory == "rtph264pay"@
            &&& has(
                video_element(plan, 3),
                "caps"@,
                (ValueView::Caps { media: "video"@, encoding_name: "H264"@, payload: 96 }),
            )
        },
        config.codec is H265 ==> {
            &&& has(video_element(plan, 0), "codec"@, ValueView::Int(1))
            &&& video_element(plan, 1).factory == "h265parse"@
            &&& video_element(plan, 2).factory == "rtph265pay"@
            &&& has(
                video_element(plan, 3),
                "caps"@,
                (ValueView::Caps { media: "video"@, encoding_name: "H265"@, payload: 96 }),
            )
        },
{
    lemma_elements(plan, config);
    lemma_encoder_properties(config);
    lemma_only(video_element(plan, 3));
}

/// The encoder captures as the configuration says; parameter sets stand before every key frame,
/// which parser and payloader see to; and packets leave at once.
pub proof fn law_video_properties(plan: PipelinePlan, config: PipelineConfig)
    requires
        plan.plans(config),
    ensures
        plan.encoder == plan.video_chain@[0],
        has(video_element(plan, 0), "framerate"@, ValueView::Int(config.framerate)),
        has(video_element(plan, 0), "bitrate"@, ValueView::Int(config.video_bitrate)),
        has(video_element(plan, 0), "show-pointer"@, ValueView::Bool(config.show_pointer)),
        has(video_element(plan, 0), "push-model"@, ValueView::Bool(true)),
        has(video_element(plan, 1), "config-interval"@, ValueView::Int(-1i32)),
        has(video_element(plan, 2), "config-interval"@, ValueView::Int(-1i32)),
        has(video_element(plan, 2), "aggregate-mode"@, ValueView::Choice("zero-latency"@)),
{
    lemma_elements(plan, config);
    lemma_encoder_properties(config);
    lemma_only(video_element(plan, 1));
    let pay = video_element(plan, 2);
    reveal_strlit("config-interval");
    reveal_strlit("aggregate-mode");
    assert("config-interval"@.len() != "aggregate-mode"@.len());
    assert(pay.properties[0].0 == "config-interval"@);
    assert(pay.properties[1].0 == "aggregate-mode"@);
    assert(pay.properties.contains(pay.properties[0]));
    assert(pay.properties.contains(pay.properties[1]));
}

/// The audio chain captures, converts, encodes and packs Opus; payloader and caps agree on the
/// payload number.
pub proof fn law_audio_chain(plan: PipelinePlan, config: PipelineConfig)
    requires
        plan.plans(config),
    ensures
        plan.audio_chain@.len() == 6,
        audio_element(plan, 0).factory == "pulsesrc"@,
        audio_element(plan, 1).factory == "audioconvert"@,
        audio_element(plan, 2).factory == "audioresample"@,
        audio_element(plan, 3).factory == "opusenc"@,
        audio_element(plan, 4).factory == "rtpopuspay"@,
        audio_element(plan, 5).factory == "capsfilter"@,
        config.audio_device matches Some(d) ==> has(
            audio_element(plan, 0),
            "device"@,
            ValueView::Text(d@),
        ),
        config.audio_device is None ==> audio_element(plan, 0).properties.len() == 0,
        has(audio_element(plan, 3), "bitrate"@, ValueView::Int(config.audio_bitrate)),
        has(audio_element(plan, 3), "audio-type"@, ValueView::Choice("voice"@)),
        has(audio_element(plan, 3), "frame-size"@, ValueView::Int(10)),
        has(audio_element(plan, 4), "pt"@, ValueView::Unsigned(111)),
        has(
            audio_element(plan, 5),
            "caps"@,
            (ValueView::Caps { media: "audio"@, encoding_name: "OPUS"@, payload: 111 }),
        ),
{
    lemma_elements(plan, config);
    reveal_strlit("bitrate");
    reveal_strlit("audio-type");
    reveal_strlit("frame-size");
    assert("audio-type"@[0] != "frame-size"@[0]);
    let opus = audio_element(plan, 3);
    assert(opus.properties[0].0 == "bitrate"@);
    assert(opus.properties[1].0 == "audio-type"@);
    assert(opus.properties[2].0 == "frame-size"@);
    assert(opus.properties.contains(opus.properties[0]));
    assert(opus.properties.contains(opus.properties[1]));
    assert(opus.properties.contains(opus.properties[2]));
    if config.audio_device is Some {
        lemma_only(audio_element(plan, 0));
    }
    lemma_only(audio_element(plan, 4));
    lemma_only(audio_element(plan, 5));
}

/// Both chains end at the peer connection, which bundles them and is told the servers of the
/// configuration; callers find the elements by their names.
pub proof fn law_peer_connection(plan: PipelinePlan, config: PipelineConfig)
    requires
        plan.plans(config),
    ensures
        plan.elements@[plan.webrtc as int]@.factory == "webrtcbin"@,
        has(
            plan.elements@[plan.webrtc as int]@,
            "bundle-policy"@,
            ValueView::Choice("max-bundle"@),
        ),
        !plan.video_chain@.contains(plan.webrtc),
        !plan.audio_chain@.contains(plan.webrtc),
        plan.stun_server is Some <==> config.stun_server is Some,
        plan.stun_server matches Some(s) ==> config.stun_server matches Some(t) && s@ == t@,
        plan.turn_servers@.len() == config.turn_servers@.len(),
        forall|i: int|
            0 <= i < config.turn_servers@.len() ==> (#[trigger] plan.turn_servers@[i])@
                == config.turn_servers@[i]@,
        plan.elements@[plan.webrtc as int]@.name == Some("sendrecv"@),
        video_element(plan, 0).name == Some("enc"@),
        video_element(plan, 2).name == Some("videopay"@),
        video_element(plan, 3).name == Some("videocapsfilter"@),
        audio_element(plan, 0).name == Some("audiosrc"@),
        audio_element(plan, 3).name == Some("opusenc"@),
        audio_element(plan, 4).name == Some("audiopay"@),
        audio_element(plan, 5).name == Some("audiocapsfilter"@),
{
    lemma_elements(plan, config);
    lemma_only(plan.elements@[8]@);
    assert(strings(plan.turn_servers@).len() == strings(config.turn_servers@).len());
    assert forall|i: int| 0 <= i < config.turn_servers@.len() implies (
    #[trigger] plan.turn_servers@[i])@ == config.turn_servers@[i]@ by {
        assert(strings(plan.turn_servers@)[i] == strings(config.turn_servers@)[i]);
    }
}

/// What is said of an element that cannot be made tells which one it is.
pub proof fn law_missing_elements(plan: PipelinePlan, config: PipelineConfig)
    requires
        plan.plans(config),
    ensures
        video_element(plan, 0).missing
            == "nvfbcenc not found — build gpu-streaming/gstreamer-plugin first"@,
        video_element(plan, 3).missing == "capsfilter (video)"@,
        audio_element(plan, 5).missing == "capsfilter (audio)"@,
        forall|i: int|
            0 <= i < plan.elements@.len() && i != plan.video_chain@[0] && i != plan.video_chain@[3]
                && i != plan.audio_chain@[5] ==> (#[trigger] plan.elements@[i])@.missing
                == plan.elements@[i]@.factory,
{
    lemma_elements(plan, config);
    assert forall|i: int|
        0 <= i < plan.elements@.len() && i != plan.video_chain@[0] && i != plan.video_chain@[3] && i
            != plan.audio_chain@[5] implies (#[trigger] plan.elements@[i])@.missing
        == plan.elements@[i]@.factory by {
        assert(elements_of(plan.elements@)[i] == elements(config)[i]);
        assert(elements_of(plan.elements@).len() == 11);
    }
}

proof fn lemma_elements(plan: PipelinePlan, config: PipelineConfig)
    requires
        plan.plans(config),
    ensures
        plan.elements@.len() == 11,
        forall|i: int| 0 <= i < 11 ==> (#[trigger] plan.elements@[i])@ == elements(config)[i],
{
    assert(elements_of(plan.elements@).len() == elements(config).len());
    assert forall|i: int| 0 <= i < 11 implies (#[trigger] plan.elements@[i])@ == elements(
        config,
    )[i] by {
        assert(elements_of(plan.elements@)[i] == plan.elements@[i]@);
    }
}

proof fn lemma_only(e: ElementView)
    requires
        e.properties.len() == 1,
    ensures
        has(e, e.properties[0].0, e.properties[0].1),
{
    assert(e.properties.contains(e.properties[0]));
}

proof fn lemma_encoder_properties(config: PipelineConfig)
    ensures
        has(encoder_element(config), "framerate"@, ValueView::Int(config.framerate)),
        has(encoder_element(config), "bitrate"@, ValueView::Int(config.video_bitrate)),
        has(
            encoder_element(config),
            "codec"@,
            ValueView::Int(
                if config.codec is H264 {
                    0
                } else {
                    1
                },
            ),
        ),
        has(encoder_element(config), "show-pointer"@, ValueView::Bool(config.show_pointer)),
        has(encoder_element(config), "push-model"@, ValueView::Bool(true)),
{
    reveal_strlit("framerate");
    reveal_strlit("bitrate");
    reveal_strlit("codec");
    reveal_strlit("show-pointer");
    reveal_strlit("push-model");
    let p = encoder_element(config).properties;
    assert(p.len() == 5);
    assert(p[0].0 == "framerate"@);
    assert(p[1].0 == "bitrate"@);
    assert(p[2].0 == "codec"@);
    assert(p[3].0 == "show-pointer"@);
    assert(p[4].0 == "push-model"@);
    assert("framerate"@.len() == 9 && "bitrate"@.len() == 7 && "codec"@.len() == 5
        && "show-pointer"@.len() == 12 && "push-model"@.len() == 10);
    assert(p.contains(p[0]) && p.contains(p[1]) && p.contains(p[2]) && p.contains(p[3])
        && p.contains(p[4]));
}

} // verus!
