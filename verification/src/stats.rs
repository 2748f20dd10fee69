//! Bitrates: what encoders are told, and the range of the congestion control.

use vstd::prelude::*;
use crate::number;
use crate::sdp;
use crate::splice;
use crate::text;

verus! {

broadcast use vstd::string::group_string_axioms;

/// The encoders that the server knows.
#[derive(Debug, Clone, Copy, PartialEq, Eq, Hash, Structural)]
pub enum EncoderType {
    NvH264,
    NvH265,
    VaH264,
    VaH265,
    X264,
    X265,
    OpenH264,
    Vp8,
    Vp9,
    SvtAv1,
    Av1,
    Rav1,
}

/// The encoders with a name of their own.
pub open spec fn software_encoder(lower: Seq<char>) -> Option<EncoderType> {
    if lower == "x264enc"@ {
        Some(EncoderType::X264)
    } else if lower == "x265enc"@ {
        Some(EncoderType::X265)
    } else if lower == "openh264enc"@ {
        Some(EncoderType::OpenH264)
    } else if lower == "vp8enc"@ {
        Some(EncoderType::Vp8)
    } else if lower == "vp9enc"@ {
        Some(EncoderType::Vp9)
    } else if lower == "svtav1enc"@ {
        Some(EncoderType::SvtAv1)
    } else if lower == "av1enc"@ {
        Some(EncoderType::Av1)
    } else if lower == "rav1enc"@ {
        Some(EncoderType::Rav1)
    } else {
        None
    }
}

/// A name that speaks of H.265.
pub open spec fn names_h265(lower: Seq<char>) -> bool {
    text::occurs(lower, "h265"@) || text::occurs(lower, "hevc"@)
}

/// The encoder with the given lowercase name: one with a name of its own, or one of the two
/// families of hardware encoders.
pub open spec fn encoder_of(lower: Seq<char>) -> Option<EncoderType> {
    if software_encoder(lower) is Some {
        software_encoder(lower)
    } else if text::begins(lower, "nv"@) && lower != "nvfbcenc"@ {
        if names_h265(lower) {
            Some(EncoderType::NvH265)
        } else {
            Some(EncoderType::NvH264)
        }
    } else if text::begins(lower, "va"@) {
        if names_h265(lower) {
            Some(EncoderType::VaH265)
        } else {
            Some(EncoderType::VaH264)
        }
    } else {
        None
    }
}

fn find_software_encoder(lower: &[char]) -> (r: Option<EncoderType>)
    ensures
        r == software_encoder(lower@),
{
    if text::is(lower, "x264enc") {
        Some(EncoderType::X264)
    } else if text::is(lower, "x265enc") {
        Some(EncoderType::X265)
    } else if text::is(lower, "openh264enc") {
        Some(EncoderType::OpenH264)
    } else if text::is(lower, "vp8enc") {
        Some(EncoderType::Vp8)
    } else if text::is(lower, "vp9enc") {
        Some(EncoderType::Vp9)
    } else if text::is(lower, "svtav1enc") {
        Some(EncoderType::SvtAv1)
    } else if text::is(lower, "av1enc") {
        Some(EncoderType::Av1)
    } else if text::is(lower, "rav1enc") {
        Some(EncoderType::Rav1)
    } else {
        None
    }
}

impl EncoderType {
    /// Finds the encoder with the given lowercase name.
    pub fn from_lowercase_name(lower: &str) -> (r: Option<EncoderType>)
        ensures
            r == encoder_of(lower@),
    {
        let chars = text::to_chars(lower);
        match find_software_encoder(chars.as_slice()) {
            Some(e) => {
                return Some(e);
            },
            None => {},
        }
        let h265 = text::has(lower, "h265") || text::has(lower, "hevc");
        if text::starts_with(chars.as_slice(), "nv") && !text::is(chars.as_slice(), "nvfbcenc") {
            if h265 {
                Some(EncoderType::NvH265)
            } else {
                Some(EncoderType::NvH264)
            }
        } else if text::starts_with(chars.as_slice(), "va") {
            if h265 {
                Some(EncoderType::VaH265)
            } else {
                Some(EncoderType::VaH264)
            }
        } else {
            None
        }
    }

    /// Finds the encoder with the given name, whatever its case.
    pub fn from_encoder_name(name: &str) -> (r: Option<EncoderType>)
        ensures
            r == encoder_of(text::lowercased(name@)),
            text::ascii(name@) ==> r == encoder_of(text::ascii_lowercased(name@)),
    {
        let lower = text::lowercase(name);
        EncoderType::from_lowercase_name(&lower)
    }

    /// The name of the encoder in the pipeline.
    pub open spec fn element_name(self) -> Seq<char> {
        match self {
            EncoderType::NvH264 | EncoderType::NvH265 => "nvenc"@,
            EncoderType::VaH264 | EncoderType::VaH265 => "vaenc"@,
            EncoderType::X264 => "x264enc"@,
            EncoderType::X265 => "x265enc"@,
            EncoderType::OpenH264 => "openh264enc"@,
            EncoderType::Vp8 | EncoderType::Vp9 => "vpenc"@,
            EncoderType::SvtAv1 => "svtav1enc"@,
            EncoderType::Av1 => "av1enc"@,
            EncoderType::Rav1 => "rav1enc"@,
        }
    }

    /// The name of the encoder in the pipeline.
    pub fn pipeline_element_name(&self) -> (r: &'static str)
        ensures
            r@ == self.element_name(),
    {
        match self {
            EncoderType::NvH264 | EncoderType::NvH265 => "nvenc",
            EncoderType::VaH264 | EncoderType::VaH265 => "vaenc",
            EncoderType::X264 => "x264enc",
            EncoderType::X265 => "x265enc",
            EncoderType::OpenH264 => "openh264enc",
            EncoderType::Vp8 | EncoderType::Vp9 => "vpenc",
            EncoderType::SvtAv1 => "svtav1enc",
            EncoderType::Av1 => "av1enc",
            EncoderType::Rav1 => "rav1enc",
        }
    }

    /// The encoder counts its bitrate in bits per second, and calls it a target.
    pub open spec fn counts_bits(self) -> bool {
        self is OpenH264 || self is Rav1 || self is Vp8 || self is Vp9
    }

    /// The property that holds the bitrate.
    pub fn bitrate_property(&self) -> (r: &'static str)
        ensures
            r@ == (if self.counts_bits() {
                "target-bitrate"@
            } else {
                "bitrate"@
            }),
    {
        match self {
            EncoderType::OpenH264 | EncoderType::Rav1 | EncoderType::Vp8 | EncoderType::Vp9 => {
                "target-bitrate"
            },
            _ => "bitrate",
        }
    }

    /// Whether the encoder counts its bitrate in kilobits per second.
    pub fn bitrate_in_kbps(&self) -> (r: bool)
        ensures
            r == !self.counts_bits(),
    {
        match self {
            EncoderType::OpenH264 | EncoderType::Rav1 | EncoderType::Vp8 | EncoderType::Vp9 => {
                false
            },
            _ => true,
        }
    }

    /// The encoder makes H.264.
    pub open spec fn makes_h264(self) -> bool {
        self is NvH264 || self is VaH264 || self is X264 || self is OpenH264
    }

    /// The encoder makes H.265.
    pub open spec fn makes_h265(self) -> bool {
        self is NvH265 || self is VaH265 || self is X265
    }

    /// Whether the encoder makes H.264.
    pub fn is_h264(&self) -> (r: bool)
        ensures
            r == self.makes_h264(),
    {
        match self {
            EncoderType::NvH264 | EncoderType::VaH264 | EncoderType::X264
            | EncoderType::OpenH264 => true,
            _ => false,
        }
    }

    /// Whether the encoder makes H.265.
    pub fn is_h265(&self) -> (r: bool)
        ensures
            r == self.makes_h265(),
    {
        match self {
            EncoderType::NvH265 | EncoderType::VaH265 | EncoderType::X265 => true,
            _ => false,
        }
    }
}

/// No encoder makes both H.264 and H.265.
pub proof fn law_one_codec(encoder: EncoderType)
    ensures
        !(encoder.makes_h264() && encoder.makes_h265()),
{
}

/// The buffer of an NVENC encoder, in kilobits: half a second.
pub fn nvenc_vbv_buffer_size(fec_bitrate_kbps: u32) -> (r: u32)
    ensures
        r == fec_bitrate_kbps as int / 2,
        2 * r <= fec_bitrate_kbps < 2 * r + 2,
{
    fec_bitrate_kbps / 2
}

/// The kilobits of one frame, rounded up: the unit of the buffer of a VA-API encoder.
pub fn vaapi_frame_size(fec_bitrate_kbps: u32, framerate: u32) -> (r: u32)
    requires
        framerate != 0,
    ensures
        r * framerate >= fec_bitrate_kbps,
        r > 0 ==> (r - 1) * framerate < fec_bitrate_kbps,
{
    let whole: u32 = fec_bitrate_kbps / framerate;
    let rest: u32 = fec_bitrate_kbps % framerate;
    proof {
        vstd::arithmetic::div_mod::lemma_fundamental_div_mod(
            fec_bitrate_kbps as int,
            framerate as int,
        );
        lemma_times(whole as int, framerate as int);
    }
    if rest > 0 {
        assert(whole < u32::MAX) by (nonlinear_arith)
            requires
                fec_bitrate_kbps == framerate * whole + rest,
                rest > 0,
                framerate >= 1,
                fec_bitrate_kbps <= u32::MAX,
        ;
        whole + 1
    } else {
        whole
    }
}

proof fn lemma_times(q: int, f: int)
    ensures
        f * q == q * f,
        (q + 1) * f == q * f + f,
        (q - 1) * f == q * f - f,
{
    assert(f * q == q * f) by (nonlinear_arith);
    assert((q + 1) * f == q * f + f) by (nonlinear_arith);
    assert((q - 1) * f == q * f - f) by (nonlinear_arith);
}

/// The range of the congestion control, in bits per second.
#[derive(Debug, Clone, Copy)]
pub struct CongestionControlRange {
    pub min_bitrate: u32,
    pub max_bitrate: u32,
    pub estimated_bitrate: u32,
}

/// The least total bitrate: a tenth of the video, but at least 100 kilobits per second, and the
/// audio.
pub open spec fn least_bitrate(video_kbps: u32, audio_bps: u32) -> int {
    let video = if video_kbps < 1000 {
        100_000
    } else {
        video_kbps * 100
    };
    video + audio_bps
}

/// The total bitrate.
pub open spec fn total_bitrate(video_kbps: u32, audio_bps: u32) -> int {
    video_kbps * 1000 + audio_bps
}

/// The range of the congestion control for the given video and audio.
pub fn cc_range_for_video(video_bitrate_kbps: u32, fec_audio_bitrate_bps: u32) -> (r:
    CongestionControlRange)
    requires
        total_bitrate(video_bitrate_kbps, fec_audio_bitrate_bps) <= u32::MAX,
    ensures
        r.min_bitrate == least_bitrate(video_bitrate_kbps, fec_audio_bitrate_bps) % 0x1_0000_0000,
        r.max_bitrate == total_bitrate(video_bitrate_kbps, fec_audio_bitrate_bps),
        r.estimated_bitrate == r.max_bitrate,
        video_bitrate_kbps >= 100 ==> r.min_bitrate == least_bitrate(
            video_bitrate_kbps,
            fec_audio_bitrate_bps,
        ) && r.min_bitrate <= r.max_bitrate,
{
    let floor: u64 = 100_000 + fec_audio_bitrate_bps as u64;
    let proportional: u64 = video_bitrate_kbps as u64 * 100 + fec_audio_bitrate_bps as u64;
    let least: u64 = if floor < proportional {
        proportional
    } else {
        floor
    };
    let max: u32 = video_bitrate_kbps * 1000 + fec_audio_bitrate_bps;
    CongestionControlRange {
        min_bitrate: (least % 0x1_0000_0000) as u32,
        max_bitrate: max,
        estimated_bitrate: max,
    }
}

/// The range of the congestion control for the given video and audio.
pub fn cc_range_for_audio(video_bitrate_kbps: u32, fec_audio_bitrate_bps: u32) -> (r:
    CongestionControlRange)
    requires
        total_bitrate(video_bitrate_kbps, fec_audio_bitrate_bps) <= u32::MAX,
    ensures
        r.min_bitrate == least_bitrate(video_bitrate_kbps, fec_audio_bitrate_bps) % 0x1_0000_0000,
        r.max_bitrate == total_bitrate(video_bitrate_kbps, fec_audio_bitrate_bps),
        r.estimated_bitrate == r.max_bitrate,
{
    cc_range_for_video(video_bitrate_kbps, fec_audio_bitrate_bps)
}

/// The bitrate that an encoder is told, in its own unit.
pub open spec fn encoder_bitrate(encoder: EncoderType, kbps: u32) -> int {
    if encoder.counts_bits() {
        kbps * 1000
    } else {
        kbps as int
    }
}

/// The bitrate that an encoder is told, in its own unit.
pub fn bitrate_for_encoder(encoder: &EncoderType, fec_bitrate_kbps: u32) -> (r: u32)
    requires
        encoder_bitrate(*encoder, fec_bitrate_kbps) <= u32::MAX,
    ensures
        r == encoder_bitrate(*encoder, fec_bitrate_kbps),
{
    if encoder.bitrate_in_kbps() {
        fec_bitrate_kbps
    } else {
        fec_bitrate_kbps * 1000
    }
}

/// How loud a line of the log is.
#[derive(Debug, Clone, Copy, PartialEq, Eq, Structural)]
pub enum LogLevel {
    Debug,
    Info,
}

/// The line of the log that tells a change of the bitrate: the changes of the congestion control
/// are told for inspection only.
pub fn log_bitrate_change(bitrate_kbps: u32, is_cc: bool) -> (r: (LogLevel, String))
    ensures
        r.0 == (if is_cc {
            LogLevel::Debug
        } else {
            LogLevel::Info
        }),
        r.1@ == (if is_cc {
            "video bitrate set with congestion control to: "@
        } else {
            "video bitrate set to: "@
        }) + number::decimal(bitrate_kbps as nat),
{
    let (level, head) = if is_cc {
        (LogLevel::Debug, "video bitrate set with congestion control to: ")
    } else {
        (LogLevel::Info, "video bitrate set to: ")
    };
    let mut out = text::to_chars(head);
    number::push_decimal(&mut out, bitrate_kbps as u64);
    (level, text::to_text(out.as_slice()))
}

/// Which names mean which encoder: those with a name of their own have no other one, and a name
/// that begins with `nv` or `va` means a hardware encoder, of H.265 if it speaks of that or of
/// HEVC, and otherwise of H.264. The screen grabber `nvfbcenc` is none of them.
pub proof fn law_encoder_names(lower: Seq<char>)
    ensures
        encoder_of(lower) == Some(EncoderType::X264) <==> lower == "x264enc"@,
        encoder_of(lower) == Some(EncoderType::X265) <==> lower == "x265enc"@,
        encoder_of(lower) == Some(EncoderType::OpenH264) <==> lower == "openh264enc"@,
        encoder_of(lower) == Some(EncoderType::Vp8) <==> lower == "vp8enc"@,
        encoder_of(lower) == Some(EncoderType::Vp9) <==> lower == "vp9enc"@,
        encoder_of(lower) == Some(EncoderType::SvtAv1) <==> lower == "svtav1enc"@,
        encoder_of(lower) == Some(EncoderType::Av1) <==> lower == "av1enc"@,
        encoder_of(lower) == Some(EncoderType::Rav1) <==> lower == "rav1enc"@,
        encoder_of(lower) == Some(EncoderType::NvH265) <==> text::begins(lower, "nv"@) && lower != "nvfbcenc"@ && (
        text::occurs(lower, "h265"@) || text::occurs(lower, "hevc"@)),
        encoder_of(lower) == Some(EncoderType::NvH264) <==> text::begins(lower, "nv"@) && lower != "nvfbcenc"@
            && !text::occurs(lower, "h265"@) && !text::occurs(lower, "hevc"@),
        encoder_of(lower) == Some(EncoderType::VaH265) <==> text::begins(lower, "va"@) && (
        text::occurs(lower, "h265"@) || text::occurs(lower, "hevc"@)),
        encoder_of(lower) == Some(EncoderType::VaH264) <==> text::begins(lower, "va"@)
            && !text::occurs(lower, "h265"@) && !text::occurs(lower, "hevc"@),
{
    lemma_own_names();
    reveal_strlit("nv");
    reveal_strlit("va");
    if text::begins(lower, "nv"@) {
        assert(lower.subrange(0, 2)[0] == 'n' && lower.subrange(0, 2)[1] == 'v');
    }
    if text::begins(lower, "va"@) {
        assert(lower.subrange(0, 2)[0] == 'v' && lower.subrange(0, 2)[1] == 'a');
    }
}

/// The names of the encoders with a name of their own differ, and none begins as those of hardware
/// encoders do.
proof fn lemma_own_names()
    ensures
        "x264enc"@.len() == 7 && "x264enc"@[0] == 'x' && "x264enc"@[1] == '2' && "x264enc"@[2] == '6' && "x264enc"@[3] == '4',
        "x265enc"@.len() == 7 && "x265enc"@[0] == 'x' && "x265enc"@[1] == '2' && "x265enc"@[2] == '6' && "x265enc"@[3] == '5',
        "openh264enc"@.len() == 11 && "openh264enc"@[0] == 'o' && "openh264enc"@[1] == 'p' && "openh264enc"@[2] == 'e' && "openh264enc"@[3] == 'n',
        "vp8enc"@.len() == 6 && "vp8enc"@[0] == 'v' && "vp8enc"@[1] == 'p' && "vp8enc"@[2] == '8' && "vp8enc"@[3] == 'e',
        "vp9enc"@.len() == 6 && "vp9enc"@[0] == 'v' && "vp9enc"@[1] == 'p' && "vp9enc"@[2] == '9' && "vp9enc"@[3] == 'e',
        "svtav1enc"@.len() == 9 && "svtav1enc"@[0] == 's' && "svtav1enc"@[1] == 'v' && "svtav1enc"@[2] == 't' && "svtav1enc"@[3] == 'a',
        "av1enc"@.len() == 6 && "av1enc"@[0] == 'a' && "av1enc"@[1] == 'v' && "av1enc"@[2] == '1' && "av1enc"@[3] == 'e',
        "rav1enc"@.len() == 7 && "rav1enc"@[0] == 'r' && "rav1enc"@[1] == 'a' && "rav1enc"@[2] == 'v' && "rav1enc"@[3] == '1',
{
    reveal_strlit("x264enc");
    reveal_strlit("x265enc");
    reveal_strlit("openh264enc");
    reveal_strlit("vp8enc");
    reveal_strlit("vp9enc");
    reveal_strlit("svtav1enc");
    reveal_strlit("av1enc");
    reveal_strlit("rav1enc");
}

/// What an encoder makes, by its name: the software encoders of H.264 are offered as H.264 and as
/// nothing else, that of H.265 as H.265, the others as neither; and a hardware encoder whose name
/// tells its codec is offered as that.
pub proof fn law_encoders_are_offered(lower: Seq<char>)
    ensures
        encoder_of(lower) matches Some(e) ==> {
            &&& (e == EncoderType::X264 || e == EncoderType::OpenH264) ==> sdp::codecs_of(lower)
                == (sdp::OfferCodecs { h264: true, h265: false })
            &&& e == EncoderType::X265 ==> sdp::codecs_of(lower) == (sdp::OfferCodecs {
                h264: false,
                h265: true,
            })
            &&& (e == EncoderType::Vp8 || e == EncoderType::Vp9 || e == EncoderType::SvtAv1 || e
                == EncoderType::Av1 || e == EncoderType::Rav1) ==> sdp::codecs_of(lower) == (
            sdp::OfferCodecs { h264: false, h265: false })
            &&& e.makes_h264() && text::occurs(lower, "h264"@) ==> sdp::codecs_of(lower).h264
            &&& text::occurs(lower, "h265"@) ==> e.makes_h265() && sdp::codecs_of(lower).h265
        },
{
    if text::occurs(lower, "h265"@) {
        lemma_codec_in_own_names(lower);
        law_encoder_names(lower);
    } else {
        lemma_codec_in_own_names(lower);
    }
}

/// Which codecs stand in the encoders' own names.
proof fn lemma_codec_in_own_names(lower: Seq<char>)
    ensures
        lower == "x264enc"@ || lower == "openh264enc"@ ==> (text::occurs(lower, "h264"@)
            || text::occurs(lower, "x264"@)) && !text::occurs(lower, "h265"@) && !text::occurs(
            lower,
            "x265"@,
        ),
        lower == "x265enc"@ ==> text::occurs(lower, "x265"@) && !text::occurs(lower, "h265"@)
            && !text::occurs(lower, "h264"@) && !text::occurs(lower, "x264"@),
        lower == "vp8enc"@ || lower == "vp9enc"@ || lower == "svtav1enc"@ || lower == "av1enc"@
            || lower == "rav1enc"@ ==> !text::occurs(lower, "h265"@) && !text::occurs(
            lower,
            "x265"@,
        ) && !text::occurs(lower, "h264"@) && !text::occurs(lower, "x264"@),
{
    reveal_strlit("x264enc");
    reveal_strlit("x265enc");
    reveal_strlit("openh264enc");
    reveal_strlit("vp8enc");
    reveal_strlit("vp9enc");
    reveal_strlit("svtav1enc");
    reveal_strlit("av1enc");
    reveal_strlit("rav1enc");
    reveal_strlit("h264");
    reveal_strlit("x264");
    reveal_strlit("h265");
    reveal_strlit("x265");
    if lower == "x264enc"@ {
        assert(lower.subrange(0, 4) =~= "x264"@);
        assert(text::occurs_at(lower, "x264"@, 0));
    }
    if lower == "x265enc"@ {
        assert(lower.subrange(0, 4) =~= "x265"@);
        assert(text::occurs_at(lower, "x265"@, 0));
    }
    if lower == "openh264enc"@ {
        assert(lower.subrange(4, 8) =~= "h264"@);
        assert(text::occurs_at(lower, "h264"@, 4));
    }
    reveal_with_fuel(splice::nowhere, 12);
    reveal_with_fuel(splice::differs, 6);
    if lower == "x264enc"@ {
        lemma_absent(lower, "h265"@);
        lemma_absent(lower, "x265"@);
    }
    if lower == "openh264enc"@ {
        lemma_absent(lower, "h265"@);
        lemma_absent(lower, "x265"@);
    }
    if lower == "x265enc"@ {
        lemma_absent(lower, "h265"@);
        lemma_absent(lower, "h264"@);
        lemma_absent(lower, "x264"@);
    }
    if lower == "vp8enc"@ {
        lemma_absent(lower, "h265"@);
        lemma_absent(lower, "x265"@);
        lemma_absent(lower, "h264"@);
        lemma_absent(lower, "x264"@);
    }
    if lower == "vp9enc"@ {
        lemma_absent(lower, "h265"@);
        lemma_absent(lower, "x265"@);
        lemma_absent(lower, "h264"@);
        lemma_absent(lower, "x264"@);
    }
    if lower == "svtav1enc"@ {
        lemma_absent(lower, "h265"@);
        lemma_absent(lower, "x265"@);
        lemma_absent(lower, "h264"@);
        lemma_absent(lower, "x264"@);
    }
    if lower == "av1enc"@ {
        lemma_absent(lower, "h265"@);
        lemma_absent(lower, "x265"@);
        lemma_absent(lower, "h264"@);
        lemma_absent(lower, "x264"@);
    }
    if lower == "rav1enc"@ {
        lemma_absent(lower, "h265"@);
        lemma_absent(lower, "x265"@);
        lemma_absent(lower, "h264"@);
        lemma_absent(lower, "x264"@);
    }
}

proof fn lemma_absent(s: Seq<char>, w: Seq<char>)
    requires
        w.len() > 0,
        splice::nowhere(s, w, 0),
    ensures
        !text::occurs(s, w),
{
    assert(s.subrange(0, s.len() as int) =~= s);
    assert forall|i: int| !#[trigger] text::occurs_at(s, w, i) by {
        if text::occurs_at(s, w, i) {
            splice::lemma_nowhere(s, s, w, 0, i);
        }
    }
}

/// What each encoder is: its name in the pipeline holds its codec's name or its family's; those
/// that count bits are told a thousand times as much as those that count kilobits.
pub proof fn law_encoders_differ(e: EncoderType, kbps: u32)
    ensures
        e.makes_h264() <==> e == EncoderType::NvH264 || e == EncoderType::VaH264 || e
            == EncoderType::X264 || e == EncoderType::OpenH264,
        e.makes_h265() <==> e == EncoderType::NvH265 || e == EncoderType::VaH265 || e
            == EncoderType::X265,
        e.element_name() == "nvenc"@ <==> e == EncoderType::NvH264 || e == EncoderType::NvH265,
        e.element_name() == "vaenc"@ <==> e == EncoderType::VaH264 || e == EncoderType::VaH265,
        e.element_name() == "vpenc"@ <==> e == EncoderType::Vp8 || e == EncoderType::Vp9,
        e.element_name() == "x264enc"@ <==> e == EncoderType::X264,
        e.element_name() == "x265enc"@ <==> e == EncoderType::X265,
        e.element_name() == "openh264enc"@ <==> e == EncoderType::OpenH264,
        e.element_name() == "svtav1enc"@ <==> e == EncoderType::SvtAv1,
        e.element_name() == "av1enc"@ <==> e == EncoderType::Av1,
        e.element_name() == "rav1enc"@ <==> e == EncoderType::Rav1,
        encoder_bitrate(e, kbps) == kbps * 1000 <==> kbps == 0 || e == EncoderType::OpenH264 || e
            == EncoderType::Rav1 || e == EncoderType::Vp8 || e == EncoderType::Vp9,
        encoder_bitrate(e, kbps) == kbps || encoder_bitrate(e, kbps) == kbps * 1000,
{
    lemma_own_names();
    reveal_strlit("nvenc");
    reveal_strlit("vaenc");
    reveal_strlit("vpenc");
    assert("nvenc"@.len() == 5 && "vaenc"@.len() == 5 && "vpenc"@.len() == 5);
    assert("nvenc"@[0] == 'n' && "vaenc"@[0] == 'v' && "vaenc"@[1] == 'a' && "vpenc"@[0] == 'v'
        && "vpenc"@[1] == 'p');
}

/// The least total bitrate is that of the audio and a tenth of that of the video, or 100 kilobits
/// per second if that is more; the total is that of both. More video never lowers either.
pub proof fn law_bitrate_range(video_kbps: u32, more_kbps: u32, audio_bps: u32)
    requires
        video_kbps <= more_kbps,
    ensures
        least_bitrate(video_kbps, audio_bps) - audio_bps >= 100_000,
        (least_bitrate(video_kbps, audio_bps) - audio_bps) * 10 >= total_bitrate(
            video_kbps,
            audio_bps,
        ) - audio_bps,
        least_bitrate(video_kbps, audio_bps) - audio_bps == 100_000 || (least_bitrate(
            video_kbps,
            audio_bps,
        ) - audio_bps) * 10 == total_bitrate(video_kbps, audio_bps) - audio_bps,
        total_bitrate(video_kbps, audio_bps) == video_kbps * 1000 + audio_bps,
        least_bitrate(video_kbps, audio_bps) <= least_bitrate(more_kbps, audio_bps),
        total_bitrate(video_kbps, audio_bps) <= total_bitrate(more_kbps, audio_bps),
{
}

} // verus!
