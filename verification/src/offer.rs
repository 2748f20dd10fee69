//! What holds of a corrected offer: its settings do not disturb one another.

use vstd::prelude::*;
use crate::hevc;
use crate::pattern;
use crate::sdp;
use crate::settings;
use crate::splice;
use crate::text;

verus! {

/// Setting the profile is harmless to retransmission times.
proof fn lemma_rtx_time_beside_profile()
    ensures
        splice::harmless(
            sdp::rtx_time(),
            "rtx-time=125"@,
            "packetization-mode="@,
            "profile-level-id=42e01f;packetization-mode="@,
        ),
        splice::harmless(
            sdp::rtx_time(),
            "rtx-time=125"@,
            "profile-level-id="@,
            "profile-level-id=42e01f"@,
        ),
{
    reveal_strlit("rtx-time=");
    reveal_strlit("125");
    reveal_strlit("rtx-time=125");
    reveal_strlit("packetization-mode=");
    reveal_strlit("profile-level-id=");
    reveal_strlit("profile-level-id=42e01f");
    reveal_strlit("profile-level-id=42e01f;packetization-mode=");
    let name = "rtx-time="@;
    let block = "profile-level-id=42e01f;packetization-mode="@;
    let put = "profile-level-id=42e01f"@;
    assert("rtx-time=125"@.skip(9) =~= "125"@);
    assert(splice::nowhere(block, name, 0) && splice::nowhere(put, name, 0)) by {
        reveal_with_fuel(splice::nowhere, 44);
        reveal_with_fuel(splice::differs, 8);
    }
    assert(splice::nowhere(name, block, 1) && splice::nowhere(name, put, 1)) by {
        reveal_with_fuel(splice::nowhere, 10);
        reveal_with_fuel(splice::differs, 8);
    }
}

/// Allowing different levels is harmless to retransmission times.
proof fn lemma_rtx_time_beside_asymmetry()
    ensures
        splice::harmless(
            sdp::rtx_time(),
            "rtx-time=125"@,
            "packetization-mode="@,
            "level-asymmetry-allowed=1;packetization-mode="@,
        ),
        splice::harmless(
            sdp::rtx_time(),
            "rtx-time=125"@,
            "level-asymmetry-allowed="@,
            "level-asymmetry-allowed=1"@,
        ),
{
    reveal_strlit("rtx-time=");
    reveal_strlit("125");
    reveal_strlit("rtx-time=125");
    reveal_strlit("packetization-mode=");
    reveal_strlit("level-asymmetry-allowed=");
    reveal_strlit("level-asymmetry-allowed=1");
    reveal_strlit("level-asymmetry-allowed=1;packetization-mode=");
    let name = "rtx-time="@;
    let block = "level-asymmetry-allowed=1;packetization-mode="@;
    let put = "level-asymmetry-allowed=1"@;
    assert("rtx-time=125"@.skip(9) =~= "125"@);
    assert(splice::nowhere(block, name, 0) && splice::nowhere(put, name, 0)) by {
        reveal_with_fuel(splice::nowhere, 46);
        reveal_with_fuel(splice::differs, 8);
    }
    assert(splice::nowhere(name, block, 1) && splice::nowhere(name, put, 1)) by {
        reveal_with_fuel(splice::nowhere, 10);
        reveal_with_fuel(splice::differs, 8);
    }
}

/// Allowing different levels is harmless to profiles.
proof fn lemma_profile_beside_asymmetry()
    ensures
        splice::harmless(
            sdp::profile(),
            "profile-level-id=42e01f"@,
            "packetization-mode="@,
            "level-asymmetry-allowed=1;packetization-mode="@,
        ),
        splice::harmless(
            sdp::profile(),
            "profile-level-id=42e01f"@,
            "level-asymmetry-allowed="@,
            "level-asymmetry-allowed=1"@,
        ),
{
    reveal_strlit("profile-level-id=");
    reveal_strlit("42e01f");
    reveal_strlit("profile-level-id=42e01f");
    reveal_strlit("packetization-mode=");
    reveal_strlit("level-asymmetry-allowed=");
    reveal_strlit("level-asymmetry-allowed=1");
    reveal_strlit("level-asymmetry-allowed=1;packetization-mode=");
    let name = "profile-level-id="@;
    let block = "level-asymmetry-allowed=1;packetization-mode="@;
    let put = "level-asymmetry-allowed=1"@;
    assert("profile-level-id=42e01f"@.skip(17) =~= "42e01f"@);
    assert(splice::nowhere(block, name, 0) && splice::nowhere(put, name, 0)) by {
        reveal_with_fuel(splice::nowhere, 46);
        reveal_with_fuel(splice::differs, 8);
    }
    assert(splice::nowhere(name, block, 1) && splice::nowhere(name, put, 1)) by {
        reveal_with_fuel(splice::nowhere, 18);
        reveal_with_fuel(splice::differs, 8);
    }
}

/// Asking for parameter sets in key frames is harmless to retransmission times.
proof fn lemma_rtx_time_beside_keyframe()
    ensures
        splice::harmless(
            sdp::rtx_time(),
            "rtx-time=125"@,
            "packetization-mode="@,
            "sps-pps-idr-in-keyframe=1;packetization-mode="@,
        ),
        splice::harmless(
            sdp::rtx_time(),
            "rtx-time=125"@,
            "sps-pps-idr-in-keyframe="@,
            "sps-pps-idr-in-keyframe=1"@,
        ),
{
    reveal_strlit("rtx-time=");
    reveal_strlit("125");
    reveal_strlit("rtx-time=125");
    reveal_strlit("packetization-mode=");
    reveal_strlit("sps-pps-idr-in-keyframe=");
    reveal_strlit("sps-pps-idr-in-keyframe=1");
    reveal_strlit("sps-pps-idr-in-keyframe=1;packetization-mode=");
    let name = "rtx-time="@;
    let block = "sps-pps-idr-in-keyframe=1;packetization-mode="@;
    let put = "sps-pps-idr-in-keyframe=1"@;
    assert("rtx-time=125"@.skip(9) =~= "125"@);
    assert(splice::nowhere(block, name, 0) && splice::nowhere(put, name, 0)) by {
        reveal_with_fuel(splice::nowhere, 46);
        reveal_with_fuel(splice::differs, 8);
    }
    assert(splice::nowhere(name, block, 1) && splice::nowhere(name, put, 1)) by {
        reveal_with_fuel(splice::nowhere, 10);
        reveal_with_fuel(splice::differs, 8);
    }
}

/// Asking for parameter sets in key frames is harmless to profiles.
proof fn lemma_profile_beside_keyframe()
    ensures
        splice::harmless(
            sdp::profile(),
            "profile-level-id=42e01f"@,
            "packetization-mode="@,
            "sps-pps-idr-in-keyframe=1;packetization-mode="@,
        ),
        splice::harmless(
            sdp::profile(),
            "profile-level-id=42e01f"@,
            "sps-pps-idr-in-keyframe="@,
            "sps-pps-idr-in-keyframe=1"@,
        ),
{
    reveal_strlit("profile-level-id=");
    reveal_strlit("42e01f");
    reveal_strlit("profile-level-id=42e01f");
    reveal_strlit("packetization-mode=");
    reveal_strlit("sps-pps-idr-in-keyframe=");
    reveal_strlit("sps-pps-idr-in-keyframe=1");
    reveal_strlit("sps-pps-idr-in-keyframe=1;packetization-mode=");
    let name = "profile-level-id="@;
    let block = "sps-pps-idr-in-keyframe=1;packetization-mode="@;
    let put = "sps-pps-idr-in-keyframe=1"@;
    assert("profile-level-id=42e01f"@.skip(17) =~= "42e01f"@);
    assert(splice::nowhere(block, name, 0) && splice::nowhere(put, name, 0)) by {
        reveal_with_fuel(splice::nowhere, 46);
        reveal_with_fuel(splice::differs, 8);
    }
    assert(splice::nowhere(name, block, 1) && splice::nowhere(name, put, 1)) by {
        reveal_with_fuel(splice::nowhere, 18);
        reveal_with_fuel(splice::differs, 8);
    }
}

/// Asking for parameter sets in key frames is harmless to allowances of different levels.
proof fn lemma_asymmetry_beside_keyframe()
    ensures
        splice::harmless(
            sdp::asymmetry(),
            "level-asymmetry-allowed=1"@,
            "packetization-mode="@,
            "sps-pps-idr-in-keyframe=1;packetization-mode="@,
        ),
        splice::harmless(
            sdp::asymmetry(),
            "level-asymmetry-allowed=1"@,
            "sps-pps-idr-in-keyframe="@,
            "sps-pps-idr-in-keyframe=1"@,
        ),
{
    reveal_strlit("level-asymmetry-allowed=");
    reveal_strlit("1");
    reveal_strlit("level-asymmetry-allowed=1");
    reveal_strlit("packetization-mode=");
    reveal_strlit("sps-pps-idr-in-keyframe=");
    reveal_strlit("sps-pps-idr-in-keyframe=1");
    reveal_strlit("sps-pps-idr-in-keyframe=1;packetization-mode=");
    let name = "level-asymmetry-allowed="@;
    let block = "sps-pps-idr-in-keyframe=1;packetization-mode="@;
    let put = "sps-pps-idr-in-keyframe=1"@;
    assert("level-asymmetry-allowed=1"@.skip(24) =~= "1"@);
    assert(splice::nowhere(block, name, 0) && splice::nowhere(put, name, 0)) by {
        reveal_with_fuel(splice::nowhere, 46);
        reveal_with_fuel(splice::differs, 8);
    }
    assert(splice::nowhere(name, block, 1) && splice::nowhere(name, put, 1)) by {
        reveal_with_fuel(splice::nowhere, 25);
        reveal_with_fuel(splice::differs, 8);
    }
}

/// Setting the profile keeps right retransmission times right.
pub proof fn law_profiled_keeps(t: Seq<char>)
    ensures
        settings::all_right(t, sdp::rtx_time(), "rtx-time=125"@) ==> settings::all_right(
            sdp::profiled(t),
            sdp::rtx_time(),
            "rtx-time=125"@,
        ),
{
    let right_time = "rtx-time=125"@;
    let mode = "packetization-mode="@;
    let block = "profile-level-id=42e01f;packetization-mode="@;
    let put = "profile-level-id=42e01f"@;
    lemma_rtx_time_beside_profile();
    if settings::all_right(t, sdp::rtx_time(), right_time) {
        splice::law_replaced_right(t, mode, block, sdp::rtx_time(), right_time);
        splice::law_others_respelled_right(t, sdp::profile(), put, sdp::rtx_time(), right_time);
    }
}

/// Allowing different levels keeps right retransmission times and profiles right.
pub proof fn law_asymmetric_keeps(t: Seq<char>)
    ensures
        settings::all_right(t, sdp::rtx_time(), "rtx-time=125"@) ==> settings::all_right(
            sdp::asymmetric(t),
            sdp::rtx_time(),
            "rtx-time=125"@,
        ),
        settings::all_right(t, sdp::profile(), "profile-level-id=42e01f"@) ==> settings::all_right(
            sdp::asymmetric(t),
            sdp::profile(),
            "profile-level-id=42e01f"@,
        ),
{
    let right_time = "rtx-time=125"@;
    let right_profile = "profile-level-id=42e01f"@;
    let mode = "packetization-mode="@;
    let block = "level-asymmetry-allowed=1;packetization-mode="@;
    let put = "level-asymmetry-allowed=1"@;
    lemma_rtx_time_beside_asymmetry();
    if settings::all_right(t, sdp::rtx_time(), right_time) {
        splice::law_replaced_right(t, mode, block, sdp::rtx_time(), right_time);
        splice::law_others_respelled_right(t, sdp::asymmetry(), put, sdp::rtx_time(), right_time);
    }
    lemma_profile_beside_asymmetry();
    if settings::all_right(t, sdp::profile(), right_profile) {
        splice::law_replaced_right(t, mode, block, sdp::profile(), right_profile);
        splice::law_others_respelled_right(t, sdp::asymmetry(), put, sdp::profile(), right_profile);
    }
}

/// Asking for parameter sets in key frames keeps the other settings right.
pub proof fn law_keyframed_keeps(t: Seq<char>)
    ensures
        settings::all_right(t, sdp::rtx_time(), "rtx-time=125"@) ==> settings::all_right(
            sdp::keyframed(t),
            sdp::rtx_time(),
            "rtx-time=125"@,
        ),
        settings::all_right(t, sdp::profile(), "profile-level-id=42e01f"@) ==> settings::all_right(
            sdp::keyframed(t),
            sdp::profile(),
            "profile-level-id=42e01f"@,
        ),
        settings::all_right(t, sdp::asymmetry(), "level-asymmetry-allowed=1"@) ==> settings::all_right(
            sdp::keyframed(t),
            sdp::asymmetry(),
            "level-asymmetry-allowed=1"@,
        ),
{
    let right_time = "rtx-time=125"@;
    let right_profile = "profile-level-id=42e01f"@;
    let right_asymmetry = "level-asymmetry-allowed=1"@;
    let mode = "packetization-mode="@;
    let block = "sps-pps-idr-in-keyframe=1;packetization-mode="@;
    let put = "sps-pps-idr-in-keyframe=1"@;
    lemma_rtx_time_beside_keyframe();
    if settings::all_right(t, sdp::rtx_time(), right_time) {
        splice::law_replaced_right(t, mode, block, sdp::rtx_time(), right_time);
        splice::law_others_respelled_right(t, sdp::keyframe(), put, sdp::rtx_time(), right_time);
    }
    lemma_profile_beside_keyframe();
    if settings::all_right(t, sdp::profile(), right_profile) {
        splice::law_replaced_right(t, mode, block, sdp::profile(), right_profile);
        splice::law_others_respelled_right(t, sdp::keyframe(), put, sdp::profile(), right_profile);
    }
    lemma_asymmetry_beside_keyframe();
    if settings::all_right(t, sdp::asymmetry(), right_asymmetry) {
        splice::law_replaced_right(t, mode, block, sdp::asymmetry(), right_asymmetry);
        splice::law_others_respelled_right(t, sdp::keyframe(), put, sdp::asymmetry(), right_asymmetry);
    }
}

/// A packet time put behind the stream parameters keeps every setting of a name right that does not
/// begin in it.
proof fn lemma_ptimed_keeps(
    t: Seq<char>,
    lower: Seq<char>,
    shape: pattern::Shape,
    wanted: Seq<char>,
)
    requires
        splice::within_line(shape),
        splice::nowhere("\r\na=ptime:10"@, shape.name, 0),
        settings::all_right(t, shape, wanted),
    ensures
        settings::all_right(sdp::ptimed(t, lower), shape, wanted),
{
    reveal_strlit("\r\na=ptime:10");
    splice::law_line_ends_right(
        t,
        sdp::stream_parameter(),
        "\r\na=ptime:10"@,
        shape,
        wanted,
    );
}

proof fn lemma_rtx_time_in_line()
    ensures
        splice::within_line(sdp::rtx_time()),
        splice::nowhere("\r\na=ptime:10"@, sdp::rtx_time().name, 0),
{
    reveal_strlit("\r\na=ptime:10");
    reveal_strlit("rtx-time=");
    reveal_with_fuel(pattern::lacks, 10);
    pattern::lemma_lacks("rtx-time="@, '\r');
    pattern::lemma_lacks("rtx-time="@, '\n');
    reveal_with_fuel(splice::nowhere, 13);
    reveal_with_fuel(splice::differs, 4);
}

proof fn lemma_profile_in_line()
    ensures
        splice::within_line(sdp::profile()),
        splice::nowhere("\r\na=ptime:10"@, sdp::profile().name, 0),
{
    reveal_strlit("\r\na=ptime:10");
    reveal_strlit("profile-level-id=");
    reveal_with_fuel(pattern::lacks, 18);
    pattern::lemma_lacks("profile-level-id="@, '\r');
    pattern::lemma_lacks("profile-level-id="@, '\n');
    reveal_with_fuel(splice::nowhere, 13);
    reveal_with_fuel(splice::differs, 4);
}

proof fn lemma_asymmetry_in_line()
    ensures
        splice::within_line(sdp::asymmetry()),
        splice::nowhere("\r\na=ptime:10"@, sdp::asymmetry().name, 0),
{
    reveal_strlit("\r\na=ptime:10");
    reveal_strlit("level-asymmetry-allowed=");
    reveal_with_fuel(pattern::lacks, 25);
    pattern::lemma_lacks("level-asymmetry-allowed="@, '\r');
    pattern::lemma_lacks("level-asymmetry-allowed="@, '\n');
    reveal_with_fuel(splice::nowhere, 13);
    reveal_with_fuel(splice::differs, 4);
}

proof fn lemma_keyframe_in_line()
    ensures
        splice::within_line(sdp::keyframe()),
        splice::nowhere("\r\na=ptime:10"@, sdp::keyframe().name, 0),
{
    reveal_strlit("\r\na=ptime:10");
    reveal_strlit("sps-pps-idr-in-keyframe=");
    reveal_with_fuel(pattern::lacks, 25);
    pattern::lemma_lacks("sps-pps-idr-in-keyframe="@, '\r');
    pattern::lemma_lacks("sps-pps-idr-in-keyframe="@, '\n');
    reveal_with_fuel(splice::nowhere, 13);
    reveal_with_fuel(splice::differs, 4);
}

/// Retransmission times keep away from levels and parameter sets.
proof fn lemma_rtx_time_beside_level()
    ensures
        splice::harmless(sdp::rtx_time(), "rtx-time=125"@, "level-id="@, "level-id=180"@),
        hevc::keeps_away(sdp::rtx_time()),
        splice::nowhere("level-id=180;profile-id=1;tier-flag=0"@, sdp::rtx_time().name, 0),
        sdp::level_start() == "level-id=180;profile-id=1;tier-flag=0"@ + seq![';'],
        !sdp::rtx_time().name.contains(' '),
{
    reveal_strlit("rtx-time=");
    reveal_strlit("125");
    reveal_strlit("rtx-time=125");
    reveal_strlit("level-id=");
    reveal_strlit("level-id=180");
    reveal_strlit("sprop-sps=");
    reveal_strlit("level-id=180;profile-id=1;tier-flag=0");
    reveal_strlit("level-id=180;profile-id=1;tier-flag=0;");
    let name = "rtx-time="@;
    assert("rtx-time=125"@.skip(9) =~= "125"@);
    assert(splice::nowhere("level-id=180"@, name, 0) && splice::nowhere(
        "level-id=180;profile-id=1;tier-flag=0"@,
        name,
        0,
    )) by {
        reveal_with_fuel(splice::nowhere, 38);
        reveal_with_fuel(splice::differs, 4);
    }
    assert(splice::nowhere(name, "level-id=180"@, 1)) by {
        reveal_with_fuel(splice::nowhere, 10);
        reveal_with_fuel(splice::differs, 4);
    }
    assert(hevc::dashed(name, 3)) by {
        reveal_with_fuel(splice::differs, 4);
    }
    assert(sdp::level_start() =~= "level-id=180;profile-id=1;tier-flag=0"@ + seq![';']);
}

/// Setting the level of a format keeps its retransmission times right.
proof fn lemma_levelled_keeps(t: Seq<char>)
    requires
        settings::all_right(t, sdp::rtx_time(), "rtx-time=125"@),
    ensures
        settings::all_right(sdp::levelled(t), sdp::rtx_time(), "rtx-time=125"@),
{
    let shape = sdp::rtx_time();
    let wanted = "rtx-time=125"@;
    lemma_rtx_time_beside_level();
    if text::occurs(t, "level-id="@) {
        splice::law_others_respelled_right(t, sdp::level(), "level-id=180"@, shape, wanted);
    } else {
        let start = "level-id=180;profile-id=1;tier-flag=0"@;
        splice::lemma_nowhere_right(start, shape, wanted);
        splice::law_parted(start, ';', t, shape, wanted);
    }
}

/// Correcting a format line keeps its retransmission times right, if its parameter set is closed
/// off.
proof fn lemma_hevc_line_keeps(line: Seq<char>)
    requires
        sdp::line_settles(line),
        sdp::set_closed_off(line),
        settings::all_right(line, sdp::rtx_time(), "rtx-time=125"@),
    ensures
        settings::all_right(sdp::hevc_line(line), sdp::rtx_time(), "rtx-time=125"@),
{
    let shape = sdp::rtx_time();
    let wanted = "rtx-time=125"@;
    lemma_rtx_time_beside_level();
    match pattern::format_parts(line) {
        Some((start, rest)) => {
            reveal_strlit("a=fmtp:");
            let number = pattern::setting("a=fmtp:"@, pattern::Class::Digit);
            pattern::lemma_match(line, number);
            let n = number.length(line);
            let head = line.take(n);
            let t = sdp::levelled(rest);
            assert(start =~= head + seq![' ']);
            assert(line =~= head + seq![' '] + rest);
            splice::law_parted(head, ' ', rest, shape, wanted);
            lemma_levelled_keeps(rest);
            match sdp::sps_in(t) {
                Some((whole, blob)) => match sdp::sps_raised(blob) {
                    Some(new) => {
                        hevc::lemma_set_texts(t, new);
                        hevc::law_set_replaced_right(t, whole, "sprop-sps="@ + new, shape, wanted);
                    },
                    None => {},
                },
                None => {},
            }
            splice::law_parted(head, ' ', sdp::hevc_parameters(rest), shape, wanted);
        },
        None => {},
    }
}

/// Correcting the H.265 formats of a description keeps its retransmission times right, if the
/// parameter sets are closed off.
pub proof fn law_hevc_levelled_keeps(t: Seq<char>)
    requires
        sdp::sets_settle(text::split(t, "\r\n"@)),
        sdp::sets_closed_off(text::split(t, "\r\n"@)),
        settings::all_right(t, sdp::rtx_time(), "rtx-time=125"@),
    ensures
        settings::all_right(sdp::hevc_levelled(t), sdp::rtx_time(), "rtx-time=125"@),
{
    let shape = sdp::rtx_time();
    let wanted = "rtx-time=125"@;
    let sep = "\r\n"@;
    reveal_strlit("\r\n");
    let lines = text::split(t, sep);
    let new = sdp::hevc_lines(lines);
    lemma_rtx_time_in_line();
    text::law_split_join(t, sep, t.len() + 1);
    splice::law_lines_right(lines, shape, wanted);
    assert forall|i: int| 0 <= i < new.len() implies settings::all_right(
        #[trigger] new[i],
        shape,
        wanted,
    ) by {
        assert(settings::all_right(lines[i], shape, wanted));
        if sdp::hevc_format(lines, i) {
            lemma_hevc_line_keeps(lines[i]);
        }
    }
    splice::law_lines_right(new, shape, wanted);
}

/// In a corrected offer every retransmission time is right. If it is for an encoder of H.264 alone,
/// every profile and every allowance of different levels is right too; and if it is for one of
/// H.264 or H.265, so is every request for parameter sets in key frames.
pub proof fn law_offer_right(offer: Seq<char>, codecs: sdp::OfferCodecs)
    requires
        codecs.h265 ==> ({
            let lines = text::split(sdp::first_munged(offer, codecs), "\r\n"@);
            sdp::sets_settle(lines) && sdp::sets_closed_off(lines)
        }),
    ensures
        settings::all_right(sdp::munged(offer, codecs), sdp::rtx_time(), "rtx-time=125"@),
        codecs.h264 && !codecs.h265 ==> settings::all_right(
            sdp::munged(offer, codecs),
            sdp::profile(),
            "profile-level-id=42e01f"@,
        ),
        codecs.h264 && !codecs.h265 ==> settings::all_right(
            sdp::munged(offer, codecs),
            sdp::asymmetry(),
            "level-asymmetry-allowed=1"@,
        ),
        codecs.h264 || codecs.h265 ==> settings::all_right(
            sdp::munged(offer, codecs),
            sdp::keyframe(),
            "sps-pps-idr-in-keyframe=1"@,
        ),
{
    let timed = sdp::rtx_timed(offer);
    let profiled = sdp::profiled(timed);
    let first = sdp::first_munged(offer, codecs);
    let second = if codecs.h265 {
        sdp::hevc_levelled(first)
    } else {
        first
    };
    let video = sdp::video_munged(offer, codecs);
    let lower = text::lowercased(video);
    sdp::law_rtx_timed_right(offer);
    sdp::law_profiled_right(timed);
    law_profiled_keeps(timed);
    sdp::law_asymmetric_right(profiled);
    law_asymmetric_keeps(profiled);
    if codecs.h265 {
        law_hevc_levelled_keeps(first);
    }
    sdp::law_keyframed_right(second);
    law_keyframed_keeps(second);
    lemma_rtx_time_in_line();
    lemma_ptimed_keeps(video, lower, sdp::rtx_time(), "rtx-time=125"@);
    if codecs.h264 || codecs.h265 {
        lemma_keyframe_in_line();
        lemma_ptimed_keeps(video, lower, sdp::keyframe(), "sps-pps-idr-in-keyframe=1"@);
    }
    if codecs.h264 && !codecs.h265 {
        lemma_profile_in_line();
        lemma_asymmetry_in_line();
        lemma_ptimed_keeps(video, lower, sdp::profile(), "profile-level-id=42e01f"@);
        lemma_ptimed_keeps(video, lower, sdp::asymmetry(), "level-asymmetry-allowed=1"@);
    }
}

/// The name of a profile neither begins in what is replaced when different levels are allowed, nor
/// runs into it, and no packetization mode comes in then.
proof fn lemma_profile_clear()
    ensures
        splice::clear_of("profile-level-id"@, splice::occurrences("packetization-mode="@)),
        splice::clear_of("profile-level-id"@, splice::matches_of(sdp::asymmetry())),
        splice::nowhere("level-asymmetry-allowed=1"@, "packetization-mode="@, 0),
        splice::nowhere("packetization-mode="@, "level-asymmetry-allowed=1"@, 1),
        "packetization-mode="@.len() > 0,
        "level-asymmetry-allowed=1"@.len() > 0,
        sdp::asymmetry().name.len() > 0,
{
    reveal_strlit("profile-level-id");
    reveal_strlit("packetization-mode=");
    reveal_strlit("level-asymmetry-allowed=");
    reveal_strlit("level-asymmetry-allowed=1");
    let name = "profile-level-id"@;
    let pieces = splice::matches_of(sdp::asymmetry());
    assert(splice::nowhere("packetization-mode="@, name, 0)) by {
        reveal_with_fuel(splice::nowhere, 20);
        reveal_with_fuel(splice::differs, 10);
    }
    assert(splice::nowhere(name, "packetization-mode="@, 1)) by {
        reveal_with_fuel(splice::nowhere, 17);
        reveal_with_fuel(splice::differs, 10);
    }
    assert(splice::nowhere("level-asymmetry-allowed="@, name, 0)) by {
        reveal_with_fuel(splice::nowhere, 25);
        reveal_with_fuel(splice::differs, 10);
    }
    assert(splice::nowhere(name, "level-asymmetry-allowed="@, 1)) by {
        reveal_with_fuel(splice::nowhere, 17);
        reveal_with_fuel(splice::differs, 10);
    }
    assert(splice::nowhere("level-asymmetry-allowed=1"@, "packetization-mode="@, 0)) by {
        reveal_with_fuel(splice::nowhere, 26);
        reveal_with_fuel(splice::differs, 10);
    }
    assert(splice::nowhere("packetization-mode="@, "level-asymmetry-allowed=1"@, 1)) by {
        reveal_with_fuel(splice::nowhere, 20);
        reveal_with_fuel(splice::differs, 10);
    }
    assert forall|s: Seq<char>, k: int| #[trigger]
        pieces.found(s) && pieces.start.len() <= k < (pieces.length)(s) implies #[trigger] s[k]
        != name[0] by {
        pattern::lemma_match(s, sdp::asymmetry());
    }
}

/// A description without a profile after setting it has no packetization mode.
proof fn lemma_no_mode(offer: Seq<char>)
    requires
        !text::occurs(sdp::profiled(offer), "profile-level-id"@),
    ensures
        !text::occurs(sdp::profiled(offer), "packetization-mode="@),
{
    let mode = "packetization-mode="@;
    let name = "profile-level-id"@;
    let block = "profile-level-id=42e01f;packetization-mode="@;
    let wanted = "profile-level-id=42e01f"@;
    let r = sdp::profiled(offer);
    reveal_strlit("packetization-mode=");
    reveal_strlit("profile-level-id");
    reveal_strlit("profile-level-id=42e01f");
    reveal_strlit("profile-level-id=42e01f;packetization-mode=");
    assert(block.subrange(0, 16) =~= name);
    assert(text::occurs_at(block, name, 0));
    assert(wanted.subrange(0, 16) =~= name);
    assert(text::occurs_at(wanted, name, 0));
    settings::lemma_respelled(offer, sdp::profile(), false, wanted);
    text::law_replaced(offer, mode, block);
    if text::occurs(r, block) {
        text::lemma_occurs_within(r, block, name);
    }
    if text::occurs(r, wanted) {
        text::lemma_occurs_within(r, wanted, name);
    }
}

/// Setting the profile and allowing different levels again changes nothing.
pub proof fn law_h264_again(offer: Seq<char>)
    ensures
        sdp::profiled(sdp::asymmetric(sdp::profiled(offer))) == sdp::asymmetric(
            sdp::profiled(offer),
        ),
{
    let mode = "packetization-mode="@;
    let name = "profile-level-id"@;
    let block = "level-asymmetry-allowed=1;packetization-mode="@;
    let put = "level-asymmetry-allowed=1"@;
    let wanted = "profile-level-id=42e01f"@;
    let first = sdp::profiled(offer);
    let both = sdp::asymmetric(first);
    sdp::law_profiled_right(offer);
    law_asymmetric_keeps(first);
    settings::law_right_stays(both, sdp::profile(), wanted);
    lemma_profile_clear();
    splice::lemma_replaced_spliced(first, mode, block);
    splice::lemma_respelled_spliced(first, sdp::asymmetry(), put);
    if text::occurs(first, name) {
        // The name of the profile stays, and every profile is right.
        splice::law_spliced_takes_none(first, splice::occurrences(mode), block, name);
        splice::law_spliced_takes_none(first, splice::matches_of(sdp::asymmetry()), put, name);
    } else if !text::occurs(both, name) {
        // There is no packetization mode to put a profile before.
        lemma_no_mode(offer);
        splice::law_spliced_brings_none(first, splice::matches_of(sdp::asymmetry()), put, mode);
        text::law_replaced(first, mode, block);
        text::law_replaced(both, mode, "profile-level-id=42e01f;packetization-mode="@);
    }
}

} // verus!
