//! Session descriptions: what an outgoing offer needs so that browsers take it well.

use vstd::prelude::*;
use crate::codec;
use crate::formats;
use crate::hevc;
use crate::nal;
use crate::number;
use crate::offer;
use crate::pattern;
use crate::settings;
use crate::text;
pub use crate::nal::rewrite_hevc_sps_in_buffer;

verus! {

broadcast use vstd::string::group_string_axioms;

/// The payload type that a retransmission stream belongs to.
pub open spec fn apt() -> pattern::Shape {
    pattern::setting("apt="@, pattern::Class::Digit)
}

/// A retransmission time.
pub open spec fn rtx_time() -> pattern::Shape {
    pattern::setting("rtx-time="@, pattern::Class::Digit)
}

/// An H.264 profile and level.
pub open spec fn profile() -> pattern::Shape {
    pattern::setting("profile-level-id="@, pattern::Class::Word)
}

/// Whether the level may differ between the directions.
pub open spec fn asymmetry() -> pattern::Shape {
    pattern::setting("level-asymmetry-allowed="@, pattern::Class::Digit)
}

/// Whether parameter sets stand in each key frame.
pub open spec fn keyframe() -> pattern::Shape {
    pattern::setting("sps-pps-idr-in-keyframe="@, pattern::Class::Digit)
}

/// An H.265 level.
pub open spec fn level() -> pattern::Shape {
    pattern::setting("level-id="@, pattern::Class::Digit)
}

/// A parameter of a media stream, up to the end of its line.
pub open spec fn stream_parameter() -> pattern::Shape {
    pattern::Shape { led: true, name: "sprop-"@, class: pattern::Class::InLine }
}

/// A description whose retransmission times are 125 ms: where it names none, one stands behind each
/// payload type of a retransmission; otherwise every one that it has is set to that.
pub open spec fn rtx_timed(sdp: Seq<char>) -> Seq<char> {
    if !text::occurs(sdp, "rtx-time"@) {
        pattern::respelled(sdp, apt(), true, ";rtx-time=125"@)
    } else {
        pattern::respelled(sdp, rtx_time(), false, "rtx-time=125"@)
    }
}

/// A setting put before each packetization mode.
pub open spec fn before_mode(sdp: Seq<char>, setting: Seq<char>) -> Seq<char> {
    text::replaced(sdp, "packetization-mode="@, setting)
}

/// A description whose H.264 profiles are constrained baseline, level 3.1.
pub open spec fn profiled(sdp: Seq<char>) -> Seq<char> {
    if !text::occurs(sdp, "profile-level-id"@) {
        before_mode(sdp, "profile-level-id=42e01f;packetization-mode="@)
    } else {
        pattern::respelled(sdp, profile(), false, "profile-level-id=42e01f"@)
    }
}

/// A description that allows different levels in the two directions.
pub open spec fn asymmetric(sdp: Seq<char>) -> Seq<char> {
    if !text::occurs(sdp, "level-asymmetry-allowed"@) {
        before_mode(sdp, "level-asymmetry-allowed=1;packetization-mode="@)
    } else {
        pattern::respelled(sdp, asymmetry(), false, "level-asymmetry-allowed=1"@)
    }
}

/// A description that asks for parameter sets in each key frame.
pub open spec fn keyframed(sdp: Seq<char>) -> Seq<char> {
    if !text::occurs(sdp, "sps-pps-idr-in-keyframe"@) {
        before_mode(sdp, "sps-pps-idr-in-keyframe=1;packetization-mode="@)
    } else {
        pattern::respelled(sdp, keyframe(), false, "sps-pps-idr-in-keyframe=1"@)
    }
}

/// A description with a packet time of 10 ms behind each stream parameter, if its lowercase form
/// speaks of Opus.
pub open spec fn ptimed(sdp: Seq<char>, lower: Seq<char>) -> Seq<char> {
    if text::occurs(lower, "opus/"@) {
        pattern::respelled(sdp, stream_parameter(), true, "\r\na=ptime:10"@)
    } else {
        sdp
    }
}

proof fn lemma_rtx_time()
    ensures
        settings::proper(rtx_time(), "rtx-time=125"@),
        settings::distinct(apt(), ";"@ + "rtx-time=125"@),
        ";rtx-time=125"@ == ";"@ + "rtx-time=125"@,
        text::begins("rtx-time=125"@, "rtx-time"@),
        text::occurs(";rtx-time=125"@, "rtx-time"@),
        text::begins("rtx-time="@, "rtx-time"@),
        !apt().name.contains('r'),
        !rtx_time().name.contains('a'),
        !";"@.contains('r'),
        rtx_time().name[0] == 'r',
        apt().name[0] == 'a',
{
    reveal_strlit("rtx-time");
    reveal_strlit("rtx-time=");
    reveal_strlit("rtx-time=125");
    reveal_strlit(";rtx-time=125");
    reveal_strlit("125");
    reveal_strlit(";");
    reveal_strlit("apt=");
    reveal_strlit("apt");
    reveal_strlit("pt=");
    reveal_with_fuel(pattern::lacks, 15);
    reveal_with_fuel(settings::all_in, 4);
    assert("rtx-time="@.drop_last() =~= "rtx-time"@);
    assert("rtx-time=125"@ =~= "rtx-time="@ + "125"@);
    settings::lemma_proper("rtx-time="@, "125"@, pattern::Class::Digit);
    assert(";rtx-time=125"@ =~= ";"@ + "rtx-time=125"@);
    assert("apt="@.drop_last() =~= "apt"@);
    assert("apt="@.skip(1) =~= "pt="@);
    pattern::lemma_lacks("apt"@, '=');
    pattern::lemma_lacks("pt="@, 'a');
    pattern::lemma_lacks(";rtx-time=125"@, 'a');
    pattern::lemma_lacks("apt="@, ';');
    pattern::lemma_lacks("apt="@, 'r');
    pattern::lemma_lacks("rtx-time="@, 'a');
    pattern::lemma_lacks(";"@, 'r');
    assert("rtx-time=125"@.subrange(0, 8) =~= "rtx-time"@);
    assert("rtx-time="@.subrange(0, 8) =~= "rtx-time"@);
    assert(";rtx-time=125"@.subrange(1, 9) =~= "rtx-time"@);
    assert(text::occurs_at(";rtx-time=125"@, "rtx-time"@, 1));
}

proof fn lemma_profile()
    ensures
        settings::proper(profile(), "profile-level-id=42e01f"@),
        "profile-level-id=42e01f;packetization-mode="@ == "profile-level-id=42e01f"@ + ";packetization-mode="@,
        text::begins("profile-level-id=42e01f"@, "profile-level-id"@),
        text::begins("profile-level-id="@, "profile-level-id"@),
        profile().name.len() >= 3,
        settings::apart(";packetization-mode="@, profile().name, 0),
        ";packetization-mode="@.len() > 0,
        !pattern::in_class(profile().class, ";packetization-mode="@[0]),
{
    reveal_strlit("profile-level-id");
    reveal_strlit("profile-level-id=");
    reveal_strlit("profile-level-id=42e01f");
    reveal_strlit("42e01f");
    reveal_strlit(";packetization-mode=");
    reveal_strlit("profile-level-id=42e01f;packetization-mode=");
    reveal_with_fuel(pattern::lacks, 19);
    reveal_with_fuel(settings::all_in, 7);
    reveal_with_fuel(settings::apart, 22);
    assert("profile-level-id="@.drop_last() =~= "profile-level-id"@);
    assert("profile-level-id=42e01f"@ =~= "profile-level-id="@ + "42e01f"@);
    settings::lemma_proper("profile-level-id="@, "42e01f"@, pattern::Class::Word);
    assert("profile-level-id=42e01f;packetization-mode="@ =~= "profile-level-id=42e01f"@ + ";packetization-mode="@);
    assert("profile-level-id=42e01f"@.subrange(0, 16) =~= "profile-level-id"@);
    assert("profile-level-id="@.subrange(0, 16) =~= "profile-level-id"@);
}

proof fn lemma_asymmetry()
    ensures
        settings::proper(asymmetry(), "level-asymmetry-allowed=1"@),
        "level-asymmetry-allowed=1;packetization-mode="@ == "level-asymmetry-allowed=1"@ + ";packetization-mode="@,
        text::begins("level-asymmetry-allowed=1"@, "level-asymmetry-allowed"@),
        text::begins("level-asymmetry-allowed="@, "level-asymmetry-allowed"@),
        asymmetry().name.len() >= 3,
        settings::apart(";packetization-mode="@, asymmetry().name, 0),
        ";packetization-mode="@.len() > 0,
        !pattern::in_class(asymmetry().class, ";packetization-mode="@[0]),
{
    reveal_strlit("level-asymmetry-allowed");
    reveal_strlit("level-asymmetry-allowed=");
    reveal_strlit("level-asymmetry-allowed=1");
    reveal_strlit("1");
    reveal_strlit(";packetization-mode=");
    reveal_strlit("level-asymmetry-allowed=1;packetization-mode=");
    reveal_with_fuel(pattern::lacks, 26);
    reveal_with_fuel(settings::all_in, 2);
    reveal_with_fuel(settings::apart, 22);
    assert("level-asymmetry-allowed="@.drop_last() =~= "level-asymmetry-allowed"@);
    assert("level-asymmetry-allowed=1"@ =~= "level-asymmetry-allowed="@ + "1"@);
    settings::lemma_proper("level-asymmetry-allowed="@, "1"@, pattern::Class::Digit);
    assert("level-asymmetry-allowed=1;packetization-mode="@ =~= "level-asymmetry-allowed=1"@ + ";packetization-mode="@);
    assert("level-asymmetry-allowed=1"@.subrange(0, 23) =~= "level-asymmetry-allowed"@);
    assert("level-asymmetry-allowed="@.subrange(0, 23) =~= "level-asymmetry-allowed"@);
}

proof fn lemma_keyframe()
    ensures
        settings::proper(keyframe(), "sps-pps-idr-in-keyframe=1"@),
        "sps-pps-idr-in-keyframe=1;packetization-mode="@ == "sps-pps-idr-in-keyframe=1"@ + ";packetization-mode="@,
        text::begins("sps-pps-idr-in-keyframe=1"@, "sps-pps-idr-in-keyframe"@),
        text::begins("sps-pps-idr-in-keyframe="@, "sps-pps-idr-in-keyframe"@),
        keyframe().name.len() >= 3,
        settings::apart(";packetization-mode="@, keyframe().name, 0),
        ";packetization-mode="@.len() > 0,
        !pattern::in_class(keyframe().class, ";packetization-mode="@[0]),
{
    reveal_strlit("sps-pps-idr-in-keyframe");
    reveal_strlit("sps-pps-idr-in-keyframe=");
    reveal_strlit("sps-pps-idr-in-keyframe=1");
    reveal_strlit("1");
    reveal_strlit(";packetization-mode=");
    reveal_strlit("sps-pps-idr-in-keyframe=1;packetization-mode=");
    reveal_with_fuel(pattern::lacks, 26);
    reveal_with_fuel(settings::all_in, 2);
    reveal_with_fuel(settings::apart, 22);
    assert("sps-pps-idr-in-keyframe="@.drop_last() =~= "sps-pps-idr-in-keyframe"@);
    assert("sps-pps-idr-in-keyframe=1"@ =~= "sps-pps-idr-in-keyframe="@ + "1"@);
    settings::lemma_proper("sps-pps-idr-in-keyframe="@, "1"@, pattern::Class::Digit);
    assert("sps-pps-idr-in-keyframe=1;packetization-mode="@ =~= "sps-pps-idr-in-keyframe=1"@ + ";packetization-mode="@);
    assert("sps-pps-idr-in-keyframe=1"@.subrange(0, 23) =~= "sps-pps-idr-in-keyframe"@);
    assert("sps-pps-idr-in-keyframe="@.subrange(0, 23) =~= "sps-pps-idr-in-keyframe"@);
}

/// Every retransmission time is 125 ms, and setting it again changes nothing.
pub proof fn law_rtx_timed_right(sdp: Seq<char>)
    ensures
        settings::all_right(rtx_timed(sdp), rtx_time(), "rtx-time=125"@),
        rtx_timed(rtx_timed(sdp)) == rtx_timed(sdp),
{
    let wanted = "rtx-time=125"@;
    let put = ";rtx-time=125"@;
    let r = rtx_timed(sdp);
    lemma_rtx_time();
    if !text::occurs(sdp, "rtx-time"@) {
        if text::occurs(sdp, rtx_time().name) {
            text::lemma_occurs_within(sdp, rtx_time().name, "rtx-time"@);
        }
        settings::law_put_behind_right(sdp, apt(), rtx_time(), ";"@, wanted);
        settings::lemma_respelled(sdp, apt(), true, put);
        if text::occurs(r, put) {
            text::lemma_occurs_within(r, put, "rtx-time"@);
        }
    } else {
        settings::law_respelled_right(sdp, rtx_time(), wanted);
        settings::lemma_respelled(sdp, rtx_time(), false, wanted);
        if text::occurs(r, wanted) {
            text::lemma_occurs_within(r, wanted, "rtx-time"@);
        }
    }
    settings::law_right_stays(r, rtx_time(), wanted);
}

/// Where no retransmission time stands in a description, each payload type of a retransmission is
/// followed by one, and nothing else is added or taken away.
pub proof fn law_rtx_time_inserted(sdp: Seq<char>)
    requires
        !text::occurs(sdp, "rtx-time"@),
    ensures
        settings::all_followed(rtx_timed(sdp), apt(), ";rtx-time=125"@),
        text::replaced(rtx_timed(sdp), ";rtx-time=125"@, Seq::empty()) == sdp,
{
    let put = ";rtx-time=125"@;
    lemma_rtx_time();
    settings::law_put_behind(sdp, apt(), put);
    if text::occurs(sdp, put) {
        text::lemma_occurs_within(sdp, put, "rtx-time"@);
    }
    settings::law_taken_out_again(sdp, apt(), put);
}

/// Every H.264 profile is the wanted one, and setting it again changes nothing.
pub proof fn law_profiled_right(sdp: Seq<char>)
    ensures
        settings::all_right(profiled(sdp), profile(), "profile-level-id=42e01f"@),
        profiled(profiled(sdp)) == profiled(sdp),
{
    let wanted = "profile-level-id=42e01f"@;
    let mode = "packetization-mode="@;
    let block = "profile-level-id=42e01f;packetization-mode="@;
    let r = profiled(sdp);
    lemma_profile();
    if !text::occurs(sdp, "profile-level-id"@) {
        if text::occurs(sdp, profile().name) {
            text::lemma_occurs_within(sdp, profile().name, "profile-level-id"@);
        }
        settings::law_put_before_right(sdp, mode, profile(), wanted, ";packetization-mode="@);
        reveal_strlit("packetization-mode=");
        text::law_replaced(sdp, mode, block);
        if text::occurs(r, block) {
            assert(block.subrange(0, wanted.len() as int) =~= wanted);
            assert(text::occurs_at(block, wanted, 0));
            text::lemma_occurs_within(r, block, wanted);
            text::lemma_occurs_within(r, wanted, "profile-level-id"@);
        }
    } else {
        settings::law_respelled_right(sdp, profile(), wanted);
        settings::lemma_respelled(sdp, profile(), false, wanted);
        if text::occurs(r, wanted) {
            text::lemma_occurs_within(r, wanted, "profile-level-id"@);
        }
    }
    settings::law_right_stays(r, profile(), wanted);
}

/// Every allowance of different levels stands as wanted, and setting it again changes nothing.
pub proof fn law_asymmetric_right(sdp: Seq<char>)
    ensures
        settings::all_right(asymmetric(sdp), asymmetry(), "level-asymmetry-allowed=1"@),
        asymmetric(asymmetric(sdp)) == asymmetric(sdp),
{
    let wanted = "level-asymmetry-allowed=1"@;
    let mode = "packetization-mode="@;
    let block = "level-asymmetry-allowed=1;packetization-mode="@;
    let r = asymmetric(sdp);
    lemma_asymmetry();
    if !text::occurs(sdp, "level-asymmetry-allowed"@) {
        if text::occurs(sdp, asymmetry().name) {
            text::lemma_occurs_within(sdp, asymmetry().name, "level-asymmetry-allowed"@);
        }
        settings::law_put_before_right(sdp, mode, asymmetry(), wanted, ";packetization-mode="@);
        reveal_strlit("packetization-mode=");
        text::law_replaced(sdp, mode, block);
        if text::occurs(r, block) {
            assert(block.subrange(0, wanted.len() as int) =~= wanted);
            assert(text::occurs_at(block, wanted, 0));
            text::lemma_occurs_within(r, block, wanted);
            text::lemma_occurs_within(r, wanted, "level-asymmetry-allowed"@);
        }
    } else {
        settings::law_respelled_right(sdp, asymmetry(), wanted);
        settings::lemma_respelled(sdp, asymmetry(), false, wanted);
        if text::occurs(r, wanted) {
            text::lemma_occurs_within(r, wanted, "level-asymmetry-allowed"@);
        }
    }
    settings::law_right_stays(r, asymmetry(), wanted);
}

/// Every request for parameter sets in key frames stands as wanted, and setting it again changes nothing.
pub proof fn law_keyframed_right(sdp: Seq<char>)
    ensures
        settings::all_right(keyframed(sdp), keyframe(), "sps-pps-idr-in-keyframe=1"@),
        keyframed(keyframed(sdp)) == keyframed(sdp),
{
    let wanted = "sps-pps-idr-in-keyframe=1"@;
    let mode = "packetization-mode="@;
    let block = "sps-pps-idr-in-keyframe=1;packetization-mode="@;
    let r = keyframed(sdp);
    lemma_keyframe();
    if !text::occurs(sdp, "sps-pps-idr-in-keyframe"@) {
        if text::occurs(sdp, keyframe().name) {
            text::lemma_occurs_within(sdp, keyframe().name, "sps-pps-idr-in-keyframe"@);
        }
        settings::law_put_before_right(sdp, mode, keyframe(), wanted, ";packetization-mode="@);
        reveal_strlit("packetization-mode=");
        text::law_replaced(sdp, mode, block);
        if text::occurs(r, block) {
            assert(block.subrange(0, wanted.len() as int) =~= wanted);
            assert(text::occurs_at(block, wanted, 0));
            text::lemma_occurs_within(r, block, wanted);
            text::lemma_occurs_within(r, wanted, "sps-pps-idr-in-keyframe"@);
        }
    } else {
        settings::law_respelled_right(sdp, keyframe(), wanted);
        settings::lemma_respelled(sdp, keyframe(), false, wanted);
        if text::occurs(r, wanted) {
            text::lemma_occurs_within(r, wanted, "sps-pps-idr-in-keyframe"@);
        }
    }
    settings::law_right_stays(r, keyframe(), wanted);
}

/// Where every setting of a name is right, the description stays as it is.
pub proof fn law_right_settings_stay(sdp: Seq<char>)
    ensures
        text::occurs(sdp, "rtx-time"@) && settings::all_right(sdp, rtx_time(), "rtx-time=125"@)
            ==> rtx_timed(sdp) == sdp,
        text::occurs(sdp, "profile-level-id"@) && settings::all_right(
            sdp,
            profile(),
            "profile-level-id=42e01f"@,
        ) ==> profiled(sdp) == sdp,
        text::occurs(sdp, "level-asymmetry-allowed"@) && settings::all_right(
            sdp,
            asymmetry(),
            "level-asymmetry-allowed=1"@,
        ) ==> asymmetric(sdp) == sdp,
        text::occurs(sdp, "sps-pps-idr-in-keyframe"@) && settings::all_right(
            sdp,
            keyframe(),
            "sps-pps-idr-in-keyframe=1"@,
        ) ==> keyframed(sdp) == sdp,
{
    if settings::all_right(sdp, rtx_time(), "rtx-time=125"@) {
        settings::law_right_stays(sdp, rtx_time(), "rtx-time=125"@);
    }
    if settings::all_right(sdp, profile(), "profile-level-id=42e01f"@) {
        settings::law_right_stays(sdp, profile(), "profile-level-id=42e01f"@);
    }
    if settings::all_right(sdp, asymmetry(), "level-asymmetry-allowed=1"@) {
        settings::law_right_stays(sdp, asymmetry(), "level-asymmetry-allowed=1"@);
    }
    if settings::all_right(sdp, keyframe(), "sps-pps-idr-in-keyframe=1"@) {
        settings::law_right_stays(sdp, keyframe(), "sps-pps-idr-in-keyframe=1"@);
    }
}

/// Inserts or corrects `rtx-time=125`. Doing it again changes nothing.
pub fn inject_rtx_time(sdp: &str) -> (r: String)
    ensures
        r@ == rtx_timed(sdp@),
        rtx_timed(r@) == r@,
{
    proof {
        law_rtx_timed_right(sdp@);
        reveal_strlit("rtx-time=125");
        reveal_strlit(";rtx-time=125");
        reveal_strlit("${1};rtx-time=125");
        reveal_strlit("${1}");
        reveal_with_fuel(pattern::lacks, 14);
        assert("${1};rtx-time=125"@.subrange(0, 4) =~= "${1}"@);
        assert("${1};rtx-time=125"@.skip(4) =~= ";rtx-time=125"@);
        pattern::lemma_inserted_plain("rtx-time=125"@);
        assert(pattern::looks_for(pattern::APT@, apt()));
        assert(pattern::looks_for(pattern::RTX_TIME@, rtx_time()));
    }
    if !text::has(sdp, "rtx-time") {
        pattern::replace_all(pattern::APT, sdp, "${1};rtx-time=125")
    } else {
        pattern::replace_all(pattern::RTX_TIME, sdp, "rtx-time=125")
    }
}

/// Inserts or corrects the H.264 profile `42e01f`. Doing it again changes nothing.
pub fn inject_profile_level_id(sdp: &str) -> (r: String)
    ensures
        r@ == profiled(sdp@),
        profiled(r@) == r@,
{
    proof {
        law_profiled_right(sdp@);
        reveal_strlit("packetization-mode=");
        reveal_strlit("profile-level-id=42e01f");
        reveal_with_fuel(pattern::lacks, 24);
        pattern::lemma_inserted_plain("profile-level-id=42e01f"@);
        assert(pattern::looks_for(pattern::PROFILE_LEVEL_ID@, profile()));
    }
    if !text::has(sdp, "profile-level-id") {
        text::substitute(
            sdp,
            "packetization-mode=",
            "profile-level-id=42e01f;packetization-mode=",
        )
    } else {
        pattern::replace_all(pattern::PROFILE_LEVEL_ID, sdp, "profile-level-id=42e01f")
    }
}

/// Inserts or corrects `level-asymmetry-allowed=1`. Doing it again changes nothing.
pub fn inject_level_asymmetry(sdp: &str) -> (r: String)
    ensures
        r@ == asymmetric(sdp@),
        asymmetric(r@) == r@,
{
    proof {
        law_asymmetric_right(sdp@);
        reveal_strlit("packetization-mode=");
        reveal_strlit("level-asymmetry-allowed=1");
        reveal_with_fuel(pattern::lacks, 26);
        pattern::lemma_inserted_plain("level-asymmetry-allowed=1"@);
        assert(pattern::looks_for(pattern::LEVEL_ASYMMETRY@, asymmetry()));
    }
    if !text::has(sdp, "level-asymmetry-allowed") {
        text::substitute(
            sdp,
            "packetization-mode=",
            "level-asymmetry-allowed=1;packetization-mode=",
        )
    } else {
        pattern::replace_all(pattern::LEVEL_ASYMMETRY, sdp, "level-asymmetry-allowed=1")
    }
}

/// Inserts or corrects the H.264 profile and the allowance of different levels: browsers need
/// both in the offer. Doing it again changes nothing.
pub fn inject_h264_profile(sdp: &str) -> (r: String)
    ensures
        r@ == asymmetric(profiled(sdp@)),
        asymmetric(profiled(r@)) == r@,
{
    proof {
        offer::law_h264_again(sdp@);
    }
    let profiled = inject_profile_level_id(sdp);
    inject_level_asymmetry(&profiled)
}

/// Inserts or corrects `sps-pps-idr-in-keyframe=1`. Doing it again changes nothing.
pub fn inject_sps_pps_idr(sdp: &str) -> (r: String)
    ensures
        r@ == keyframed(sdp@),
        keyframed(r@) == r@,
{
    proof {
        law_keyframed_right(sdp@);
        reveal_strlit("packetization-mode=");
        reveal_strlit("sps-pps-idr-in-keyframe=1");
        reveal_with_fuel(pattern::lacks, 26);
        pattern::lemma_inserted_plain("sps-pps-idr-in-keyframe=1"@);
        assert(pattern::looks_for(pattern::SPS_PPS_IDR@, keyframe()));
    }
    if !text::has(sdp, "sps-pps-idr-in-keyframe") {
        text::substitute(
            sdp,
            "packetization-mode=",
            "sps-pps-idr-in-keyframe=1;packetization-mode=",
        )
    } else {
        pattern::replace_all(pattern::SPS_PPS_IDR, sdp, "sps-pps-idr-in-keyframe=1")
    }
}

/// Inserts a packet time behind each stream parameter of a description whose lowercase form, given
/// beside it, speaks of Opus.
pub fn inject_ptime(sdp: &str, lower: &str) -> (r: String)
    ensures
        r@ == ptimed(sdp@, lower@),
{
    proof {
        reveal_strlit("${1}");
        reveal_strlit("${1}\r\na=ptime:10");
        reveal_strlit("\r\na=ptime:10");
        reveal_with_fuel(pattern::lacks, 13);
        assert("${1}\r\na=ptime:10"@.subrange(0, 4) =~= "${1}"@);
        assert("${1}\r\na=ptime:10"@.skip(4) =~= "\r\na=ptime:10"@);
        assert(pattern::looks_for(pattern::SPROP@, stream_parameter()));
    }
    if text::has(lower, "opus/") {
        pattern::replace_all(pattern::SPROP, sdp, "${1}\r\na=ptime:10")
    } else {
        sdp.to_string()
    }
}

/// Inserts an Opus packet time of 10 ms behind each stream parameter.
pub fn inject_opus_ptime(sdp: &str) -> (r: String)
    ensures
        r@ == ptimed(sdp@, text::lowercased(sdp@)),
        text::ascii(sdp@) ==> r@ == ptimed(sdp@, text::ascii_lowercased(sdp@)),
{
    let lower = text::lowercase(sdp);
    inject_ptime(sdp, &lower)
}

/// A base64 parameter set with its level raised to 6.0, if it is a lower one.
pub open spec fn sps_raised(blob: Seq<char>) -> Option<Seq<char>> {
    match codec::base64_decoded(blob) {
        Some(sps) => match nal::raised(sps, 2) {
            Some(after) => Some(codec::base64_encoded(after)),
            None => None,
        },
        None => None,
    }
}

/// Raises the level of a decoded parameter set to 6.0, if it is a lower one.
pub fn raise_sps_level(sps: Vec<u8>) -> (r: Option<Vec<u8>>)
    ensures
        codec::bytes_of(r) == nal::raised(sps@, 2),
{
    match nal::find_low_level(sps.as_slice(), 2) {
        Some(pos) => {
            let mut after = sps;
            after.set(pos, nal::LEVEL);
            Some(after)
        },
        None => None,
    }
}

/// A parameter set whose level is raised gives a base64 text that is not raised again.
pub open spec fn raises_once(blob: Seq<char>) -> bool {
    sps_raised(blob) matches Some(new) ==> {
        &&& sps_raised(new) is None
        &&& new.len() > 0
        &&& forall|i: int| 0 <= i < new.len() ==> codec::base64_char(#[trigger] new[i])
    }
}

/// Raises the level of a base64 parameter set to 6.0, if it is a lower one. The result decodes to
/// the bytes with the level raised, and is not raised again.
pub fn rewrite_sps_level_b64(sps_b64: &str) -> (r: Option<String>)
    ensures
        text::text_of(r) == sps_raised(sps_b64@),
        r matches Some(t) ==> {
            &&& codec::base64_decoded(sps_b64@) is Some
            &&& codec::base64_decoded(t@) == nal::raised(codec::base64_decoded(sps_b64@)->0, 2)
            &&& sps_raised(t@) is None
        },
        raises_once(sps_b64@),
{
    let sps = match codec::base64_decode(sps_b64) {
        Some(sps) => sps,
        None => {
            return None;
        },
    };
    let ghost before = sps@;
    match raise_sps_level(sps) {
        Some(after) => {
            proof {
                nal::law_raised_once(before, 2);
            }
            Some(codec::base64_encode(after.as_slice()))
        },
        None => None,
    }
}

/// The start of the parameters of a format that lack a level.
pub open spec fn level_start() -> Seq<char> {
    "level-id=180;profile-id=1;tier-flag=0;"@
}

/// The parameters of a format with the level 6.0: where none stands, it is put first; otherwise
/// every one is set to that.
pub open spec fn levelled(parameters: Seq<char>) -> Seq<char> {
    if text::occurs(parameters, "level-id="@) {
        pattern::respelled(parameters, level(), false, "level-id=180"@)
    } else {
        level_start() + parameters
    }
}

/// Parameters in which the parameter set `found`, written out whole and as its base64 text, has
/// its level raised.
pub open spec fn with_sps_raised(
    parameters: Seq<char>,
    found: Option<(Seq<char>, Seq<char>)>,
) -> Seq<char> {
    match found {
        Some((whole, blob)) => match sps_raised(blob) {
            Some(new) => text::replaced(parameters, whole, "sprop-sps="@ + new),
            None => parameters,
        },
        None => parameters,
    }
}

/// The first parameter set in the parameters of a format: written out whole, and its base64 text.
pub open spec fn sps_in(parameters: Seq<char>) -> Option<(Seq<char>, Seq<char>)> {
    pattern::found(parameters, pattern::sprop_sps())
}

/// The parameters of an H.265 format, corrected.
pub open spec fn hevc_parameters(parameters: Seq<char>) -> Seq<char> {
    with_sps_raised(levelled(parameters), sps_in(levelled(parameters)))
}

/// Whether the line at position `n` is in a video section: the last media line before it opens
/// one.
pub open spec fn in_video(lines: Seq<Seq<char>>, n: int) -> bool
    decreases n,
{
    if n <= 0 {
        false
    } else if text::begins(lines[n - 1], "m="@) {
        text::begins(lines[n - 1], "m=video"@)
    } else {
        in_video(lines, n - 1)
    }
}

/// A line that holds the parameters of a format of its own: not one of a retransmission.
pub open spec fn format_line(line: Seq<char>) -> bool {
    text::begins(line, "a=fmtp:"@) && !text::occurs(line, "apt="@)
}

/// A format line of a video section, corrected.
pub open spec fn hevc_line(line: Seq<char>) -> Seq<char> {
    match pattern::format_parts(line) {
        Some((start, rest)) => start + hevc_parameters(rest),
        None => line,
    }
}

/// How many media lines there are among the first `n` lines: the number of the section that the
/// last of them stands in.
pub open spec fn section(lines: Seq<Seq<char>>, n: int) -> nat
    decreases n,
{
    if n <= 0 {
        0
    } else if text::begins(lines[n - 1], "m="@) {
        section(lines, n - 1) + 1
    } else {
        section(lines, n - 1)
    }
}

/// The test for a space.
pub open spec fn is_space() -> spec_fn(char) -> bool {
    |c: char| c == ' '
}

/// The test for a slash.
pub open spec fn is_slash() -> spec_fn(char) -> bool {
    |c: char| c == '/'
}

/// The payload number of a format line: what stands before the first space.
pub open spec fn payload(line: Seq<char>) -> Seq<char> {
    let rest = line.skip("a=fmtp:"@.len() as int);
    rest.take(text::run(rest, is_space()) as int)
}

/// The start of the line that maps a payload number to a codec.
pub open spec fn map_start(payload: Seq<char>) -> Seq<char> {
    "a=rtpmap:"@ + payload + " "@
}

/// The codec that a mapping names is H.265: its name stands before the first slash, in any case.
pub open spec fn names_h265(mapping: Seq<char>) -> bool {
    number::same_letters(mapping.take(text::run(mapping, is_slash()) as int), "H265"@)
}

/// A line maps a payload number to another codec than H.265.
pub open spec fn maps_elsewhere(line: Seq<char>, payload: Seq<char>) -> bool {
    text::begins(line, map_start(payload)) && !names_h265(
        line.skip(map_start(payload).len() as int),
    )
}

/// The format at position `i` is of another codec than H.265, as a line of its section says. A
/// format without such a line counts as H.265.
pub open spec fn foreign(lines: Seq<Seq<char>>, i: int) -> bool {
    exists|j: int|
        0 <= j < lines.len() && section(lines, j + 1) == section(lines, i + 1)
            && #[trigger] maps_elsewhere(lines[j], payload(lines[i]))
}

/// The line at position `i` holds the parameters of an H.265 format in a video section.
pub open spec fn hevc_format(lines: Seq<Seq<char>>, i: int) -> bool {
    &&& !text::begins(lines[i], "m="@)
    &&& in_video(lines, i)
    &&& format_line(lines[i])
    &&& !foreign(lines, i)
}

/// The lines of a description, the H.265 formats among them corrected.
pub open spec fn hevc_lines(lines: Seq<Seq<char>>) -> Seq<Seq<char>> {
    Seq::new(
        lines.len(),
        |i: int|
            if hevc_format(lines, i) {
                hevc_line(lines[i])
            } else {
                lines[i]
            },
    )
}

/// A description with its H.265 formats corrected.
pub open spec fn hevc_levelled(sdp: Seq<char>) -> Seq<char> {
    text::joined(hevc_lines(text::split(sdp, "\r\n"@)), "\r\n"@)
}

/// Raises the level of a parameter set that was found in the parameters of a format.
pub fn replace_sps(parameters: &str, whole: &str, sps_b64: &str) -> (r: String)
    requires
        whole@.len() > 0,
    ensures
        r@ == with_sps_raised(parameters@, Some((whole@, sps_b64@))),
        raises_once(sps_b64@),
{
    match rewrite_sps_level_b64(sps_b64) {
        Some(new) => text::substitute(parameters, whole, &text::cat("sprop-sps=", &new)),
        None => parameters.to_string(),
    }
}

proof fn lemma_level()
    ensures
        settings::proper(level(), "level-id=180"@),
        level_start() == "level-id=180"@ + ";profile-id=1;tier-flag=0;"@,
        level().name.len() >= 3,
        settings::apart(";profile-id=1;tier-flag=0;"@, level().name, 0),
        ";profile-id=1;tier-flag=0;"@.len() > 0,
        !pattern::in_class(level().class, ";profile-id=1;tier-flag=0;"@[0]),
        text::begins("level-id=180"@, "level-id="@),
{
    reveal_strlit("level-id");
    reveal_strlit("level-id=");
    reveal_strlit("180");
    reveal_strlit("level-id=180");
    reveal_strlit(";profile-id=1;tier-flag=0;");
    reveal_strlit("level-id=180;profile-id=1;tier-flag=0;");
    reveal_with_fuel(pattern::lacks, 10);
    reveal_with_fuel(settings::all_in, 4);
    reveal_with_fuel(settings::apart, 28);
    assert("level-id="@.drop_last() =~= "level-id"@);
    assert("level-id=180"@ =~= "level-id="@ + "180"@);
    settings::lemma_proper("level-id="@, "180"@, pattern::Class::Digit);
    assert(level_start() =~= "level-id=180"@ + ";profile-id=1;tier-flag=0;"@);
    assert("level-id=180"@.subrange(0, 9) =~= "level-id="@);
}

/// Every level among the parameters is 6.0, there is one if none stood there before, and setting it
/// again changes nothing.
pub proof fn law_levelled_right(parameters: Seq<char>)
    ensures
        settings::all_right(levelled(parameters), level(), "level-id=180"@),
        !text::occurs(parameters, "level-id="@) ==> text::begins(
            levelled(parameters),
            "level-id=180"@,
        ),
        text::occurs(levelled(parameters), "level-id="@),
        levelled(levelled(parameters)) == levelled(parameters),
{
    let wanted = "level-id=180"@;
    let tail = ";profile-id=1;tier-flag=0;"@;
    let r = levelled(parameters);
    lemma_level();
    if text::occurs(parameters, "level-id="@) {
        settings::law_respelled_right(parameters, level(), wanted);
        settings::lemma_respelled(parameters, level(), false, wanted);
    } else {
        settings::lemma_unnamed(parameters, level(), wanted);
        settings::lemma_wanted_block(level(), wanted, tail, parameters);
        assert(r =~= wanted + (tail + parameters));
        assert(r.subrange(0, wanted.len() as int) =~= wanted);
        assert(text::occurs_at(r, wanted, 0));
    }
    if text::occurs(r, wanted) {
        text::lemma_occurs_within(r, wanted, "level-id="@);
    }
    settings::law_right_stays(r, level(), wanted);
}

/// Inserts or corrects the level among the parameters of a format.
pub fn inject_level_id(parameters: &str) -> (r: String)
    ensures
        r@ == levelled(parameters@),
{
    proof {
        reveal_strlit("level-id=180");
        reveal_with_fuel(pattern::lacks, 13);
        pattern::lemma_inserted_plain("level-id=180"@);
        assert(pattern::looks_for(pattern::LEVEL_ID@, level()));
    }
    if !text::has(parameters, "level-id=") {
        text::cat("level-id=180;profile-id=1;tier-flag=0;", parameters)
    } else {
        pattern::replace_all(pattern::LEVEL_ID, parameters, "level-id=180")
    }
}

/// The parameter set that is found among the parameters of a format is not raised twice.
pub open spec fn settles(parameters: Seq<char>) -> bool {
    sps_in(levelled(parameters)) matches Some((whole, blob)) ==> raises_once(blob)
}

/// Corrects the parameters of an H.265 format: the level, and the level in the parameter set.
pub fn correct_hevc_parameters(parameters: &str) -> (r: String)
    ensures
        r@ == hevc_parameters(parameters@),
        settles(parameters@),
{
    let rest = inject_level_id(parameters);
    proof {
        reveal_strlit("sprop-sps=");
        pattern::lemma_first_match(rest@, pattern::sprop_sps());
        match pattern::first_match(rest@, pattern::sprop_sps()) {
            Some(i) => pattern::lemma_match(rest@.skip(i), pattern::sprop_sps()),
            None => {},
        }
    }
    match pattern::captures(pattern::SPROP_SPS, &rest) {
        Some(groups) => match (&groups[0], &groups[1]) {
            (Some(whole), Some(blob)) => replace_sps(&rest, whole, blob),
            _ => rest,
        },
        None => rest,
    }
}

/// The parameter set in a format line is not raised twice.
pub open spec fn line_settles(line: Seq<char>) -> bool {
    pattern::format_parts(line) matches Some((start, rest)) ==> settles(rest)
}

/// Corrects a line of a video section that holds the parameters of a format.
pub fn correct_hevc_line(line: &str) -> (r: String)
    ensures
        r@ == hevc_line(line@),
        line_settles(line@),
{
    match pattern::captures(pattern::FMTP, line) {
        Some(groups) => match (&groups[1], &groups[2]) {
            (Some(prefix), Some(rest)) => text::cat(prefix, &correct_hevc_parameters(rest)),
            _ => line.to_string(),
        },
        None => line.to_string(),
    }
}

fn find_char(s: &[char], from: usize, c: char) -> (r: usize)
    requires
        from <= s@.len(),
    ensures
        from <= r <= s@.len(),
        r < s@.len() ==> s@[r as int] == c,
        forall|k: int| from <= k < r ==> #[trigger] s@[k] != c,
{
    let mut i: usize = from;
    while i < s.len() && s[i] != c
        invariant
            from <= i <= s@.len(),
            forall|k: int| from <= k < i ==> #[trigger] s@[k] != c,
        decreases s@.len() - i,
    {
        i += 1;
    }
    i
}

/// The payload number of a format line.
fn payload_of(line: &[char]) -> (r: Vec<char>)
    requires
        text::begins(line@, "a=fmtp:"@),
    ensures
        r@ == payload(line@),
{
    proof {
        reveal_strlit("a=fmtp:");
    }
    let end = find_char(line, 7, ' ');
    let r = text::piece(line, 7, end);
    proof {
        let rest = line@.skip(7);
        assert forall|k: int| 0 <= k < end - 7 implies !is_space()(#[trigger] rest[k]) by {
            assert(rest[k] == line@[k + 7]);
        }
        assert(end < line@.len() ==> rest[end - 7] == line@[end as int]);
        text::lemma_run_is(rest, is_space(), (end - 7) as nat);
        assert(r@ =~= rest.take(end - 7));
    }
    r
}

/// Whether a line maps a payload number to another codec than H.265.
fn is_mapped_elsewhere(line: &[char], payload: &[char]) -> (r: bool)
    ensures
        r == maps_elsewhere(line@, payload@),
{
    let mut start = text::to_chars("a=rtpmap:");
    text::push_all(&mut start, payload);
    text::push_str(&mut start, " ");
    let start = text::to_text(start.as_slice());
    match text::strip_prefix(line, &start) {
        Some(mapping) => {
            let end = find_char(mapping.as_slice(), 0, '/');
            let name = text::piece(mapping.as_slice(), 0, end);
            proof {
                assert forall|k: int| 0 <= k < end implies !is_slash()(#[trigger] mapping@[k]) by {}
                text::lemma_run_is(mapping@, is_slash(), end as nat);
                assert(name@ =~= mapping@.take(end as int));
                assert(name@.skip(0) =~= name@);
            }
            !number::equals_letters(name.as_slice(), 0, "H265")
        },
        None => false,
    }
}

fn section_of(lines: &Vec<Vec<char>>, n: usize) -> (r: usize)
    requires
        n <= lines@.len(),
    ensures
        r == section(text::texts(lines@), n as int),
{
    let ghost all = text::texts(lines@);
    let mut count: usize = 0;
    let mut k: usize = 0;
    while k < n
        invariant
            k <= n <= lines@.len(),
            all == text::texts(lines@),
            count <= k,
            count == section(all, k as int),
        decreases n - k,
    {
        assert(all[k as int] == lines@[k as int]@);
        if text::starts_with(lines[k].as_slice(), "m=") {
            count += 1;
        }
        k += 1;
    }
    count
}

/// Whether a format is of another codec than H.265, as a line of its section says.
pub fn is_foreign(lines: &Vec<Vec<char>>, i: usize) -> (r: bool)
    requires
        i < lines@.len(),
        text::begins(lines@[i as int]@, "a=fmtp:"@),
    ensures
        r == foreign(text::texts(lines@), i as int),
{
    let ghost all = text::texts(lines@);
    assert(all[i as int] == lines@[i as int]@);
    let number = payload_of(lines[i].as_slice());
    assert(lines.len() <= usize::MAX);
    let home = section_of(lines, i + 1);
    let mut count: usize = 0;
    let mut j: usize = 0;
    while j < lines.len()
        invariant
            j <= lines@.len(),
            i < lines@.len(),
            all == text::texts(lines@),
            number@ == payload(all[i as int]),
            home == section(all, i + 1),
            count <= j,
            count == section(all, j as int),
            forall|k: int|
                0 <= k < j && section(all, k + 1) == section(all, i + 1)
                    ==> !#[trigger] maps_elsewhere(all[k], payload(all[i as int])),
        decreases lines@.len() - j,
    {
        assert(all[j as int] == lines@[j as int]@);
        if text::starts_with(lines[j].as_slice(), "m=") {
            count += 1;
        }
        assert(count == section(all, j + 1));
        if count == home && is_mapped_elsewhere(lines[j].as_slice(), number.as_slice()) {
            assert(maps_elsewhere(all[j as int], payload(all[i as int])));
            return true;
        }
        j += 1;
    }
    false
}

/// The level in the parameters of a corrected format line is right: the parameter set that was
/// raised brought no other one in, and took none away.
pub open spec fn level_kept(line: Seq<char>) -> bool {
    format_line(hevc_line(line)) ==> (pattern::format_parts(line) matches Some((start, rest))
        ==> levelled(hevc_parameters(rest)) == hevc_parameters(rest))
}

/// The level in each corrected format line is right.
pub open spec fn levels_kept(lines: Seq<Seq<char>>) -> bool {
    forall|i: int| 0 <= i < lines.len() && #[trigger] hevc_format(lines, i) ==> level_kept(lines[i])
}

/// The parameter set in each H.265 format line is not raised twice.
pub open spec fn sets_settle(lines: Seq<Seq<char>>) -> bool {
    forall|i: int|
        0 <= i < lines.len() && #[trigger] hevc_format(lines, i) ==> line_settles(lines[i])
}

/// The parameter set in each H.265 format line is closed off from what follows it.
pub open spec fn sets_closed_off(lines: Seq<Seq<char>>) -> bool {
    forall|i: int|
        0 <= i < lines.len() && #[trigger] hevc_format(lines, i) ==> set_closed_off(lines[i])
}

/// Puts the level 6.0 into the H.265 formats of the video sections, and into their parameter sets.
/// Doing it again changes nothing, unless a raised parameter set runs into the text behind it so
/// that the name of a level comes in or goes away. It never does where a semicolon follows the set.
pub fn inject_hevc_level(sdp: &str) -> (r: String)
    ensures
        r@ == hevc_levelled(sdp@),
        levels_kept(text::split(sdp@, "\r\n"@)) ==> hevc_levelled(r@) == r@,
        sets_closed_off(text::split(sdp@, "\r\n"@)) ==> hevc_levelled(r@) == r@,
        sets_settle(text::split(sdp@, "\r\n"@)),
{
    proof {
        reveal_strlit("\r\n");
        reveal_strlit("m=");
        reveal_strlit("m=video");
    }
    let chars = text::to_chars(sdp);
    let lines = text::split_all(chars.as_slice(), "\r\n");
    let ghost all = text::texts(lines@);
    let mut out: Vec<Vec<char>> = Vec::new();
    let mut video = false;
    let mut i: usize = 0;
    while i < lines.len()
        invariant
            i <= lines@.len(),
            all == text::texts(lines@),
            video == in_video(all, i as int),
            out@.len() == i,
            text::texts(out@) == hevc_lines(all).take(i as int),
            forall|k: int| 0 <= k < i && #[trigger] hevc_format(all, k) ==> line_settles(all[k]),
        decreases lines@.len() - i,
    {
        let ghost done = text::texts(out@);
        let line = &lines[i];
        assert(all[i as int] == line@);
        let new: Vec<char> = if text::starts_with(line.as_slice(), "m=") {
            video = text::starts_with(line.as_slice(), "m=video");
            text::piece(line.as_slice(), 0, line.len())
        } else if video && text::starts_with(line.as_slice(), "a=fmtp:") && !text::contains(
            line.as_slice(),
            "apt=",
        ) && !is_foreign(&lines, i) {
            let old_line = text::to_text(line.as_slice());
            text::to_chars(&correct_hevc_line(&old_line))
        } else {
            text::piece(line.as_slice(), 0, line.len())
        };
        assert(line@.subrange(0, line@.len() as int) =~= line@);
        assert(new@ == hevc_lines(all)[i as int]);
        out.push(new);
        i += 1;
        assert(text::texts(out@) =~= done.push(new@));
        assert(hevc_lines(all).take(i as int) =~= hevc_lines(all).take(i - 1).push(
            hevc_lines(all)[i - 1],
        ));
    }
    assert(hevc_lines(all).take(i as int) =~= hevc_lines(all));
    proof {
        if sets_closed_off(all) {
            hevc::lemma_closed_off(all);
        }
        if levels_kept(all) {
            hevc::law_hevc_again(sdp@);
        }
    }
    text::to_text(text::join(&out, "\r\n").as_slice())
}

/// Wherever `whole` stands among parameters, it ends them or a semicolon follows.
pub open spec fn closed_off(parameters: Seq<char>, whole: Seq<char>) -> bool {
    forall|i: int| #[trigger]
        text::occurs_at(parameters, whole, i) ==> i + whole.len() == parameters.len()
            || parameters[i + whole.len()] == ';'
}

/// The parameter set of a format line is closed off from what follows it.
pub open spec fn set_closed_off(line: Seq<char>) -> bool {
    pattern::format_parts(line) matches Some((start, rest)) ==> (sps_in(levelled(rest)) matches Some(
        (whole, blob),
    ) ==> closed_off(levelled(rest), whole))
}

/// Correcting H.265 formats keeps the number of lines, and changes no line but the H.265 format
/// lines of video sections: media lines, lines of other sections, retransmission formats and formats
/// that are mapped to another codec stay, and so does every line that is no format line.
pub proof fn law_hevc_lines(lines: Seq<Seq<char>>)
    ensures
        hevc_lines(lines).len() == lines.len(),
        forall|i: int|
            0 <= i < lines.len() && (text::begins(lines[i], "m="@) || !in_video(lines, i)
                || text::occurs(lines[i], "apt="@) || !text::begins(lines[i], "a=fmtp:"@) || foreign(
                lines,
                i,
            )) ==> #[trigger] hevc_lines(lines)[i] == lines[i],
{
}

/// A description without video sections stays as it is.
pub proof fn law_hevc_needs_video(sdp: Seq<char>)
    requires
        !text::occurs(sdp, "m=video"@),
    ensures
        hevc_levelled(sdp) == sdp,
{
    let lines = text::split(sdp, "\r\n"@);
    assert forall|i: int| 0 <= i < lines.len() implies !text::begins(#[trigger] lines[i], "m=video"@) by {
        text::lemma_split_parts(sdp, "\r\n"@, sdp.len() + 1, i);
        if text::begins(lines[i], "m=video"@) {
            text::lemma_occurs_within(sdp, lines[i], "m=video"@);
        }
    }
    assert forall|i: int| 0 <= i < lines.len() implies !in_video(lines, i) by {
        lemma_no_video(lines, i);
    }
    assert(hevc_lines(lines) =~= lines);
    text::law_split_join(sdp, "\r\n"@, sdp.len() + 1);
}

proof fn lemma_no_video(lines: Seq<Seq<char>>, n: int)
    requires
        n <= lines.len(),
        forall|i: int| 0 <= i < lines.len() ==> !text::begins(#[trigger] lines[i], "m=video"@),
    ensures
        !in_video(lines, n),
    decreases n,
{
    if n > 0 {
        lemma_no_video(lines, n - 1);
    }
}

/// What an offer needs: H.264 formats, H.265 formats, both or neither.
pub struct OfferCodecs {
    pub h264: bool,
    pub h265: bool,
}

/// What an offer for the encoder with the given lowercase name needs.
pub open spec fn codecs_of(lower: Seq<char>) -> OfferCodecs {
    OfferCodecs {
        h264: text::occurs(lower, "h264"@) || text::occurs(lower, "x264"@),
        h265: text::occurs(lower, "h265"@) || text::occurs(lower, "x265"@),
    }
}

/// The names of the codecs themselves say what an offer needs.
pub proof fn law_codec_names()
    ensures
        codecs_of("h264"@) == (OfferCodecs { h264: true, h265: false }),
        codecs_of("h265"@) == (OfferCodecs { h264: false, h265: true }),
{
    reveal_strlit("h264");
    reveal_strlit("h265");
    reveal_strlit("x264");
    reveal_strlit("x265");
    assert("h264"@.subrange(0, 4) =~= "h264"@);
    assert(text::occurs_at("h264"@, "h264"@, 0));
    assert("h265"@.subrange(0, 4) =~= "h265"@);
    assert(text::occurs_at("h265"@, "h265"@, 0));
    assert forall|i: int| !text::occurs_at("h264"@, "h265"@, i) by {
        assert("h264"@.subrange(0, 4)[3] != "h265"@[3]);
    }
    assert forall|i: int| !text::occurs_at("h264"@, "x265"@, i) by {
        assert("h264"@.subrange(0, 4)[3] != "x265"@[3]);
    }
    assert forall|i: int| !text::occurs_at("h265"@, "h264"@, i) by {
        assert("h265"@.subrange(0, 4)[3] != "h264"@[3]);
    }
    assert forall|i: int| !text::occurs_at("h265"@, "x264"@, i) by {
        assert("h265"@.subrange(0, 4)[3] != "x264"@[3]);
    }
}

/// Tells what an offer for the encoder with the given lowercase name needs.
pub fn offer_codecs(lower: &str) -> (r: OfferCodecs)
    ensures
        r == codecs_of(lower@),
{
    OfferCodecs {
        h264: text::has(lower, "h264") || text::has(lower, "x264"),
        h265: text::has(lower, "h265") || text::has(lower, "x265"),
    }
}

/// An outgoing offer with its retransmission times and its H.264 formats corrected.
pub open spec fn first_munged(sdp: Seq<char>, codecs: OfferCodecs) -> Seq<char> {
    if codecs.h264 {
        asymmetric(profiled(rtx_timed(sdp)))
    } else {
        rtx_timed(sdp)
    }
}

/// An outgoing offer with its video formats corrected, before the audio.
pub open spec fn video_munged(sdp: Seq<char>, codecs: OfferCodecs) -> Seq<char> {
    let first = first_munged(sdp, codecs);
    let second = if codecs.h265 {
        hevc_levelled(first)
    } else {
        first
    };
    if codecs.h264 || codecs.h265 {
        keyframed(second)
    } else {
        second
    }
}

/// An outgoing offer, corrected.
pub open spec fn munged(sdp: Seq<char>, codecs: OfferCodecs) -> Seq<char> {
    ptimed(video_munged(sdp, codecs), text::lowercased(video_munged(sdp, codecs)))
}

/// Corrects an outgoing offer for the given codecs. Every retransmission time in it is right then,
/// unless the text behind a parameter set runs on from it.
pub fn munge_offer_for(sdp: &str, codecs: OfferCodecs) -> (r: String)
    ensures
        r@ == munged(sdp@, codecs),
        !codecs.h265 || sets_closed_off(text::split(first_munged(sdp@, codecs), "\r\n"@))
            ==> settings::all_right(r@, rtx_time(), "rtx-time=125"@),
{
    let mut result = inject_rtx_time(sdp);
    if codecs.h264 {
        result = inject_h264_profile(&result);
    }
    if codecs.h265 {
        result = inject_hevc_level(&result);
    }
    proof {
        if !codecs.h265 || sets_closed_off(text::split(first_munged(sdp@, codecs), "\r\n"@)) {
            offer::law_offer_right(sdp@, codecs);
        }
    }
    if codecs.h264 || codecs.h265 {
        result = inject_sps_pps_idr(&result);
    }
    inject_opus_ptime(&result)
}

/// Corrects an outgoing offer for the encoder of the given name.
pub fn munge_offer_sdp(sdp: &str, encoder: &str) -> (r: String)
    ensures
        r@ == munged(sdp@, codecs_of(text::lowercased(encoder@))),
        text::ascii(encoder@) ==> r@ == munged(
            sdp@,
            codecs_of(text::ascii_lowercased(encoder@)),
        ),
        ({
            let lower = text::lowercased(encoder@);
            &&& text::occurs(lower, "h264"@) || text::occurs(lower, "x264"@)
            &&& !text::occurs(lower, "h265"@)
            &&& !text::occurs(lower, "x265"@)
            &&& !text::occurs(sdp@, "profile-level-id"@)
            &&& !text::occurs(sdp@, "level-asymmetry-allowed"@)
            &&& !text::occurs(sdp@, "sps-pps-idr-in-keyframe"@)
        }) ==> formats::preceded(
            r@,
            "packetization-mode="@,
            "profile-level-id=42e01f;level-asymmetry-allowed=1;sps-pps-idr-in-keyframe=1;"@,
        ),
{
    let lower = text::lowercase(encoder);
    proof {
        if (text::occurs(lower@, "h264"@) || text::occurs(lower@, "x264"@)) && !text::occurs(
            lower@,
            "h265"@,
        ) && !text::occurs(lower@, "x265"@) && !text::occurs(sdp@, "profile-level-id"@)
            && !text::occurs(sdp@, "level-asymmetry-allowed"@) && !text::occurs(
            sdp@,
            "sps-pps-idr-in-keyframe"@,
        ) {
            formats::law_h264_settings_precede_modes(sdp@, lower@);
        }
    }
    munge_offer_for(sdp, offer_codecs(&lower))
}

/// An offer for an encoder of neither H.264 nor H.265 gets its retransmission time and its packet
/// time, and nothing else.
pub proof fn law_munge_other_codec(sdp: Seq<char>, codecs: OfferCodecs)
    requires
        !codecs.h264,
        !codecs.h265,
    ensures
        munged(sdp, codecs) == ptimed(rtx_timed(sdp), text::lowercased(rtx_timed(sdp))),
{
}

/// Settings that do not stand in a description are put before its packetization modes.
pub proof fn law_settings_are_inserted(sdp: Seq<char>)
    requires
        text::occurs(sdp, "packetization-mode="@),
    ensures
        !text::occurs(sdp, "profile-level-id"@) ==> text::occurs(
            profiled(sdp),
            "profile-level-id=42e01f;packetization-mode="@,
        ),
        !text::occurs(sdp, "level-asymmetry-allowed"@) ==> text::occurs(
            asymmetric(sdp),
            "level-asymmetry-allowed=1;packetization-mode="@,
        ),
        !text::occurs(sdp, "sps-pps-idr-in-keyframe"@) ==> text::occurs(
            keyframed(sdp),
            "sps-pps-idr-in-keyframe=1;packetization-mode="@,
        ),
{
    reveal_strlit("packetization-mode=");
    let mode = "packetization-mode="@;
    text::law_replaced(sdp, mode, "profile-level-id=42e01f;packetization-mode="@);
    text::law_replaced(sdp, mode, "level-asymmetry-allowed=1;packetization-mode="@);
    text::law_replaced(sdp, mode, "sps-pps-idr-in-keyframe=1;packetization-mode="@);
}

} // verus!
