//! What the messages of a client mean, command by command: a message is read from its fields, which
//! stand between commas.

use vstd::prelude::*;
use crate::messages;
use crate::messages::ClientMessageView;
use crate::number;
use crate::text;

verus! {

/// Fields with commas between them.
pub open spec fn csv(f: Seq<Seq<char>>) -> Seq<char>
    decreases f.len(),
{
    if f.len() <= 1 {
        f[0]
    } else {
        f[0] + seq![','] + csv(f.skip(1))
    }
}

/// Texts without a comma.
pub open spec fn plain(f: Seq<Seq<char>>) -> bool {
    forall|i: int| 0 <= i < f.len() ==> !(#[trigger] f[i]).contains(',')
}

/// The outcome of reading a message that is accepted.
pub open spec fn read(m: ClientMessageView) -> Result<ClientMessageView, Seq<char>> {
    Ok(m)
}

/// The outcome of reading a message that is refused.
pub open spec fn refused(words: Seq<char>) -> Result<ClientMessageView, Seq<char>> {
    Err(words)
}

proof fn lemma_fields(f: Seq<Seq<char>>, n: nat)
    requires
        plain(f),
        1 <= f.len() <= n,
    ensures
        text::split_n(csv(f), ","@, n) == f,
    decreases f.len(),
{
    reveal_strlit(",");
    let comma = ","@;
    assert(comma =~= seq![',']);
    if f.len() == 1 {
        text::lemma_split_none(f[0], comma, n);
        assert(seq![f[0]] =~= f);
    } else {
        let rest = f.skip(1);
        assert forall|i: int| 0 <= i < rest.len() implies !(#[trigger] rest[i]).contains(',') by {
            assert(rest[i] == f[i + 1]);
        }
        text::lemma_split_first(f[0], comma, csv(rest), n);
        lemma_fields(rest, (n - 1) as nat);
        assert(seq![f[0]] + rest =~= f);
    }
}

/// The last field may hold commas.
proof fn lemma_last_field(f: Seq<Seq<char>>, n: nat)
    requires
        plain(f.drop_last()),
        1 <= f.len() == n,
    ensures
        text::split_n(csv(f), ","@, n) == f,
    decreases f.len(),
{
    reveal_strlit(",");
    let comma = ","@;
    assert(comma =~= seq![',']);
    if f.len() == 1 {
        assert(seq![f[0]] =~= f);
    } else {
        let rest = f.skip(1);
        assert forall|i: int| 0 <= i < rest.len() - 1 implies !(#[trigger] rest.drop_last()[i]).contains(
            ',',
        ) by {
            assert(rest.drop_last()[i] == f.drop_last()[i + 1]);
        }
        assert(f[0] == f.drop_last()[0]);
        text::lemma_split_first(f[0], comma, csv(rest), n);
        lemma_last_field(rest, (n - 1) as nat);
        assert(seq![f[0]] + rest =~= f);
    }
}

/// The fields of a command with one field and others behind it.
proof fn lemma_one_field(command: Seq<char>, t: Seq<char>, rest: Seq<Seq<char>>)
    requires
        !command.contains(','),
        !t.contains(','),
        plain(rest),
        rest.len() <= 3,
    ensures
        ({
            let f = text::split_n(csv(seq![command, t] + rest), ","@, 5);
            f == seq![command, t] + rest && f[0] == command && f[1] == t && f.len() == 2 + rest.len()
        }),
{
    let f = seq![command, t] + rest;
    assert forall|i: int| 0 <= i < f.len() implies !(#[trigger] f[i]).contains(',') by {
        if i >= 2 {
            assert(f[i] == rest[i - 2]);
        }
    }
    lemma_fields(f, 5);
}

/// The fields of a command alone.
proof fn lemma_alone(command: Seq<char>)
    requires
        !command.contains(','),
    ensures
        text::split_n(command, ","@, 5) == seq![command],
        text::split_n(command, ","@, 6) == seq![command],
{
    reveal_strlit(",");
    text::lemma_split_none(command, ","@, 5);
    text::lemma_split_none(command, ","@, 6);
}

/// A key is pressed.
pub proof fn law_kd_command(t: Seq<char>, rest: Seq<Seq<char>>)
    requires
        !t.contains(','),
        plain(rest),
        rest.len() <= 3,
    ensures
        messages::client_message(csv(seq!["kd"@, t] + rest)) == (match number::as_u32(t) {
            Ok(n) => read(ClientMessageView::KeyDown { keysym: n }),
            Err(e) => refused("kd: invalid keysym: "@ + e.words()),
        }),
        messages::client_message("kd"@) == refused("kd: missing keysym"@),
{
    reveal_strlit("kd");
    let command = "kd"@;
    assert(command.len() == 2 && command[0] == 'k' && command[1] == 'd');
    lemma_one_field(command, t, rest);
    lemma_alone(command);
}

/// A key is released.
pub proof fn law_ku_command(t: Seq<char>, rest: Seq<Seq<char>>)
    requires
        !t.contains(','),
        plain(rest),
        rest.len() <= 3,
    ensures
        messages::client_message(csv(seq!["ku"@, t] + rest)) == (match number::as_u32(t) {
            Ok(n) => read(ClientMessageView::KeyUp { keysym: n }),
            Err(e) => refused("ku: invalid keysym: "@ + e.words()),
        }),
        messages::client_message("ku"@) == refused("ku: missing keysym"@),
{
    reveal_strlit("kd");
    reveal_strlit("ku");
    let command = "ku"@;
    assert(command.len() == 2 && command[0] == 'k' && command[1] == 'u');
    lemma_one_field(command, t, rest);
    lemma_alone(command);
}

/// The bitrate of the video is set.
pub proof fn law_vb_command(t: Seq<char>, rest: Seq<Seq<char>>)
    requires
        !t.contains(','),
        plain(rest),
        rest.len() <= 3,
    ensures
        messages::client_message(csv(seq!["vb"@, t] + rest)) == (match number::as_u32(t) {
            Ok(n) => read(ClientMessageView::SetVideoBitrate { bitrate_kbps: n }),
            Err(e) => refused("vb: "@ + e.words()),
        }),
        messages::client_message("vb"@) == refused("vb: missing bitrate"@),
{
    reveal_strlit("kd");
    reveal_strlit("ku");
    reveal_strlit("kr");
    reveal_strlit("m");
    reveal_strlit("m2");
    reveal_strlit("p");
    reveal_strlit("vb");
    let command = "vb"@;
    assert(command.len() == 2 && command[0] == 'v' && command[1] == 'b');
    lemma_one_field(command, t, rest);
    lemma_alone(command);
}

/// The bitrate of the audio is set.
pub proof fn law_ab_command(t: Seq<char>, rest: Seq<Seq<char>>)
    requires
        !t.contains(','),
        plain(rest),
        rest.len() <= 3,
    ensures
        messages::client_message(csv(seq!["ab"@, t] + rest)) == (match number::as_u32(t) {
            Ok(n) => read(ClientMessageView::SetAudioBitrate { bitrate_bps: n }),
            Err(e) => refused("ab: "@ + e.words()),
        }),
        messages::client_message("ab"@) == refused("ab: missing bitrate"@),
{
    reveal_strlit("kd");
    reveal_strlit("ku");
    reveal_strlit("kr");
    reveal_strlit("m");
    reveal_strlit("m2");
    reveal_strlit("p");
    reveal_strlit("vb");
    reveal_strlit("ab");
    let command = "ab"@;
    assert(command.len() == 2 && command[0] == 'a' && command[1] == 'b');
    lemma_one_field(command, t, rest);
    lemma_alone(command);
}

/// The frame rate is set.
pub proof fn law_arg_fps_command(t: Seq<char>, rest: Seq<Seq<char>>)
    requires
        !t.contains(','),
        plain(rest),
        rest.len() <= 3,
    ensures
        messages::client_message(csv(seq!["_arg_fps"@, t] + rest)) == (match number::as_u32(t) {
            Ok(n) => read(ClientMessageView::SetFramerate { fps: n }),
            Err(e) => refused("_arg_fps: "@ + e.words()),
        }),
        messages::client_message("_arg_fps"@) == refused("_arg_fps: missing fps"@),
{
    reveal_strlit("kd");
    reveal_strlit("ku");
    reveal_strlit("kr");
    reveal_strlit("m");
    reveal_strlit("m2");
    reveal_strlit("p");
    reveal_strlit("vb");
    reveal_strlit("ab");
    reveal_strlit("cr");
    reveal_strlit("cw");
    reveal_strlit("r");
    reveal_strlit("s");
    reveal_strlit("pong");
    reveal_strlit("_arg_fps");
    let command = "_arg_fps"@;
    assert(command.len() == 8 && command[0] == '_' && command[1] == 'a' && command[2] == 'r' && command[3] == 'g' && command[4] == '_' && command[5] == 'f' && command[6] == 'p' && command[7] == 's');
    lemma_one_field(command, t, rest);
    lemma_alone(command);
}

/// The clipboard is written: its data are handed on as they are.
pub proof fn law_cw_command(t: Seq<char>, rest: Seq<Seq<char>>)
    requires
        !t.contains(','),
        plain(rest),
        rest.len() <= 3,
    ensures
        messages::client_message(csv(seq!["cw"@, t] + rest)) == read(
            ClientMessageView::ClipboardWrite { data_b64: t },
        ),
        messages::client_message("cw"@) == refused("cw: missing data"@),
{
    reveal_strlit("kd");
    reveal_strlit("ku");
    reveal_strlit("kr");
    reveal_strlit("m");
    reveal_strlit("m2");
    reveal_strlit("p");
    reveal_strlit("vb");
    reveal_strlit("ab");
    reveal_strlit("cr");
    reveal_strlit("cw");
    let command = "cw"@;
    assert(command.len() == 2 && command[0] == 'c' && command[1] == 'w');
    lemma_one_field(command, t, rest);
    lemma_alone(command);
}

/// The screen is resized.
pub proof fn law_r_command(t: Seq<char>, rest: Seq<Seq<char>>)
    requires
        !t.contains(','),
        plain(rest),
        rest.len() <= 3,
    ensures
        messages::client_message(csv(seq!["r"@, t] + rest)) == read(
            ClientMessageView::Resize { resolution: t },
        ),
        messages::client_message("r"@) == refused("r: missing resolution"@),
{
    reveal_strlit("kd");
    reveal_strlit("ku");
    reveal_strlit("kr");
    reveal_strlit("m");
    reveal_strlit("m2");
    reveal_strlit("p");
    reveal_strlit("vb");
    reveal_strlit("ab");
    reveal_strlit("cr");
    reveal_strlit("cw");
    reveal_strlit("r");
    let command = "r"@;
    assert(command.len() == 1 && command[0] == 'r');
    lemma_one_field(command, t, rest);
    lemma_alone(command);
}

/// Statistics of the video are reported.
pub proof fn law_stats_video_command(t: Seq<char>, rest: Seq<Seq<char>>)
    requires
        !t.contains(','),
        plain(rest),
        rest.len() <= 3,
    ensures
        messages::client_message(csv(seq!["_stats_video"@, t] + rest)) == read(
            ClientMessageView::StatsVideo { json: t },
        ),
        messages::client_message("_stats_video"@) == refused("_stats_video: missing json"@),
{
    reveal_strlit("kd");
    reveal_strlit("ku");
    reveal_strlit("kr");
    reveal_strlit("m");
    reveal_strlit("m2");
    reveal_strlit("p");
    reveal_strlit("vb");
    reveal_strlit("ab");
    reveal_strlit("cr");
    reveal_strlit("cw");
    reveal_strlit("r");
    reveal_strlit("s");
    reveal_strlit("pong");
    reveal_strlit("_arg_fps");
    reveal_strlit("_f");
    reveal_strlit("_l");
    reveal_strlit("js");
    reveal_strlit("_stats_video");
    let command = "_stats_video"@;
    assert(command.len() == 12 && command[0] == '_' && command[1] == 's' && command[2] == 't' && command[3] == 'a' && command[4] == 't' && command[5] == 's' && command[6] == '_' && command[7] == 'v');
    lemma_one_field(command, t, rest);
    lemma_alone(command);
}

/// Statistics of the audio are reported.
pub proof fn law_stats_audio_command(t: Seq<char>, rest: Seq<Seq<char>>)
    requires
        !t.contains(','),
        plain(rest),
        rest.len() <= 3,
    ensures
        messages::client_message(csv(seq!["_stats_audio"@, t] + rest)) == read(
            ClientMessageView::StatsAudio { json: t },
        ),
        messages::client_message("_stats_audio"@) == refused("_stats_audio: missing json"@),
{
    reveal_strlit("kd");
    reveal_strlit("ku");
    reveal_strlit("kr");
    reveal_strlit("m");
    reveal_strlit("m2");
    reveal_strlit("p");
    reveal_strlit("vb");
    reveal_strlit("ab");
    reveal_strlit("cr");
    reveal_strlit("cw");
    reveal_strlit("r");
    reveal_strlit("s");
    reveal_strlit("pong");
    reveal_strlit("_arg_fps");
    reveal_strlit("_f");
    reveal_strlit("_l");
    reveal_strlit("js");
    reveal_strlit("_stats_video");
    reveal_strlit("_stats_audio");
    let command = "_stats_audio"@;
    assert(command.len() == 12 && command[0] == '_' && command[1] == 's' && command[2] == 't' && command[3] == 'a' && command[4] == 't' && command[5] == 's' && command[6] == '_' && command[7] == 'a');
    lemma_one_field(command, t, rest);
    lemma_alone(command);
}

/// The pointer is shown exactly if the value is `1`.
pub proof fn law_p_command(t: Seq<char>, rest: Seq<Seq<char>>)
    requires
        !t.contains(','),
        plain(rest),
        rest.len() <= 3,
    ensures
        messages::client_message(csv(seq!["p"@, t] + rest)) == read(
            ClientMessageView::PointerVisibility { visible: t == "1"@ },
        ),
        messages::client_message("p"@) == refused("p: missing value"@),
{
    reveal_strlit("kd");
    reveal_strlit("ku");
    reveal_strlit("kr");
    reveal_strlit("m");
    reveal_strlit("m2");
    reveal_strlit("p");
    let command = "p"@;
    assert(command.len() == 1 && command[0] == 'p');
    lemma_one_field(command, t, rest);
    lemma_alone(command);
}

/// The scale is set: a floating-point literal.
pub proof fn law_s_command(t: Seq<char>, rest: Seq<Seq<char>>)
    requires
        !t.contains(','),
        plain(rest),
        rest.len() <= 3,
    ensures
        messages::client_message(csv(seq!["s"@, t] + rest)) == (match number::as_float(t) {
            Ok(x) => read(ClientMessageView::DpiScale { scale: t }),
            Err(e) => refused("s: "@ + e.words()),
        }),
        messages::client_message("s"@) == refused("s: missing scale"@),
{
    reveal_strlit("kd");
    reveal_strlit("ku");
    reveal_strlit("kr");
    reveal_strlit("m");
    reveal_strlit("m2");
    reveal_strlit("p");
    reveal_strlit("vb");
    reveal_strlit("ab");
    reveal_strlit("cr");
    reveal_strlit("cw");
    reveal_strlit("r");
    reveal_strlit("s");
    let command = "s"@;
    assert(command.len() == 1 && command[0] == 's');
    lemma_one_field(command, t, rest);
    lemma_alone(command);
}

/// The frame rate that the client sees is reported.
pub proof fn law_f_command(t: Seq<char>, rest: Seq<Seq<char>>)
    requires
        !t.contains(','),
        plain(rest),
        rest.len() <= 3,
    ensures
        messages::client_message(csv(seq!["_f"@, t] + rest)) == (match number::as_float(t) {
            Ok(x) => read(ClientMessageView::ClientFps { fps: t }),
            Err(e) => refused("_f: "@ + e.words()),
        }),
        messages::client_message("_f"@) == refused("_f: missing fps"@),
{
    reveal_strlit("kd");
    reveal_strlit("ku");
    reveal_strlit("kr");
    reveal_strlit("m");
    reveal_strlit("m2");
    reveal_strlit("p");
    reveal_strlit("vb");
    reveal_strlit("ab");
    reveal_strlit("cr");
    reveal_strlit("cw");
    reveal_strlit("r");
    reveal_strlit("s");
    reveal_strlit("pong");
    reveal_strlit("_arg_fps");
    reveal_strlit("_f");
    let command = "_f"@;
    assert(command.len() == 2 && command[0] == '_' && command[1] == 'f');
    lemma_one_field(command, t, rest);
    lemma_alone(command);
}

/// The latency that the client sees is reported.
pub proof fn law_l_command(t: Seq<char>, rest: Seq<Seq<char>>)
    requires
        !t.contains(','),
        plain(rest),
        rest.len() <= 3,
    ensures
        messages::client_message(csv(seq!["_l"@, t] + rest)) == (match number::as_float(t) {
            Ok(x) => read(ClientMessageView::ClientLatency { latency_ms: t }),
            Err(e) => refused("_l: "@ + e.words()),
        }),
        messages::client_message("_l"@) == refused("_l: missing latency"@),
{
    reveal_strlit("kd");
    reveal_strlit("ku");
    reveal_strlit("kr");
    reveal_strlit("m");
    reveal_strlit("m2");
    reveal_strlit("p");
    reveal_strlit("vb");
    reveal_strlit("ab");
    reveal_strlit("cr");
    reveal_strlit("cw");
    reveal_strlit("r");
    reveal_strlit("s");
    reveal_strlit("pong");
    reveal_strlit("_arg_fps");
    reveal_strlit("_f");
    reveal_strlit("_l");
    let command = "_l"@;
    assert(command.len() == 2 && command[0] == '_' && command[1] == 'l');
    lemma_one_field(command, t, rest);
    lemma_alone(command);
}

/// All keys are released, whatever follows the command.
pub proof fn law_kr_command(t: Seq<char>, rest: Seq<Seq<char>>)
    requires
        !t.contains(','),
        plain(rest),
        rest.len() <= 3,
    ensures
        messages::client_message("kr"@) == read(ClientMessageView::KeyReset),
        messages::client_message(csv(seq!["kr"@, t] + rest)) == read(ClientMessageView::KeyReset),
{
    reveal_strlit("kd");
    reveal_strlit("ku");
    reveal_strlit("kr");
    let command = "kr"@;
    assert(command.len() == 2 && command[0] == 'k' && command[1] == 'r');
    lemma_one_field(command, t, rest);
    lemma_alone(command);
}

/// The clipboard is read, whatever follows the command.
pub proof fn law_cr_command(t: Seq<char>, rest: Seq<Seq<char>>)
    requires
        !t.contains(','),
        plain(rest),
        rest.len() <= 3,
    ensures
        messages::client_message("cr"@) == read(ClientMessageView::ClipboardRead),
        messages::client_message(csv(seq!["cr"@, t] + rest)) == read(ClientMessageView::ClipboardRead),
{
    reveal_strlit("kd");
    reveal_strlit("ku");
    reveal_strlit("kr");
    reveal_strlit("m");
    reveal_strlit("m2");
    reveal_strlit("p");
    reveal_strlit("vb");
    reveal_strlit("ab");
    reveal_strlit("cr");
    let command = "cr"@;
    assert(command.len() == 2 && command[0] == 'c' && command[1] == 'r');
    lemma_one_field(command, t, rest);
    lemma_alone(command);
}

/// The client answers, whatever follows the command.
pub proof fn law_pong_command(t: Seq<char>, rest: Seq<Seq<char>>)
    requires
        !t.contains(','),
        plain(rest),
        rest.len() <= 3,
    ensures
        messages::client_message("pong"@) == read(ClientMessageView::Pong),
        messages::client_message(csv(seq!["pong"@, t] + rest)) == read(ClientMessageView::Pong),
{
    reveal_strlit("kd");
    reveal_strlit("ku");
    reveal_strlit("kr");
    reveal_strlit("m");
    reveal_strlit("m2");
    reveal_strlit("p");
    reveal_strlit("vb");
    reveal_strlit("ab");
    reveal_strlit("cr");
    reveal_strlit("cw");
    reveal_strlit("r");
    reveal_strlit("s");
    reveal_strlit("pong");
    let command = "pong"@;
    assert(command.len() == 4 && command[0] == 'p' && command[1] == 'o' && command[2] == 'n' && command[3] == 'g');
    lemma_one_field(command, t, rest);
    lemma_alone(command);
}

/// The mouse moves to a position, with the buttons of the mask held and the wheel turned: each of the four
/// numbers is read as itself. Without a fourth number, or with one that cannot be read, the wheel
/// stays.
pub proof fn law_m_command(x: i32, y: i32, mask: u8, scroll: i32, t: Seq<char>)
    requires
        number::as_i32(t) is Err,
    ensures
        messages::client_message(
            csv(
                seq![
                    "m"@,
                    number::signed_decimal(x as int),
                    number::signed_decimal(y as int),
                    number::decimal(mask as nat),
                    number::signed_decimal(scroll as int),
                ],
            ),
        ) == read(
            ClientMessageView::MouseAbsolute { x: x, y: y, button_mask: mask, scroll_mag: scroll },
        ),
        messages::client_message(
            csv(
                seq![
                    "m"@,
                    number::signed_decimal(x as int),
                    number::signed_decimal(y as int),
                    number::decimal(mask as nat),
                ],
            ),
        ) == read(ClientMessageView::MouseAbsolute { x: x, y: y, button_mask: mask, scroll_mag: 0 }),
        messages::client_message(
            csv(
                seq![
                    "m"@,
                    number::signed_decimal(x as int),
                    number::signed_decimal(y as int),
                    number::decimal(mask as nat),
                    t,
                ],
            ),
        ) == read(ClientMessageView::MouseAbsolute { x: x, y: y, button_mask: mask, scroll_mag: 0 }),
{
    reveal_strlit("kd");
    reveal_strlit("ku");
    reveal_strlit("kr");
    reveal_strlit("m");
    let command = "m"@;
    assert(command.len() == 1 && command[0] == 'm');
    let (a, b, m, w) = (
        number::signed_decimal(x as int),
        number::signed_decimal(y as int),
        number::decimal(mask as nat),
        number::signed_decimal(scroll as int),
    );
    number::law_numbers_read_back(x, 0, mask);
    number::law_numbers_read_back(y, 0, mask);
    number::law_numbers_read_back(scroll, 0, mask);
    lemma_no_comma(x as int);
    lemma_no_comma(y as int);
    lemma_no_comma(mask as int);
    lemma_no_comma(scroll as int);
    lemma_fields(seq![command, a, b, m, w], 5);
    lemma_fields(seq![command, a, b, m], 5);
    lemma_last_field(seq![command, a, b, m, t], 5);
}

/// A mouse message whose numbers are missing or cannot be read is refused, and the reason names
/// the first of them.
pub proof fn law_m_refusals(x: i32, y: i32, t: Seq<char>)
    requires
        !t.contains(','),
    ensures
        messages::client_message("m"@) == refused("m: missing x"@),
        messages::client_message(csv(seq!["m"@, number::signed_decimal(x as int)])) == refused(
            "m: missing y"@,
        ),
        messages::client_message(
            csv(
                seq!["m"@, number::signed_decimal(x as int), number::signed_decimal(y as int)],
            ),
        ) == refused("m: missing button_mask"@),
        number::as_i32(t) matches Err(e) ==> messages::client_message(csv(seq!["m"@, t])) == refused(
            "m: "@ + e.words(),
        ) && messages::client_message(csv(seq!["m"@, number::signed_decimal(x as int), t]))
            == refused("m: "@ + e.words()),
        number::as_u8(t) matches Err(e) ==> messages::client_message(
            csv(
                seq!["m"@, number::signed_decimal(x as int), number::signed_decimal(y as int), t],
            ),
        ) == refused("m: "@ + e.words()),
{
    reveal_strlit("kd");
    reveal_strlit("ku");
    reveal_strlit("kr");
    reveal_strlit("m");
    let command = "m"@;
    assert(command.len() == 1 && command[0] == 'm');
    let (a, b) = (number::signed_decimal(x as int), number::signed_decimal(y as int));
    number::law_numbers_read_back(x, 0, 0);
    number::law_numbers_read_back(y, 0, 0);
    lemma_no_comma(x as int);
    lemma_no_comma(y as int);
    lemma_alone(command);
    lemma_fields(seq![command, a], 5);
    lemma_fields(seq![command, a, b], 5);
    lemma_fields(seq![command, t], 5);
    lemma_fields(seq![command, a, t], 5);
    lemma_fields(seq![command, a, b, t], 5);
}

/// The mouse moves by a distance, with the buttons of the mask held and the wheel turned: each of the four
/// numbers is read as itself. Without a fourth number, or with one that cannot be read, the wheel
/// stays.
pub proof fn law_m2_command(x: i32, y: i32, mask: u8, scroll: i32, t: Seq<char>)
    requires
        number::as_i32(t) is Err,
    ensures
        messages::client_message(
            csv(
                seq![
                    "m2"@,
                    number::signed_decimal(x as int),
                    number::signed_decimal(y as int),
                    number::decimal(mask as nat),
                    number::signed_decimal(scroll as int),
                ],
            ),
        ) == read(
            ClientMessageView::MouseRelative { dx: x, dy: y, button_mask: mask, scroll_mag: scroll },
        ),
        messages::client_message(
            csv(
                seq![
                    "m2"@,
                    number::signed_decimal(x as int),
                    number::signed_decimal(y as int),
                    number::decimal(mask as nat),
                ],
            ),
        ) == read(ClientMessageView::MouseRelative { dx: x, dy: y, button_mask: mask, scroll_mag: 0 }),
        messages::client_message(
            csv(
                seq![
                    "m2"@,
                    number::signed_decimal(x as int),
                    number::signed_decimal(y as int),
                    number::decimal(mask as nat),
                    t,
                ],
            ),
        ) == read(ClientMessageView::MouseRelative { dx: x, dy: y, button_mask: mask, scroll_mag: 0 }),
{
    reveal_strlit("kd");
    reveal_strlit("ku");
    reveal_strlit("kr");
    reveal_strlit("m");
    reveal_strlit("m2");
    let command = "m2"@;
    assert(command.len() == 2 && command[0] == 'm' && command[1] == '2');
    let (a, b, m, w) = (
        number::signed_decimal(x as int),
        number::signed_decimal(y as int),
        number::decimal(mask as nat),
        number::signed_decimal(scroll as int),
    );
    number::law_numbers_read_back(x, 0, mask);
    number::law_numbers_read_back(y, 0, mask);
    number::law_numbers_read_back(scroll, 0, mask);
    lemma_no_comma(x as int);
    lemma_no_comma(y as int);
    lemma_no_comma(mask as int);
    lemma_no_comma(scroll as int);
    lemma_fields(seq![command, a, b, m, w], 5);
    lemma_fields(seq![command, a, b, m], 5);
    lemma_last_field(seq![command, a, b, m, t], 5);
}

/// A mouse message whose numbers are missing or cannot be read is refused, and the reason names
/// the first of them.
pub proof fn law_m2_refusals(x: i32, y: i32, t: Seq<char>)
    requires
        !t.contains(','),
    ensures
        messages::client_message("m2"@) == refused("m2: missing dx"@),
        messages::client_message(csv(seq!["m2"@, number::signed_decimal(x as int)])) == refused(
            "m2: missing dy"@,
        ),
        messages::client_message(
            csv(
                seq!["m2"@, number::signed_decimal(x as int), number::signed_decimal(y as int)],
            ),
        ) == refused("m2: missing button_mask"@),
        number::as_i32(t) matches Err(e) ==> messages::client_message(csv(seq!["m2"@, t])) == refused(
            "m2: "@ + e.words(),
        ) && messages::client_message(csv(seq!["m2"@, number::signed_decimal(x as int), t]))
            == refused("m2: "@ + e.words()),
        number::as_u8(t) matches Err(e) ==> messages::client_message(
            csv(
                seq!["m2"@, number::signed_decimal(x as int), number::signed_decimal(y as int), t],
            ),
        ) == refused("m2: "@ + e.words()),
{
    reveal_strlit("kd");
    reveal_strlit("ku");
    reveal_strlit("kr");
    reveal_strlit("m");
    reveal_strlit("m2");
    let command = "m2"@;
    assert(command.len() == 2 && command[0] == 'm' && command[1] == '2');
    let (a, b) = (number::signed_decimal(x as int), number::signed_decimal(y as int));
    number::law_numbers_read_back(x, 0, 0);
    number::law_numbers_read_back(y, 0, 0);
    lemma_no_comma(x as int);
    lemma_no_comma(y as int);
    lemma_alone(command);
    lemma_fields(seq![command, a], 5);
    lemma_fields(seq![command, a, b], 5);
    lemma_fields(seq![command, t], 5);
    lemma_fields(seq![command, a, t], 5);
    lemma_fields(seq![command, a, b, t], 5);
}

/// Resizing is switched on exactly if the first value is `true`; the resolution is the second one,
/// or empty.
pub proof fn law_arg_resize_command(t: Seq<char>, resolution: Seq<char>)
    requires
        !t.contains(','),
        !resolution.contains(','),
    ensures
        messages::client_message(csv(seq!["_arg_resize"@, t, resolution])) == read(
            ClientMessageView::SetResize { enabled: t == "true"@, resolution },
        ),
        messages::client_message(csv(seq!["_arg_resize"@, t])) == read(
            ClientMessageView::SetResize { enabled: t == "true"@, resolution: Seq::empty() },
        ),
        messages::client_message("_arg_resize"@) == refused("_arg_resize: missing enabled"@),
{
    reveal_strlit("kd");
    reveal_strlit("ku");
    reveal_strlit("kr");
    reveal_strlit("m");
    reveal_strlit("m2");
    reveal_strlit("p");
    reveal_strlit("vb");
    reveal_strlit("ab");
    reveal_strlit("cr");
    reveal_strlit("cw");
    reveal_strlit("r");
    reveal_strlit("s");
    reveal_strlit("pong");
    reveal_strlit("_arg_fps");
    reveal_strlit("_f");
    reveal_strlit("_l");
    reveal_strlit("js");
    reveal_strlit("_stats_video");
    reveal_strlit("_stats_audio");
    reveal_strlit("_arg_resize");
    reveal_strlit("");
    assert(""@ =~= Seq::<char>::empty());
    let command = "_arg_resize"@;
    assert(command.len() == 11 && command[0] == '_' && command[1] == 'a' && command[2] == 'r' && command[3] == 'g' && command[4] == '_' && command[5] == 'r' && command[6] == 'e' && command[7] == 's');
    assert("_stats_video"@[1] == 's' && "_stats_audio"@[1] == 's' && "_arg_fps"@.len() == 8);
    lemma_fields(seq![command, t, resolution], 5);
    lemma_fields(seq![command, t], 5);
    lemma_alone(command);
}

/// A joystick is connected: its number, its name, and how many axes and buttons it has.
pub proof fn law_js_connect(num: u8, name: Seq<char>, axes: u8, buttons: u8)
    requires
        !name.contains(','),
    ensures
        messages::client_message(
            csv(
                seq![
                    "js"@,
                    "c"@,
                    number::decimal(num as nat),
                    name,
                    number::decimal(axes as nat),
                    number::decimal(buttons as nat),
                ],
            ),
        ) == read(
            ClientMessageView::JoystickConnect {
                num,
                name_b64: name,
                num_axes: axes,
                num_btns: buttons,
            },
        ),
{
    reveal_strlit("kd");
    reveal_strlit("ku");
    reveal_strlit("kr");
    reveal_strlit("m");
    reveal_strlit("m2");
    reveal_strlit("p");
    reveal_strlit("vb");
    reveal_strlit("ab");
    reveal_strlit("cr");
    reveal_strlit("cw");
    reveal_strlit("r");
    reveal_strlit("s");
    reveal_strlit("pong");
    reveal_strlit("_arg_fps");
    reveal_strlit("_f");
    reveal_strlit("_l");
    reveal_strlit("js");
    reveal_strlit("c");
    reveal_strlit(",");
    let command = "js"@;
    assert(command.len() == 2 && command[0] == 'j' && command[1] == 's');
    let (n, a, b) = (
        number::decimal(num as nat),
        number::decimal(axes as nat),
        number::decimal(buttons as nat),
    );
    number::law_numbers_read_back(0, 0, num);
    number::law_numbers_read_back(0, 0, axes);
    number::law_numbers_read_back(0, 0, buttons);
    lemma_no_comma(num as int);
    lemma_no_comma(axes as int);
    lemma_no_comma(buttons as int);
    let f = seq![command, "c"@, n, name, a, b];
    lemma_fields(f, 6);
    lemma_command(f, 5);
}

/// A joystick is disconnected.
pub proof fn law_js_disconnect(num: u8)
    ensures
        messages::client_message(csv(seq!["js"@, "d"@, number::decimal(num as nat)])) == read(
            ClientMessageView::JoystickDisconnect { num },
        ),
{
    reveal_strlit("kd");
    reveal_strlit("ku");
    reveal_strlit("kr");
    reveal_strlit("m");
    reveal_strlit("m2");
    reveal_strlit("p");
    reveal_strlit("vb");
    reveal_strlit("ab");
    reveal_strlit("cr");
    reveal_strlit("cw");
    reveal_strlit("r");
    reveal_strlit("s");
    reveal_strlit("pong");
    reveal_strlit("_arg_fps");
    reveal_strlit("_f");
    reveal_strlit("_l");
    reveal_strlit("js");
    reveal_strlit("c");
    reveal_strlit("d");
    let command = "js"@;
    assert(command.len() == 2 && command[0] == 'j' && command[1] == 's');
    number::law_numbers_read_back(0, 0, num);
    lemma_no_comma(num as int);
    let f = seq![command, "d"@, number::decimal(num as nat)];
    lemma_fields(f, 6);
    lemma_command(f, 5);
    assert("d"@[0] != "c"@[0]);
}

/// A button of a joystick is pressed or released: the numbers of the joystick and of the part, and the value, a
/// floating-point literal.
pub proof fn law_js_button(js_num: u8, number_of: u8, t: Seq<char>)
    requires
        !t.contains(','),
    ensures
        messages::client_message(
            csv(
                seq![
                    "js"@,
                    "b"@,
                    number::decimal(js_num as nat),
                    number::decimal(number_of as nat),
                    t,
                ],
            ),
        ) == (match number::as_float(t) {
            Ok(x) => read(
                ClientMessageView::JoystickButton { js_num, btn_num: number_of, btn_val: t },
            ),
            Err(e) => refused("js,b: "@ + e.words()),
        }),
{
    reveal_strlit("kd");
    reveal_strlit("ku");
    reveal_strlit("kr");
    reveal_strlit("m");
    reveal_strlit("m2");
    reveal_strlit("p");
    reveal_strlit("vb");
    reveal_strlit("ab");
    reveal_strlit("cr");
    reveal_strlit("cw");
    reveal_strlit("r");
    reveal_strlit("s");
    reveal_strlit("pong");
    reveal_strlit("_arg_fps");
    reveal_strlit("_f");
    reveal_strlit("_l");
    reveal_strlit("js");
    reveal_strlit("a");
    reveal_strlit("b");
    reveal_strlit("c");
    reveal_strlit("d");
    let command = "js"@;
    assert(command.len() == 2 && command[0] == 'j' && command[1] == 's');
    number::law_numbers_read_back(0, 0, js_num);
    number::law_numbers_read_back(0, 0, number_of);
    lemma_no_comma(js_num as int);
    lemma_no_comma(number_of as int);
    let f = seq![
        command,
        "b"@,
        number::decimal(js_num as nat),
        number::decimal(number_of as nat),
        t,
    ];
    lemma_fields(f, 6);
    lemma_command(f, 5);
    assert("b"@[0] == 'b' && "c"@[0] == 'c' && "d"@[0] == 'd' && "b"@[0] == 'b');
}

/// An axis of a joystick is moved: the numbers of the joystick and of the part, and the value, a
/// floating-point literal.
pub proof fn law_js_axis(js_num: u8, number_of: u8, t: Seq<char>)
    requires
        !t.contains(','),
    ensures
        messages::client_message(
            csv(
                seq![
                    "js"@,
                    "a"@,
                    number::decimal(js_num as nat),
                    number::decimal(number_of as nat),
                    t,
                ],
            ),
        ) == (match number::as_float(t) {
            Ok(x) => read(
                ClientMessageView::JoystickAxis { js_num, axis_num: number_of, axis_val: t },
            ),
            Err(e) => refused("js,a: "@ + e.words()),
        }),
{
    reveal_strlit("kd");
    reveal_strlit("ku");
    reveal_strlit("kr");
    reveal_strlit("m");
    reveal_strlit("m2");
    reveal_strlit("p");
    reveal_strlit("vb");
    reveal_strlit("ab");
    reveal_strlit("cr");
    reveal_strlit("cw");
    reveal_strlit("r");
    reveal_strlit("s");
    reveal_strlit("pong");
    reveal_strlit("_arg_fps");
    reveal_strlit("_f");
    reveal_strlit("_l");
    reveal_strlit("js");
    reveal_strlit("a");
    reveal_strlit("b");
    reveal_strlit("c");
    reveal_strlit("d");
    let command = "js"@;
    assert(command.len() == 2 && command[0] == 'j' && command[1] == 's');
    number::law_numbers_read_back(0, 0, js_num);
    number::law_numbers_read_back(0, 0, number_of);
    lemma_no_comma(js_num as int);
    lemma_no_comma(number_of as int);
    let f = seq![
        command,
        "a"@,
        number::decimal(js_num as nat),
        number::decimal(number_of as nat),
        t,
    ];
    lemma_fields(f, 6);
    lemma_command(f, 5);
    assert("a"@[0] == 'a' && "c"@[0] == 'c' && "d"@[0] == 'd' && "b"@[0] == 'b');
}

/// A joystick message needs a subcommand, and one that there is.
pub proof fn law_js_subcommands(sub: Seq<char>)
    requires
        !sub.contains(','),
        sub != "a"@ && sub != "b"@ && sub != "c"@ && sub != "d"@,
    ensures
        messages::client_message("js"@) == refused("js: missing subcommand"@),
        messages::client_message(csv(seq!["js"@, sub])) == refused("js: unknown subcommand: "@ + sub),
{
    reveal_strlit("kd");
    reveal_strlit("ku");
    reveal_strlit("kr");
    reveal_strlit("m");
    reveal_strlit("m2");
    reveal_strlit("p");
    reveal_strlit("vb");
    reveal_strlit("ab");
    reveal_strlit("cr");
    reveal_strlit("cw");
    reveal_strlit("r");
    reveal_strlit("s");
    reveal_strlit("pong");
    reveal_strlit("_arg_fps");
    reveal_strlit("_f");
    reveal_strlit("_l");
    reveal_strlit("js");
    let command = "js"@;
    assert(command.len() == 2 && command[0] == 'j' && command[1] == 's');
    lemma_alone(command);
    lemma_js(seq![command, sub]);
}

/// What is missing of a new joystick, or is no number, is told.
#[verifier::rlimit(60)]
pub proof fn law_js_c_refusals(n: u8, name: Seq<char>, t: Seq<char>)
    requires
        !t.contains(','),
        !name.contains(','),
    ensures
        messages::client_message(csv(seq!["js"@, "c"@])) == refused("js,c: missing num"@),
        number::as_u8(t) matches Err(e) ==> messages::client_message(csv(seq!["js"@, "c"@, t])) == refused("js,c: "@ + e.words()),
        messages::client_message(csv(seq!["js"@, "c"@, number::decimal(n as nat)])) == refused("js,c: missing name"@),
        messages::client_message(csv(seq!["js"@, "c"@, number::decimal(n as nat), name])) == refused("js,c: missing axes"@),
        number::as_u8(t) matches Err(e) ==> messages::client_message(csv(seq!["js"@, "c"@, number::decimal(n as nat), name, t])) == refused("js,c: "@ + e.words()),
        messages::client_message(csv(seq!["js"@, "c"@, number::decimal(n as nat), name, number::decimal(n as nat)])) == refused("js,c: missing btns"@),
{
    reveal_strlit("kd");
    reveal_strlit("ku");
    reveal_strlit("kr");
    reveal_strlit("m");
    reveal_strlit("m2");
    reveal_strlit("p");
    reveal_strlit("vb");
    reveal_strlit("ab");
    reveal_strlit("cr");
    reveal_strlit("cw");
    reveal_strlit("r");
    reveal_strlit("s");
    reveal_strlit("pong");
    reveal_strlit("_arg_fps");
    reveal_strlit("_f");
    reveal_strlit("_l");
    reveal_strlit("js");
    reveal_strlit("a");
    reveal_strlit("b");
    reveal_strlit("c");
    reveal_strlit("d");
    let command = "js"@;
    assert(command.len() == 2 && command[0] == 'j' && command[1] == 's');
    let d = number::decimal(n as nat);
    number::law_numbers_read_back(0, 0, n);
    lemma_no_comma(n as int);
    assert("a"@[0] == 'a' && "b"@[0] == 'b' && "c"@[0] == 'c' && "d"@[0] == 'd');
    lemma_js(seq![command, "c"@]);
    lemma_js(seq![command, "c"@, t]);
    lemma_js(seq![command, "c"@, d]);
    lemma_js(seq![command, "c"@, d, name]);
    lemma_js(seq![command, "c"@, d, name, t]);
    lemma_js(seq![command, "c"@, d, name, d]);
}

/// What is missing of a joystick that leaves, or is no number, is told.
#[verifier::rlimit(60)]
pub proof fn law_js_d_refusals(n: u8, t: Seq<char>)
    requires
        !t.contains(','),
    ensures
        messages::client_message(csv(seq!["js"@, "d"@])) == refused("js,d: missing num"@),
        number::as_u8(t) matches Err(e) ==> messages::client_message(csv(seq!["js"@, "d"@, t])) == refused("js,d: "@ + e.words()),
{
    reveal_strlit("kd");
    reveal_strlit("ku");
    reveal_strlit("kr");
    reveal_strlit("m");
    reveal_strlit("m2");
    reveal_strlit("p");
    reveal_strlit("vb");
    reveal_strlit("ab");
    reveal_strlit("cr");
    reveal_strlit("cw");
    reveal_strlit("r");
    reveal_strlit("s");
    reveal_strlit("pong");
    reveal_strlit("_arg_fps");
    reveal_strlit("_f");
    reveal_strlit("_l");
    reveal_strlit("js");
    reveal_strlit("a");
    reveal_strlit("b");
    reveal_strlit("c");
    reveal_strlit("d");
    let command = "js"@;
    assert(command.len() == 2 && command[0] == 'j' && command[1] == 's');
    let d = number::decimal(n as nat);
    number::law_numbers_read_back(0, 0, n);
    lemma_no_comma(n as int);
    assert("a"@[0] == 'a' && "b"@[0] == 'b' && "c"@[0] == 'c' && "d"@[0] == 'd');
    lemma_js(seq![command, "d"@]);
    lemma_js(seq![command, "d"@, t]);
}

/// What is missing of a button of a joystick, or is no number, is told.
#[verifier::rlimit(60)]
pub proof fn law_js_b_refusals(n: u8, t: Seq<char>)
    requires
        !t.contains(','),
    ensures
        messages::client_message(csv(seq!["js"@, "b"@])) == refused("js,b: missing js_num"@),
        number::as_u8(t) matches Err(e) ==> messages::client_message(csv(seq!["js"@, "b"@, t])) == refused("js,b: "@ + e.words()),
        messages::client_message(csv(seq!["js"@, "b"@, number::decimal(n as nat)])) == refused("js,b: missing btn_num"@),
        number::as_u8(t) matches Err(e) ==> messages::client_message(csv(seq!["js"@, "b"@, number::decimal(n as nat), t])) == refused("js,b: "@ + e.words()),
        messages::client_message(csv(seq!["js"@, "b"@, number::decimal(n as nat), number::decimal(n as nat)])) == refused("js,b: missing btn_val"@),
{
    reveal_strlit("kd");
    reveal_strlit("ku");
    reveal_strlit("kr");
    reveal_strlit("m");
    reveal_strlit("m2");
    reveal_strlit("p");
    reveal_strlit("vb");
    reveal_strlit("ab");
    reveal_strlit("cr");
    reveal_strlit("cw");
    reveal_strlit("r");
    reveal_strlit("s");
    reveal_strlit("pong");
    reveal_strlit("_arg_fps");
    reveal_strlit("_f");
    reveal_strlit("_l");
    reveal_strlit("js");
    reveal_strlit("a");
    reveal_strlit("b");
    reveal_strlit("c");
    reveal_strlit("d");
    let command = "js"@;
    assert(command.len() == 2 && command[0] == 'j' && command[1] == 's');
    let d = number::decimal(n as nat);
    number::law_numbers_read_back(0, 0, n);
    lemma_no_comma(n as int);
    assert("a"@[0] == 'a' && "b"@[0] == 'b' && "c"@[0] == 'c' && "d"@[0] == 'd');
    lemma_js(seq![command, "b"@]);
    lemma_js(seq![command, "b"@, t]);
    lemma_js(seq![command, "b"@, d]);
    lemma_js(seq![command, "b"@, d, t]);
    lemma_js(seq![command, "b"@, d, d]);
}

/// What is missing of a axis of a joystick, or is no number, is told.
#[verifier::rlimit(60)]
pub proof fn law_js_a_refusals(n: u8, t: Seq<char>)
    requires
        !t.contains(','),
    ensures
        messages::client_message(csv(seq!["js"@, "a"@])) == refused("js,a: missing js_num"@),
        number::as_u8(t) matches Err(e) ==> messages::client_message(csv(seq!["js"@, "a"@, t])) == refused("js,a: "@ + e.words()),
        messages::client_message(csv(seq!["js"@, "a"@, number::decimal(n as nat)])) == refused("js,a: missing axis_num"@),
        number::as_u8(t) matches Err(e) ==> messages::client_message(csv(seq!["js"@, "a"@, number::decimal(n as nat), t])) == refused("js,a: "@ + e.words()),
        messages::client_message(csv(seq!["js"@, "a"@, number::decimal(n as nat), number::decimal(n as nat)])) == refused("js,a: missing axis_val"@),
{
    reveal_strlit("kd");
    reveal_strlit("ku");
    reveal_strlit("kr");
    reveal_strlit("m");
    reveal_strlit("m2");
    reveal_strlit("p");
    reveal_strlit("vb");
    reveal_strlit("ab");
    reveal_strlit("cr");
    reveal_strlit("cw");
    reveal_strlit("r");
    reveal_strlit("s");
    reveal_strlit("pong");
    reveal_strlit("_arg_fps");
    reveal_strlit("_f");
    reveal_strlit("_l");
    reveal_strlit("js");
    reveal_strlit("a");
    reveal_strlit("b");
    reveal_strlit("c");
    reveal_strlit("d");
    let command = "js"@;
    assert(command.len() == 2 && command[0] == 'j' && command[1] == 's');
    let d = number::decimal(n as nat);
    number::law_numbers_read_back(0, 0, n);
    lemma_no_comma(n as int);
    assert("a"@[0] == 'a' && "b"@[0] == 'b' && "c"@[0] == 'c' && "d"@[0] == 'd');
    lemma_js(seq![command, "a"@]);
    lemma_js(seq![command, "a"@, t]);
    lemma_js(seq![command, "a"@, d]);
    lemma_js(seq![command, "a"@, d, t]);
    lemma_js(seq![command, "a"@, d, d]);
}

proof fn lemma_js(f: Seq<Seq<char>>)
    requires
        plain(f),
        1 <= f.len() <= 5,
    ensures
        text::split_n(csv(f), ","@, 6) == f,
        text::split_n(csv(f), ","@, 5) == f,
{
    lemma_fields(f, 6);
    lemma_fields(f, 5);
}

/// The first field, however many fields there are.
proof fn lemma_command(f: Seq<Seq<char>>, n: nat)
    requires
        plain(f),
        f.len() >= 2,
        n >= 2,
    ensures
        text::split_n(csv(f), ","@, n)[0] == f[0],
        text::split_n(csv(f), ","@, n).len() >= 2,
{
    reveal_strlit(",");
    assert(","@ =~= seq![',']);
    text::lemma_split_first(f[0], ","@, csv(f.skip(1)), n);
    text::lemma_split_n_len(csv(f.skip(1)), ","@, (n - 1) as nat);
}

proof fn lemma_no_comma(n: int)
    ensures
        !number::signed_decimal(n).contains(','),
        n >= 0 ==> number::signed_decimal(n) == number::decimal(n as nat),
{
    let m = if n < 0 {
        -n
    } else {
        n
    };
    let d = number::decimal(m as nat);
    number::law_decimal_reads_back(m as nat);
    let s = number::signed_decimal(n);
    if s.contains(',') {
        let i = choose|i: int| 0 <= i < s.len() && s[i] == ',';
        if n < 0 {
            assert(i > 0);
            assert(s[i] == d[i - 1]);
            assert(number::digit(d[i - 1]));
        } else {
            assert(number::digit(d[i]));
        }
    }
}

/// A message whose first field is none of the commands is refused, and the reason names it.
pub proof fn law_unknown_commands(command: Seq<char>, rest: Seq<Seq<char>>)
    requires
        !command.contains(','),
        plain(rest),
        rest.len() <= 4,
        command != "kd"@,
        command != "ku"@,
        command != "kr"@,
        command != "m"@,
        command != "m2"@,
        command != "p"@,
        command != "vb"@,
        command != "ab"@,
        command != "cr"@,
        command != "cw"@,
        command != "r"@,
        command != "s"@,
        command != "pong"@,
        command != "_arg_fps"@,
        command != "_f"@,
        command != "_l"@,
        command != "js"@,
        command != "_stats_video"@,
        command != "_stats_audio"@,
        command != "_arg_resize"@,
    ensures
        messages::client_message(csv(seq![command] + rest)) == refused(
            "Unknown command: "@ + command,
        ),
{
    let f = seq![command] + rest;
    assert forall|i: int| 0 <= i < f.len() implies !(#[trigger] f[i]).contains(',') by {
        if i >= 1 {
            assert(f[i] == rest[i - 1]);
        }
    }
    lemma_fields(f, 5);
}

} // verus!
