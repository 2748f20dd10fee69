//! The comparison of two recorded sessions.

use vstd::prelude::*;
use crate::double;
use crate::json;
use crate::number;
use crate::oracle::band;
use crate::oracle::EventView;
use crate::oracle::OracleEvent;
use crate::oracle::OracleEventType;
use crate::oracle::OracleEventView;
use crate::text;

verus! {

broadcast use vstd::string::group_string_axioms;

/// The first position below `n` at which two lists differ, `skipped` left aside.
pub open spec fn first_difference(
    a: Seq<Seq<char>>,
    b: Seq<Seq<char>>,
    skipped: Option<int>,
    n: int,
) -> Option<int>
    decreases n,
{
    if n <= 0 {
        None
    } else {
        match first_difference(a, b, skipped, n - 1) {
            Some(i) => Some(i),
            None => if skipped != Some(n - 1) && a[n - 1] != b[n - 1] {
                Some(n - 1)
            } else {
                None
            },
        }
    }
}

fn find_difference(a: &Vec<Vec<char>>, b: &Vec<Vec<char>>, skipped: Option<usize>) -> (r: Option<
    usize,
>)
    ensures
        ({
            let n = if a@.len() < b@.len() {
                a@.len() as int
            } else {
                b@.len() as int
            };
            let s = match skipped {
                Some(i) => Some(i as int),
                None => None,
            };
            match r {
                Some(i) => i < n && first_difference(text::texts(a@), text::texts(b@), s, n) == Some(
                    i as int,
                ),
                None => first_difference(text::texts(a@), text::texts(b@), s, n) is None,
            }
        }),
{
    let ghost s = match skipped {
        Some(i) => Some(i as int),
        None => None,
    };
    let n: usize = if a.len() < b.len() {
        a.len()
    } else {
        b.len()
    };
    let mut i: usize = 0;
    while i < n
        invariant
            i <= n,
            n <= a@.len(),
            n <= b@.len(),
            s == (match skipped {
                Some(i) => Some(i as int),
                None => None,
            }),
            n == (if a@.len() < b@.len() {
                a@.len()
            } else {
                b@.len()
            }),
            first_difference(text::texts(a@), text::texts(b@), s, i as int) is None,
        decreases n - i,
    {
        let skip = match skipped {
            Some(k) => k == i,
            None => false,
        };
        assert(text::texts(a@)[i as int] == a@[i as int]@);
        assert(text::texts(b@)[i as int] == b@[i as int]@);
        if !skip && !text::same(a[i].as_slice(), b[i].as_slice()) {
            proof {
                lemma_difference_stays(text::texts(a@), text::texts(b@), s, i + 1, n as int);
            }
            return Some(i);
        }
        i += 1;
    }
    None
}

proof fn lemma_difference_stays(
    a: Seq<Seq<char>>,
    b: Seq<Seq<char>>,
    skipped: Option<int>,
    m: int,
    n: int,
)
    requires
        m <= n,
        first_difference(a, b, skipped, m) is Some,
    ensures
        first_difference(a, b, skipped, n) == first_difference(a, b, skipped, m),
    decreases n - m,
{
    if m < n {
        lemma_difference_stays(a, b, skipped, m, n - 1);
    }
}

proof fn lemma_no_difference(
    a: Seq<Seq<char>>,
    b: Seq<Seq<char>>,
    skipped: Option<int>,
    n: int,
)
    ensures
        first_difference(a, b, skipped, n) is None <==> forall|i: int|
            0 <= i < n && skipped != Some(i) ==> #[trigger] a[i] == b[i],
    decreases n,
{
    if n > 0 {
        lemma_no_difference(a, b, skipped, n - 1);
    }
}

/// A line of a description that varies between sessions: origin, timing, credentials,
/// fingerprint, role and stream identifiers.
pub open spec fn session_line(line: Seq<char>) -> bool {
    ||| text::begins(line, "o="@)
    ||| text::begins(line, "t="@)
    ||| text::begins(line, "a=ice-ufrag:"@)
    ||| text::begins(line, "a=ice-pwd:"@)
    ||| text::begins(line, "a=fingerprint:"@)
    ||| text::begins(line, "a=setup:"@)
    ||| text::begins(line, "a=msid:"@)
}

/// The lines that do not vary between sessions.
pub open spec fn lasting(lines: Seq<Seq<char>>) -> Seq<Seq<char>> {
    lines.filter(|line: Seq<char>| !session_line(line))
}

fn is_session_line(line: &[char]) -> (r: bool)
    ensures
        r == session_line(line@),
{
    text::starts_with(line, "o=") || text::starts_with(line, "t=") || text::starts_with(
        line,
        "a=ice-ufrag:",
    ) || text::starts_with(line, "a=ice-pwd:") || text::starts_with(line, "a=fingerprint:")
        || text::starts_with(line, "a=setup:") || text::starts_with(line, "a=msid:")
}

fn lasting_lines(sdp: &str) -> (r: Vec<Vec<char>>)
    ensures
        text::texts(r@) == lasting(text::lines(sdp@)),
{
    let lines = text::split_lines(text::to_chars(sdp).as_slice());
    let ghost all = text::texts(lines@);
    let ghost keep = |line: Seq<char>| !session_line(line);
    let mut out: Vec<Vec<char>> = Vec::new();
    let mut i: usize = 0;
    proof {
        reveal(Seq::filter);
    }
    assert(all.take(0) =~= Seq::<Seq<char>>::empty());
    assert(text::texts(out@) =~= all.take(0).filter(keep));
    while i < lines.len()
        invariant
            i <= lines@.len(),
            all == text::texts(lines@),
            keep == (|line: Seq<char>| !session_line(line)),
            text::texts(out@) == all.take(i as int).filter(keep),
        decreases lines@.len() - i,
    {
        let ghost before = text::texts(out@);
        let line = &lines[i];
        proof {
            reveal(Seq::filter);
            assert(all.take(i + 1).drop_last() =~= all.take(i as int));
            assert(all.take(i + 1).last() == line@);
        }
        if !is_session_line(line.as_slice()) {
            let kept = text::piece(line.as_slice(), 0, line.len());
            assert(kept@ =~= line@);
            out.push(kept);
            assert(text::texts(out@) =~= before.push(line@));
        }
        i += 1;
    }
    assert(all.take(i as int) =~= all);
    out
}

/// Why two descriptions diverge, lines that vary between sessions left aside.
pub open spec fn sdp_divergence(a: Seq<char>, b: Seq<char>) -> Option<Seq<char>> {
    let (x, y) = (lasting(text::lines(a)), lasting(text::lines(b)));
    let n = if x.len() < y.len() {
        x.len() as int
    } else {
        y.len() as int
    };
    match first_difference(x, y, None, n) {
        Some(i) => Some(
            "SDP diverges at line "@ + number::decimal(i as nat) + text::framed(
                ": '"@,
                x[i],
                "' vs '"@,
                y[i],
                "'"@,
            ),
        ),
        None => if x.len() != y.len() {
            Some(
                text::framed(
                    "SDP line count differs: "@,
                    number::decimal(x.len()),
                    " vs "@,
                    number::decimal(y.len()),
                    ""@,
                ),
            )
        } else {
            None
        },
    }
}

/// Compares two descriptions, lines that vary between sessions left aside.
pub fn compare_sdp(a: &str, b: &str) -> (r: Option<String>)
    ensures
        text::text_of(r) == sdp_divergence(a@, b@),
{
    let x = lasting_lines(a);
    let y = lasting_lines(b);
    assert(text::texts(x@).len() == x@.len());
    assert(text::texts(y@).len() == y@.len());
    match find_difference(&x, &y, None) {
        Some(i) => {
            let mut out = text::to_chars("SDP diverges at line ");
            number::push_decimal(&mut out, i as u64);
            let rest = text::frame(": '", x[i].as_slice(), "' vs '", y[i].as_slice(), "'");
            text::push_str(&mut out, &rest);
            Some(text::to_text(out.as_slice()))
        },
        None => if x.len() != y.len() {
            Some(
                text::frame(
                    "SDP line count differs: ",
                    number::decimal_text(x.len() as u64).as_slice(),
                    " vs ",
                    number::decimal_text(y.len() as u64).as_slice(),
                    "",
                ),
            )
        } else {
            None
        },
    }
}

/// Two descriptions diverge exactly if lines differ that do not vary between sessions.
pub proof fn law_sdp_lasting_lines(a: Seq<char>, b: Seq<char>)
    ensures
        sdp_divergence(a, b) is None <==> lasting(text::lines(a)) == lasting(text::lines(b)),
{
    let (x, y) = (lasting(text::lines(a)), lasting(text::lines(b)));
    let n = if x.len() < y.len() {
        x.len() as int
    } else {
        y.len() as int
    };
    lemma_no_difference(x, y, None, n);
    if sdp_divergence(a, b) is None {
        assert(x =~= y);
    }
}

/// Why two candidates diverge: their fields are compared, the priority left aside.
pub open spec fn ice_divergence(a: Seq<char>, b: Seq<char>) -> Option<Seq<char>> {
    let (x, y) = (text::words(a), text::words(b));
    if x.len() != y.len() {
        Some(
            text::framed(
                "ICE candidate field count: "@,
                number::decimal(x.len()),
                " vs "@,
                number::decimal(y.len()),
                ""@,
            ),
        )
    } else {
        match first_difference(x, y, Some(3), x.len() as int) {
            Some(i) => Some(
                "ICE candidate field "@ + number::decimal(i as nat) + text::framed(
                    " mismatch: '"@,
                    x[i],
                    "' vs '"@,
                    y[i],
                    "'"@,
                ),
            ),
            None => None,
        }
    }
}

/// Two candidates diverge exactly if they have different numbers of fields, or differ in a field
/// other than the priority, which is the fourth.
pub proof fn law_ice_fields(a: Seq<char>, b: Seq<char>)
    ensures
        ice_divergence(a, b) is None <==> text::words(a).len() == text::words(b).len() && forall|
            i: int,
        |
            0 <= i < text::words(a).len() && i != 3 ==> #[trigger] text::words(a)[i] == text::words(
                b,
            )[i],
{
    lemma_no_difference(text::words(a), text::words(b), Some(3), text::words(a).len() as int);
}

/// Compares two candidates field by field, the priority left aside.
pub fn compare_ice_candidate(a: &str, b: &str) -> (r: Option<String>)
    ensures
        text::text_of(r) == ice_divergence(a@, b@),
{
    let x = text::split_words(text::to_chars(a).as_slice());
    let y = text::split_words(text::to_chars(b).as_slice());
    assert(text::texts(x@).len() == x@.len());
    assert(text::texts(y@).len() == y@.len());
    if x.len() != y.len() {
        return Some(
            text::frame(
                "ICE candidate field count: ",
                number::decimal_text(x.len() as u64).as_slice(),
                " vs ",
                number::decimal_text(y.len() as u64).as_slice(),
                "",
            ),
        );
    }
    match find_difference(&x, &y, Some(3)) {
        Some(i) => {
            let mut out = text::to_chars("ICE candidate field ");
            number::push_decimal(&mut out, i as u64);
            let rest = text::frame(" mismatch: '", x[i].as_slice(), "' vs '", y[i].as_slice(), "'");
            text::push_str(&mut out, &rest);
            Some(text::to_text(out.as_slice()))
        },
        None => None,
    }
}

/// What a bandwidth estimate may differ by, as a double: five per cent of it, but at least one.
pub open spec fn bwe_tolerance(a: u64) -> nat {
    let t = double::twentieth_of(a as nat);
    if t < double::ONE {
        double::ONE as nat
    } else {
        t
    }
}

/// Why two bandwidth estimates diverge: they differ by more than the first may. Both are taken as
/// doubles, and the tolerance is told as one.
pub open spec fn bwe_divergence(a: u64, b: u64) -> Option<Seq<char>> {
    if double::apart(a as nat, b as nat) * double::ONE > bwe_tolerance(a) {
        Some(
            text::framed(
                "BWE divergence: "@,
                number::decimal(a as nat),
                " vs "@,
                number::decimal(b as nat),
                " (±5% = "@,
            ) + double::shortest(bwe_tolerance(a)) + ")"@,
        )
    } else {
        None
    }
}

/// Compares two bandwidth estimates.
pub fn compare_bwe(a: u64, b: u64) -> (r: Option<String>)
    ensures
        text::text_of(r) == bwe_divergence(a, b),
{
    let twentieth = double::twentieth(a);
    let tolerance: u128 = if twentieth < double::ONE {
        double::ONE
    } else {
        twentieth
    };
    proof {
        double::lemma_one_exact();
    }
    if double::distance(a, b) * double::ONE > tolerance {
        let head = text::frame(
            "BWE divergence: ",
            number::decimal_text(a).as_slice(),
            " vs ",
            number::decimal_text(b).as_slice(),
            " (±5% = ",
        );
        let mut out = text::to_chars(&head);
        text::push_all(&mut out, double::shortest_text(tolerance).as_slice());
        text::push_str(&mut out, ")");
        Some(text::to_text(out.as_slice()))
    } else {
        None
    }
}

/// Why two data-channel messages diverge, given whether they hold equal JSON values, if both are
/// JSON: other messages are compared as texts.
pub open spec fn message_divergence(
    a: Seq<char>,
    b: Seq<char>,
    equal: Option<bool>,
) -> Option<Seq<char>> {
    match equal {
        Some(true) => None,
        Some(false) => Some("DC message JSON mismatch"@),
        None => if a != b {
            Some(text::framed("DC message string mismatch: '"@, a, "' vs '"@, b, "'"@))
        } else {
            None
        },
    }
}

/// Compares two data-channel messages, given whether they hold equal JSON values.
pub fn compare_messages(a: &str, b: &str, equal: Option<bool>) -> (r: Option<String>)
    ensures
        text::text_of(r) == message_divergence(a@, b@, equal),
{
    match equal {
        Some(true) => None,
        Some(false) => Some("DC message JSON mismatch".to_string()),
        None => mismatch("DC message string mismatch: '", a, "' vs '", b, "'"),
    }
}

/// Frames two texts, if they differ.
fn mismatch(head: &str, a: &str, middle: &str, b: &str, tail: &str) -> (r: Option<String>)
    ensures
        text::text_of(r) == (if a@ != b@ {
            Some(text::framed(head@, a@, middle@, b@, tail@))
        } else {
            None
        }),
{
    let x = text::to_chars(a);
    let y = text::to_chars(b);
    if text::same(x.as_slice(), y.as_slice()) {
        None
    } else {
        Some(text::frame(head, x.as_slice(), middle, y.as_slice(), tail))
    }
}

/// Why two statistics diverge, given their compact forms, if they are JSON: numbers may differ by
/// ten per cent; other texts must be equal.
pub open spec fn stats_divergence(
    a: Seq<char>,
    b: Seq<char>,
    compact_a: Option<Seq<char>>,
    compact_b: Option<Seq<char>>,
) -> Option<Seq<char>> {
    let fine = match (compact_a, compact_b) {
        (Some(x), Some(y)) => band::close(x, y),
        _ => a == b,
    };
    if fine {
        None
    } else {
        Some("Stats divergence (check manually)"@)
    }
}

/// Compares two statistics, given their compact forms, if they are JSON.
pub fn compare_stats(
    a: &str,
    b: &str,
    compact_a: Option<String>,
    compact_b: Option<String>,
) -> (r: Option<String>)
    ensures
        text::text_of(r) == stats_divergence(
            a@,
            b@,
            text::text_of(compact_a),
            text::text_of(compact_b),
        ),
{
    let fine = match (compact_a, compact_b) {
        (Some(x), Some(y)) => band::is_close(&x, &y),
        _ => text::is(text::to_chars(a).as_slice(), b),
    };
    if fine {
        None
    } else {
        Some("Stats divergence (check manually)".to_string())
    }
}

/// The position of an event's kind among the kinds.
pub open spec fn kind(e: EventView) -> nat {
    match e {
        EventView::SdpOffer { .. } => 0,
        EventView::SdpAnswer { .. } => 1,
        EventView::IceCandidate { .. } => 2,
        EventView::Input { .. } => 3,
        EventView::BweUpdate { .. } => 4,
        EventView::EncoderProp { .. } => 5,
        EventView::DataChannelSend { .. } => 6,
        EventView::Stats { .. } => 7,
        EventView::PipelineState { .. } => 8,
        EventView::Signaling { .. } => 9,
    }
}

fn kind_of(e: &OracleEventType) -> (r: u64)
    ensures
        r == kind(e@),
{
    match e {
        OracleEventType::SdpOffer { .. } => 0,
        OracleEventType::SdpAnswer { .. } => 1,
        OracleEventType::IceCandidate { .. } => 2,
        OracleEventType::Input { .. } => 3,
        OracleEventType::BweUpdate { .. } => 4,
        OracleEventType::EncoderProp { .. } => 5,
        OracleEventType::DataChannelSend { .. } => 6,
        OracleEventType::Stats { .. } => 7,
        OracleEventType::PipelineState { .. } => 8,
        OracleEventType::Signaling { .. } => 9,
    }
}

/// Why two events diverge, if they do.
pub open spec fn divergence(a: EventView, b: EventView) -> Option<Seq<char>> {
    match (a, b) {
        (EventView::Input { raw: x }, EventView::Input { raw: y }) => if x != y {
            Some(text::framed("Input mismatch: '"@, x, "' vs '"@, y, "'"@))
        } else {
            None
        },
        (EventView::BweUpdate { bitrate_bps: x }, EventView::BweUpdate { bitrate_bps: y }) => {
            bwe_divergence(x, y)
        },
        (
            EventView::EncoderProp { property: p, value: v },
            EventView::EncoderProp { property: q, value: w },
        ) => if p != q || v != w {
            Some(
                text::framed("Encoder prop mismatch: "@, p, "="@, v, " vs "@) + text::framed(
                    ""@,
                    q,
                    "="@,
                    w,
                    ""@,
                ),
            )
        } else {
            None
        },
        (EventView::SdpOffer { sdp: x }, EventView::SdpOffer { sdp: y }) => sdp_divergence(x, y),
        (EventView::SdpAnswer { sdp: x }, EventView::SdpAnswer { sdp: y }) => sdp_divergence(x, y),
        (
            EventView::IceCandidate { candidate: c, sdp_m_line_index: i, direction: d },
            EventView::IceCandidate { candidate: k, sdp_m_line_index: j, direction: e },
        ) => if d != e {
            Some(text::framed("ICE direction mismatch: "@, d, " vs "@, e, ""@))
        } else if i != j {
            Some(
                text::framed(
                    "ICE mline index mismatch: "@,
                    number::decimal(i as nat),
                    " vs "@,
                    number::decimal(j as nat),
                    ""@,
                ),
            )
        } else {
            ice_divergence(c, k)
        },
        (EventView::DataChannelSend { message: x }, EventView::DataChannelSend { message: y }) => {
            message_divergence(x, y, json::json_equal(x, y))
        },
        (EventView::Stats { json: x }, EventView::Stats { json: y }) => {
            stats_divergence(x, y, json::json_compact(x), json::json_compact(y))
        },
        (EventView::PipelineState { state: x }, EventView::PipelineState { state: y }) => if x != y {
            Some(text::framed("Pipeline state mismatch: "@, x, " vs "@, y, ""@))
        } else {
            None
        },
        (
            EventView::Signaling { direction: d, message: x },
            EventView::Signaling { direction: e, message: y },
        ) => if d != e || x != y {
            Some("Signaling mismatch"@)
        } else {
            None
        },
        _ => Some(
            text::framed(
                "Event type mismatch: Discriminant("@,
                number::decimal(kind(a)),
                ") vs Discriminant("@,
                number::decimal(kind(b)),
                ")"@,
            ),
        ),
    }
}

fn compare_ice(
    a: (&str, u32, &str),
    b: (&str, u32, &str),
) -> (r: Option<String>)
    ensures
        text::text_of(r) == divergence(
            EventView::IceCandidate {
                candidate: a.0@,
                sdp_m_line_index: a.1,
                direction: a.2@,
            },
            EventView::IceCandidate {
                candidate: b.0@,
                sdp_m_line_index: b.1,
                direction: b.2@,
            },
        ),
{
    match mismatch("ICE direction mismatch: ", a.2, " vs ", b.2, "") {
        Some(reason) => Some(reason),
        None => if a.1 != b.1 {
            Some(
                text::frame(
                    "ICE mline index mismatch: ",
                    number::decimal_text(a.1 as u64).as_slice(),
                    " vs ",
                    number::decimal_text(b.1 as u64).as_slice(),
                    "",
                ),
            )
        } else {
            compare_ice_candidate(a.0, b.0)
        },
    }
}

/// Compares two events: gives the reason if they diverge. Equal events do not.
pub fn compare_events(a: &OracleEvent, b: &OracleEvent) -> (r: Option<String>)
    ensures
        text::text_of(r) == divergence(a.event@, b.event@),
        a.event@ == b.event@ ==> r is None,
{
    match (&a.event, &b.event) {
        (OracleEventType::Input { raw: x }, OracleEventType::Input { raw: y }) => {
            mismatch("Input mismatch: '", x, "' vs '", y, "'")
        },
        (
            OracleEventType::BweUpdate { bitrate_bps: x },
            OracleEventType::BweUpdate { bitrate_bps: y },
        ) => compare_bwe(*x, *y),
        (
            OracleEventType::EncoderProp { property: p, value: v },
            OracleEventType::EncoderProp { property: q, value: w },
        ) => if *p != *q || *v != *w {
            let head = text::frame(
                "Encoder prop mismatch: ",
                text::to_chars(p).as_slice(),
                "=",
                text::to_chars(v).as_slice(),
                " vs ",
            );
            let tail = text::frame(
                "",
                text::to_chars(q).as_slice(),
                "=",
                text::to_chars(w).as_slice(),
                "",
            );
            Some(text::cat(&head, &tail))
        } else {
            None
        },
        (OracleEventType::SdpOffer { sdp: x }, OracleEventType::SdpOffer { sdp: y }) => {
            proof {
                law_sdp_lasting_lines(x@, y@);
            }
            compare_sdp(x, y)
        },
        (OracleEventType::SdpAnswer { sdp: x }, OracleEventType::SdpAnswer { sdp: y }) => {
            proof {
                law_sdp_lasting_lines(x@, y@);
            }
            compare_sdp(x, y)
        },
        (
            OracleEventType::IceCandidate { candidate: c, sdp_m_line_index: i, direction: d },
            OracleEventType::IceCandidate { candidate: k, sdp_m_line_index: j, direction: e },
        ) => {
            proof {
                law_ice_fields(c@, k@);
            }
            compare_ice((c, *i, d), (k, *j, e))
        },
        (
            OracleEventType::DataChannelSend { message: x },
            OracleEventType::DataChannelSend { message: y },
        ) => compare_messages(x, y, json::equal(x, y)),
        (OracleEventType::Stats { json: x }, OracleEventType::Stats { json: y }) => {
            proof {
                match json::json_compact(x@) {
                    Some(s) => band::law_close_to_itself(s),
                    None => {},
                }
            }
            compare_stats(x, y, json::compact(x), json::compact(y))
        },
        (
            OracleEventType::PipelineState { state: x },
            OracleEventType::PipelineState { state: y },
        ) => mismatch("Pipeline state mismatch: ", x, " vs ", y, ""),
        (
            OracleEventType::Signaling { direction: d, message: x },
            OracleEventType::Signaling { direction: e, message: y },
        ) => if *d != *e || *x != *y {
            Some("Signaling mismatch".to_string())
        } else {
            None
        },
        _ => Some(
            text::frame(
                "Event type mismatch: Discriminant(",
                number::decimal_text(kind_of(&a.event)).as_slice(),
                ") vs Discriminant(",
                number::decimal_text(kind_of(&b.event)).as_slice(),
                ")",
            ),
        ),
    }
}

/// What the comparison of two recorded sessions found.
#[derive(Debug)]
pub struct DiffReport {
    pub total_events_a: usize,
    pub total_events_b: usize,
    pub matches: usize,
    pub divergences: Vec<Divergence>,
}

/// A position at which two sessions diverge.
#[derive(Debug)]
pub struct Divergence {
    pub index: usize,
    pub event_a: Option<OracleEvent>,
    pub event_b: Option<OracleEvent>,
    pub reason: String,
}

/// What a divergence says.
pub struct DivergenceView {
    pub index: int,
    pub event_a: Option<OracleEventView>,
    pub event_b: Option<OracleEventView>,
    pub reason: Seq<char>,
}

/// What an optional event says.
pub open spec fn event_of(e: Option<OracleEvent>) -> Option<OracleEventView> {
    match e {
        Some(v) => Some(v@),
        None => None,
    }
}

impl View for Divergence {
    type V = DivergenceView;

    open spec fn view(&self) -> DivergenceView {
        DivergenceView {
            index: self.index as int,
            event_a: event_of(self.event_a),
            event_b: event_of(self.event_b),
            reason: self.reason@,
        }
    }
}

/// What the events of a session say.
pub open spec fn events_of(s: Seq<OracleEvent>) -> Seq<OracleEventView> {
    Seq::new(s.len(), |i: int| s[i]@)
}

/// What the divergences of a list say.
pub open spec fn divergences_of(s: Seq<Divergence>) -> Seq<DivergenceView> {
    Seq::new(s.len(), |i: int| s[i]@)
}

/// The event at a position of a session, if it is that long.
pub open spec fn event_at(s: Seq<OracleEventView>, i: int) -> Option<OracleEventView> {
    if 0 <= i < s.len() {
        Some(s[i])
    } else {
        None
    }
}

/// Why two sessions diverge at a position, if they do.
pub open spec fn reason_at(
    a: Seq<OracleEventView>,
    b: Seq<OracleEventView>,
    i: int,
) -> Option<Seq<char>> {
    match (event_at(a, i), event_at(b, i)) {
        (Some(x), Some(y)) => divergence(x.event, y.event),
        (Some(_), None) => Some("Event exists in A but not in B"@),
        (None, Some(_)) => Some("Event exists in B but not in A"@),
        (None, None) => None,
    }
}

/// The divergences of two sessions at their first `n` positions.
pub open spec fn divergences_below(
    a: Seq<OracleEventView>,
    b: Seq<OracleEventView>,
    n: int,
) -> Seq<DivergenceView>
    decreases n,
{
    if n <= 0 {
        Seq::empty()
    } else {
        let before = divergences_below(a, b, n - 1);
        match reason_at(a, b, n - 1) {
            Some(reason) => before.push(
                DivergenceView {
                    index: n - 1,
                    event_a: event_at(a, n - 1),
                    event_b: event_at(b, n - 1),
                    reason,
                },
            ),
            None => before,
        }
    }
}

/// The length of the longer session.
pub open spec fn longer(a: Seq<OracleEventView>, b: Seq<OracleEventView>) -> int {
    if a.len() < b.len() {
        b.len() as int
    } else {
        a.len() as int
    }
}

/// Two sessions hold the same events, whenever these took place.
pub open spec fn same_events(a: Seq<OracleEventView>, b: Seq<OracleEventView>) -> bool {
    a.len() == b.len() && forall|i: int|
        0 <= i < a.len() ==> (#[trigger] a[i]).event == (#[trigger] b[i]).event
}

impl DiffReport {
    /// The report on two sessions: every position matches or diverges.
    pub open spec fn reports(&self, a: Seq<OracleEventView>, b: Seq<OracleEventView>) -> bool {
        &&& self.total_events_a == a.len()
        &&& self.total_events_b == b.len()
        &&& divergences_of(self.divergences@) == divergences_below(a, b, longer(a, b))
        &&& self.matches + self.divergences@.len() == longer(a, b)
    }

    /// The report in one line.
    pub open spec fn summary_text(&self) -> Seq<char> {
        let totals = text::framed(
            " (A="@,
            number::decimal(self.total_events_a as nat),
            ", B="@,
            number::decimal(self.total_events_b as nat),
            ")"@,
        );
        if self.divergences@.len() == 0 {
            "PASS: "@ + number::decimal(self.matches as nat) + " events matched"@ + totals
        } else {
            text::framed(
                "FAIL: "@,
                number::decimal(self.divergences@.len()),
                " divergences out of "@,
                number::decimal(self.matches as nat + self.divergences@.len()),
                " events"@,
            ) + totals
        }
    }

    /// Whether the sessions do not diverge.
    pub fn is_clean(&self) -> (r: bool)
        ensures
            r == (self.divergences@.len() == 0),
    {
        self.divergences.len() == 0
    }

    /// Puts the report in one line.
    pub fn summary(&self) -> (r: String)
        requires
            self.matches + self.divergences@.len() <= usize::MAX,
        ensures
            r@ == self.summary_text(),
    {
        let totals = text::frame(
            " (A=",
            number::decimal_text(self.total_events_a as u64).as_slice(),
            ", B=",
            number::decimal_text(self.total_events_b as u64).as_slice(),
            ")",
        );
        if self.is_clean() {
            let mut out = text::to_chars("PASS: ");
            number::push_decimal(&mut out, self.matches as u64);
            text::push_str(&mut out, " events matched");
            text::push_str(&mut out, &totals);
            text::to_text(out.as_slice())
        } else {
            let head = text::frame(
                "FAIL: ",
                number::decimal_text(self.divergences.len() as u64).as_slice(),
                " divergences out of ",
                number::decimal_text((self.matches + self.divergences.len()) as u64).as_slice(),
                " events",
            );
            text::cat(&head, &totals)
        }
    }
}

/// Compares two sessions event by event.
///
/// Inputs, encoder properties, pipeline states and signaling messages must be equal. Descriptions
/// and candidates are compared by their parts, data-channel messages as JSON. Bandwidth estimates
/// may differ by five per cent, numbers in statistics by ten. Sessions with the same events do not
/// diverge, whenever these took place.
pub fn diff(events_a: &[OracleEvent], events_b: &[OracleEvent]) -> (r: DiffReport)
    ensures
        r.reports(events_of(events_a@), events_of(events_b@)),
        same_events(events_of(events_a@), events_of(events_b@)) ==> r.divergences@.len() == 0,
{
    let ghost a = events_of(events_a@);
    let ghost b = events_of(events_b@);
    let mut matches: usize = 0;
    let mut divergences: Vec<Divergence> = Vec::new();
    let max_len: usize = if events_a.len() < events_b.len() {
        events_b.len()
    } else {
        events_a.len()
    };
    let mut i: usize = 0;
    assert(divergences_of(divergences@) =~= divergences_below(a, b, 0));
    while i < max_len
        invariant
            a == events_of(events_a@),
            b == events_of(events_b@),
            max_len == longer(a, b),
            i <= max_len,
            divergences_of(divergences@) == divergences_below(a, b, i as int),
            matches + divergences@.len() == i,
            same_events(a, b) ==> divergences@.len() == 0,
        decreases max_len - i,
    {
        let ghost before = divergences_of(divergences@);
        let event_a: Option<OracleEvent> = if i < events_a.len() {
            Some(events_a[i].clone())
        } else {
            None
        };
        let event_b: Option<OracleEvent> = if i < events_b.len() {
            Some(events_b[i].clone())
        } else {
            None
        };
        assert(event_of(event_a) == event_at(a, i as int));
        assert(event_of(event_b) == event_at(b, i as int));
        let reason: Option<String> = match (&event_a, &event_b) {
            (Some(x), Some(y)) => compare_events(x, y),
            (Some(_), None) => Some("Event exists in A but not in B".to_string()),
            (None, Some(_)) => Some("Event exists in B but not in A".to_string()),
            (None, None) => None,
        };
        assert(text::text_of(reason) == reason_at(a, b, i as int));
        match reason {
            Some(reason) => {
                let divergence = Divergence { index: i, event_a, event_b, reason };
                let ghost said = divergence@;
                divergences.push(divergence);
                assert(divergences_of(divergences@) =~= before.push(said));
            },
            None => {
                matches += 1;
            },
        }
        i += 1;
    }
    DiffReport {
        total_events_a: events_a.len(),
        total_events_b: events_b.len(),
        matches,
        divergences,
    }
}

/// Sessions that differ in length diverge.
pub proof fn law_lengths_diverge(a: Seq<OracleEventView>, b: Seq<OracleEventView>, n: int)
    requires
        a.len() != b.len(),
        n == longer(a, b),
    ensures
        divergences_below(a, b, n).len() > 0,
{
    assert(reason_at(a, b, n - 1) is Some);
}

/// The divergences stand in the order of their positions, each at a position where there is a
/// reason.
pub proof fn law_divergences_in_order(a: Seq<OracleEventView>, b: Seq<OracleEventView>, n: int)
    ensures
        forall|k: int|
            0 <= k < divergences_below(a, b, n).len() ==> {
                let d = #[trigger] divergences_below(a, b, n)[k];
                &&& 0 <= d.index < n
                &&& reason_at(a, b, d.index) == Some(d.reason)
                &&& d.event_a == event_at(a, d.index)
                &&& d.event_b == event_at(b, d.index)
            },
        forall|j: int, k: int|
            0 <= j < k < divergences_below(a, b, n).len()
                ==> (#[trigger] divergences_below(a, b, n)[j]).index < (
            #[trigger] divergences_below(a, b, n)[k]).index,
    decreases n,
{
    if n > 0 {
        law_divergences_in_order(a, b, n - 1);
    }
}

/// Every position at which there is a reason is among the divergences.
pub proof fn law_divergences_complete(
    a: Seq<OracleEventView>,
    b: Seq<OracleEventView>,
    n: int,
    i: int,
)
    requires
        0 <= i < n,
        reason_at(a, b, i) is Some,
    ensures
        exists|k: int|
            0 <= k < divergences_below(a, b, n).len() && (#[trigger] divergences_below(
                a,
                b,
                n,
            )[k]).index == i,
    decreases n,
{
    let all = divergences_below(a, b, n);
    if i == n - 1 {
        assert(all[all.len() - 1].index == i);
    } else {
        law_divergences_complete(a, b, n - 1, i);
        let before = divergences_below(a, b, n - 1);
        let k = choose|k: int| 0 <= k < before.len() && (#[trigger] before[k]).index == i;
        assert(all[k] == before[k]);
    }
}

/// Two bandwidth estimates that differ by at most five per cent of the first do not diverge, as long
/// as doubles hold both; two that differ by more, and by more than one, do, as long as a double
/// tells a twentieth of the first from an integer.
pub proof fn law_bwe_band(a: u64, b: u64)
    ensures
        a < double::DENSE && b < double::DENSE && 20 * band::distance(a as int, b as int) <= a
            ==> bwe_divergence(a, b) is None,
        2 * a < 3 * double::FULL && 20 * band::distance(a as int, b as int) > a && band::distance(
            a as int,
            b as int,
        ) > 1 ==> bwe_divergence(a, b) is Some,
{
    if a < double::DENSE {
        double::law_apart(a as nat, b as nat);
        if b < double::DENSE {
            double::law_twentieth(a as nat, double::apart(a as nat, b as nat));
        } else {
            double::law_twentieth(a as nat, double::FULL as nat / 2);
        }
    }
}

/// Inputs, encoder properties, pipeline states and signaling messages diverge exactly if they
/// differ; events of different kinds always diverge.
pub proof fn law_exact_events(a: EventView, b: EventView)
    ensures
        kind(a) != kind(b) ==> divergence(a, b) is Some,
        kind(a) == kind(b) && (a is Input || a is EncoderProp || a is PipelineState
            || a is Signaling) ==> (divergence(a, b) is None <==> a == b),
{
}

/// Filters that agree on every item keep the same items.
pub proof fn lemma_same_filter(
    s: Seq<Seq<char>>,
    f: spec_fn(Seq<char>) -> bool,
    g: spec_fn(Seq<char>) -> bool,
)
    requires
        forall|x: Seq<char>| #[trigger] f(x) == g(x),
    ensures
        s.filter(f) == s.filter(g),
    decreases s.len(),
{
    reveal(Seq::filter);
    if s.len() > 0 {
        lemma_same_filter(s.drop_last(), f, g);
        assert(f(s.last()) == g(s.last()));
    }
}

/// Two descriptions do not diverge exactly if their lines agree once the lines are left out that
/// give the origin, the timing, the credentials, the fingerprint, the role and the stream
/// identifiers. Every other line counts.
pub proof fn law_descriptions_agree(a: Seq<char>, b: Seq<char>)
    ensures
        ({
            let counts = |line: Seq<char>|
                !text::begins(line, "o="@) && !text::begins(line, "t="@) && !text::begins(
                    line,
                    "a=ice-ufrag:"@,
                ) && !text::begins(line, "a=ice-pwd:"@) && !text::begins(line, "a=fingerprint:"@)
                    && !text::begins(line, "a=setup:"@) && !text::begins(line, "a=msid:"@);
            &&& divergence(EventView::SdpOffer { sdp: a }, EventView::SdpOffer { sdp: b }) is None
                <==> text::lines(a).filter(counts) == text::lines(b).filter(counts)
            &&& divergence(EventView::SdpAnswer { sdp: a }, EventView::SdpAnswer { sdp: b }) is None
                <==> text::lines(a).filter(counts) == text::lines(b).filter(counts)
        }),
{
    let counts = |line: Seq<char>|
        !text::begins(line, "o="@) && !text::begins(line, "t="@) && !text::begins(
            line,
            "a=ice-ufrag:"@,
        ) && !text::begins(line, "a=ice-pwd:"@) && !text::begins(line, "a=fingerprint:"@)
            && !text::begins(line, "a=setup:"@) && !text::begins(line, "a=msid:"@);
    let keep = |line: Seq<char>| !session_line(line);
    law_sdp_lasting_lines(a, b);
    lemma_same_filter(text::lines(a), keep, counts);
    lemma_same_filter(text::lines(b), keep, counts);
}

proof fn lemma_filter_push(s: Seq<Seq<char>>, f: spec_fn(Seq<char>) -> bool, k: int)
    requires
        0 <= k < s.len(),
        f(s[k]),
    ensures
        s.take(k).filter(f).len() < s.filter(f).len(),
        s.filter(f)[s.take(k).filter(f).len() as int] == s[k],
        s.filter(f).take(s.take(k).filter(f).len() as int) == s.take(k).filter(f),
    decreases s.len(),
{
    reveal(Seq::filter);
    let t = s.drop_last();
    if k == s.len() - 1 {
        assert(s.take(k) =~= t);
        assert(t.filter(f).push(s.last()).take(t.filter(f).len() as int) =~= t.filter(f));
    } else {
        lemma_filter_push(t, f, k);
        assert(t.take(k) =~= s.take(k));
        let n = s.take(k).filter(f).len() as int;
        if f(s.last()) {
            assert(t.filter(f).push(s.last()).take(n) =~= t.filter(f).take(n));
        }
    }
}

/// Descriptions that are the same up to a line, and differ in that line, which does not vary between
/// sessions on either side, diverge: a format line, a mapping, a media line, or any other one.
pub proof fn law_changed_line_diverges(a: Seq<char>, b: Seq<char>, k: int)
    requires
        0 <= k < text::lines(a).len(),
        k < text::lines(b).len(),
        text::lines(a).take(k) == text::lines(b).take(k),
        text::lines(a)[k] != text::lines(b)[k],
        forall|line: Seq<char>|
            (line == text::lines(a)[k] || line == text::lines(b)[k]) ==> !#[trigger] text::begins(
                line,
                "o="@,
            ) && !text::begins(line, "t="@) && !text::begins(line, "a=ice-ufrag:"@)
                && !text::begins(line, "a=ice-pwd:"@) && !text::begins(line, "a=fingerprint:"@)
                && !text::begins(line, "a=setup:"@) && !text::begins(line, "a=msid:"@),
    ensures
        divergence(EventView::SdpOffer { sdp: a }, EventView::SdpOffer { sdp: b }) is Some,
        divergence(EventView::SdpAnswer { sdp: a }, EventView::SdpAnswer { sdp: b }) is Some,
{
    let keep = |line: Seq<char>| !session_line(line);
    let (x, y) = (text::lines(a), text::lines(b));
    assert(!text::begins(x[k], "o="@) && !text::begins(y[k], "o="@));
    lemma_filter_push(x, keep, k);
    lemma_filter_push(y, keep, k);
    law_sdp_lasting_lines(a, b);
}

/// What candidates are compared by: the direction, the media line, and every field but the fourth,
/// the priority.
pub proof fn law_candidates_agree(
    a: Seq<char>,
    i: u32,
    from: Seq<char>,
    b: Seq<char>,
    j: u32,
    to: Seq<char>,
)
    ensures
        divergence(
            EventView::IceCandidate { candidate: a, sdp_m_line_index: i, direction: from },
            EventView::IceCandidate { candidate: b, sdp_m_line_index: j, direction: to },
        ) is None <==> from == to && i == j && text::words(a).len() == text::words(b).len() && (
        forall|k: int|
            0 <= k < text::words(a).len() && k != 3 ==> #[trigger] text::words(a)[k] == text::words(
                b,
            )[k]),
{
    law_ice_fields(a, b);
}

/// Data-channel messages that are both JSON are compared as values, others as texts.
pub proof fn law_messages_agree(a: Seq<char>, b: Seq<char>)
    ensures
        json::json_equal(a, b) is Some ==> (divergence(
            EventView::DataChannelSend { message: a },
            EventView::DataChannelSend { message: b },
        ) is None <==> json::json_equal(a, b) == Some(true)),
        json::json_equal(a, b) is None ==> (divergence(
            EventView::DataChannelSend { message: a },
            EventView::DataChannelSend { message: b },
        ) is None <==> a == b),
{
}

/// Statistics that are not both JSON agree exactly if their texts do; those that are, agree if their
/// compact forms do.
pub proof fn law_stats_agree(a: Seq<char>, b: Seq<char>)
    ensures
        json::json_compact(a) is None || json::json_compact(b) is None ==> (divergence(
            EventView::Stats { json: a },
            EventView::Stats { json: b },
        ) is None <==> a == b),
        json::json_compact(a) is Some && json::json_compact(a) == json::json_compact(b)
            ==> divergence(EventView::Stats { json: a }, EventView::Stats { json: b }) is None,
{
    if json::json_compact(a) is Some {
        band::law_close_to_itself(json::json_compact(a)->0);
    }
}

/// The reason of a divergence shows the two values, those of the first session first.
pub proof fn law_reasons_show_both(
    x: Seq<char>,
    y: Seq<char>,
    v: Seq<char>,
    w: Seq<char>,
    i: u32,
    j: u32,
)
    requires
        x != y,
        i != j,
    ensures
        divergence(EventView::Input { raw: x }, EventView::Input { raw: y }) == Some(
            "Input mismatch: '"@ + x + "' vs '"@ + y + "'"@,
        ),
        divergence(
            EventView::EncoderProp { property: x, value: v },
            EventView::EncoderProp { property: y, value: w },
        ) == Some("Encoder prop mismatch: "@ + x + "="@ + v + " vs "@ + y + "="@ + w),
        divergence(
            EventView::EncoderProp { property: v, value: x },
            EventView::EncoderProp { property: w, value: y },
        ) == Some("Encoder prop mismatch: "@ + v + "="@ + x + " vs "@ + w + "="@ + y),
        divergence(EventView::PipelineState { state: x }, EventView::PipelineState { state: y })
            == Some("Pipeline state mismatch: "@ + x + " vs "@ + y),
        divergence(
            EventView::Signaling { direction: x, message: v },
            EventView::Signaling { direction: y, message: w },
        ) == Some("Signaling mismatch"@),
        divergence(
            EventView::IceCandidate { candidate: v, sdp_m_line_index: i, direction: x },
            EventView::IceCandidate { candidate: w, sdp_m_line_index: j, direction: y },
        ) == Some("ICE direction mismatch: "@ + x + " vs "@ + y),
        divergence(
            EventView::IceCandidate { candidate: v, sdp_m_line_index: i, direction: x },
            EventView::IceCandidate { candidate: w, sdp_m_line_index: j, direction: x },
        ) == Some(
            "ICE mline index mismatch: "@ + number::decimal(i as nat) + " vs "@ + number::decimal(
                j as nat,
            ),
        ),
        json::json_equal(x, y) is None ==> divergence(
            EventView::DataChannelSend { message: x },
            EventView::DataChannelSend { message: y },
        ) == Some("DC message string mismatch: '"@ + x + "' vs '"@ + y + "'"@),
{
    reveal_strlit("");
    let none = ""@;
    assert("Encoder prop mismatch: "@ + x + "="@ + v + " vs "@ + (none + y + "="@ + w + none)
        =~= "Encoder prop mismatch: "@ + x + "="@ + v + " vs "@ + y + "="@ + w);
    assert("Encoder prop mismatch: "@ + v + "="@ + x + " vs "@ + (none + w + "="@ + y + none)
        =~= "Encoder prop mismatch: "@ + v + "="@ + x + " vs "@ + w + "="@ + y);
    assert("Pipeline state mismatch: "@ + x + " vs "@ + y + none =~= "Pipeline state mismatch: "@ + x
        + " vs "@ + y);
    assert("ICE direction mismatch: "@ + x + " vs "@ + y + none =~= "ICE direction mismatch: "@ + x
        + " vs "@ + y);
    let (m, n) = (number::decimal(i as nat), number::decimal(j as nat));
    assert("ICE mline index mismatch: "@ + m + " vs "@ + n + none =~= "ICE mline index mismatch: "@
        + m + " vs "@ + n);
}

/// A report tells of every position of two sessions: it is listed exactly if the events there
/// diverge, or if one of the sessions has no event there. Each entry shows the two events and the
/// reason.
pub proof fn law_report(report: DiffReport, a: Seq<OracleEventView>, b: Seq<OracleEventView>, i: int)
    requires
        report.reports(a, b),
        0 <= i,
        i < a.len() || i < b.len(),
    ensures
        report.total_events_a == a.len(),
        report.total_events_b == b.len(),
        a.len() >= b.len() ==> report.matches + report.divergences@.len() == a.len(),
        a.len() <= b.len() ==> report.matches + report.divergences@.len() == b.len(),
        (exists|k: int|
            0 <= k < report.divergences@.len() && (#[trigger] report.divergences@[k]).index == i)
            <==> (i >= a.len() || i >= b.len() || divergence(a[i].event, b[i].event) is Some),
        forall|k: int|
            0 <= k < report.divergences@.len() && (#[trigger] report.divergences@[k]).index == i ==> {
                let d = report.divergences@[k];
                &&& i < a.len() ==> event_of(d.event_a) == Some(a[i])
                &&& i >= a.len() ==> d.event_a is None && d.reason@
                    == "Event exists in B but not in A"@
                &&& i < b.len() ==> event_of(d.event_b) == Some(b[i])
                &&& i >= b.len() ==> d.event_b is None && d.reason@
                    == "Event exists in A but not in B"@
                &&& i < a.len() && i < b.len() ==> divergence(a[i].event, b[i].event) == Some(
                    d.reason@,
                )
            },
        forall|j: int, k: int|
            0 <= j < k < report.divergences@.len() ==> (#[trigger] report.divergences@[j]).index < (
            #[trigger] report.divergences@[k]).index,
{
    let n = longer(a, b);
    let all = divergences_below(a, b, n);
    let said = divergences_of(report.divergences@);
    law_divergences_in_order(a, b, n);
    assert(said.len() == report.divergences@.len());
    assert forall|k: int| 0 <= k < all.len() implies (#[trigger] report.divergences@[k])@ == all[k] by {
        assert(said[k] == all[k]);
    }
    if reason_at(a, b, i) is Some {
        law_divergences_complete(a, b, n, i);
        let k = choose|k: int| 0 <= k < all.len() && (#[trigger] all[k]).index == i;
        assert(report.divergences@[k]@ == all[k]);
    }
    assert forall|j: int, k: int| 0 <= j < k < report.divergences@.len() implies (
    #[trigger] report.divergences@[j]).index < (#[trigger] report.divergences@[k]).index by {
        assert(all[j].index < all[k].index);
    }
}

/// A report passes exactly if nothing diverges, and says how many events matched or diverged.
pub proof fn law_summary(report: DiffReport)
    ensures
        report.divergences@.len() == 0 ==> report.summary_text() == "PASS: "@ + number::decimal(
            report.matches as nat,
        ) + " events matched (A="@ + number::decimal(report.total_events_a as nat) + ", B="@
            + number::decimal(report.total_events_b as nat) + ")"@,
        report.divergences@.len() > 0 ==> report.summary_text() == "FAIL: "@ + number::decimal(
            report.divergences@.len(),
        ) + " divergences out of "@ + number::decimal(
            (report.matches + report.divergences@.len()) as nat,
        ) + " events (A="@ + number::decimal(report.total_events_a as nat) + ", B="@
            + number::decimal(report.total_events_b as nat) + ")"@,
{
    reveal_strlit(" events matched (A=");
    reveal_strlit(" events matched");
    reveal_strlit(" events (A=");
    reveal_strlit(" events");
    reveal_strlit(" (A=");
    assert(" events matched (A="@ =~= " events matched"@ + " (A="@);
    assert(" events (A="@ =~= " events"@ + " (A="@);
    let (m, n) = (
        number::decimal(report.total_events_a as nat),
        number::decimal(report.total_events_b as nat),
    );
    let x = number::decimal(report.matches as nat);
    assert("PASS: "@ + x + " events matched"@ + (" (A="@ + m + ", B="@ + n + ")"@) =~= "PASS: "@ + x
        + (" events matched"@ + " (A="@) + m + ", B="@ + n + ")"@);
    let y = number::decimal(report.divergences@.len());
    let z = number::decimal((report.matches + report.divergences@.len()) as nat);
    assert("FAIL: "@ + y + " divergences out of "@ + z + " events"@ + (" (A="@ + m + ", B="@ + n
        + ")"@) =~= "FAIL: "@ + y + " divergences out of "@ + z + (" events"@ + " (A="@) + m + ", B="@
        + n + ")"@);
}

} // verus!
