//! What the reasons of divergences say.

use vstd::prelude::*;
use crate::double;
use crate::json;
use crate::number;
use crate::oracle::band;
use crate::oracle::differ;
use crate::oracle::EventView;
use crate::text;

verus! {

/// The first position at which two lists differ is the one before which they agree.
proof fn lemma_first(
    a: Seq<Seq<char>>,
    b: Seq<Seq<char>>,
    skipped: Option<int>,
    n: int,
    i: int,
)
    requires
        0 <= i < n,
        n <= a.len(),
        n <= b.len(),
        skipped != Some(i),
        a[i] != b[i],
        forall|j: int| 0 <= j < i && skipped != Some(j) ==> #[trigger] a[j] == b[j],
    ensures
        differ::first_difference(a, b, skipped, n) == Some(i),
        i == n - 1 ==> differ::first_difference(a, b, skipped, i) is None,
    decreases n,
{
    if i < n - 1 {
        lemma_first(a, b, skipped, n - 1, i);
    } else {
        lemma_none(a, b, skipped, i);
    }
}

proof fn lemma_none(a: Seq<Seq<char>>, b: Seq<Seq<char>>, skipped: Option<int>, n: int)
    requires
        n <= a.len(),
        n <= b.len(),
        forall|j: int| 0 <= j < n && skipped != Some(j) ==> #[trigger] a[j] == b[j],
    ensures
        differ::first_difference(a, b, skipped, n) is None,
    decreases n,
{
    if n > 0 {
        lemma_none(a, b, skipped, n - 1);
        if skipped != Some(n - 1) {
            assert(a[n - 1] == b[n - 1]);
        }
    }
}

/// The lines of a description that count: those that do not vary between sessions.
pub open spec fn counting(s: Seq<char>) -> Seq<Seq<char>> {
    text::lines(s).filter(
        |line: Seq<char>|
            !text::begins(line, "o="@) && !text::begins(line, "t="@) && !text::begins(
                line,
                "a=ice-ufrag:"@,
            ) && !text::begins(line, "a=ice-pwd:"@) && !text::begins(line, "a=fingerprint:"@)
                && !text::begins(line, "a=setup:"@) && !text::begins(line, "a=msid:"@),
    )
}

proof fn lemma_counting(s: Seq<char>)
    ensures
        counting(s) == differ::lasting(text::lines(s)),
{
    let counts = |line: Seq<char>|
        !text::begins(line, "o="@) && !text::begins(line, "t="@) && !text::begins(
            line,
            "a=ice-ufrag:"@,
        ) && !text::begins(line, "a=ice-pwd:"@) && !text::begins(line, "a=fingerprint:"@)
            && !text::begins(line, "a=setup:"@) && !text::begins(line, "a=msid:"@);
    let keep = |line: Seq<char>| !differ::session_line(line);
    differ::lemma_same_filter(text::lines(s), keep, counts);
}

/// Two descriptions that diverge are told by the first line, counted among those that count, in
/// which they differ; and if one merely goes on where the other ends, by how many lines they have.
pub proof fn law_description_reasons(a: Seq<char>, b: Seq<char>, i: int)
    ensures
        ({
            let (x, y) = (counting(a), counting(b));
            let d = differ::divergence(EventView::SdpOffer { sdp: a }, EventView::SdpOffer { sdp: b });
            let e = differ::divergence(
                EventView::SdpAnswer { sdp: a },
                EventView::SdpAnswer { sdp: b },
            );
            &&& d == e
            &&& 0 <= i < x.len() && i < y.len() && x[i] != y[i] && (forall|j: int|
                0 <= j < i ==> #[trigger] x[j] == y[j]) ==> d == Some(
                "SDP diverges at line "@ + number::decimal(i as nat) + ": '"@ + x[i] + "' vs '"@
                    + y[i] + "'"@,
            )
            &&& x.len() != y.len() && (forall|j: int|
                0 <= j < x.len() && j < y.len() ==> #[trigger] x[j] == y[j]) ==> d == Some(
                "SDP line count differs: "@ + number::decimal(x.len()) + " vs "@ + number::decimal(
                    y.len(),
                ),
            )
        }),
{
    reveal_strlit("");
    lemma_counting(a);
    lemma_counting(b);
    let (x, y) = (counting(a), counting(b));
    let n = if x.len() < y.len() {
        x.len() as int
    } else {
        y.len() as int
    };
    if 0 <= i < x.len() && i < y.len() && x[i] != y[i] && (forall|j: int|
        0 <= j < i ==> #[trigger] x[j] == y[j]) {
        lemma_first(x, y, None, n, i);
        let head = "SDP diverges at line "@ + number::decimal(i as nat);
        assert(head + (": '"@ + x[i] + "' vs '"@ + y[i] + "'"@) =~= head + ": '"@ + x[i] + "' vs '"@
            + y[i] + "'"@);
    }
    if x.len() != y.len() && (forall|j: int|
        0 <= j < x.len() && j < y.len() ==> #[trigger] x[j] == y[j]) {
        lemma_none(x, y, None, n);
        let s = "SDP line count differs: "@ + number::decimal(x.len()) + " vs "@ + number::decimal(
            y.len(),
        );
        assert(s + ""@ =~= s);
    }
}

/// Two candidates of one direction and line that diverge are told by how many fields they have, if
/// that differs, or else by the first field in which they differ, the fourth left aside.
pub proof fn law_candidate_reasons(a: Seq<char>, b: Seq<char>, line: u32, way: Seq<char>, i: int)
    ensures
        ({
            let (x, y) = (text::words(a), text::words(b));
            let d = differ::divergence(
                EventView::IceCandidate { candidate: a, sdp_m_line_index: line, direction: way },
                EventView::IceCandidate { candidate: b, sdp_m_line_index: line, direction: way },
            );
            &&& x.len() != y.len() ==> d == Some(
                "ICE candidate field count: "@ + number::decimal(x.len()) + " vs "@
                    + number::decimal(y.len()),
            )
            &&& x.len() == y.len() && 0 <= i < x.len() && i != 3 && x[i] != y[i] && (forall|j: int|
                0 <= j < i && j != 3 ==> #[trigger] x[j] == y[j]) ==> d == Some(
                "ICE candidate field "@ + number::decimal(i as nat) + " mismatch: '"@ + x[i]
                    + "' vs '"@ + y[i] + "'"@,
            )
        }),
{
    reveal_strlit("");
    let (x, y) = (text::words(a), text::words(b));
    let s = "ICE candidate field count: "@ + number::decimal(x.len()) + " vs "@ + number::decimal(
        y.len(),
    );
    assert(s + ""@ =~= s);
    if x.len() == y.len() && 0 <= i < x.len() && i != 3 && x[i] != y[i] && (forall|j: int|
        0 <= j < i && j != 3 ==> #[trigger] x[j] == y[j]) {
        assert forall|j: int| 0 <= j < i && Some(3int) != Some(j) implies #[trigger] x[j] == y[j] by {}
        lemma_first(x, y, Some(3int), x.len() as int, i);
        let head = "ICE candidate field "@ + number::decimal(i as nat);
        assert(head + (" mismatch: '"@ + x[i] + "' vs '"@ + y[i] + "'"@) =~= head
            + " mismatch: '"@ + x[i] + "' vs '"@ + y[i] + "'"@);
    }
}

/// Events of different kinds are told by the numbers of their kinds.
pub proof fn law_kinds(a: EventView, b: EventView)
    ensures
        a is SdpOffer <==> differ::kind(a) == 0,
        a is SdpAnswer <==> differ::kind(a) == 1,
        a is IceCandidate <==> differ::kind(a) == 2,
        a is Input <==> differ::kind(a) == 3,
        a is BweUpdate <==> differ::kind(a) == 4,
        a is EncoderProp <==> differ::kind(a) == 5,
        a is DataChannelSend <==> differ::kind(a) == 6,
        a is Stats <==> differ::kind(a) == 7,
        a is PipelineState <==> differ::kind(a) == 8,
        a is Signaling <==> differ::kind(a) == 9,
        differ::kind(a) != differ::kind(b) ==> differ::divergence(a, b) == Some(
            "Event type mismatch: Discriminant("@ + number::decimal(differ::kind(a))
                + ") vs Discriminant("@ + number::decimal(differ::kind(b)) + ")"@,
        ),
{
}

/// Bandwidth estimates that differ by no more than one agree, however small they are.
pub proof fn law_small_estimates_agree(a: u64, b: u64)
    requires
        a < 9007199254740992,
        b < 9007199254740992,
        band::distance(a as int, b as int) <= 1,
    ensures
        differ::divergence(
            EventView::BweUpdate { bitrate_bps: a },
            EventView::BweUpdate { bitrate_bps: b },
        ) is None,
{
    double::law_apart(a as nat, b as nat);
}

/// Bandwidth estimates of which the first is a multiple of twenty agree exactly if they differ by
/// no more than a twentieth of it; if not, the reason shows both and that twentieth.
pub proof fn law_estimates(k: u64, b: u64)
    requires
        0 < k,
        20 * k < 9007199254740992,
        b < 9007199254740992,
    ensures
        differ::divergence(
            EventView::BweUpdate { bitrate_bps: (20 * k) as u64 },
            EventView::BweUpdate { bitrate_bps: b },
        ) == (if 20 * k - k <= b <= 20 * k + k {
            None
        } else {
            Some(
                "BWE divergence: "@ + number::decimal(20 * k as nat) + " vs "@ + number::decimal(
                    b as nat,
                ) + " (±5% = "@ + number::decimal(k as nat) + ")"@,
            )
        }),
{
    let a = (20 * k) as u64;
    double::law_apart(a as nat, b as nat);
    double::law_twentieth_exact(k as nat);
    double::law_integers_are_written(k as nat);
    let one = double::ONE as int;
    let d = double::apart(a as nat, b as nat) as int;
    let t = k as int;
    assert(t * one >= one) by (nonlinear_arith)
        requires
            t >= 1,
            one > 0,
    ;
    assert(d * one > t * one <==> d > t) by (nonlinear_arith)
        requires
            one > 0,
    ;
}

/// What messages and statistics say when they diverge as JSON.
pub proof fn law_json_reasons(a: Seq<char>, b: Seq<char>)
    ensures
        json::json_equal(a, b) == Some(false) ==> differ::divergence(
            EventView::DataChannelSend { message: a },
            EventView::DataChannelSend { message: b },
        ) == Some("DC message JSON mismatch"@),
        differ::divergence(EventView::Stats { json: a }, EventView::Stats { json: b }) is None
            || differ::divergence(EventView::Stats { json: a }, EventView::Stats { json: b })
            == Some("Stats divergence (check manually)"@),
        json::json_compact(a) matches Some(x) ==> (json::json_compact(b) matches Some(y) ==> (
        differ::divergence(EventView::Stats { json: a }, EventView::Stats { json: b }) is None
            <==> band::close(x, y))),
{
}

} // verus!
