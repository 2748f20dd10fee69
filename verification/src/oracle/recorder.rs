//! Recordings: one JSON text to a line, blank lines left aside.

use vstd::prelude::*;
use crate::oracle::OracleEvent;
use crate::oracle::OracleEventView;
use crate::spaces;
use crate::text;

verus! {

broadcast use vstd::string::group_string_axioms;

/// The lines of a recording that hold events.
pub open spec fn recorded(content: Seq<char>) -> Seq<Seq<char>> {
    text::lines(content).filter(|line: Seq<char>| !text::blank(line))
}

/// A text that stands on one line: it holds something, no line feed, and no carriage return at
/// its end.
pub open spec fn one_line(s: Seq<char>) -> bool {
    !text::blank(s) && !s.contains('\n') && s.last() != '\r'
}

/// A recording of the given texts.
pub open spec fn recording(events: Seq<Seq<char>>) -> Seq<char>
    decreases events.len(),
{
    if events.len() == 0 {
        Seq::empty()
    } else {
        events[0] + seq!['\n'] + recording(events.skip(1))
    }
}

/// The line that records a text.
pub fn record_line(json: &str) -> (r: String)
    ensures
        r@ == json@ + seq!['\n'],
{
    let mut out = json.to_string();
    out.push('\n');
    assert(out@ =~= json@ + seq!['\n']);
    out
}

/// The lines of a recording that hold events.
pub fn recorded_lines(content: &str) -> (r: Vec<Vec<char>>)
    ensures
        text::texts(r@) == recorded(content@),
{
    let lines = text::split_lines(text::to_chars(content).as_slice());
    let ghost all = text::texts(lines@);
    let ghost keep = |line: Seq<char>| !text::blank(line);
    let mut out: Vec<Vec<char>> = Vec::new();
    let mut i: usize = 0;
    proof {
        reveal(Seq::filter);
    }
    assert(all.take(0) =~= Seq::<Seq<char>>::empty());
    assert(text::texts(out@) =~= all.take(0).filter(keep));
    while i < lines.len()
        invariant
            i <= lines@.len(),
            all == text::texts(lines@),
            keep == (|line: Seq<char>| !text::blank(line)),
            text::texts(out@) == all.take(i as int).filter(keep),
        decreases lines@.len() - i,
    {
        let ghost before = text::texts(out@);
        let line = &lines[i];
        proof {
            reveal(Seq::filter);
            assert(all.take(i + 1).drop_last() =~= all.take(i as int));
            assert(all.take(i + 1).last() == line@);
        }
        if text::trim(line.as_slice()).len() != 0 {
            let kept = text::piece(line.as_slice(), 0, line.len());
            assert(kept@ =~= line@);
            out.push(kept);
            assert(text::texts(out@) =~= before.push(line@));
        }
        i += 1;
    }
    assert(all.take(i as int) =~= all);
    out
}

/// Reading a line may give a result.
pub open spec fn may_give<E, F: Fn(&str) -> Result<OracleEvent, E>>(
    read: F,
    line: Seq<char>,
    r: Result<OracleEvent, E>,
) -> bool {
    exists|s: &str| s@ == line && #[trigger] call_ensures(read, (s,), r)
}

/// Reading a line gives an event, and no error.
pub open spec fn gives<E, F: Fn(&str) -> Result<OracleEvent, E>>(
    read: F,
    line: Seq<char>,
    event: OracleEventView,
) -> bool {
    forall|s: &str, r: Result<OracleEvent, E>|
        s@ == line && #[trigger] call_ensures(read, (s,), r) ==> (r matches Ok(e) && e@ == event)
}

/// What a recording is loaded as: the events on its lines, in their order, or the first error that
/// reading a line gives.
pub open spec fn loads<E, F: Fn(&str) -> Result<OracleEvent, E>>(
    content: Seq<char>,
    read: F,
    r: Result<Vec<OracleEvent>, E>,
) -> bool {
    let lines = recorded(content);
    match r {
        Ok(v) => v@.len() == lines.len() && forall|i: int|
            0 <= i < lines.len() ==> may_give(read, #[trigger] lines[i], Ok(v@[i])),
        Err(e) => fails(lines, read, e),
    }
}

/// Reading lines one after the other ends in an error.
pub open spec fn fails<E, F: Fn(&str) -> Result<OracleEvent, E>>(
    lines: Seq<Seq<char>>,
    read: F,
    e: E,
) -> bool {
    exists|k: int| #[trigger] fails_at(lines, read, e, k)
}

/// Reading a line may give an event.
pub open spec fn may_pass<E, F: Fn(&str) -> Result<OracleEvent, E>>(
    read: F,
    line: Seq<char>,
) -> bool {
    exists|event: OracleEvent| #[trigger] may_give::<E, F>(read, line, Ok(event))
}

/// Reading the line at position `k` gives an error, and reading those before it does not.
pub open spec fn fails_at<E, F: Fn(&str) -> Result<OracleEvent, E>>(
    lines: Seq<Seq<char>>,
    read: F,
    e: E,
    k: int,
) -> bool {
    &&& 0 <= k < lines.len()
    &&& may_give(read, lines[k], Err(e))
    &&& forall|i: int| 0 <= i < k ==> may_pass::<E, F>(read, #[trigger] lines[i])
}

/// Loads a recording, given how a line is read.
pub fn load_events<E, F: Fn(&str) -> Result<OracleEvent, E>>(content: &str, read: F) -> (r: Result<
    Vec<OracleEvent>,
    E,
>)
    requires
        forall|s: &str| call_requires(read, (s,)),
    ensures
        loads(content@, read, r),
{
    let lines = recorded_lines(content);
    let ghost all = recorded(content@);
    assert(text::texts(lines@).len() == lines@.len());
    let mut out: Vec<OracleEvent> = Vec::new();
    let mut i: usize = 0;
    while i < lines.len()
        invariant
            i <= lines@.len(),
            lines@.len() == all.len(),
            all == recorded(content@),
            all == text::texts(lines@),
            out@.len() == i,
            forall|s: &str| call_requires(read, (s,)),
            forall|k: int| 0 <= k < i ==> may_give::<E, F>(read, #[trigger] all[k], Ok(out@[k])),
        decreases lines@.len() - i,
    {
        let line = text::to_text(lines[i].as_slice());
        let s: &str = line.as_str();
        assert(s@ == all[i as int]);
        match read(s) {
            Ok(event) => {
                assert(may_give::<E, F>(read, all[i as int], Ok(event)));
                out.push(event);
            },
            Err(e) => {
                assert(may_give(read, all[i as int], Err(e)));
                assert forall|k: int| 0 <= k < i implies may_pass::<E, F>(
                    read,
                    #[trigger] all[k],
                ) by {
                    assert(may_give::<E, F>(read, all[k], Ok(out@[k])));
                }
                assert(fails_at(all, read, e, i as int));
                assert(fails(all, read, e));
                return Err(e);
            },
        }
        i += 1;
    }
    Ok(out)
}

/// What the events of a list say.
pub open spec fn said(v: Seq<OracleEvent>) -> Seq<OracleEventView> {
    Seq::new(v.len(), |i: int| v[i]@)
}

/// What was recorded is loaded: a recording of the lines of events, each of which is read as its
/// event, is loaded as these events. None is lost or added, and they stand in their order, with
/// their times.
pub proof fn law_recorded_events_are_loaded<E, F: Fn(&str) -> Result<OracleEvent, E>>(
    lines: Seq<Seq<char>>,
    events: Seq<OracleEventView>,
    read: F,
    r: Result<Vec<OracleEvent>, E>,
)
    requires
        lines.len() == events.len(),
        forall|i: int| 0 <= i < lines.len() ==> one_line(#[trigger] lines[i]),
        forall|i: int| 0 <= i < lines.len() ==> gives::<E, F>(read, #[trigger] lines[i], events[i]),
        loads(recording(lines), read, r),
    ensures
        r matches Ok(v) && said(v@) == events,
{
    law_recording_reads_back(lines);
    match r {
        Ok(v) => {
            assert forall|i: int| 0 <= i < lines.len() implies said(v@)[i] == events[i] by {
                assert(may_give::<E, F>(read, lines[i], Ok(v@[i])));
                assert(gives::<E, F>(read, lines[i], events[i]));
            }
            assert(said(v@) =~= events);
        },
        Err(e) => {
            let k = choose|k: int| #[trigger] fails_at(lines, read, e, k);
            assert(gives::<E, F>(read, lines[k], events[k]));
        },
    }
}

/// What was recorded is read back: the lines of a recording are the texts that it was made of.
pub proof fn law_recording_reads_back(events: Seq<Seq<char>>)
    requires
        forall|i: int| 0 <= i < events.len() ==> one_line(#[trigger] events[i]),
    ensures
        recorded(recording(events)) == events,
{
    lemma_recording_lines(events);
    let keep = |line: Seq<char>| !text::blank(line);
    lemma_filter_all(events, keep);
}

proof fn lemma_filter_all(s: Seq<Seq<char>>, keep: spec_fn(Seq<char>) -> bool)
    requires
        forall|i: int| 0 <= i < s.len() ==> keep(#[trigger] s[i]),
    ensures
        s.filter(keep) == s,
    decreases s.len(),
{
    reveal(Seq::filter);
    if s.len() > 0 {
        assert forall|i: int| 0 <= i < s.drop_last().len() implies keep(
            #[trigger] s.drop_last()[i],
        ) by {
            assert(s.drop_last()[i] == s[i]);
        }
        lemma_filter_all(s.drop_last(), keep);
        assert(keep(s[s.len() - 1]));
        assert(s.drop_last().push(s.last()) =~= s);
    }
}

proof fn lemma_recording_lines(events: Seq<Seq<char>>)
    requires
        forall|i: int| 0 <= i < events.len() ==> one_line(#[trigger] events[i]),
    ensures
        text::lines(recording(events)) == events,
    decreases events.len(),
{
    let content = recording(events);
    if events.len() == 0 {
        assert(text::lines(content) =~= events);
    } else {
        let first = events[0];
        let rest = events.skip(1);
        assert forall|i: int| 0 <= i < rest.len() implies one_line(#[trigger] rest[i]) by {
            assert(rest[i] == events[i + 1]);
        }
        lemma_recording_lines(rest);
        let stop = |c: char| c == '\n';
        assert forall|i: int| 0 <= i < first.len() implies !stop(#[trigger] content[i]) by {
            assert(content[i] == first[i]);
            assert(first.contains(first[i]));
        }
        assert(content[first.len() as int] == '\n');
        text::lemma_run_is(content, stop, first.len());
        assert(content.take(first.len() as int) =~= first);
        assert(content.skip(first.len() as int + 1) =~= recording(rest));
        assert(one_line(events[0]));
        assert(text::without_cr(first) == first);
        assert(seq![first] + rest =~= events);
    }
}

/// A line of a recording is an event unless it is blank, whether it ends in a line feed alone or in
/// a carriage return and a line feed; the last one needs neither.
pub proof fn law_recorded_lines(l: Seq<char>, rest: Seq<char>)
    requires
        !l.contains('\n'),
    ensures
        recorded(Seq::empty()) == Seq::<Seq<char>>::empty(),
        spaces::all_white(l) ==> recorded(l) == Seq::<Seq<char>>::empty() && recorded(
            l + seq!['\r', '\n'] + rest,
        ) == recorded(rest),
        l.len() > 0 && !text::white(l[0]) && !text::white(l.last()) ==> recorded(l) == seq![l]
            && recorded(l + seq!['\n'] + rest) == seq![l] + recorded(rest) && recorded(
            l + seq!['\r', '\n'] + rest,
        ) == seq![l] + recorded(rest),
{
    let keep = |line: Seq<char>| !text::blank(line);
    let none = Seq::<Seq<char>>::empty();
    spaces::law_lines(l, rest);
    Seq::filter_distributes_over_add(seq![l], text::lines(rest), keep);
    assert(seq![l].filter(keep) == (if keep(l) {
        seq![l]
    } else {
        none
    })) by {
        reveal(Seq::filter);
        assert(seq![l].drop_last() =~= none);
        assert(none.filter(keep) =~= none);
        assert(none.push(l) =~= seq![l]);
    }
    assert(none.filter(keep) =~= none) by {
        reveal(Seq::filter);
    }
    let e = Seq::<char>::empty();
    if spaces::all_white(l) {
        spaces::law_trimmed(l, e, e);
        assert(l + e + e =~= l);
        assert(!keep(l));
        assert(none + recorded(rest) =~= recorded(rest));
        if l.len() == 0 {
            assert(l =~= e);
        }
    }
    if l.len() > 0 && !text::white(l[0]) && !text::white(l.last()) {
        assert(text::trimmed(l) == l);
        assert(keep(l));
        assert(l.last() != '\r');
    }
}

/// A recording with a line that cannot be read is not loaded.
pub proof fn law_unreadable_recordings_fail<E, F: Fn(&str) -> Result<OracleEvent, E>>(
    content: Seq<char>,
    read: F,
    r: Result<Vec<OracleEvent>, E>,
    k: int,
)
    requires
        loads(content, read, r),
        0 <= k < recorded(content).len(),
        forall|s: &str, x: Result<OracleEvent, E>|
            s@ == recorded(content)[k] && #[trigger] call_ensures(read, (s,), x) ==> x is Err,
    ensures
        r is Err,
{
    match r {
        Ok(v) => {
            let lines = recorded(content);
            assert(may_give::<E, F>(read, lines[k], Ok(v@[k])));
        },
        Err(_) => {},
    }
}

} // verus!
