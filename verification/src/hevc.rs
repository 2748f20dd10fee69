//! Correcting H.265 formats again changes nothing, and keeps what stands beside the parameter sets.

use vstd::prelude::*;
use crate::codec;
use crate::pattern;
use crate::sdp;
use crate::settings;
use crate::splice;
use crate::text;

verus! {

/// A text of a parameter set: the name, and base64 behind it.
pub open spec fn set_text(w: Seq<char>) -> bool {
    &&& w.len() > 10
    &&& w.take(10) == "sprop-sps="@
    &&& forall|i: int| 10 <= i < w.len() ==> pattern::in_class(
        pattern::Class::Base64,
        #[trigger] w[i],
    )
}

/// Settings of a name that keep away from parameter sets: nothing in them is what a parameter set
/// begins with, or a semicolon, and the dash in the name does not fit on the one in a parameter
/// set.
pub open spec fn keeps_away(shape: pattern::Shape) -> bool {
    &&& !shape.led
    &&& shape.name.len() > 0
    &&& !shape.name.contains('s')
    &&& !shape.name.contains(';')
    &&& !pattern::in_class(shape.class, 's')
    &&& exists|d: int| #[trigger] dashed(shape.name, d)
}

/// The name has a dash at position `d`, and does not fit on a parameter set with it.
pub open spec fn dashed(name: Seq<char>, d: int) -> bool {
    &&& 0 <= d < name.len()
    &&& name[d] == '-'
    &&& d > 5 || splice::differs("sprop-sps="@, 5 - d, name, 0)
}

/// A name that keeps away from parameter sets neither begins in the text of one nor runs into it.
proof fn lemma_no_name_within(s: Seq<char>, n: int, i: int, shape: pattern::Shape)
    requires
        keeps_away(shape),
        0 <= i < n <= s.len(),
        set_text(s.take(n)),
        n < s.len() ==> s[n] == ';',
    ensures
        !text::occurs_at(s, shape.name, i),
{
    reveal_strlit("sprop-sps=");
    let w = s.take(n);
    let set = "sprop-sps="@;
    let name = shape.name;
    let d = choose|d: int| #[trigger] dashed(name, d);
    if text::occurs_at(s, name, i) {
        let m = s.subrange(i, i + name.len());
        assert(m == name);
        if i + d < n {
            assert(m[d] == s[i + d]);
            assert(w[i + d] == s[i + d]);
            assert(i + d < 10 ==> w.take(10)[i + d] == w[i + d]);
            assert(i + d == 5);
            splice::lemma_differs(set, i, name, 0);
            let k = choose|k: int|
                0 <= k < set.len() - i && k < name.len() - 0 && #[trigger] set[i + k] != name[0 + k];
            assert(m[k] == s[i + k]);
            assert(w.take(10)[i + k] == w[i + k]);
            assert(w[i + k] == s[i + k]);
        } else {
            assert(m[n - i] == s[n]);
            assert(name.contains(name[n - i]));
        }
    }
}

/// Up to where the text of a parameter set may begin, replacing changes nothing.
proof fn lemma_same_before(t: Seq<char>, p: Seq<char>, q: Seq<char>, m: int)
    requires
        set_text(p),
        set_text(q),
        0 <= m,
        m <= t.len() && !t.take(m).contains('s') || m <= text::replaced(t, p, q).len()
            && !text::replaced(t, p, q).take(m).contains('s'),
    ensures
        m <= t.len(),
        m <= text::replaced(t, p, q).len(),
        t.take(m) == text::replaced(t, p, q).take(m),
        (m < t.len()) == (m < text::replaced(t, p, q).len()),
        m < t.len() ==> t[m] == text::replaced(t, p, q)[m],
        text::replaced(t, p, q).skip(m) == text::replaced(t.skip(m), p, q),
    decreases m,
{
    reveal_strlit("sprop-sps=");
    let u = text::replaced(t, p, q);
    assert(p[0] == p.take(10)[0]);
    assert(q[0] == q.take(10)[0]);
    if t.len() > 0 && text::begins(t, p) {
        assert(t.subrange(0, p.len() as int)[0] == t[0]);
        assert(u[0] == q[0]);
        assert(t[0] == 's' && u[0] == 's');
        if m > 0 {
            assert(m <= t.len() ==> t.take(m)[0] == 's');
            assert(m <= u.len() ==> u.take(m)[0] == 's');
        }
    }
    if m == 0 {
        assert(t.skip(0) =~= t);
        assert(u.skip(0) =~= u);
    } else {
        let s = t.skip(1);
        let v = text::replaced(s, p, q);
        assert(t.len() > 0);
        assert(u == seq![t[0]] + v);
        let a = s.take(m - 1);
        let b = v.take(m - 1);
        if m <= t.len() && a.contains('s') {
            let k = choose|k: int| 0 <= k < a.len() && a[k] == 's';
            assert(t.take(m)[k + 1] == 's');
        }
        if m <= u.len() && b.contains('s') {
            let k = choose|k: int| 0 <= k < b.len() && b[k] == 's';
            assert(u.take(m)[k + 1] == 's');
        }
        lemma_same_before(s, p, q, m - 1);
        assert forall|k: int| 0 <= k < m implies #[trigger] t[k] == u[k] by {
            if k > 0 {
                assert(a[k - 1] == b[k - 1]);
            }
        }
        assert(t.take(m) =~= u.take(m));
        assert(u.skip(m) =~= v.skip(m - 1));
        assert(t.skip(m) =~= s.skip(m - 1));
    }
}

proof fn lemma_closed_off_tail(t: Seq<char>, p: Seq<char>, n: int)
    requires
        0 <= n <= t.len(),
        sdp::closed_off(t, p),
    ensures
        sdp::closed_off(t.skip(n), p),
{
    let s = t.skip(n);
    assert forall|i: int| #[trigger] text::occurs_at(s, p, i) implies i + p.len() == s.len() || s[i
        + p.len()] == ';' by {
        assert(s.subrange(i, i + p.len()) =~= t.subrange(i + n, i + n + p.len()));
        assert(text::occurs_at(t, p, i + n));
    }
}

/// Replacing the text of a parameter set keeps settings right that keep away from it, if the text
/// is closed off.
pub proof fn law_set_replaced_right(
    t: Seq<char>,
    p: Seq<char>,
    q: Seq<char>,
    shape: pattern::Shape,
    wanted: Seq<char>,
)
    requires
        set_text(p),
        set_text(q),
        sdp::closed_off(t, p),
        keeps_away(shape),
        settings::all_right(t, shape, wanted),
    ensures
        settings::all_right(text::replaced(t, p, q), shape, wanted),
    decreases t.len(),
{
    let u = text::replaced(t, p, q);
    let name = shape.name;
    if t.len() > 0 {
        let found = text::begins(t, p);
        let n = if found {
            p.len() as int
        } else {
            1
        };
        let k = if found {
            q.len() as int
        } else {
            1
        };
        let s = t.skip(n);
        let v = text::replaced(s, p, q);
        splice::lemma_right_tail(t, shape, wanted, n);
        lemma_closed_off_tail(t, p, n);
        law_set_replaced_right(s, p, q, shape, wanted);
        if found {
            assert(text::occurs_at(t, p, 0));
            assert(u.take(k) =~= q);
            lemma_same_before(s, p, q, 0);
            if v.len() > 0 {
                assert(s[0] == t[n]);
                assert(u[k] == v[0]);
            }
        }
        assert forall|i: int| 0 <= i < u.len() && #[trigger] shape.starts(u.skip(i)) implies u.skip(
            i,
        ).take(shape.length(u.skip(i))) == wanted by {
            if i >= k {
                assert(u.skip(i) =~= v.skip(i - k));
            } else if found {
                assert(u.skip(i).subrange(0, name.len() as int) =~= u.subrange(i, i + name.len()));
                lemma_no_name_within(u, k, i, shape);
            } else {
                assert(u.skip(0) =~= u);
                lemma_same_setting_before(t, p, q, shape);
                assert(t.skip(0) =~= t);
                assert(shape.starts(t.skip(0)));
            }
        }
    }
}

/// A setting that a text begins with after replacing stood there before.
proof fn lemma_same_setting_before(t: Seq<char>, p: Seq<char>, q: Seq<char>, shape: pattern::Shape)
    requires
        set_text(p),
        set_text(q),
        keeps_away(shape),
        shape.starts(text::replaced(t, p, q)),
    ensures
        shape.starts(t),
        shape.length(t) == shape.length(text::replaced(t, p, q)),
        t.take(shape.length(t)) == text::replaced(t, p, q).take(shape.length(t)),
{
    let u = text::replaced(t, p, q);
    let m = shape.length(u);
    let n = shape.name.len() as int;
    pattern::lemma_match(u, shape);
    assert forall|k: int| 0 <= k < m implies #[trigger] u[k] != 's' by {
        if k < n {
            assert(u.subrange(0, n)[k] == u[k]);
            assert(shape.name.contains(shape.name[k]));
        } else {
            assert(pattern::in_class(shape.class, u[k]));
        }
    }
    lemma_same_before(t, p, q, m);
    splice::lemma_same_setting(t, u, shape);
}

/// Levels keep away from parameter sets.
proof fn lemma_level_keeps_away()
    ensures
        keeps_away(sdp::level()),
{
    reveal_strlit("level-id=");
    reveal_strlit("sprop-sps=");
    reveal_with_fuel(splice::differs, 3);
    assert(dashed("level-id="@, 5));
}

/// Replacing the text of a parameter set takes no name of a level away, if the text is closed off.
proof fn lemma_name_through(t: Seq<char>, p: Seq<char>, q: Seq<char>, i: int)
    requires
        set_text(p),
        set_text(q),
        sdp::closed_off(t, p),
        text::occurs_at(t, "level-id="@, i),
    ensures
        text::occurs(text::replaced(t, p, q), "level-id="@),
    decreases t.len(),
{
    reveal_strlit("level-id=");
    let name = "level-id="@;
    let u = text::replaced(t, p, q);
    let found = text::begins(t, p);
    let n = if found {
        p.len() as int
    } else {
        1
    };
    let k = if found {
        q.len() as int
    } else {
        1
    };
    if found {
        assert(text::occurs_at(t, p, 0));
        assert(t.take(n) == p);
        if i < n {
            lemma_level_keeps_away();
            lemma_no_name_within(t, n, i, sdp::level());
        }
    }
    if i >= n {
        let s = t.skip(n);
        let v = text::replaced(s, p, q);
        assert(s.subrange(i - n, i - n + 9) =~= t.subrange(i, i + 9));
        lemma_closed_off_tail(t, p, n);
        lemma_name_through(s, p, q, i - n);
        let j = choose|j: int| #[trigger] text::occurs_at(v, name, j);
        assert(u.subrange(j + k, j + k + 9) =~= v.subrange(j, j + 9));
        assert(text::occurs_at(u, name, j + k));
    } else {
        assert(t.take(9) == name);
        lemma_same_before(t, p, q, 9);
        assert(u.take(9) == name);
        assert(text::occurs_at(u, name, 0));
    }
}

/// The parameter set that is found first, and the one that takes its place, are texts of parameter
/// sets.
pub proof fn lemma_set_texts(t: Seq<char>, new: Seq<char>)
    requires
        sdp::sps_in(t) is Some,
        new.len() > 0,
        forall|i: int| 0 <= i < new.len() ==> codec::base64_char(#[trigger] new[i]),
    ensures
        ({
            let (whole, _) = sdp::sps_in(t)->0;
            set_text(whole)
        }),
        set_text("sprop-sps="@ + new),
{
    reveal_strlit("sprop-sps=");
    let (whole, _) = sdp::sps_in(t)->0;
    let q = "sprop-sps="@ + new;
    let shape = pattern::sprop_sps();
    pattern::lemma_first_match(t, shape);
    let i = pattern::first_match(t, shape)->0;
    let m = t.skip(i);
    pattern::lemma_match(m, shape);
    assert(whole.take(10) =~= m.subrange(0, 10));
    assert forall|k: int| 10 <= k < whole.len() implies pattern::in_class(
        pattern::Class::Base64,
        #[trigger] whole[k],
    ) by {
        assert(whole[k] == m[k]);
    }
    assert(q.take(10) =~= "sprop-sps="@);
    assert forall|k: int| 10 <= k < q.len() implies pattern::in_class(
        pattern::Class::Base64,
        #[trigger] q[k],
    ) by {
        assert(codec::base64_char(new[k - 10]));
    }
}

/// Correcting the parameters of a format keeps the level that was put in, where no parameter set is
/// raised, and where the one that is raised is closed off from what follows it.
pub proof fn law_level_kept(parameters: Seq<char>)
    requires
        sdp::settles(parameters),
        sdp::sps_in(sdp::levelled(parameters)) matches Some((whole, blob)) ==> sdp::sps_raised(
            blob,
        ) is None || sdp::closed_off(sdp::levelled(parameters), whole),
    ensures
        sdp::levelled(sdp::hevc_parameters(parameters)) == sdp::hevc_parameters(parameters),
{
    sdp::law_levelled_right(parameters);
    let t = sdp::levelled(parameters);
    let wanted = "level-id=180"@;
    match sdp::sps_in(t) {
        Some((whole, blob)) => match sdp::sps_raised(blob) {
            Some(new) => {
                let q = "sprop-sps="@ + new;
                lemma_set_texts(t, new);
                lemma_level_keeps_away();
                law_set_replaced_right(t, whole, q, sdp::level(), wanted);
                let j = choose|j: int| #[trigger] text::occurs_at(t, "level-id="@, j);
                lemma_name_through(t, whole, q, j);
                settings::law_right_stays(sdp::hevc_parameters(parameters), sdp::level(), wanted);
            },
            None => {},
        },
        None => {},
    }
}

/// Where the first parameter set is replaced by another, no match begins before it.
proof fn lemma_none_before(t: Seq<char>, u: Seq<char>, i: int, j: int)
    requires
        0 <= j < i,
        i + 10 < t.len(),
        i + 10 < u.len(),
        t.take(i) == u.take(i),
        "sprop-sps="@ == t.subrange(i, i + 10),
        "sprop-sps="@ == u.subrange(i, i + 10),
        !pattern::sprop_sps().starts(t.skip(j)),
    ensures
        !pattern::sprop_sps().starts(u.skip(j)),
{
    reveal_strlit("sprop-sps=");
    let name = "sprop-sps="@;
    let a = u.skip(j);
    let b = t.skip(j);
    if pattern::sprop_sps().starts(a) {
        assert(a.subrange(0, 10) == name);
        assert(t[i] == t.subrange(i, i + 10)[0]);
        assert(u[i] == u.subrange(i, i + 10)[0]);
        assert(t[i] == u[i]);
        assert forall|k: int| 0 <= k <= i implies #[trigger] t[k] == u[k] by {
            if k < i {
                assert(t.take(i)[k] == t[k]);
                assert(u.take(i)[k] == u[k]);
            }
        }
        if j + 10 <= i {
            assert(b.subrange(0, 10) =~= a.subrange(0, 10));
            assert(a[10] == u[j + 10] && b[10] == t[j + 10]);
        } else {
            assert(a.subrange(0, 10)[9] == u[j + 9]);
            assert(u.subrange(i, i + 10)[j + 9 - i] == u[j + 9]);
        }
    }
}

/// A text in which the first parameter set is replaced by another has that one as its first.
proof fn lemma_found_replaced(t: Seq<char>, new: Seq<char>)
    requires
        pattern::found(t, pattern::sprop_sps()) is Some,
        new.len() > 0,
        forall|i: int| 0 <= i < new.len() ==> codec::base64_char(#[trigger] new[i]),
    ensures
        ({
            let (whole, _) = pattern::found(t, pattern::sprop_sps())->0;
            let q = "sprop-sps="@ + new;
            pattern::found(text::replaced(t, whole, q), pattern::sprop_sps()) == Some((q, new))
        }),
{
    reveal_strlit("sprop-sps=");
    let shape = pattern::sprop_sps();
    let name = "sprop-sps="@;
    pattern::lemma_first_match(t, shape);
    let i = pattern::first_match(t, shape)->0;
    let m = t.skip(i);
    pattern::lemma_match(m, shape);
    let n = shape.length(m);
    let whole = m.take(n);
    let after = m.skip(n);
    let q = name + new;
    let rest = text::replaced(after, whole, q);
    let u = text::replaced(t, whole, q);
    lemma_replaced_at(t, shape, i, whole, q);
    let v = q + rest;
    assert(u == t.take(i) + v);
    assert(u.skip(i) =~= v);
    assert(m.subrange(0, 10) == name);
    assert(whole[0] == m.subrange(0, 10)[0]);
    if after.len() > 0 {
        assert(after[0] == m[n]);
        if text::begins(after, whole) {
            assert(after.subrange(0, whole.len() as int)[0] == whole[0]);
        }
        assert(rest[0] == after[0]);
        assert(v[q.len() as int] == rest[0]);
    }
    assert(v.subrange(0, 10) =~= name);
    assert forall|k: int| 10 <= k < q.len() implies pattern::in_class(
        shape.class,
        #[trigger] v[k],
    ) by {
        assert(v[k] == new[k - 10]);
    }
    assert(pattern::in_class(shape.class, v[10]));
    pattern::lemma_match_is(v, shape, q.len() as int);
    assert(v.take(q.len() as int) =~= q);
    assert(q.skip(10) =~= new);
    assert(t.subrange(i, i + 10) =~= m.subrange(0, 10));
    assert(u.subrange(i, i + 10) =~= name);
    assert(u.take(i) =~= t.take(i));
    assert forall|j: int| 0 <= j < i implies !shape.starts(#[trigger] u.skip(j)) by {
        assert(!shape.starts(t.skip(j)));
        lemma_none_before(t, u, i, j);
    }
    pattern::lemma_first_match_is(u, shape, i);
}

/// A text that begins like a match does begins with one.
proof fn lemma_begins_match(t: Seq<char>, m: Seq<char>, shape: pattern::Shape)
    requires
        !shape.led,
        shape.starts(m),
        text::begins(t, m.take(shape.length(m))),
    ensures
        shape.starts(t),
{
    pattern::lemma_match(m, shape);
    let h = shape.head();
    let n = shape.length(m);
    let whole = m.take(n);
    assert(t.subrange(0, n) == whole);
    assert(t.subrange(0, h) =~= whole.subrange(0, h));
    assert(m.subrange(0, h) =~= whole.subrange(0, h));
    assert(t[h] == t.subrange(0, n)[h]);
    assert(m[h] == whole[h]);
}

/// Replacing what the first match is replaces nothing before it.
proof fn lemma_replaced_at(
    t: Seq<char>,
    shape: pattern::Shape,
    i: int,
    whole: Seq<char>,
    q: Seq<char>,
)
    requires
        !shape.led,
        0 <= i < t.len(),
        shape.starts(t.skip(i)),
        whole == t.skip(i).take(shape.length(t.skip(i))),
        forall|j: int| 0 <= j < i ==> !shape.starts(#[trigger] t.skip(j)),
    ensures
        text::replaced(t, whole, q) == t.take(i) + (q + text::replaced(
            t.skip(i).skip(whole.len() as int),
            whole,
            q,
        )),
    decreases i,
{
    pattern::lemma_match(t.skip(i), shape);
    let n = whole.len() as int;
    let rest = text::replaced(t.skip(i).skip(n), whole, q);
    assert(t.skip(0) =~= t);
    if i == 0 {
        assert(text::begins(t, whole));
        assert(t.take(0) + (q + rest) =~= q + rest);
    } else {
        let s = t.skip(1);
        if text::begins(t, whole) {
            lemma_begins_match(t, t.skip(i), shape);
            assert(!shape.starts(t.skip(0)));
        }
        assert(s.skip(i - 1) =~= t.skip(i));
        assert forall|j: int| 0 <= j < i - 1 implies !shape.starts(#[trigger] s.skip(j)) by {
            assert(s.skip(j) =~= t.skip(j + 1));
        }
        lemma_replaced_at(s, shape, i - 1, whole, q);
        assert(seq![t[0]] + (s.take(i - 1) + (q + rest)) =~= t.take(i) + (q + rest));
    }
}

/// Correcting corrected parameters again changes nothing, where their level is kept.
proof fn lemma_parameters_again(parameters: Seq<char>)
    requires
        sdp::settles(parameters),
        sdp::levelled(sdp::hevc_parameters(parameters)) == sdp::hevc_parameters(parameters),
    ensures
        sdp::hevc_parameters(sdp::hevc_parameters(parameters)) == sdp::hevc_parameters(parameters),
{
    let t = sdp::levelled(parameters);
    match sdp::sps_in(t) {
        Some((whole, blob)) => match sdp::sps_raised(blob) {
            Some(new) => {
                lemma_found_replaced(t, new);
            },
            None => {},
        },
        None => {},
    }
}

proof fn lemma_corrected_lacks_feed(parameters: Seq<char>)
    requires
        sdp::settles(parameters),
        !parameters.contains('\n'),
    ensures
        !sdp::hevc_parameters(parameters).contains('\n'),
{
    reveal_strlit("level-id=180");
    reveal_strlit("sprop-sps=");
    reveal_strlit("level-id=180;profile-id=1;tier-flag=0;");
    reveal_with_fuel(pattern::lacks, 40);
    pattern::lemma_lacks("level-id=180"@, '\n');
    pattern::lemma_lacks("sprop-sps="@, '\n');
    pattern::lemma_lacks(sdp::level_start(), '\n');
    let t = sdp::levelled(parameters);
    settings::lemma_respelled_lacks(parameters, sdp::level(), false, "level-id=180"@, '\n');
    if t.contains('\n') && !text::occurs(parameters, "level-id="@) {
        let i = choose|i: int| 0 <= i < t.len() && t[i] == '\n';
        let n = sdp::level_start().len();
        if i < n {
            assert(sdp::level_start()[i] == '\n');
        } else {
            assert(parameters[i - n] == '\n');
        }
    }
    match sdp::sps_in(t) {
        Some((whole, blob)) => match sdp::sps_raised(blob) {
            Some(new) => {
                let q = "sprop-sps="@ + new;
                if q.contains('\n') {
                    let i = choose|i: int| 0 <= i < q.len() && q[i] == '\n';
                    if i < 10 {
                        assert("sprop-sps="@[i] == '\n');
                    } else {
                        assert(new[i - 10] == '\n');
                        assert(codec::base64_char(new[i - 10]));
                    }
                }
                settings::lemma_replaced_lacks(t, whole, q, '\n');
            },
            None => {},
        },
        None => {},
    }
}

/// A corrected format line has the same start and the same payload number, and stays when it is
/// corrected again.
proof fn lemma_line_again(line: Seq<char>)
    requires
        sdp::format_line(line),
        sdp::line_settles(line),
        sdp::level_kept(line),
        !text::occurs(line, "\r\n"@),
    ensures
        text::begins(sdp::hevc_line(line), "a=fmtp:"@),
        sdp::payload(sdp::hevc_line(line)) == sdp::payload(line),
        !text::occurs(sdp::hevc_line(line), "\r\n"@),
        sdp::format_line(sdp::hevc_line(line)) ==> sdp::hevc_line(sdp::hevc_line(line))
            == sdp::hevc_line(line),
{
    reveal_strlit("a=fmtp:");
    reveal_strlit("\r\n");
    match pattern::format_parts(line) {
        None => {},
        Some((start, rest)) => {
            let shape = pattern::setting("a=fmtp:"@, pattern::Class::Digit);
            pattern::lemma_match(line, shape);
            let n = shape.length(line);
            let u = sdp::hevc_parameters(rest);
            let new = start + u;
            lemma_corrected_lacks_feed(rest);
            assert(new.subrange(0, 7) =~= line.subrange(0, 7));
            assert forall|k: int| 7 <= k < n implies pattern::in_class(
                shape.class,
                #[trigger] new[k],
            ) by {
                assert(new[k] == line[k]);
            }
            assert(new[7] == line[7]);
            assert(new[n] == line[n]);
            pattern::lemma_match_is(new, shape, n);
            assert(new.skip(n + 1) =~= u);
            assert(new.take(n + 1) =~= start);
            lemma_payload(line, n);
            lemma_payload(new, n);
            assert(new.skip(7).take(n - 7) =~= line.skip(7).take(n - 7));
            assert forall|k: int| !text::occurs_at(new, "\r\n"@, k) by {
                if text::occurs_at(new, "\r\n"@, k) {
                    assert(new.subrange(k, k + 2)[1] == '\n');
                    assert(new[k + 1] == '\n');
                    if k + 1 <= n {
                        assert(line[k + 1] == '\n');
                        if k + 1 < 7 {
                            assert(line.subrange(0, 7)[k + 1] == "a=fmtp:"@[k + 1]);
                        } else if k + 1 < n {
                            assert(pattern::in_class(shape.class, line[k + 1]));
                        }
                    } else {
                        assert(u[k + 1 - (n + 1)] == '\n');
                        assert(u.contains('\n'));
                    }
                }
            }
            if sdp::format_line(new) {
                lemma_parameters_again(rest);
            }
        },
    }
}

proof fn lemma_payload(line: Seq<char>, n: int)
    requires
        7 <= n < line.len(),
        line[n] == ' ',
        forall|k: int|
            7 <= k < n ==> pattern::in_class(pattern::Class::Digit, #[trigger] line[k]),
    ensures
        sdp::payload(line) == line.skip(7).take(n - 7),
{
    reveal_strlit("a=fmtp:");
    let rest = line.skip(7);
    assert forall|k: int| 0 <= k < n - 7 implies !sdp::is_space()(#[trigger] rest[k]) by {
        assert(rest[k] == line[k + 7]);
    }
    assert(rest[n - 7] == line[n]);
    text::lemma_run_is(rest, sdp::is_space(), (n - 7) as nat);
}

proof fn lemma_not_media(line: Seq<char>, payload: Seq<char>)
    requires
        text::begins(line, "a=fmtp:"@),
    ensures
        !text::begins(line, "m="@),
        !text::begins(line, sdp::map_start(payload)),
{
    reveal_strlit("a=fmtp:");
    reveal_strlit("m=");
    reveal_strlit("a=rtpmap:");
    assert(line.subrange(0, 7)[0] == line[0]);
    assert(line.subrange(0, 7)[2] == line[2]);
    if text::begins(line, "m="@) {
        assert(line.subrange(0, 2)[0] == line[0]);
    }
    let start = sdp::map_start(payload);
    if text::begins(line, start) {
        assert(line.subrange(0, start.len() as int)[2] == start[2]);
        assert(start[2] == "a=rtpmap:"@[2]);
    }
}

proof fn lemma_sections_kept(lines: Seq<Seq<char>>, n: int)
    requires
        0 <= n <= lines.len(),
        forall|i: int|
            0 <= i < lines.len() && #[trigger] sdp::hevc_format(lines, i) ==> text::begins(
                sdp::hevc_line(lines[i]),
                "a=fmtp:"@,
            ),
    ensures
        sdp::in_video(sdp::hevc_lines(lines), n) == sdp::in_video(lines, n),
        sdp::section(sdp::hevc_lines(lines), n) == sdp::section(lines, n),
    decreases n,
{
    if n > 0 {
        lemma_sections_kept(lines, n - 1);
        if sdp::hevc_format(lines, n - 1) {
            lemma_not_media(sdp::hevc_lines(lines)[n - 1], Seq::empty());
        }
    }
}

/// Correcting corrected lines again changes nothing.
proof fn lemma_lines_again(lines: Seq<Seq<char>>)
    requires
        sdp::levels_kept(lines),
        forall|i: int| 0 <= i < lines.len() ==> !text::occurs(#[trigger] lines[i], "\r\n"@),
        sdp::sets_settle(lines),
    ensures
        sdp::hevc_lines(sdp::hevc_lines(lines)) == sdp::hevc_lines(lines),
        forall|i: int|
            0 <= i < lines.len() ==> !text::occurs(#[trigger] sdp::hevc_lines(lines)[i], "\r\n"@),
{
    let new = sdp::hevc_lines(lines);
    assert forall|i: int| 0 <= i < lines.len() && #[trigger] sdp::hevc_format(lines, i) implies ({
        &&& text::begins(sdp::hevc_line(lines[i]), "a=fmtp:"@)
        &&& sdp::payload(sdp::hevc_line(lines[i])) == sdp::payload(lines[i])
        &&& !text::occurs(sdp::hevc_line(lines[i]), "\r\n"@)
        &&& sdp::format_line(sdp::hevc_line(lines[i])) ==> sdp::hevc_line(sdp::hevc_line(lines[i])) == sdp::hevc_line(
            lines[i],
        )
    }) by {
        lemma_line_again(lines[i]);
    }
    assert forall|i: int| 0 <= i < lines.len() implies #[trigger] sdp::hevc_lines(new)[i] == new[i] by {
        if sdp::hevc_format(new, i) {
            lemma_sections_kept(lines, i);
            lemma_sections_kept(lines, i + 1);
            if !sdp::hevc_format(lines, i) {
                // The line is as it was, so another line must map its payload elsewhere.
                assert(new[i] == lines[i]);
                assert(sdp::foreign(lines, i));
                let j = choose|j: int|
                    0 <= j < lines.len() && sdp::section(lines, j + 1) == sdp::section(lines, i + 1)
                        && #[trigger] sdp::maps_elsewhere(lines[j], sdp::payload(lines[i]));
                lemma_sections_kept(lines, j + 1);
                if sdp::hevc_format(lines, j) {
                    lemma_not_media(lines[j], sdp::payload(lines[i]));
                }
                assert(new[j] == lines[j]);
                assert(sdp::maps_elsewhere(new[j], sdp::payload(new[i])));
                assert(sdp::foreign(new, i));
            }
        }
    }
    assert(sdp::hevc_lines(new) =~= new);
    assert forall|i: int| 0 <= i < lines.len() implies !text::occurs(
        #[trigger] new[i],
        "\r\n"@,
    ) by {
        assert(!text::occurs(lines[i], "\r\n"@));
    }
}

pub proof fn lemma_closed_off(lines: Seq<Seq<char>>)
    requires
        sdp::sets_closed_off(lines),
        sdp::sets_settle(lines),
    ensures
        sdp::levels_kept(lines),
{
    assert forall|i: int| 0 <= i < lines.len() && #[trigger] sdp::hevc_format(
        lines,
        i,
    ) implies sdp::level_kept(lines[i]) by {
        match pattern::format_parts(lines[i]) {
            Some((start, rest)) => law_level_kept(rest),
            None => {},
        }
    }
}

/// Correcting the H.265 formats of a description again changes nothing, where the level in each of
/// them is kept.
pub proof fn law_hevc_again(sdp: Seq<char>)
    requires
        ({
            let lines = text::split(sdp, "\r\n"@);
            &&& sdp::levels_kept(lines)
            &&& sdp::sets_settle(lines)
        }),
    ensures
        sdp::hevc_levelled(sdp::hevc_levelled(sdp)) == sdp::hevc_levelled(sdp),
{
    reveal_strlit("\r\n");
    let sep = "\r\n"@;
    let lines = text::split(sdp, sep);
    let new = sdp::hevc_lines(lines);
    text::lemma_split_n_len(sdp, sep, sdp.len() + 1);
    assert forall|i: int| 0 <= i < lines.len() implies !text::occurs(#[trigger] lines[i], sep) by {
        text::lemma_split_clean(sdp, sep, sdp.len() + 1, i);
    }
    lemma_lines_again(lines);
    text::law_join_split(new, sep, new.len());
    text::law_join_split(new, sep, text::joined(new, sep).len() + 1);
}

} // verus!
