//! What a corrected offer says of the formats of its video and audio, told by the name of the
//! encoder and the text of the offer.

use vstd::prelude::*;
use crate::codec;
use crate::nal;
use crate::number;
use crate::pattern;
use crate::sdp;
use crate::settings;
use crate::spaces;
use crate::splice;
use crate::text;

verus! {

/// Each occurrence of `w` in a text has `before` right before it.
pub open spec fn preceded(s: Seq<char>, w: Seq<char>, before: Seq<char>) -> bool {
    forall|i: int| #[trigger]
        text::occurs_at(s, w, i) ==> text::occurs_at(s, before, i - before.len())
}

/// A text begins nowhere in another one, so that replacing it leaves that one alone.
proof fn lemma_replaced_behind(a: Seq<char>, v: Seq<char>, p: Seq<char>, q: Seq<char>, from: int)
    requires
        p.len() > 0,
        splice::nowhere(a, p, 0),
        0 <= from <= a.len(),
    ensures
        text::replaced(a.skip(from) + v, p, q) == a.skip(from) + text::replaced(v, p, q),
    decreases a.len() - from,
{
    let s = a.skip(from) + v;
    if from == a.len() {
        assert(s =~= v);
        assert(a.skip(from) + text::replaced(v, p, q) =~= text::replaced(v, p, q));
    } else {
        let u = a + v;
        assert(u.subrange(0, a.len() as int) =~= a);
        splice::lemma_nowhere(a, u, p, 0, from);
        if text::begins(s, p) {
            assert(u.subrange(from, from + p.len()) =~= s.subrange(0, p.len() as int));
        }
        assert(s.skip(1) =~= a.skip(from + 1) + v);
        lemma_replaced_behind(a, v, p, q, from + 1);
        assert(seq![s[0]] + (a.skip(from + 1) + text::replaced(v, p, q)) =~= a.skip(from)
            + text::replaced(v, p, q));
    }
}

/// Where a text does not begin with `p`, it does not do so after replacing either.
proof fn lemma_not_found(t: Seq<char>, p: Seq<char>, q: Seq<char>)
    requires
        p.len() > 0,
        q.len() > 0,
        splice::nowhere(p, q, 1),
        t.len() > 0,
        !text::begins(t, p),
    ensures
        !text::begins(text::replaced(t, p, q), p),
{
    splice::lemma_replaced_spliced(t, p, q);
    let u = text::replaced(t, p, q);
    let pieces = splice::occurrences(p);
    if text::begins(u, p) {
        assert(!pieces.found(t));
        splice::lemma_name_back(t, pieces, q, p, p.len() as int);
        assert(t.subrange(0, p.len() as int) =~= u.subrange(0, p.len() as int));
    }
}

/// Putting one text before each occurrence and then another one is putting both there.
proof fn lemma_put_both(t: Seq<char>, p: Seq<char>, a: Seq<char>, b: Seq<char>)
    requires
        p.len() > 0,
        splice::nowhere(a, p, 0),
        splice::nowhere(p, a + p, 1),
    ensures
        text::replaced(text::replaced(t, p, a + p), p, b + p) == text::replaced(t, p, a + b + p),
    decreases t.len(),
{
    let u = text::replaced(t, p, a + p);
    if t.len() > 0 {
        if text::begins(t, p) {
            let s = t.skip(p.len() as int);
            let v = text::replaced(s, p, a + p);
            lemma_put_both(s, p, a, b);
            assert(u == a + p + v);
            assert(u =~= a.skip(0) + (p + v));
            lemma_replaced_behind(a, p + v, p, b + p, 0);
            let w = p + v;
            assert(w.subrange(0, p.len() as int) =~= p);
            assert(w.skip(p.len() as int) =~= v);
            assert(text::replaced(w, p, b + p) == b + p + text::replaced(v, p, b + p));
            assert(a.skip(0) + (b + p + text::replaced(v, p, b + p)) =~= a + b + p + text::replaced(
                v,
                p,
                b + p,
            ));
        } else {
            let s = t.skip(1);
            lemma_put_both(s, p, a, b);
            lemma_not_found(t, p, a + p);
            assert(u.skip(1) =~= text::replaced(s, p, a + p));
            assert(u[0] == t[0]);
        }
    }
}

/// What is put before each occurrence stands before each occurrence.
proof fn lemma_preceded(t: Seq<char>, p: Seq<char>, a: Seq<char>)
    requires
        p.len() > 0,
        splice::nowhere(a, p, 0),
        splice::nowhere(p, p, 1),
        splice::nowhere(p, a + p, 1),
    ensures
        preceded(text::replaced(t, p, a + p), p, a),
    decreases t.len(),
{
    let u = text::replaced(t, p, a + p);
    if t.len() > 0 {
        let found = text::begins(t, p);
        let n: int = if found {
            p.len() as int
        } else {
            1
        };
        let front = if found {
            a + p
        } else {
            seq![t[0]]
        };
        let s = t.skip(n);
        let v = text::replaced(s, p, a + p);
        lemma_preceded(s, p, a);
        assert(u == front + v);
        if !found {
            lemma_not_found(t, p, a + p);
        }
        assert forall|i: int| #[trigger] text::occurs_at(u, p, i) implies text::occurs_at(
            u,
            a,
            i - a.len(),
        ) by {
            let f = front.len() as int;
            if i >= f {
                let k = i - f;
                assert(v.subrange(k, k + p.len()) =~= u.subrange(i, i + p.len()));
                assert(text::occurs_at(v, p, k));
                assert(text::occurs_at(v, a, k - a.len()));
                assert(u.subrange(i - a.len(), i) =~= v.subrange(k - a.len(), k));
            } else if found {
                if i < a.len() {
                    assert(u.subrange(0, a.len() as int) =~= a);
                    splice::lemma_nowhere(a, u, p, 0, i);
                } else if i == a.len() {
                    assert(u.subrange(0, a.len() as int) =~= a);
                } else {
                    let w = u.skip(a.len() as int);
                    assert(w.subrange(0, p.len() as int) =~= p);
                    splice::lemma_nowhere(p, w, p, 1, i - a.len());
                    assert(w.subrange(i - a.len(), i - a.len() + p.len()) =~= u.subrange(
                        i,
                        i + p.len(),
                    ));
                }
            }
        }
    }
}

/// A text that begins after something was put behind matches began before, if it lacks the first
/// character of that.
proof fn lemma_kept_back(
    t: Seq<char>,
    shape: pattern::Shape,
    put: Seq<char>,
    w: Seq<char>,
)
    requires
        put.len() > 0,
        !w.contains(put[0]),
        text::begins(pattern::respelled(t, shape, true, put), w),
    ensures
        text::begins(t, w),
    decreases t.len(),
{
    let u = pattern::respelled(t, shape, true, put);
    let m = w.len() as int;
    assert(u.subrange(0, m) == w);
    assert(forall|k: int| 0 <= k < m ==> #[trigger] u[k] == w[k]);
    if t.len() > 0 && m > 0 {
        if shape.starts(t) {
            pattern::lemma_match(t, shape);
            let n = shape.length(t);
            assert(u == t.take(n) + put + pattern::respelled(t.skip(n), shape, true, put));
            if m > n {
                assert(u[n] == put[0]);
                assert(w.contains(w[n]));
            } else {
                assert(t.subrange(0, m) =~= w) by {
                    assert forall|k: int| 0 <= k < m implies t[k] == w[k] by {
                        assert(u[k] == t[k]);
                    }
                }
            }
        } else {
            let s = t.skip(1);
            let v = pattern::respelled(s, shape, true, put);
            assert(u == seq![t[0]] + v);
            let x = w.skip(1);
            assert(v.subrange(0, m - 1) =~= x) by {
                assert forall|k: int| 0 <= k < m - 1 implies v[k] == x[k] by {
                    assert(u[k + 1] == v[k]);
                }
            }
            if x.contains(put[0]) {
                let k = choose|k: int| 0 <= k < x.len() && x[k] == put[0];
                assert(w[k + 1] == put[0]);
            }
            lemma_kept_back(s, shape, put, x);
            assert(t.subrange(0, m) =~= w) by {
                assert(u[0] == t[0]);
                assert forall|k: int| 0 <= k < m implies t[k] == w[k] by {
                    if k > 0 {
                        assert(s.subrange(0, m - 1)[k - 1] == x[k - 1]);
                    }
                }
            }
        }
    } else {
        assert(w =~= Seq::empty());
        assert(t.subrange(0, 0) =~= w);
    }
}

/// Putting something behind matches brings no text in that lacks its first character and does not
/// begin in it.
proof fn lemma_kept_brings_none(
    t: Seq<char>,
    shape: pattern::Shape,
    put: Seq<char>,
    w: Seq<char>,
)
    requires
        put.len() > 0,
        w.len() > 0,
        !w.contains(put[0]),
        splice::nowhere(put, w, 0),
        !text::occurs(t, w),
    ensures
        !text::occurs(pattern::respelled(t, shape, true, put), w),
    decreases t.len(),
{
    let u = pattern::respelled(t, shape, true, put);
    if t.len() > 0 {
        let found = shape.starts(t);
        if found {
            pattern::lemma_match(t, shape);
        }
        let n = if found {
            shape.length(t)
        } else {
            1
        };
        let front = if found {
            t.take(n) + put
        } else {
            seq![t[0]]
        };
        let s = t.skip(n);
        let v = pattern::respelled(s, shape, true, put);
        assert(u == front + v);
        assert forall|i: int| !#[trigger] text::occurs_at(s, w, i) by {
            if text::occurs_at(s, w, i) {
                assert(t.subrange(i + n, i + n + w.len()) =~= s.subrange(i, i + w.len()));
                assert(text::occurs_at(t, w, i + n));
            }
        }
        lemma_kept_brings_none(s, shape, put, w);
        assert forall|i: int| !#[trigger] text::occurs_at(u, w, i) by {
            if text::occurs_at(u, w, i) {
                if i >= front.len() {
                    let k = i - front.len();
                    assert(v.subrange(k, k + w.len()) =~= u.subrange(i, i + w.len()));
                    assert(text::occurs_at(v, w, k));
                } else if !found {
                    lemma_kept_back(t, shape, put, w);
                    assert(text::occurs_at(t, w, 0));
                } else if i >= n {
                    let x = u.skip(n);
                    assert(x.subrange(0, put.len() as int) =~= put);
                    splice::lemma_nowhere(put, x, w, 0, i - n);
                    assert(x.subrange(i - n, i - n + w.len()) =~= u.subrange(i, i + w.len()));
                } else if i + w.len() > n {
                    assert(u.subrange(i, i + w.len())[n - i] == u[n]);
                    assert(u[n] == put[0]);
                    assert(w.contains(w[n - i]));
                } else {
                    assert(t.subrange(i, i + w.len()) =~= u.subrange(i, i + w.len()));
                    assert(text::occurs_at(t, w, i));
                }
            }
        }
    }
}

/// A text within a line.
pub open spec fn in_line(s: Seq<char>) -> bool {
    !s.contains('\r') && !s.contains('\n')
}

/// What stands before position `i` of a text stands before position `j` of another one, as far as
/// the line reaches back.
pub open spec fn same_before(u: Seq<char>, i: int, t: Seq<char>, j: int) -> bool {
    &&& in_line(t.take(j)) ==> i == j && u.take(i) == t.take(j)
    &&& forall|d: int|
        0 <= d <= j && in_line(#[trigger] t.subrange(j - d, j)) ==> d <= i && u.subrange(i - d, i)
            == t.subrange(j - d, j)
}

/// A text within a line stands, after something was put behind the ends of lines, where it stood,
/// with the same before it in its line.
proof fn lemma_stood(
    t: Seq<char>,
    shape: pattern::Shape,
    put: Seq<char>,
    w: Seq<char>,
    i: int,
) -> (j: int)
    requires
        shape.class == pattern::Class::InLine,
        put.len() > 0,
        put[0] == '\r',
        w.len() > 0,
        in_line(w),
        splice::nowhere(put, w, 0),
        text::occurs_at(pattern::respelled(t, shape, true, put), w, i),
    ensures
        text::occurs_at(t, w, j),
        same_before(pattern::respelled(t, shape, true, put), i, t, j),
    decreases t.len(),
{
    let u = pattern::respelled(t, shape, true, put);
    let found = shape.starts(t);
    assert(t.len() > 0);
    if found {
        pattern::lemma_match(t, shape);
    }
    let n = if found {
        shape.length(t)
    } else {
        1
    };
    let front = if found {
        t.take(n) + put
    } else {
        seq![t[0]]
    };
    let f = front.len() as int;
    let s = t.skip(n);
    let v = pattern::respelled(s, shape, true, put);
    assert(u == front + v);
    if i >= f {
        assert(v.subrange(i - f, i - f + w.len()) =~= u.subrange(i, i + w.len()));
        let k = lemma_stood(s, shape, put, w, i - f);
        let j = k + n;
        assert(t.subrange(j, j + w.len()) =~= s.subrange(k, k + w.len()));
        if found {
            assert(s.subrange(k, k + w.len())[0] == w[0]);
            assert(w.contains(w[0]));
            assert(t[n] == '\r' || t[n] == '\n');
            assert(s[0] == t[n]);
            assert(k > 0);
            assert(t.take(j)[n] == t[n]);
            assert forall|d: int| 0 <= d <= j && in_line(#[trigger] t.subrange(j - d, j)) implies d
                <= i && u.subrange(i - d, i) == t.subrange(j - d, j) by {
                if d > k {
                    assert(t.subrange(j - d, j)[n - (j - d)] == t[n]);
                }
                assert(s.subrange(k - d, k) =~= t.subrange(j - d, j));
                assert(u.subrange(i - d, i) =~= v.subrange(i - f - d, i - f));
            }
        } else {
            if in_line(t.take(j)) {
                let a = s.take(k);
                assert(forall|x: int| 0 <= x < k ==> a[x] == #[trigger] t.take(j)[x + 1]);
                if a.contains('\r') {
                    let x = choose|x: int| 0 <= x < a.len() && a[x] == '\r';
                    assert(t.take(j)[x + 1] == '\r');
                }
                if a.contains('\n') {
                    let x = choose|x: int| 0 <= x < a.len() && a[x] == '\n';
                    assert(t.take(j)[x + 1] == '\n');
                }
                assert(in_line(a));
                assert(i == j);
                assert(u.take(i) =~= t.take(j)) by {
                    assert forall|x: int| 0 <= x < i implies u[x] == t[x] by {
                        if x > 0 {
                            assert(v.take(i - 1)[x - 1] == s.take(k)[x - 1]);
                        }
                    }
                }
            }
            assert forall|d: int| 0 <= d <= j && in_line(#[trigger] t.subrange(j - d, j)) implies d
                <= i && u.subrange(i - d, i) == t.subrange(j - d, j) by {
                if d == j {
                    assert(t.subrange(0, j) =~= t.take(j));
                    assert(u.subrange(0, i) =~= u.take(i));
                } else {
                    assert(s.subrange(k - d, k) =~= t.subrange(j - d, j));
                    assert(u.subrange(i - d, i) =~= v.subrange(i - f - d, i - f));
                }
            }
        }
        j
    } else if !found {
        lemma_kept_back(t, shape, put, w);
        assert(u.take(0) =~= t.take(0));
        assert forall|d: int| 0 <= d <= 0 && in_line(#[trigger] t.subrange(0 - d, 0)) implies u.subrange(
            0 - d,
            0,
        ) == t.subrange(0 - d, 0) by {
            assert(u.subrange(0, 0) =~= t.subrange(0, 0));
        }
        0
    } else {
        if i >= n {
            let x = u.skip(n);
            assert(x.subrange(0, put.len() as int) =~= put);
            splice::lemma_nowhere(put, x, w, 0, i - n);
            assert(x.subrange(i - n, i - n + w.len()) =~= u.subrange(i, i + w.len()));
        } else if i + w.len() > n {
            assert(u.subrange(i, i + w.len())[n - i] == u[n]);
            assert(u[n] == put[0]);
            assert(w.contains(w[n - i]));
        }
        assert(t.subrange(i, i + w.len()) =~= u.subrange(i, i + w.len()));
        assert(u.take(i) =~= t.take(i));
        assert forall|d: int| 0 <= d <= i && in_line(#[trigger] t.subrange(i - d, i)) implies u.subrange(
            i - d,
            i,
        ) == t.subrange(i - d, i) by {
            assert(u.subrange(i - d, i) =~= t.subrange(i - d, i));
        }
        i
    }
}

/// Putting something behind matches takes no text away whose characters are all of the class of
/// what matches, or all not.
proof fn lemma_kept_takes_none(
    t: Seq<char>,
    shape: pattern::Shape,
    put: Seq<char>,
    w: Seq<char>,
)
    requires
        w.len() > 0,
        (forall|k: int| 0 <= k < w.len() ==> pattern::in_class(shape.class, #[trigger] w[k])) || (
        forall|k: int| 0 <= k < w.len() ==> !pattern::in_class(shape.class, #[trigger] w[k])),
        text::occurs(t, w),
    ensures
        text::occurs(pattern::respelled(t, shape, true, put), w),
    decreases t.len(),
{
    let u = pattern::respelled(t, shape, true, put);
    let i = choose|i: int| #[trigger] text::occurs_at(t, w, i);
    let found = shape.starts(t);
    if found {
        pattern::lemma_match(t, shape);
    }
    let n = if found {
        shape.length(t)
    } else {
        1
    };
    let front = if found {
        t.take(n) + put
    } else {
        seq![t[0]]
    };
    let s = t.skip(n);
    let v = pattern::respelled(s, shape, true, put);
    assert(t.len() > 0);
    assert(u == front + v);
    if i >= n {
        assert(s.subrange(i - n, i - n + w.len()) =~= t.subrange(i, i + w.len()));
        assert(text::occurs_at(s, w, i - n));
        lemma_kept_takes_none(s, shape, put, w);
        let j = choose|j: int| #[trigger] text::occurs_at(v, w, j);
        let k = j + front.len();
        assert(u.subrange(k, k + w.len()) =~= v.subrange(j, j + w.len()));
        assert(text::occurs_at(u, w, k));
    } else if found {
        if i + w.len() > n {
            assert(t.subrange(i, i + w.len())[n - 1 - i] == t[n - 1]);
            assert(t.subrange(i, i + w.len())[n - i] == t[n]);
            assert(pattern::in_class(shape.class, t[n - 1]));
        }
        assert(u.subrange(i, i + w.len()) =~= t.subrange(i, i + w.len()));
        assert(text::occurs_at(u, w, i));
    } else {
        lemma_kept_on(t, shape, put, w);
        assert(text::occurs_at(u, w, 0));
    }
}

proof fn lemma_kept_on(t: Seq<char>, shape: pattern::Shape, put: Seq<char>, w: Seq<char>)
    requires
        (forall|k: int| 0 <= k < w.len() ==> pattern::in_class(shape.class, #[trigger] w[k])) || (
        forall|k: int| 0 <= k < w.len() ==> !pattern::in_class(shape.class, #[trigger] w[k])),
        text::begins(t, w),
    ensures
        text::begins(pattern::respelled(t, shape, true, put), w),
    decreases t.len(),
{
    let u = pattern::respelled(t, shape, true, put);
    let m = w.len() as int;
    assert(forall|k: int| 0 <= k < m ==> t.subrange(0, m)[k] == #[trigger] w[k]);
    if m == 0 {
        assert(u.subrange(0, 0) =~= w);
    } else if shape.starts(t) {
        pattern::lemma_match(t, shape);
        let n = shape.length(t);
        if m > n {
            assert(t[n - 1] == w[n - 1]);
            assert(t[n] == w[n]);
        }
        assert(u == t.take(n) + put + pattern::respelled(t.skip(n), shape, true, put));
        assert(u.subrange(0, m) =~= t.subrange(0, m));
    } else {
        let s = t.skip(1);
        let x = w.skip(1);
        assert(forall|k: int| 0 <= k < x.len() ==> #[trigger] x[k] == w[k + 1]);
        assert(s.subrange(0, m - 1) =~= x);
        lemma_kept_on(s, shape, put, x);
        let v = pattern::respelled(s, shape, true, put);
        assert(u == seq![t[0]] + v);
        assert(u.subrange(0, m) =~= w) by {
            assert forall|k: int| 0 <= k < m implies u[k] == w[k] by {
                if k > 0 {
                    assert(v.subrange(0, m - 1)[k - 1] == x[k - 1]);
                }
            }
        }
    }
}

/// Retransmission times and the name of a setting have nothing in common.
proof fn lemma_times_beside_profile()
    ensures
        splice::nowhere("rtx-time=125"@, "profile-level-id"@, 0),
        splice::nowhere("profile-level-id"@, "rtx-time=125"@, 1),
        splice::nowhere(";rtx-time=125"@, "profile-level-id"@, 0),
        "profile-level-id"@.len() == 16,
        !"profile-level-id"@.contains(';'),
        "rtx-time=125"@.len() > 0,
        ";rtx-time=125"@.len() > 0,
        ";rtx-time=125"@[0] == ';',
        "rtx-time="@.len() > 0,
{
    reveal_strlit("rtx-time=125");
    reveal_strlit("profile-level-id");
    reveal_strlit(";rtx-time=125");
    reveal_strlit("rtx-time=");
    reveal_with_fuel(pattern::lacks, 17);
    pattern::lemma_lacks("profile-level-id"@, ';');
    assert(splice::nowhere("rtx-time=125"@, "profile-level-id"@, 0)) by {
        reveal_with_fuel(splice::nowhere, 14);
        reveal_with_fuel(splice::differs, 16);
    }
    assert(splice::nowhere("profile-level-id"@, "rtx-time=125"@, 1)) by {
        reveal_with_fuel(splice::nowhere, 17);
        reveal_with_fuel(splice::differs, 16);
    }
    assert(splice::nowhere(";rtx-time=125"@, "profile-level-id"@, 0)) by {
        reveal_with_fuel(splice::nowhere, 15);
        reveal_with_fuel(splice::differs, 16);
    }
}

/// Retransmission times and the name of a setting have nothing in common.
proof fn lemma_times_beside_asymmetry()
    ensures
        splice::nowhere("rtx-time=125"@, "level-asymmetry-allowed"@, 0),
        splice::nowhere("level-asymmetry-allowed"@, "rtx-time=125"@, 1),
        splice::nowhere(";rtx-time=125"@, "level-asymmetry-allowed"@, 0),
        "level-asymmetry-allowed"@.len() == 23,
        !"level-asymmetry-allowed"@.contains(';'),
        "rtx-time=125"@.len() > 0,
        ";rtx-time=125"@.len() > 0,
        ";rtx-time=125"@[0] == ';',
        "rtx-time="@.len() > 0,
{
    reveal_strlit("rtx-time=125");
    reveal_strlit("level-asymmetry-allowed");
    reveal_strlit(";rtx-time=125");
    reveal_strlit("rtx-time=");
    reveal_with_fuel(pattern::lacks, 24);
    pattern::lemma_lacks("level-asymmetry-allowed"@, ';');
    assert(splice::nowhere("rtx-time=125"@, "level-asymmetry-allowed"@, 0)) by {
        reveal_with_fuel(splice::nowhere, 14);
        reveal_with_fuel(splice::differs, 16);
    }
    assert(splice::nowhere("level-asymmetry-allowed"@, "rtx-time=125"@, 1)) by {
        reveal_with_fuel(splice::nowhere, 24);
        reveal_with_fuel(splice::differs, 16);
    }
    assert(splice::nowhere(";rtx-time=125"@, "level-asymmetry-allowed"@, 0)) by {
        reveal_with_fuel(splice::nowhere, 15);
        reveal_with_fuel(splice::differs, 16);
    }
}

/// Retransmission times and the name of a setting have nothing in common.
proof fn lemma_times_beside_keyframe()
    ensures
        splice::nowhere("rtx-time=125"@, "sps-pps-idr-in-keyframe"@, 0),
        splice::nowhere("sps-pps-idr-in-keyframe"@, "rtx-time=125"@, 1),
        splice::nowhere(";rtx-time=125"@, "sps-pps-idr-in-keyframe"@, 0),
        "sps-pps-idr-in-keyframe"@.len() == 23,
        !"sps-pps-idr-in-keyframe"@.contains(';'),
        "rtx-time=125"@.len() > 0,
        ";rtx-time=125"@.len() > 0,
        ";rtx-time=125"@[0] == ';',
        "rtx-time="@.len() > 0,
{
    reveal_strlit("rtx-time=125");
    reveal_strlit("sps-pps-idr-in-keyframe");
    reveal_strlit(";rtx-time=125");
    reveal_strlit("rtx-time=");
    reveal_with_fuel(pattern::lacks, 24);
    pattern::lemma_lacks("sps-pps-idr-in-keyframe"@, ';');
    assert(splice::nowhere("rtx-time=125"@, "sps-pps-idr-in-keyframe"@, 0)) by {
        reveal_with_fuel(splice::nowhere, 14);
        reveal_with_fuel(splice::differs, 16);
    }
    assert(splice::nowhere("sps-pps-idr-in-keyframe"@, "rtx-time=125"@, 1)) by {
        reveal_with_fuel(splice::nowhere, 24);
        reveal_with_fuel(splice::differs, 16);
    }
    assert(splice::nowhere(";rtx-time=125"@, "sps-pps-idr-in-keyframe"@, 0)) by {
        reveal_with_fuel(splice::nowhere, 15);
        reveal_with_fuel(splice::differs, 16);
    }
}

/// Setting the profile does not bring an allowance of different levels.
proof fn lemma_asymmetry_beside_profile()
    ensures
        splice::nowhere("profile-level-id=42e01f;packetization-mode="@, "level-asymmetry-allowed"@, 0),
        splice::nowhere("level-asymmetry-allowed"@, "profile-level-id=42e01f;packetization-mode="@, 1),
{
    reveal_strlit("profile-level-id=42e01f;packetization-mode=");
    reveal_strlit("level-asymmetry-allowed");
    assert(splice::nowhere("profile-level-id=42e01f;packetization-mode="@, "level-asymmetry-allowed"@, 0)) by {
        reveal_with_fuel(splice::nowhere, 45);
        reveal_with_fuel(splice::differs, 16);
    }
    assert(splice::nowhere("level-asymmetry-allowed"@, "profile-level-id=42e01f;packetization-mode="@, 1)) by {
        reveal_with_fuel(splice::nowhere, 24);
        reveal_with_fuel(splice::differs, 16);
    }
}

/// Setting the profile and allowing different levels does not bring a request for parameter sets.
proof fn lemma_keyframe_beside_both()
    ensures
        splice::nowhere("profile-level-id=42e01f;packetization-mode="@, "sps-pps-idr-in-keyframe"@, 0),
        splice::nowhere("sps-pps-idr-in-keyframe"@, "profile-level-id=42e01f;packetization-mode="@, 1),
        splice::nowhere("level-asymmetry-allowed=1;packetization-mode="@, "sps-pps-idr-in-keyframe"@, 0),
        splice::nowhere("sps-pps-idr-in-keyframe"@, "level-asymmetry-allowed=1;packetization-mode="@, 1),
{
    reveal_strlit("profile-level-id=42e01f;packetization-mode=");
    reveal_strlit("sps-pps-idr-in-keyframe");
    reveal_strlit("level-asymmetry-allowed=1;packetization-mode=");
    assert(splice::nowhere("profile-level-id=42e01f;packetization-mode="@, "sps-pps-idr-in-keyframe"@, 0)) by {
        reveal_with_fuel(splice::nowhere, 45);
        reveal_with_fuel(splice::differs, 16);
    }
    assert(splice::nowhere("sps-pps-idr-in-keyframe"@, "profile-level-id=42e01f;packetization-mode="@, 1)) by {
        reveal_with_fuel(splice::nowhere, 24);
        reveal_with_fuel(splice::differs, 16);
    }
    assert(splice::nowhere("level-asymmetry-allowed=1;packetization-mode="@, "sps-pps-idr-in-keyframe"@, 0)) by {
        reveal_with_fuel(splice::nowhere, 47);
        reveal_with_fuel(splice::differs, 16);
    }
    assert(splice::nowhere("sps-pps-idr-in-keyframe"@, "level-asymmetry-allowed=1;packetization-mode="@, 1)) by {
        reveal_with_fuel(splice::nowhere, 24);
        reveal_with_fuel(splice::differs, 16);
    }
}

/// No packetization mode begins in the profile.
proof fn lemma_mode_beside_first()
    ensures
        splice::nowhere("profile-level-id=42e01f;"@, "packetization-mode="@, 0),
        splice::nowhere("packetization-mode="@, "profile-level-id=42e01f;packetization-mode="@, 1),
        "profile-level-id=42e01f;packetization-mode="@ == "profile-level-id=42e01f;"@ + "packetization-mode="@,
        "level-asymmetry-allowed=1;packetization-mode="@ == "level-asymmetry-allowed=1;"@ + "packetization-mode="@,
        "sps-pps-idr-in-keyframe=1;packetization-mode="@ == "sps-pps-idr-in-keyframe=1;"@ + "packetization-mode="@,
        "packetization-mode="@.len() > 0,
{
    reveal_strlit("profile-level-id=42e01f;");
    reveal_strlit("packetization-mode=");
    reveal_strlit("profile-level-id=42e01f;packetization-mode=");
    reveal_strlit("level-asymmetry-allowed=1;");
    reveal_strlit("level-asymmetry-allowed=1;packetization-mode=");
    reveal_strlit("sps-pps-idr-in-keyframe=1;");
    reveal_strlit("sps-pps-idr-in-keyframe=1;packetization-mode=");
    assert("profile-level-id=42e01f;packetization-mode="@ =~= "profile-level-id=42e01f;"@ + "packetization-mode="@);
    assert("level-asymmetry-allowed=1;packetization-mode="@ =~= "level-asymmetry-allowed=1;"@ + "packetization-mode="@);
    assert("sps-pps-idr-in-keyframe=1;packetization-mode="@ =~= "sps-pps-idr-in-keyframe=1;"@ + "packetization-mode="@);
    assert(splice::nowhere("profile-level-id=42e01f;"@, "packetization-mode="@, 0)) by {
        reveal_with_fuel(splice::nowhere, 26);
        reveal_with_fuel(splice::differs, 16);
    }
    assert(splice::nowhere("packetization-mode="@, "profile-level-id=42e01f;packetization-mode="@, 1)) by {
        reveal_with_fuel(splice::nowhere, 20);
        reveal_with_fuel(splice::differs, 16);
    }
}

/// No packetization mode begins in the first two settings.
proof fn lemma_mode_beside_second()
    ensures
        splice::nowhere("profile-level-id=42e01f;level-asymmetry-allowed=1;"@, "packetization-mode="@, 0),
        splice::nowhere("packetization-mode="@, "profile-level-id=42e01f;level-asymmetry-allowed=1;packetization-mode="@, 1),
        "profile-level-id=42e01f;level-asymmetry-allowed=1;"@ == "profile-level-id=42e01f;"@ + "level-asymmetry-allowed=1;"@,
        "profile-level-id=42e01f;level-asymmetry-allowed=1;packetization-mode="@ == "profile-level-id=42e01f;level-asymmetry-allowed=1;"@ + "packetization-mode="@,
{
    reveal_strlit("profile-level-id=42e01f;level-asymmetry-allowed=1;");
    reveal_strlit("packetization-mode=");
    reveal_strlit("profile-level-id=42e01f;level-asymmetry-allowed=1;packetization-mode=");
    reveal_strlit("profile-level-id=42e01f;");
    reveal_strlit("level-asymmetry-allowed=1;");
    assert("profile-level-id=42e01f;level-asymmetry-allowed=1;"@ =~= "profile-level-id=42e01f;"@ + "level-asymmetry-allowed=1;"@);
    assert("profile-level-id=42e01f;level-asymmetry-allowed=1;packetization-mode="@ =~= "profile-level-id=42e01f;level-asymmetry-allowed=1;"@ + "packetization-mode="@);
    assert(splice::nowhere("profile-level-id=42e01f;level-asymmetry-allowed=1;"@, "packetization-mode="@, 0)) by {
        reveal_with_fuel(splice::nowhere, 52);
        reveal_with_fuel(splice::differs, 16);
    }
    assert(splice::nowhere("packetization-mode="@, "profile-level-id=42e01f;level-asymmetry-allowed=1;packetization-mode="@, 1)) by {
        reveal_with_fuel(splice::nowhere, 20);
        reveal_with_fuel(splice::differs, 16);
    }
}

/// No packetization mode begins in the settings, nor in another one.
proof fn lemma_mode_beside_all()
    ensures
        splice::nowhere("profile-level-id=42e01f;level-asymmetry-allowed=1;sps-pps-idr-in-keyframe=1;"@, "packetization-mode="@, 0),
        splice::nowhere("packetization-mode="@, "profile-level-id=42e01f;level-asymmetry-allowed=1;sps-pps-idr-in-keyframe=1;packetization-mode="@, 1),
        splice::nowhere("packetization-mode="@, "packetization-mode="@, 1),
        "profile-level-id=42e01f;level-asymmetry-allowed=1;sps-pps-idr-in-keyframe=1;"@ == "profile-level-id=42e01f;level-asymmetry-allowed=1;"@ + "sps-pps-idr-in-keyframe=1;"@,
        "profile-level-id=42e01f;level-asymmetry-allowed=1;sps-pps-idr-in-keyframe=1;packetization-mode="@ == "profile-level-id=42e01f;level-asymmetry-allowed=1;sps-pps-idr-in-keyframe=1;"@ + "packetization-mode="@,
{
    reveal_strlit("profile-level-id=42e01f;level-asymmetry-allowed=1;sps-pps-idr-in-keyframe=1;");
    reveal_strlit("packetization-mode=");
    reveal_strlit("profile-level-id=42e01f;level-asymmetry-allowed=1;sps-pps-idr-in-keyframe=1;packetization-mode=");
    reveal_strlit("profile-level-id=42e01f;level-asymmetry-allowed=1;");
    reveal_strlit("sps-pps-idr-in-keyframe=1;");
    assert("profile-level-id=42e01f;level-asymmetry-allowed=1;sps-pps-idr-in-keyframe=1;"@ =~= "profile-level-id=42e01f;level-asymmetry-allowed=1;"@ + "sps-pps-idr-in-keyframe=1;"@);
    assert("profile-level-id=42e01f;level-asymmetry-allowed=1;sps-pps-idr-in-keyframe=1;packetization-mode="@ =~= "profile-level-id=42e01f;level-asymmetry-allowed=1;sps-pps-idr-in-keyframe=1;"@ + "packetization-mode="@);
    assert(splice::nowhere("profile-level-id=42e01f;level-asymmetry-allowed=1;sps-pps-idr-in-keyframe=1;"@, "packetization-mode="@, 0)) by {
        reveal_with_fuel(splice::nowhere, 78);
        reveal_with_fuel(splice::differs, 16);
    }
    assert(splice::nowhere("packetization-mode="@, "profile-level-id=42e01f;level-asymmetry-allowed=1;sps-pps-idr-in-keyframe=1;packetization-mode="@, 1)) by {
        reveal_with_fuel(splice::nowhere, 20);
        reveal_with_fuel(splice::differs, 16);
    }
    assert(splice::nowhere("packetization-mode="@, "packetization-mode="@, 1)) by {
        reveal_with_fuel(splice::nowhere, 20);
        reveal_with_fuel(splice::differs, 16);
    }
}

/// A packet time holds no packetization mode and ends the line.
proof fn lemma_mode_beside_time()
    ensures
        splice::nowhere("\r\na=ptime:10"@, "packetization-mode="@, 0),
        "\r\na=ptime:10"@.len() > 0,
        "\r\na=ptime:10"@[0] == '\r',
        in_line("packetization-mode="@),
        in_line("profile-level-id=42e01f;level-asymmetry-allowed=1;sps-pps-idr-in-keyframe=1;"@),
        splice::nowhere("rtx-time="@, "packetization-mode="@, 0),
        splice::nowhere("packetization-mode="@, "rtx-time="@, 1),
{
    reveal_strlit("\r\na=ptime:10");
    reveal_strlit("packetization-mode=");
    reveal_strlit("profile-level-id=42e01f;level-asymmetry-allowed=1;sps-pps-idr-in-keyframe=1;");
    reveal_strlit("rtx-time=");
    assert(splice::nowhere("\r\na=ptime:10"@, "packetization-mode="@, 0)) by {
        reveal_with_fuel(splice::nowhere, 15);
        reveal_with_fuel(splice::differs, 8);
    }
    assert(splice::nowhere("rtx-time="@, "packetization-mode="@, 0)) by {
        reveal_with_fuel(splice::nowhere, 11);
        reveal_with_fuel(splice::differs, 8);
    }
    assert(splice::nowhere("packetization-mode="@, "rtx-time="@, 1)) by {
        reveal_with_fuel(splice::nowhere, 20);
        reveal_with_fuel(splice::differs, 8);
    }
    reveal_with_fuel(pattern::lacks, 77);
    pattern::lemma_lacks("packetization-mode="@, '\r');
    pattern::lemma_lacks("packetization-mode="@, '\n');
    pattern::lemma_lacks("profile-level-id=42e01f;level-asymmetry-allowed=1;sps-pps-idr-in-keyframe=1;"@, '\r');
    pattern::lemma_lacks("profile-level-id=42e01f;level-asymmetry-allowed=1;sps-pps-idr-in-keyframe=1;"@, '\n');
}

/// Setting retransmission times brings no name of another setting.
proof fn lemma_timed_brings_none(offer: Seq<char>, w: Seq<char>)
    requires
        w.len() > 0,
        !w.contains(';'),
        splice::nowhere("rtx-time=125"@, w, 0),
        splice::nowhere(w, "rtx-time=125"@, 1),
        splice::nowhere(";rtx-time=125"@, w, 0),
        !text::occurs(offer, w),
    ensures
        !text::occurs(sdp::rtx_timed(offer), w),
{
    lemma_times_beside_profile();
    if text::occurs(offer, "rtx-time"@) {
        splice::lemma_respelled_spliced(offer, sdp::rtx_time(), "rtx-time=125"@);
        splice::law_spliced_brings_none(
            offer,
            splice::matches_of(sdp::rtx_time()),
            "rtx-time=125"@,
            w,
        );
    } else {
        lemma_kept_brings_none(offer, sdp::apt(), ";rtx-time=125"@, w);
    }
}

/// No character of a packetization mode is a digit.
proof fn lemma_mode_digits()
    ensures
        forall|k: int|
            0 <= k < "packetization-mode="@.len() ==> !pattern::in_class(
                pattern::Class::Digit,
                #[trigger] "packetization-mode="@[k],
            ),
        splice::clear_of("packetization-mode="@, splice::matches_of(sdp::rtx_time())),
{
    reveal_strlit("packetization-mode=");
    reveal_strlit("rtx-time=");
    lemma_mode_beside_time();
    let mode = "packetization-mode="@;
    let pieces = splice::matches_of(sdp::rtx_time());
    assert forall|s: Seq<char>, k: int| #[trigger]
        pieces.found(s) && pieces.start.len() <= k < (pieces.length)(s) implies #[trigger] s[k]
        != mode[0] by {
        pattern::lemma_match(s, sdp::rtx_time());
    }
}

/// Setting retransmission times keeps the packetization modes.
proof fn lemma_timed_takes_none(offer: Seq<char>)
    requires
        text::occurs(offer, "packetization-mode="@),
    ensures
        text::occurs(sdp::rtx_timed(offer), "packetization-mode="@),
{
    lemma_mode_digits();
    lemma_times_beside_profile();
    lemma_mode_beside_first();
    if text::occurs(offer, "rtx-time"@) {
        splice::lemma_respelled_spliced(offer, sdp::rtx_time(), "rtx-time=125"@);
        splice::law_spliced_takes_none(
            offer,
            splice::matches_of(sdp::rtx_time()),
            "rtx-time=125"@,
            "packetization-mode="@,
        );
    } else {
        lemma_kept_takes_none(offer, sdp::apt(), ";rtx-time=125"@, "packetization-mode="@);
    }
}

/// An encoder whose name holds `h264` or `x264`, wherever it stands, and neither `h265` nor `x265`
/// is offered with H.264 settings: in an offer that has none of them, the three together are put
/// before each packetization mode, whatever else is corrected.
pub proof fn law_h264_offer(offer: Seq<char>, lower: Seq<char>)
    requires
        text::occurs(lower, "h264"@) || text::occurs(lower, "x264"@),
        !text::occurs(lower, "h265"@),
        !text::occurs(lower, "x265"@),
        !text::occurs(offer, "profile-level-id"@),
        !text::occurs(offer, "level-asymmetry-allowed"@),
        !text::occurs(offer, "sps-pps-idr-in-keyframe"@),
    ensures
        sdp::video_munged(offer, sdp::codecs_of(lower)) == text::replaced(
            sdp::rtx_timed(offer),
            "packetization-mode="@,
            "profile-level-id=42e01f;level-asymmetry-allowed=1;sps-pps-idr-in-keyframe=1;packetization-mode="@,
        ),
{
    let mode = "packetization-mode="@;
    let timed = sdp::rtx_timed(offer);
    lemma_times_beside_profile();
    lemma_times_beside_asymmetry();
    lemma_times_beside_keyframe();
    lemma_timed_brings_none(offer, "profile-level-id"@);
    lemma_timed_brings_none(offer, "level-asymmetry-allowed"@);
    lemma_timed_brings_none(offer, "sps-pps-idr-in-keyframe"@);
    lemma_asymmetry_beside_profile();
    lemma_keyframe_beside_both();
    lemma_mode_beside_first();
    lemma_mode_beside_second();
    lemma_mode_beside_all();
    let pieces = splice::occurrences(mode);
    let profiled = sdp::profiled(timed);
    splice::lemma_replaced_spliced(timed, mode, "profile-level-id=42e01f;packetization-mode="@);
    splice::law_spliced_brings_none(timed, pieces, "profile-level-id=42e01f;packetization-mode="@, "level-asymmetry-allowed"@);
    splice::law_spliced_brings_none(timed, pieces, "profile-level-id=42e01f;packetization-mode="@, "sps-pps-idr-in-keyframe"@);
    splice::lemma_replaced_spliced(profiled, mode, "level-asymmetry-allowed=1;packetization-mode="@);
    splice::law_spliced_brings_none(profiled, pieces, "level-asymmetry-allowed=1;packetization-mode="@, "sps-pps-idr-in-keyframe"@);
    lemma_put_both(timed, mode, "profile-level-id=42e01f;"@, "level-asymmetry-allowed=1;"@);
    lemma_put_both(timed, mode, "profile-level-id=42e01f;level-asymmetry-allowed=1;"@, "sps-pps-idr-in-keyframe=1;"@);
}

/// In the offer that an H.264 encoder gets, each packetization mode has a profile of constrained
/// baseline and level 3.1, an allowance of different levels and a request for parameter sets in
/// key frames right before it, if the offer had none of these; and it has packetization modes if
/// the offer had. The encoder's name may hold `h264` or `x264` anywhere.
pub proof fn law_h264_settings_precede_modes(offer: Seq<char>, lower: Seq<char>)
    requires
        text::occurs(lower, "h264"@) || text::occurs(lower, "x264"@),
        !text::occurs(lower, "h265"@),
        !text::occurs(lower, "x265"@),
        !text::occurs(offer, "profile-level-id"@),
        !text::occurs(offer, "level-asymmetry-allowed"@),
        !text::occurs(offer, "sps-pps-idr-in-keyframe"@),
    ensures
        preceded(
            sdp::munged(offer, sdp::codecs_of(lower)),
            "packetization-mode="@,
            "profile-level-id=42e01f;level-asymmetry-allowed=1;sps-pps-idr-in-keyframe=1;"@,
        ),
        text::occurs(offer, "packetization-mode="@) ==> text::occurs(
            sdp::munged(offer, sdp::codecs_of(lower)),
            "profile-level-id=42e01f;level-asymmetry-allowed=1;sps-pps-idr-in-keyframe=1;packetization-mode="@,
        ),
{
    let mode = "packetization-mode="@;
    let before = "profile-level-id=42e01f;level-asymmetry-allowed=1;sps-pps-idr-in-keyframe=1;"@;
    let put = "\r\na=ptime:10"@;
    let timed = sdp::rtx_timed(offer);
    let video = sdp::video_munged(offer, sdp::codecs_of(lower));
    let r = sdp::munged(offer, sdp::codecs_of(lower));
    let shape = sdp::stream_parameter();
    law_h264_offer(offer, lower);
    lemma_mode_beside_first();
    lemma_mode_beside_all();
    lemma_mode_beside_time();
    lemma_preceded(timed, mode, before);
    lemma_timed_preceded(video, text::lowercased(video), before);
    if text::occurs(offer, mode) {
        lemma_timed_takes_none(offer);
        text::law_replaced(timed, mode, before + mode);
        if r != video {
            let w = before + mode;
            assert forall|k: int| 0 <= k < w.len() implies pattern::in_class(
                shape.class,
                #[trigger] w[k],
            ) by {
                if k < before.len() {
                    assert(before.contains(before[k]));
                } else {
                    assert(mode.contains(mode[k - before.len()]));
                }
            }
            lemma_kept_takes_none(video, shape, put, w);
        }
    }
}

/// A description that speaks of Opus, in whatever case, has a packet time of 10 ms in the line
/// behind each stream parameter, unless a dash stands before that; and every text within a line
/// stays. Any other description stays as it is.
pub proof fn law_packet_time(t: Seq<char>, lower: Seq<char>, w: Seq<char>)
    requires
        w.len() > 0,
        in_line(w),
    ensures
        !text::occurs(lower, "opus/"@) ==> sdp::ptimed(t, lower) == t,
        text::occurs(t, w) ==> text::occurs(sdp::ptimed(t, lower), w),
        text::occurs(lower, "opus/"@) ==> parameters_timed(sdp::ptimed(t, lower)),
{
    if text::occurs(lower, "opus/"@) {
        let shape = sdp::stream_parameter();
        if text::occurs(t, w) {
            assert forall|k: int| 0 <= k < w.len() implies pattern::in_class(
                shape.class,
                #[trigger] w[k],
            ) by {
                assert(w.contains(w[k]));
            }
            lemma_kept_takes_none(t, shape, "\r\na=ptime:10"@, w);
        }
        lemma_parameters_timed(t);
    }
}

/// A stream parameter stands at position `i`, with a character that is no dash before it.
pub open spec fn parameter_at(u: Seq<char>, i: int) -> bool {
    &&& text::occurs_at(u, "sprop-"@, i)
    &&& 1 <= i < u.len() - 6
    &&& u[i - 1] != '-'
    &&& u[i + 6] != '\r'
    &&& u[i + 6] != '\n'
}

/// The line of each stream parameter is followed by a packet time of 10 ms.
pub open spec fn parameters_timed(u: Seq<char>) -> bool {
    forall|i: int| #[trigger]
        parameter_at(u, i) ==> exists|e: int|
            i < e && in_line(u.subrange(i, e)) && #[trigger] text::occurs_at(
                u,
                "\r\na=ptime:10"@,
                e,
            )
}

proof fn lemma_parameters_timed(t: Seq<char>)
    ensures
        parameters_timed(
            pattern::respelled(t, sdp::stream_parameter(), true, "\r\na=ptime:10"@),
        ),
    decreases t.len(),
{
    reveal_strlit("\r\na=ptime:10");
    reveal_strlit("sprop-");
    let shape = sdp::stream_parameter();
    let put = "\r\na=ptime:10"@;
    let name = "sprop-"@;
    let u = pattern::respelled(t, shape, true, put);
    if t.len() > 0 {
        let found = shape.starts(t);
        if found {
            pattern::lemma_match(t, shape);
        }
        let n = if found {
            shape.length(t)
        } else {
            1
        };
        let front = if found {
            t.take(n) + put
        } else {
            seq![t[0]]
        };
        let f = front.len() as int;
        let s = t.skip(n);
        let v = pattern::respelled(s, shape, true, put);
        assert(u == front + v);
        lemma_parameters_timed(s);
        assert forall|i: int| #[trigger] parameter_at(u, i) implies exists|e: int|
            i < e && in_line(u.subrange(i, e)) && #[trigger] text::occurs_at(u, put, e) by {
            if i > f {
                let k = i - f;
                assert(v.subrange(k, k + 6) =~= u.subrange(i, i + 6));
                assert(parameter_at(v, k));
                let e = choose|e: int|
                    k < e && in_line(v.subrange(k, e)) && #[trigger] text::occurs_at(v, put, e);
                assert(u.subrange(i, e + f) =~= v.subrange(k, e));
                assert(u.subrange(e + f, e + f + put.len()) =~= v.subrange(e, e + put.len()));
                assert(text::occurs_at(u, put, e + f));
            } else if i == f {
                assert(u.subrange(i, i + 6)[0] == u[i]);
                assert(v[0] == 's');
                if s.len() > 0 {
                    if shape.starts(s) {
                        pattern::lemma_match(s, shape);
                    }
                    assert(v[0] == s[0]);
                }
                if !found {
                    let x = name + seq![u[7]];
                    assert(v.subrange(0, 7) =~= x) by {
                        assert(forall|k: int| 0 <= k < 6 ==> u.subrange(1, 7)[k] == #[trigger] v[k]);
                    }
                    assert(!x.contains('\r')) by {
                        assert(name[0] == 's' && name[1] == 'p' && name[2] == 'r' && name[3] == 'o'
                            && name[4] == 'p' && name[5] == '-');
                    }
                    lemma_kept_back(s, shape, put, x);
                    assert(s.subrange(0, 7) == x);
                    assert(t.subrange(1, 7) =~= name) by {
                        assert(forall|k: int| 0 <= k < 6 ==> s.subrange(0, 7)[k] == #[trigger] s[k]);
                    }
                    assert(s.subrange(0, 7)[6] == t[7]);
                    assert(shape.starts(t));
                } else {
                    assert(s[0] == t[n]);
                }
            } else if i >= n {
                let x = u.skip(n);
                assert(x.subrange(0, put.len() as int) =~= put);
                assert(splice::nowhere(put, name, 0)) by {
                    reveal_with_fuel(splice::nowhere, 15);
                    reveal_with_fuel(splice::differs, 8);
                }
                splice::lemma_nowhere(put, x, name, 0, i - n);
                assert(x.subrange(i - n, i - n + 6) =~= u.subrange(i, i + 6));
            } else {
                assert(found);
                let x = u.subrange(i, n);
                assert(t.subrange(1, 7) =~= name);
                assert forall|k: int| 0 <= k < x.len() implies x[k] != '\r' && x[k] != '\n' by {
                    assert(x[k] == t[i + k]);
                    if i + k < 7 {
                        assert(t.subrange(1, 7)[i + k - 1] == t[i + k]);
                        assert(name[0] == 's' && name[1] == 'p' && name[2] == 'r' && name[3] == 'o'
                            && name[4] == 'p' && name[5] == '-');
                    }
                }
                assert(u.subrange(n, n + put.len()) =~= put);
                assert(text::occurs_at(u, put, n));
            }
        }
    }
}

/// A name that holds a codec's name anywhere asks for that codec, and no other name does.
pub proof fn law_codecs_anywhere(before: Seq<char>, after: Seq<char>, lower: Seq<char>)
    ensures
        sdp::codecs_of(before + "h264"@ + after).h264,
        sdp::codecs_of(before + "x264"@ + after).h264,
        sdp::codecs_of(before + "h265"@ + after).h265,
        sdp::codecs_of(before + "x265"@ + after).h265,
        sdp::codecs_of(lower).h264 ==> text::occurs(lower, "h264"@) || text::occurs(lower, "x264"@),
        sdp::codecs_of(lower).h265 ==> text::occurs(lower, "h265"@) || text::occurs(lower, "x265"@),
{
    let n = before.len() as int;
    assert forall|w: Seq<char>| #[trigger] text::occurs_at(before + w + after, w, n) by {
        assert((before + w + after).subrange(n, n + w.len()) =~= w);
    }
    assert(text::occurs_at(before + "h264"@ + after, "h264"@, n));
    assert(text::occurs_at(before + "x264"@ + after, "x264"@, n));
    assert(text::occurs_at(before + "h265"@ + after, "h265"@, n));
    assert(text::occurs_at(before + "x265"@ + after, "x265"@, n));
}

/// An encoder of neither codec is offered with no setting that the offer did not have.
pub proof fn law_other_offer(offer: Seq<char>, lower: Seq<char>)
    requires
        !text::occurs(lower, "h264"@),
        !text::occurs(lower, "x264"@),
        !text::occurs(lower, "h265"@),
        !text::occurs(lower, "x265"@),
    ensures
        sdp::video_munged(offer, sdp::codecs_of(lower)) == sdp::rtx_timed(offer),
        !text::occurs(offer, "profile-level-id"@) ==> !text::occurs(
            sdp::video_munged(offer, sdp::codecs_of(lower)),
            "profile-level-id"@,
        ),
        !text::occurs(offer, "sps-pps-idr-in-keyframe"@) ==> !text::occurs(
            sdp::video_munged(offer, sdp::codecs_of(lower)),
            "sps-pps-idr-in-keyframe"@,
        ),
{
    lemma_times_beside_profile();
    lemma_times_beside_keyframe();
    if !text::occurs(offer, "profile-level-id"@) {
        lemma_timed_brings_none(offer, "profile-level-id"@);
    }
    if !text::occurs(offer, "sps-pps-idr-in-keyframe"@) {
        lemma_timed_brings_none(offer, "sps-pps-idr-in-keyframe"@);
    }
}

proof fn lemma_video(lines: Seq<Seq<char>>, v: int, i: int)
    requires
        0 <= v < i <= lines.len(),
        text::begins(lines[v], "m="@),
        forall|j: int| v < j < i ==> !text::begins(#[trigger] lines[j], "m="@),
    ensures
        sdp::in_video(lines, i) == text::begins(lines[v], "m=video"@),
    decreases i,
{
    if v < i - 1 {
        assert(!text::begins(lines[i - 1], "m="@));
        lemma_video(lines, v, i - 1);
    }
}

proof fn lemma_format_start(n: nat, parameters: Seq<char>)
    requires
        !parameters.contains('\n'),
    ensures
        ({
            let line = "a=fmtp:"@ + number::decimal(n) + " "@ + parameters;
            &&& pattern::format_parts(line) == Some(
                ("a=fmtp:"@ + number::decimal(n) + " "@, parameters),
            )
            &&& text::begins(line, "a=fmtp:"@)
            &&& !text::begins(line, "m="@)
            &&& sdp::payload(line) == number::decimal(n)
        }),
{
    reveal_strlit("a=fmtp:");
    reveal_strlit(" ");
    reveal_strlit("m=");
    let d = number::decimal(n);
    let line = "a=fmtp:"@ + d + " "@ + parameters;
    let shape = pattern::setting("a=fmtp:"@, pattern::Class::Digit);
    number::law_decimal_reads_back(n);
    let m = 7 + d.len() as int;
    assert(line.subrange(0, 7) =~= "a=fmtp:"@);
    assert forall|k: int| 7 <= k < m implies pattern::in_class(
        pattern::Class::Digit,
        #[trigger] line[k],
    ) && line[k] != ' ' by {
        assert(line[k] == d[k - 7]);
        assert(number::digit(d[k - 7]));
    }
    assert(line[m] == ' ');
    pattern::lemma_match_is(line, shape, m);
    assert(line.skip(m + 1) =~= parameters);
    assert(line.take(m + 1) =~= "a=fmtp:"@ + d + " "@);
    assert(line.subrange(0, 2)[0] == 'a');
    let rest = line.skip(7);
    assert(rest[d.len() as int] == line[m]);
    assert forall|k: int| 0 <= k < d.len() implies !sdp::is_space()(#[trigger] rest[k]) by {
        assert(rest[k] == line[k + 7]);
    }
    text::lemma_run_is(rest, sdp::is_space(), d.len());
    assert(rest.take(d.len() as int) =~= d);
}

/// A format of H.265 in a video section that names no level and no parameter set gets level 6.0,
/// the main profile and the main tier before its parameters.
pub proof fn law_hevc_format_gets_level(
    lines: Seq<Seq<char>>,
    v: int,
    i: int,
    n: nat,
    parameters: Seq<char>,
)
    requires
        0 <= v < i < lines.len(),
        text::begins(lines[v], "m=video"@),
        forall|j: int| v < j < i ==> !text::begins(#[trigger] lines[j], "m="@),
        lines[i] == "a=fmtp:"@ + number::decimal(n) + " "@ + parameters,
        !parameters.contains('\n'),
        !text::occurs(lines[i], "apt="@),
        !text::occurs(parameters, "level-id="@),
        !text::occurs(parameters, "sprop-sps="@),
        forall|j: int|
            0 <= j < lines.len() && text::begins(
                #[trigger] lines[j],
                "a=rtpmap:"@ + number::decimal(n) + " "@,
            ) ==> text::begins(lines[j], "a=rtpmap:"@ + number::decimal(n) + " H265/"@),
    ensures
        sdp::hevc_lines(lines)[i] == "a=fmtp:"@ + number::decimal(n)
            + " level-id=180;profile-id=1;tier-flag=0;"@ + parameters,
{
    reveal_strlit("m=");
    reveal_strlit("m=video");
    reveal_strlit("sprop-sps=");
    reveal_strlit("level-id=180;profile-id=1;tier-flag=0;");
    reveal_strlit(" level-id=180;profile-id=1;tier-flag=0;");
    reveal_strlit(" ");
    reveal_strlit("H265");
    reveal_strlit("H265/");
    reveal_strlit(" H265/");
    let d = number::decimal(n);
    let line = lines[i];
    assert(lines[v].subrange(0, 2) =~= lines[v].subrange(0, 7).subrange(0, 2));
    assert("m=video"@.subrange(0, 2) =~= "m="@);
    lemma_video(lines, v, i);
    lemma_format_start(n, parameters);
    let start = sdp::map_start(d);
    assert forall|j: int| 0 <= j < lines.len() implies !#[trigger] sdp::maps_elsewhere(
        lines[j],
        d,
    ) by {
        if text::begins(lines[j], start) {
            let whole = "a=rtpmap:"@ + d + " H265/"@;
            let m = start.len() as int;
            assert(lines[j].subrange(0, m + 5) == whole);
            assert forall|k: int| 0 <= k < 5 implies lines[j].skip(m)[k] == #[trigger] "H265/"@[k] by {
                assert(lines[j].subrange(0, m + 5)[m + k] == whole[m + k]);
                assert(whole[m + k] == " H265/"@[k + 1]);
            }
            let mapping = lines[j].skip(m);
            assert("H265/"@[0] == 'H' && "H265/"@[1] == '2' && "H265/"@[2] == '6' && "H265/"@[3]
                == '5' && "H265/"@[4] == '/');
            assert(sdp::is_slash()(mapping[4]));
            text::lemma_run_is(mapping, sdp::is_slash(), 4);
            assert(mapping.take(4) =~= "H265"@);
        }
    }
    let t = sdp::levelled(parameters);
    let put = sdp::level_start();
    let shape = pattern::sprop_sps();
    assert(t == put + parameters);
    assert(splice::nowhere(put, shape.name, 0)) by {
        reveal_with_fuel(splice::nowhere, 40);
        reveal_with_fuel(splice::differs, 8);
    }
    pattern::lemma_first_match(t, shape);
    match pattern::first_match(t, shape) {
        Some(k) => {
            assert(t.subrange(k, k + 10) =~= t.skip(k).subrange(0, 10));
            assert(t.subrange(0, put.len() as int) =~= put);
            if k < put.len() {
                splice::lemma_nowhere(put, t, shape.name, 0, k);
            } else {
                let x = k - put.len();
                assert(parameters.subrange(x, x + 10) =~= t.subrange(k, k + 10));
                assert(text::occurs_at(parameters, "sprop-sps="@, x));
            }
        },
        None => {},
    }
    assert("a=fmtp:"@ + d + " "@ + t =~= "a=fmtp:"@ + d
        + " level-id=180;profile-id=1;tier-flag=0;"@ + parameters);
}

/// A line outside the video sections stays as it is when the H.265 formats are corrected: one with
/// no media line before it, or where the last media line before it opens another section.
pub proof fn law_hevc_other_sections_stay(lines: Seq<Seq<char>>, v: int, i: int)
    requires
        0 <= v < i < lines.len(),
        text::begins(lines[v], "m="@),
        !text::begins(lines[v], "m=video"@),
        forall|j: int| v < j < i ==> !text::begins(#[trigger] lines[j], "m="@),
    ensures
        sdp::hevc_lines(lines)[i] == lines[i],
{
    lemma_video(lines, v, i);
}

/// An encoder whose name holds `h265` or `x265`, wherever it stands, and neither `h264` nor `x264` is
/// offered with H.265 levels and with a request for parameter sets in key frames, and with nothing
/// of H.264: no profile comes in.
pub proof fn law_h265_offer(offer: Seq<char>, lower: Seq<char>)
    requires
        text::occurs(lower, "h265"@) || text::occurs(lower, "x265"@),
        !text::occurs(lower, "h264"@),
        !text::occurs(lower, "x264"@),
    ensures
        ({
            let levelled = sdp::hevc_levelled(sdp::rtx_timed(offer));
            let r = sdp::video_munged(offer, sdp::codecs_of(lower));
            &&& !text::occurs(levelled, "sps-pps-idr-in-keyframe"@) ==> r == text::replaced(
                levelled,
                "packetization-mode="@,
                "sps-pps-idr-in-keyframe=1;packetization-mode="@,
            )
            &&& text::occurs(levelled, "sps-pps-idr-in-keyframe"@) && settings::all_right(
                levelled,
                sdp::keyframe(),
                "sps-pps-idr-in-keyframe=1"@,
            ) ==> r == levelled
        }),
{
    sdp::law_right_settings_stay(sdp::hevc_levelled(sdp::rtx_timed(offer)));
}

/// In the offer that an H.265 encoder gets, each packetization mode has a request for parameter sets
/// in key frames right before it, if there was none.
pub proof fn law_h265_settings_precede_modes(offer: Seq<char>, lower: Seq<char>)
    requires
        text::occurs(lower, "h265"@) || text::occurs(lower, "x265"@),
        !text::occurs(lower, "h264"@),
        !text::occurs(lower, "x264"@),
        !text::occurs(
            sdp::hevc_levelled(sdp::rtx_timed(offer)),
            "sps-pps-idr-in-keyframe"@,
        ),
    ensures
        preceded(
            sdp::munged(offer, sdp::codecs_of(lower)),
            "packetization-mode="@,
            "sps-pps-idr-in-keyframe=1;"@,
        ),
{
    let mode = "packetization-mode="@;
    let before = "sps-pps-idr-in-keyframe=1;"@;
    reveal_strlit("packetization-mode=");
    reveal_strlit("sps-pps-idr-in-keyframe=1;");
    reveal_strlit("sps-pps-idr-in-keyframe=1;packetization-mode=");
    let both = "sps-pps-idr-in-keyframe=1;packetization-mode="@;
    assert(both =~= before + mode);
    let levelled = sdp::hevc_levelled(sdp::rtx_timed(offer));
    let video = sdp::video_munged(offer, sdp::codecs_of(lower));
    law_h265_offer(offer, lower);
    lemma_mode_beside_first();
    lemma_mode_beside_all();
    lemma_mode_beside_time();
    assert(splice::nowhere(before, mode, 0)) by {
        reveal_with_fuel(splice::nowhere, 28);
        reveal_with_fuel(splice::differs, 16);
    }
    assert(splice::nowhere(mode, both, 1)) by {
        reveal_with_fuel(splice::nowhere, 20);
        reveal_with_fuel(splice::differs, 16);
    }
    lemma_preceded(levelled, mode, before);
    reveal_with_fuel(pattern::lacks, 27);
    pattern::lemma_lacks(before, '\r');
    pattern::lemma_lacks(before, '\n');
    lemma_timed_preceded(video, text::lowercased(video), before);
}

/// Putting in packet times keeps what stands before packetization modes.
proof fn lemma_timed_preceded(video: Seq<char>, lower: Seq<char>, before: Seq<char>)
    requires
        in_line(before),
        preceded(video, "packetization-mode="@, before),
    ensures
        preceded(sdp::ptimed(video, lower), "packetization-mode="@, before),
{
    let mode = "packetization-mode="@;
    let put = "\r\na=ptime:10"@;
    let shape = sdp::stream_parameter();
    let r = sdp::ptimed(video, lower);
    lemma_mode_beside_first();
    lemma_mode_beside_time();
    if r != video {
        assert forall|i: int| #[trigger] text::occurs_at(r, mode, i) implies text::occurs_at(
            r,
            before,
            i - before.len(),
        ) by {
            let j = lemma_stood(video, shape, put, mode, i);
            assert(text::occurs_at(video, before, j - before.len()));
            assert(video.subrange(j - before.len(), j) =~= before);
            assert(in_line(video.subrange(j - before.len(), j)));
        }
    }
}

/// A parameter set in base64 is raised exactly if it holds a level below 6.0, which is 180, as the
/// thirteenth byte behind its header of two bytes; it then holds 180 there, and is otherwise the
/// same.
pub proof fn law_sps_raised(blob: Seq<char>, sps: Seq<u8>)
    requires
        codec::base64_decoded(blob) == Some(sps),
    ensures
        match nal::level_position(sps, 2) {
            Some(pos) => if sps[pos] < 180 {
                sdp::sps_raised(blob) == Some(codec::base64_encoded(sps.update(pos, 180)))
            } else {
                sdp::sps_raised(blob) is None
            },
            None => sdp::sps_raised(blob) is None,
        },
        nal::level_position(sps, 2) matches Some(pos) ==> nal::unescaped(
            sps.subrange(2, pos),
        ).len() == 12,
{
    nal::law_level_becomes_180(sps, 2);
    nal::law_level_is_thirteenth(sps, 2);
}

/// The first parameter set among parameters gives way to the raised one, if it is raised; what
/// stands before it stays.
pub proof fn law_set_is_replaced(x: Seq<char>, blob: Seq<char>, y: Seq<char>)
    requires
        blob.len() > 0,
        forall|i: int| 0 <= i < blob.len() ==> codec::base64_char(#[trigger] blob[i]),
        y.len() > 0 ==> !codec::base64_char(y[0]),
        forall|i: int|
            0 <= i < x.len() ==> !text::occurs_at(x + "sprop-sps="@ + blob + y, "sprop-sps="@, i),
    ensures
        ({
            let t = x + "sprop-sps="@ + blob + y;
            &&& sdp::sps_in(t) == Some(("sprop-sps="@ + blob, blob))
            &&& match sdp::sps_raised(blob) {
                Some(new) => sdp::with_sps_raised(t, sdp::sps_in(t)) == x + "sprop-sps="@ + new
                    + text::replaced(y, "sprop-sps="@ + blob, "sprop-sps="@ + new),
                None => sdp::with_sps_raised(t, sdp::sps_in(t)) == t,
            }
        }),
{
    reveal_strlit("sprop-sps=");
    let name = "sprop-sps="@;
    let shape = pattern::sprop_sps();
    let t = x + name + blob + y;
    let n = x.len() as int;
    let s = t.skip(n);
    assert(s =~= name + blob + y);
    assert(s.subrange(0, 10) =~= name);
    assert(s[10] == blob[0]);
    assert(shape.starts(s));
    let m = 10 + blob.len() as int;
    assert forall|i: int| 10 <= i < m implies pattern::in_class(shape.class, #[trigger] s[i]) by {
        assert(s[i] == blob[i - 10]);
    }
    if m < s.len() {
        assert(s[m] == y[0]);
    }
    pattern::lemma_match_is(s, shape, m);
    assert forall|j: int| 0 <= j < n implies !shape.starts(#[trigger] t.skip(j)) by {
        if shape.starts(t.skip(j)) {
            assert(t.subrange(j, j + 10) =~= t.skip(j).subrange(0, 10));
            assert(text::occurs_at(t, name, j));
        }
    }
    pattern::lemma_first_match_is(t, shape, n);
    let whole = name + blob;
    assert(s.take(m) =~= whole);
    assert(whole.skip(10) =~= blob);
    match sdp::sps_raised(blob) {
        Some(new) => {
            let put = name + new;
            assert(x + whole + y =~= t);
            assert forall|i: int| 0 <= i < n implies !text::occurs_at(x + whole + y, whole, i) by {
                if text::occurs_at(t, whole, i) {
                    assert(t.subrange(i, i + 10) =~= t.subrange(i, i + whole.len()).subrange(0, 10));
                    assert(whole.subrange(0, 10) =~= name);
                    assert(text::occurs_at(t, name, i));
                }
            }
            spaces::law_replaced_first(x, whole, y, put);
            assert(x + put + text::replaced(y, whole, put) =~= x + name + new + text::replaced(
                y,
                whole,
                put,
            ));
        },
        None => {},
    }
}

/// A format that a line of its own section maps to another codec than H.265 stays as it is.
pub proof fn law_other_codecs_stay(
    lines: Seq<Seq<char>>,
    v: int,
    i: int,
    j: int,
    n: nat,
    parameters: Seq<char>,
    name: Seq<char>,
    rest: Seq<char>,
)
    requires
        0 <= v < i < lines.len(),
        v < j < lines.len(),
        forall|k: int| v < k <= i || v < k <= j ==> !text::begins(#[trigger] lines[k], "m="@),
        lines[i] == "a=fmtp:"@ + number::decimal(n) + " "@ + parameters,
        !parameters.contains('\n'),
        lines[j] == "a=rtpmap:"@ + number::decimal(n) + " "@ + name + "/"@ + rest,
        !name.contains('/'),
        !number::same_letters(name, "H265"@),
    ensures
        sdp::hevc_lines(lines)[i] == lines[i],
{
    reveal_strlit("/");
    let d = number::decimal(n);
    lemma_format_start(n, parameters);
    lemma_same_section(lines, v, i);
    lemma_same_section(lines, v, j);
    let start = sdp::map_start(d);
    let line = lines[j];
    let mapping = name + "/"@ + rest;
    assert(line =~= start + mapping);
    assert(line.subrange(0, start.len() as int) =~= start);
    assert(line.skip(start.len() as int) =~= mapping);
    assert forall|k: int| 0 <= k < name.len() implies !sdp::is_slash()(#[trigger] mapping[k]) by {
        assert(mapping[k] == name[k]);
        assert(name.contains(name[k]));
    }
    assert(sdp::is_slash()(mapping[name.len() as int]));
    text::lemma_run_is(mapping, sdp::is_slash(), name.len());
    assert(mapping.take(name.len() as int) =~= name);
    assert(sdp::maps_elsewhere(lines[j], sdp::payload(lines[i])));
}

proof fn lemma_same_section(lines: Seq<Seq<char>>, v: int, i: int)
    requires
        0 <= v < i < lines.len(),
        forall|k: int| v < k <= i ==> !text::begins(#[trigger] lines[k], "m="@),
    ensures
        sdp::section(lines, i + 1) == sdp::section(lines, v + 1),
    decreases i,
{
    assert(!text::begins(lines[i], "m="@));
    if i > v + 1 {
        lemma_same_section(lines, v, i - 1);
    }
}

} // verus!
