//! Why settings do not disturb one another: replacing one kind of text keeps the settings of
//! another kind right.

use vstd::prelude::*;
use crate::pattern;
use crate::settings;
use crate::text;

verus! {

/// What stands in `s` from position `i` on and `w` from position `k` on differ in some character
/// that both have.
pub open spec fn differs(s: Seq<char>, i: int, w: Seq<char>, k: int) -> bool
    decreases s.len() - i,
{
    i < s.len() && k < w.len() && (s[i] != w[k] || differs(s, i + 1, w, k + 1))
}

/// `w` begins nowhere in a text from position `i` on, not even where it would run out of it.
pub open spec fn nowhere(s: Seq<char>, w: Seq<char>, i: int) -> bool
    decreases s.len() - i,
{
    i >= s.len() || (differs(s, i, w, 0) && nowhere(s, w, i + 1))
}

pub proof fn lemma_differs(s: Seq<char>, i: int, w: Seq<char>, k: int)
    requires
        differs(s, i, w, k),
    ensures
        exists|j: int| 0 <= j < s.len() - i && j < w.len() - k && #[trigger] s[i + j] != w[k + j],
    decreases s.len() - i,
{
    if s[i] == w[k] {
        lemma_differs(s, i + 1, w, k + 1);
        let j = choose|j: int|
            0 <= j < s.len() - (i + 1) && j < w.len() - (k + 1) && #[trigger] s[i + 1 + j] != w[k + 1
                + j];
        assert(s[i + (j + 1)] != w[k + (j + 1)]);
    } else {
        assert(s[i + 0] != w[k + 0]);
    }
}

proof fn lemma_nowhere_at(s: Seq<char>, w: Seq<char>, from: int, i: int)
    requires
        nowhere(s, w, from),
        from <= i < s.len(),
    ensures
        differs(s, i, w, 0),
    decreases i - from,
{
    if from < i {
        lemma_nowhere_at(s, w, from + 1, i);
    }
}

/// Where `w` begins nowhere in `a`, it does not begin there in a text that begins with `a` either.
pub proof fn lemma_nowhere(a: Seq<char>, u: Seq<char>, w: Seq<char>, from: int, i: int)
    requires
        nowhere(a, w, from),
        text::begins(u, a),
        0 <= from <= i < a.len(),
    ensures
        !text::occurs_at(u, w, i),
{
    lemma_nowhere_at(a, w, from, i);
    lemma_differs(a, i, w, 0);
    let k = choose|k: int|
        0 <= k < a.len() - i && k < w.len() - 0 && #[trigger] a[i + k] != w[0 + k];
    if text::occurs_at(u, w, i) {
        assert(u.subrange(i, i + w.len())[k] == u[i + k]);
        assert(u.subrange(0, a.len() as int)[i + k] == u[i + k]);
    }
}

/// A text in which the name begins nowhere has no wrong setting.
pub proof fn lemma_nowhere_right(s: Seq<char>, shape: pattern::Shape, wanted: Seq<char>)
    requires
        !shape.led,
        nowhere(s, shape.name, 0),
    ensures
        settings::all_right(s, shape, wanted),
{
    let name = shape.name;
    assert forall|i: int| 0 <= i < s.len() && #[trigger] shape.starts(s.skip(i)) implies s.skip(
        i,
    ).take(shape.length(s.skip(i))) == wanted by {
        assert(s.subrange(0, s.len() as int) =~= s);
        assert(s.subrange(i, i + name.len()) =~= s.skip(i).subrange(0, name.len() as int));
        lemma_nowhere(s, s, name, 0, i);
    }
}

/// How pieces of a text are found: the length of the piece that a text begins with, if it begins
/// with one.
pub struct Pieces {
    pub start: Seq<char>,
    pub length: spec_fn(Seq<char>) -> int,
}

impl Pieces {
    /// A text begins with a piece.
    pub open spec fn found(self, s: Seq<char>) -> bool {
        0 < (self.length)(s) <= s.len()
    }

    /// Every piece begins with the given start.
    pub open spec fn sound(self) -> bool {
        self.start.len() > 0 && forall|s: Seq<char>| #[trigger]
            self.found(s) ==> text::begins(s, self.start) && (self.length)(s) >= self.start.len()
    }
}

/// A text with `put` in the place of every piece, from left to right.
pub open spec fn spliced(s: Seq<char>, pieces: Pieces, put: Seq<char>) -> Seq<char>
    decreases s.len(),
{
    if s.len() == 0 {
        s
    } else if pieces.found(s) {
        put + spliced(s.skip((pieces.length)(s)), pieces, put)
    } else {
        seq![s[0]] + spliced(s.skip(1), pieces, put)
    }
}

/// The occurrences of a text as pieces.
pub open spec fn occurrences(p: Seq<char>) -> Pieces {
    Pieces {
        start: p,
        length: |s: Seq<char>|
            if text::begins(s, p) {
                p.len() as int
            } else {
                0
            },
    }
}

/// The settings of a name as pieces.
pub open spec fn matches_of(shape: pattern::Shape) -> Pieces {
    Pieces {
        start: shape.name,
        length: |s: Seq<char>|
            if shape.starts(s) {
                shape.length(s)
            } else {
                0
            },
    }
}

pub proof fn lemma_replaced_spliced(s: Seq<char>, p: Seq<char>, q: Seq<char>)
    requires
        p.len() > 0,
    ensures
        text::replaced(s, p, q) == spliced(s, occurrences(p), q),
        occurrences(p).sound(),
    decreases s.len(),
{
    if s.len() > 0 {
        if text::begins(s, p) {
            lemma_replaced_spliced(s.skip(p.len() as int), p, q);
        } else {
            lemma_replaced_spliced(s.skip(1), p, q);
        }
    }
}

pub proof fn lemma_respelled_spliced(s: Seq<char>, shape: pattern::Shape, put: Seq<char>)
    requires
        !shape.led,
        shape.name.len() > 0,
    ensures
        pattern::respelled(s, shape, false, put) == spliced(s, matches_of(shape), put),
        matches_of(shape).sound(),
    decreases s.len(),
{
    let pieces = matches_of(shape);
    assert forall|t: Seq<char>| #[trigger] pieces.found(t) implies text::begins(t, pieces.start) && (
    pieces.length)(t) >= pieces.start.len() by {
        pattern::lemma_match(t, shape);
    }
    if s.len() > 0 {
        if shape.starts(s) {
            pattern::lemma_match(s, shape);
            let n = shape.length(s);
            lemma_respelled_spliced(s.skip(n), shape, put);
            assert(Seq::<char>::empty() + put =~= put);
        } else {
            lemma_respelled_spliced(s.skip(1), shape, put);
        }
    }
}

/// Splicing keeps the settings of a name apart: neither does the name begin in what is put in, nor
/// does that begin in the name; what a piece and what is put in begin with is both of the value's
/// class or both not; and a piece begins with no character of the wanted value.
pub open spec fn harmless(
    shape: pattern::Shape,
    wanted: Seq<char>,
    start: Seq<char>,
    put: Seq<char>,
) -> bool {
    &&& !shape.led
    &&& shape.name.len() > 0
    &&& start.len() > 0
    &&& put.len() > 0
    &&& nowhere(put, shape.name, 0)
    &&& nowhere(shape.name, put, 1)
    &&& pattern::in_class(shape.class, start[0]) == pattern::in_class(shape.class, put[0])
    &&& !wanted.skip(shape.name.len() as int).contains(start[0])
}

/// Up to position `j` of a match that a spliced text begins with, the text is as it was.
proof fn lemma_lockstep(
    t: Seq<char>,
    pieces: Pieces,
    put: Seq<char>,
    shape: pattern::Shape,
    wanted: Seq<char>,
    j: int,
)
    requires
        harmless(shape, wanted, pieces.start, put),
        pieces.sound(),
        t.len() > 0,
        !pieces.found(t),
        settings::all_right(t, shape, wanted),
        shape.starts(spliced(t, pieces, put)),
        1 <= j <= shape.length(spliced(t, pieces, put)),
    ensures
        j <= t.len(),
        t.take(j) == spliced(t, pieces, put).take(j),
        spliced(t, pieces, put).skip(j) == spliced(t.skip(j), pieces, put),
    decreases j,
{
    let u = spliced(t, pieces, put);
    let name = shape.name;
    let n = name.len() as int;
    pattern::lemma_match(u, shape);
    if j == 1 {
        assert(u.skip(1) =~= spliced(t.skip(1), pieces, put));
        assert(t.take(1) =~= u.take(1));
    } else {
        let i = j - 1;
        lemma_lockstep(t, pieces, put, shape, wanted, i);
        let s = t.skip(i);
        let v = u.skip(i);
        assert(v.len() > 0);
        assert(forall|k: int| 0 <= k < i ==> t[k] == t.take(i)[k]);
        assert(forall|k: int| 0 <= k < i ==> u[k] == u.take(i)[k]);
        if pieces.found(s) {
            assert(text::begins(s, pieces.start));
            assert(s.subrange(0, pieces.start.len() as int)[0] == t[i]);
            assert(v[0] == put[0]);
            if i < n {
                // What is put in would begin in the name.
                lemma_put_in_name(name, put, u, i);
                assert(v.subrange(0, put.len() as int) =~= put);
            } else {
                assert(pattern::in_class(shape.class, u[i]));
                assert(t.subrange(0, n) =~= u.subrange(0, n));
                assert(pattern::in_class(shape.class, t[n]));
                assert(shape.starts(t));
                assert(t.skip(0) =~= t);
                assert(shape.starts(t.skip(0)));
                pattern::lemma_match(t, shape);
                let len = shape.length(t);
                if len <= i {
                    assert(pattern::in_class(shape.class, t[len]));
                }
                assert(t.take(len)[i] == t[i]);
                assert(wanted.skip(n)[i - n] == t[i]);
            }
        }
        assert(v == seq![s[0]] + spliced(s.skip(1), pieces, put));
        assert(u.skip(j) =~= v.skip(1));
        assert(v.skip(1) =~= spliced(s.skip(1), pieces, put));
        assert(t.skip(j) =~= s.skip(1));
        assert(v[0] == s[0]);
        assert(t.take(j) =~= u.take(j));
    }
}

proof fn lemma_put_in_name(name: Seq<char>, put: Seq<char>, u: Seq<char>, i: int)
    requires
        nowhere(name, put, 1),
        text::begins(u, name),
        1 <= i < name.len(),
    ensures
        !text::begins(u.skip(i), put),
{
    lemma_nowhere(name, u, put, 1, i);
    if text::begins(u.skip(i), put) {
        assert(u.subrange(i, i + put.len()) =~= u.skip(i).subrange(0, put.len() as int));
    }
}

/// Splicing in something harmless keeps every setting of the name right.
pub proof fn law_spliced_right(
    t: Seq<char>,
    pieces: Pieces,
    put: Seq<char>,
    shape: pattern::Shape,
    wanted: Seq<char>,
)
    requires
        harmless(shape, wanted, pieces.start, put),
        pieces.sound(),
        settings::all_right(t, shape, wanted),
    ensures
        settings::all_right(spliced(t, pieces, put), shape, wanted),
    decreases t.len(),
{
    let u = spliced(t, pieces, put);
    let name = shape.name;
    if t.len() > 0 {
        let found = pieces.found(t);
        let n = if found {
            (pieces.length)(t)
        } else {
            1
        };
        let front = if found {
            put
        } else {
            seq![t[0]]
        };
        let s = t.skip(n);
        let v = spliced(s, pieces, put);
        lemma_right_tail(t, shape, wanted, n);
        law_spliced_right(s, pieces, put, shape, wanted);
        assert(u == front + v);
        assert forall|i: int| 0 <= i < u.len() && #[trigger] shape.starts(u.skip(i)) implies u.skip(
            i,
        ).take(shape.length(u.skip(i))) == wanted by {
            if i >= front.len() {
                assert(u.skip(i) =~= v.skip(i - front.len()));
            } else if found {
                assert(u.subrange(0, put.len() as int) =~= put);
                assert(u.subrange(i, i + name.len()) =~= u.skip(i).subrange(0, name.len() as int));
                lemma_nowhere(put, u, name, 0, i);
            } else {
                assert(u.skip(0) =~= u);
                lemma_same_match(t, pieces, put, shape, wanted);
            }
        }
    }
}

pub proof fn lemma_right_tail(t: Seq<char>, shape: pattern::Shape, wanted: Seq<char>, n: int)
    requires
        settings::all_right(t, shape, wanted),
        0 <= n <= t.len(),
    ensures
        settings::all_right(t.skip(n), shape, wanted),
{
    let s = t.skip(n);
    assert forall|i: int| 0 <= i < s.len() && #[trigger] shape.starts(s.skip(i)) implies s.skip(
        i,
    ).take(shape.length(s.skip(i))) == wanted by {
        assert(s.skip(i) =~= t.skip(i + n));
    }
}

/// A match that a spliced text begins with stood there before.
proof fn lemma_same_match(
    t: Seq<char>,
    pieces: Pieces,
    put: Seq<char>,
    shape: pattern::Shape,
    wanted: Seq<char>,
)
    requires
        harmless(shape, wanted, pieces.start, put),
        pieces.sound(),
        t.len() > 0,
        !pieces.found(t),
        settings::all_right(t, shape, wanted),
        shape.starts(spliced(t, pieces, put)),
    ensures
        ({
            let u = spliced(t, pieces, put);
            u.take(shape.length(u)) == wanted
        }),
{
    let u = spliced(t, pieces, put);
    let n = shape.name.len() as int;
    pattern::lemma_match(u, shape);
    let m = shape.length(u);
    lemma_lockstep(t, pieces, put, shape, wanted, m);
    let s = t.skip(m);
    let v = u.skip(m);
    assert(forall|k: int| 0 <= k < m ==> t[k] == t.take(m)[k]);
    assert(forall|k: int| 0 <= k < m ==> u[k] == u.take(m)[k]);
    assert(t.subrange(0, n) =~= u.subrange(0, n));
    if m < t.len() {
        assert(v == spliced(s, pieces, put));
        if pieces.found(s) {
            assert(text::begins(s, pieces.start));
            assert(s.subrange(0, pieces.start.len() as int)[0] == t[m]);
            assert(v == put + spliced(s.skip((pieces.length)(s)), pieces, put));
        } else {
            assert(v == seq![s[0]] + spliced(s.skip(1), pieces, put));
        }
        assert(v.len() > 0);
        assert(v[0] == u[m]);
    }
    assert(shape.starts(t));
    pattern::lemma_match_is(t, shape, m);
    assert(t.skip(0) =~= t);
    assert(shape.starts(t.skip(0)));
}

/// Replacing a text keeps every setting of a name right, if what is put in is harmless.
pub proof fn law_replaced_right(
    t: Seq<char>,
    p: Seq<char>,
    q: Seq<char>,
    shape: pattern::Shape,
    wanted: Seq<char>,
)
    requires
        harmless(shape, wanted, p, q),
        settings::all_right(t, shape, wanted),
    ensures
        settings::all_right(text::replaced(t, p, q), shape, wanted),
{
    lemma_replaced_spliced(t, p, q);
    law_spliced_right(t, occurrences(p), q, shape, wanted);
}

/// Respelling the settings of one name keeps every setting of another name right, if what is put
/// in is harmless.
pub proof fn law_others_respelled_right(
    t: Seq<char>,
    other: pattern::Shape,
    put: Seq<char>,
    shape: pattern::Shape,
    wanted: Seq<char>,
)
    requires
        !other.led,
        harmless(shape, wanted, other.name, put),
        settings::all_right(t, shape, wanted),
    ensures
        settings::all_right(pattern::respelled(t, other, false, put), shape, wanted),
{
    lemma_respelled_spliced(t, other, put);
    law_spliced_right(t, matches_of(other), put, shape, wanted);
}

/// A setting that does not run over the end of a line.
pub open spec fn within_line(shape: pattern::Shape) -> bool {
    &&& !shape.led
    &&& shape.name.len() > 0
    &&& !shape.name.contains('\r')
    &&& !shape.name.contains('\n')
    &&& !pattern::in_class(shape.class, '\r')
    &&& !pattern::in_class(shape.class, '\n')
}

/// Before the first end of a line, putting something behind what runs to the end of a line changes
/// nothing.
proof fn lemma_same_in_line(t: Seq<char>, ender: pattern::Shape, put: Seq<char>, m: int)
    requires
        ender.class is InLine,
        put.len() > 0,
        put[0] == '\r',
        0 <= m <= pattern::respelled(t, ender, true, put).len(),
        !pattern::respelled(t, ender, true, put).take(m).contains('\r'),
    ensures
        ({
            let u = pattern::respelled(t, ender, true, put);
            &&& m <= t.len()
            &&& t.take(m) == u.take(m)
            &&& m < t.len() ==> m < u.len() && (u[m] == t[m] || t[m] == '\r' || t[m] == '\n')
        }),
    decreases m,
{
    let u = pattern::respelled(t, ender, true, put);
    if t.len() > 0 {
        if ender.starts(t) {
            pattern::lemma_match(t, ender);
            let n = ender.length(t);
            let rest = pattern::respelled(t.skip(n), ender, true, put);
            assert(u == t.take(n) + put + rest);
            assert(u[n] == '\r');
            if m > n {
                assert(u.take(m)[n] == '\r');
            }
            assert(forall|k: int| 0 <= k < n ==> u[k] == t[k]);
            assert(t.take(m) =~= u.take(m));
        } else {
            let s = t.skip(1);
            let v = pattern::respelled(s, ender, true, put);
            assert(u == seq![t[0]] + v);
            if m > 0 {
                let b = v.take(m - 1);
                if b.contains('\r') {
                    let k = choose|k: int| 0 <= k < b.len() && b[k] == '\r';
                    assert(u.take(m)[k + 1] == '\r');
                }
                lemma_same_in_line(s, ender, put, m - 1);
                let a = s.take(m - 1);
                assert forall|k: int| 0 <= k < m implies #[trigger] t[k] == u[k] by {
                    if k > 0 {
                        assert(a[k - 1] == b[k - 1]);
                    }
                }
                assert(t.take(m) =~= u.take(m));
                if m < t.len() {
                    assert(t[m] == s[m - 1]);
                    assert(u[m] == v[m - 1]);
                }
            } else {
                assert(t.take(0) =~= u.take(0));
            }
        }
    } else {
        assert(t.take(0) =~= u.take(0));
    }
}

/// The characters of a setting: none ends a line.
proof fn lemma_in_line(u: Seq<char>, shape: pattern::Shape)
    requires
        within_line(shape),
        shape.starts(u),
    ensures
        forall|k: int|
            0 <= k < shape.length(u) ==> #[trigger] u[k] != '\r' && u[k] != '\n',
{
    pattern::lemma_match(u, shape);
    let name = shape.name;
    assert forall|k: int| 0 <= k < shape.length(u) implies #[trigger] u[k] != '\r' && u[k]
        != '\n' by {
        if k < name.len() {
            assert(u.subrange(0, name.len() as int)[k] == name[k]);
            assert(name.contains(name[k]));
        }
    }
}

/// Two texts that are the same up to the end of a setting, at which each of them ends or goes on
/// with a character that is not of the value, begin with the same setting.
pub proof fn lemma_same_setting(t: Seq<char>, u: Seq<char>, shape: pattern::Shape)
    requires
        !shape.led,
        shape.starts(u),
        shape.length(u) <= t.len(),
        t.take(shape.length(u)) == u.take(shape.length(u)),
        shape.length(u) < t.len() ==> !pattern::in_class(shape.class, t[shape.length(u)]),
    ensures
        shape.starts(t),
        shape.length(t) == shape.length(u),
{
    let m = shape.length(u);
    let n = shape.name.len() as int;
    pattern::lemma_match(u, shape);
    assert(forall|k: int| 0 <= k < m ==> t[k] == t.take(m)[k]);
    assert(forall|k: int| 0 <= k < m ==> u[k] == u.take(m)[k]);
    assert(t.subrange(0, n) =~= u.subrange(0, n));
    pattern::lemma_match_is(t, shape, m);
}

/// A text put behind what runs to the end of a line keeps every setting of a name right, if it
/// begins a new line and the name begins nowhere in it.
pub proof fn law_line_ends_right(
    t: Seq<char>,
    ender: pattern::Shape,
    put: Seq<char>,
    shape: pattern::Shape,
    wanted: Seq<char>,
)
    requires
        ender.class is InLine,
        put.len() > 0,
        put[0] == '\r',
        nowhere(put, shape.name, 0),
        within_line(shape),
        settings::all_right(t, shape, wanted),
    ensures
        settings::all_right(pattern::respelled(t, ender, true, put), shape, wanted),
    decreases t.len(),
{
    let u = pattern::respelled(t, ender, true, put);
    let name = shape.name;
    if t.len() > 0 {
        let found = ender.starts(t);
        if found {
            pattern::lemma_match(t, ender);
        }
        let n = if found {
            ender.length(t)
        } else {
            1
        };
        let front = if found {
            t.take(n) + put
        } else {
            t.take(1)
        };
        let s = t.skip(n);
        let v = pattern::respelled(s, ender, true, put);
        lemma_right_tail(t, shape, wanted, n);
        law_line_ends_right(s, ender, put, shape, wanted);
        assert(u =~= front + v);
        assert forall|i: int| 0 <= i < u.len() && #[trigger] shape.starts(u.skip(i)) implies u.skip(
            i,
        ).take(shape.length(u.skip(i))) == wanted by {
            let x = u.skip(i);
            let y = t.skip(i);
            let m = shape.length(x);
            pattern::lemma_match(x, shape);
            lemma_in_line(x, shape);
            if i >= front.len() {
                assert(x =~= v.skip(i - front.len()));
            } else if i >= n {
                let w = u.skip(n);
                assert(w.subrange(0, put.len() as int) =~= put);
                assert(w.subrange(i - n, i - n + name.len()) =~= x.subrange(0, name.len() as int));
                lemma_nowhere(put, w, name, 0, i - n);
            } else if found {
                if i + m > n {
                    assert(x[n - i] == u[n]);
                    assert(u[n] == put[0]);
                }
                assert(forall|k: int| 0 <= k < n ==> u[k] == t[k]);
                assert(y.take(m) =~= x.take(m));
                if m < y.len() {
                    assert(y[m] == t[i + m]);
                    assert(x[m] == u[i + m]);
                }
                lemma_same_setting(y, x, shape);
            } else {
                assert(x =~= u);
                assert(y =~= t);
                lemma_same_in_line(t, ender, put, m);
                lemma_same_setting(t, u, shape);
            }
        }
    }
}

/// Where a text begins after splicing in something that neither begins in it nor it in that, it
/// began before.
pub proof fn lemma_name_back(t: Seq<char>, pieces: Pieces, put: Seq<char>, w: Seq<char>, j: int)
    requires
        pieces.sound(),
        put.len() > 0,
        w.len() > 0,
        nowhere(w, put, 1),
        t.len() > 0,
        !pieces.found(t),
        text::begins(spliced(t, pieces, put), w),
        1 <= j <= w.len(),
    ensures
        j <= t.len(),
        t.take(j) == spliced(t, pieces, put).take(j),
        spliced(t, pieces, put).skip(j) == spliced(t.skip(j), pieces, put),
    decreases j,
{
    let u = spliced(t, pieces, put);
    if j == 1 {
        assert(u.skip(1) =~= spliced(t.skip(1), pieces, put));
        assert(t.take(1) =~= u.take(1));
    } else {
        let i = j - 1;
        lemma_name_back(t, pieces, put, w, i);
        let s = t.skip(i);
        let v = u.skip(i);
        assert(v.len() > 0);
        if pieces.found(s) {
            lemma_put_in_name(w, put, u, i);
            assert(v == put + spliced(s.skip((pieces.length)(s)), pieces, put));
            assert(v.subrange(0, put.len() as int) =~= put);
        }
        assert(v == seq![s[0]] + spliced(s.skip(1), pieces, put));
        assert(u.skip(j) =~= v.skip(1));
        assert(v.skip(1) =~= spliced(s.skip(1), pieces, put));
        assert(t.skip(j) =~= s.skip(1));
        assert(v[0] == s[0]);
        assert(forall|k: int| 0 <= k < i ==> t[k] == t.take(i)[k]);
        assert(forall|k: int| 0 <= k < i ==> u[k] == u.take(i)[k]);
        assert(t.take(j) =~= u.take(j));
    }
}

/// Splicing brings no text in that does not begin in what is put in, and in which that does not
/// begin.
pub proof fn law_spliced_brings_none(t: Seq<char>, pieces: Pieces, put: Seq<char>, w: Seq<char>)
    requires
        pieces.sound(),
        put.len() > 0,
        w.len() > 0,
        nowhere(put, w, 0),
        nowhere(w, put, 1),
        !text::occurs(t, w),
    ensures
        !text::occurs(spliced(t, pieces, put), w),
    decreases t.len(),
{
    let u = spliced(t, pieces, put);
    if t.len() > 0 {
        let found = pieces.found(t);
        let n = if found {
            (pieces.length)(t)
        } else {
            1
        };
        let front = if found {
            put
        } else {
            seq![t[0]]
        };
        let s = t.skip(n);
        let v = spliced(s, pieces, put);
        assert forall|i: int| !#[trigger] text::occurs_at(s, w, i) by {
            if text::occurs_at(s, w, i) {
                assert(t.subrange(i + n, i + n + w.len()) =~= s.subrange(i, i + w.len()));
                assert(text::occurs_at(t, w, i + n));
            }
        }
        law_spliced_brings_none(s, pieces, put, w);
        assert(u == front + v);
        assert forall|i: int| !#[trigger] text::occurs_at(u, w, i) by {
            if text::occurs_at(u, w, i) {
                if i >= front.len() {
                    let k = i - front.len();
                    assert(v.subrange(k, k + w.len()) =~= u.subrange(i, i + w.len()));
                    assert(text::occurs_at(v, w, k));
                } else if found {
                    assert(u.subrange(0, put.len() as int) =~= put);
                    lemma_nowhere(put, u, w, 0, i);
                } else {
                    lemma_name_back(t, pieces, put, w, w.len() as int);
                    assert(u.take(w.len() as int) == w);
                    assert(text::occurs_at(t, w, 0));
                }
            }
        }
    }
}

/// A text in which no piece begins, and which begins in no piece, stands where it stood.
proof fn lemma_name_on(t: Seq<char>, pieces: Pieces, put: Seq<char>, w: Seq<char>, j: int)
    requires
        pieces.sound(),
        w.len() > 0,
        nowhere(w, pieces.start, 1),
        t.len() > 0,
        !pieces.found(t),
        text::begins(t, w),
        1 <= j <= w.len(),
    ensures
        j <= spliced(t, pieces, put).len(),
        t.take(j) == spliced(t, pieces, put).take(j),
        spliced(t, pieces, put).skip(j) == spliced(t.skip(j), pieces, put),
    decreases j,
{
    let u = spliced(t, pieces, put);
    if j == 1 {
        assert(u.skip(1) =~= spliced(t.skip(1), pieces, put));
        assert(t.take(1) =~= u.take(1));
    } else {
        let i = j - 1;
        lemma_name_on(t, pieces, put, w, i);
        let s = t.skip(i);
        let v = u.skip(i);
        assert(s.len() > 0);
        if pieces.found(s) {
            lemma_put_in_name(w, pieces.start, t, i);
        }
        assert(v == seq![s[0]] + spliced(s.skip(1), pieces, put));
        assert(u.skip(j) =~= v.skip(1));
        assert(v.skip(1) =~= spliced(s.skip(1), pieces, put));
        assert(t.skip(j) =~= s.skip(1));
        assert(v[0] == s[0]);
        assert(forall|k: int| 0 <= k < i ==> t[k] == t.take(i)[k]);
        assert(forall|k: int| 0 <= k < i ==> u[k] == u.take(i)[k]);
        assert(t.take(j) =~= u.take(j));
    }
}

/// A text begins in no piece: not in the start of one, and not behind that.
pub open spec fn clear_of(w: Seq<char>, pieces: Pieces) -> bool {
    &&& w.len() > 0
    &&& nowhere(pieces.start, w, 0)
    &&& nowhere(w, pieces.start, 1)
    &&& forall|s: Seq<char>, k: int| #[trigger]
        pieces.found(s) && pieces.start.len() <= k < (pieces.length)(s) ==> #[trigger] s[k] != w[0]
}

/// Splicing takes no text away that neither begins in a piece nor runs into one.
pub proof fn law_spliced_takes_none(t: Seq<char>, pieces: Pieces, put: Seq<char>, w: Seq<char>)
    requires
        pieces.sound(),
        clear_of(w, pieces),
        text::occurs(t, w),
    ensures
        text::occurs(spliced(t, pieces, put), w),
    decreases t.len(),
{
    let u = spliced(t, pieces, put);
    let i = choose|i: int| #[trigger] text::occurs_at(t, w, i);
    let found = pieces.found(t);
    let n = if found {
        (pieces.length)(t)
    } else {
        1
    };
    let front = if found {
        put
    } else {
        seq![t[0]]
    };
    if i >= n {
        let s = t.skip(n);
        let v = spliced(s, pieces, put);
        assert(s.subrange(i - n, i - n + w.len()) =~= t.subrange(i, i + w.len()));
        assert(text::occurs_at(s, w, i - n));
        law_spliced_takes_none(s, pieces, put, w);
        let j = choose|j: int| #[trigger] text::occurs_at(v, w, j);
        assert(u == front + v);
        let k = j + front.len();
        assert(u.subrange(k, k + w.len()) =~= v.subrange(j, j + w.len()));
        assert(text::occurs_at(u, w, k));
    } else if found {
        assert(t.subrange(i, i + w.len())[0] == t[i]);
        if i < pieces.start.len() {
            lemma_nowhere(pieces.start, t, w, 0, i);
        }
    } else {
        lemma_name_on(t, pieces, put, w, w.len() as int);
        assert(t.take(w.len() as int) == w);
        assert(text::occurs_at(u, w, 0));
    }
}

/// The settings of a text are right exactly where they are right on either side of a character that
/// stands in none of them.
pub proof fn law_parted(
    a: Seq<char>,
    c: char,
    b: Seq<char>,
    shape: pattern::Shape,
    wanted: Seq<char>,
)
    requires
        !shape.led,
        shape.name.len() > 0,
        !shape.name.contains(c),
        !pattern::in_class(shape.class, c),
    ensures
        settings::all_right(a + seq![c] + b, shape, wanted) <==> settings::all_right(
            a,
            shape,
            wanted,
        ) && settings::all_right(b, shape, wanted),
{
    let x = a + seq![c] + b;
    let n = a.len() as int;
    if settings::all_right(x, shape, wanted) {
        assert forall|i: int| 0 <= i < a.len() && #[trigger] shape.starts(a.skip(i)) implies a.skip(
            i,
        ).take(shape.length(a.skip(i))) == wanted by {
            let u = a.skip(i);
            let t = x.skip(i);
            let m = shape.length(u);
            pattern::lemma_match(u, shape);
            assert(t.take(m) =~= u.take(m));
            assert(t[m] == x[i + m]);
            if m < u.len() {
                assert(u[m] == a[i + m]);
            }
            lemma_same_setting(t, u, shape);
        }
        lemma_right_tail(x, shape, wanted, n + 1);
        assert(x.skip(n + 1) =~= b);
    }
    if settings::all_right(a, shape, wanted) && settings::all_right(b, shape, wanted) {
        assert forall|i: int| 0 <= i < x.len() && #[trigger] shape.starts(x.skip(i)) implies x.skip(
            i,
        ).take(shape.length(x.skip(i))) == wanted by {
            let u = x.skip(i);
            let m = shape.length(u);
            pattern::lemma_match(u, shape);
            if i <= n {
                let t = a.skip(i);
                if i + m > n {
                    assert(u[n - i] == c);
                    if n - i < shape.name.len() {
                        assert(u.subrange(0, shape.name.len() as int)[n - i] == shape.name[n - i]);
                        assert(shape.name.contains(shape.name[n - i]));
                    }
                }
                assert(t.take(m) =~= u.take(m));
                if m < t.len() {
                    assert(t[m] == u[m]);
                }
                lemma_same_setting(t, u, shape);
            } else {
                assert(u =~= b.skip(i - n - 1));
            }
        }
    }
}

/// The settings of lines are right exactly where they are right in what the lines make together.
pub proof fn law_lines_right(lines: Seq<Seq<char>>, shape: pattern::Shape, wanted: Seq<char>)
    requires
        within_line(shape),
    ensures
        settings::all_right(text::joined(lines, "\r\n"@), shape, wanted) <==> forall|i: int|
            0 <= i < lines.len() ==> settings::all_right(#[trigger] lines[i], shape, wanted),
    decreases lines.len(),
{
    reveal_strlit("\r\n");
    let sep = "\r\n"@;
    if lines.len() > 1 {
        let before = lines.drop_last();
        let last = lines.last();
        let head = text::joined(before, sep);
        law_lines_right(before, shape, wanted);
        law_parted(head, '\r', seq!['\n'] + last, shape, wanted);
        law_parted(Seq::empty(), '\n', last, shape, wanted);
        assert(Seq::<char>::empty() + seq!['\n'] + last =~= seq!['\n'] + last);
        assert(text::joined(lines, sep) =~= head + seq!['\r'] + (seq!['\n'] + last));
        assert(forall|i: int| 0 <= i < before.len() ==> before[i] == lines[i]);
        assert(lines[lines.len() - 1] == last);
        if forall|i: int|
            0 <= i < lines.len() ==> settings::all_right(#[trigger] lines[i], shape, wanted) {
            assert forall|i: int| 0 <= i < before.len() implies settings::all_right(
                #[trigger] before[i],
                shape,
                wanted,
            ) by {
                assert(settings::all_right(lines[i], shape, wanted));
            }
        }
        if settings::all_right(head, shape, wanted) && settings::all_right(last, shape, wanted) {
            assert forall|i: int| 0 <= i < lines.len() implies settings::all_right(
                #[trigger] lines[i],
                shape,
                wanted,
            ) by {
                if i < before.len() {
                    assert(settings::all_right(before[i], shape, wanted));
                }
            }
        }
    } else if lines.len() == 1 {
        assert(text::joined(lines, sep) == lines[0]);
    }
}

} // verus!
