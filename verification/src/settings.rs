//! Settings in a text, a name and its value: what putting them in or respelling them leaves.

use vstd::prelude::*;
use crate::pattern;
use crate::text;

verus! {

/// Every setting of a name in a text is spelled as wanted.
pub open spec fn all_right(s: Seq<char>, shape: pattern::Shape, wanted: Seq<char>) -> bool {
    forall|i: int|
        0 <= i < s.len() && #[trigger] shape.starts(s.skip(i)) ==> s.skip(i).take(
            shape.length(s.skip(i)),
        ) == wanted
}

/// A name that ends in a character that stands in it nowhere else.
pub open spec fn tipped(name: Seq<char>) -> bool {
    name.len() > 0 && !name.drop_last().contains(name.last())
}

/// A setting as it is wanted: the name, and a value of the class that the name's first character
/// does not stand in.
pub open spec fn proper(shape: pattern::Shape, wanted: Seq<char>) -> bool {
    let n = shape.name.len() as int;
    &&& !shape.led
    &&& tipped(shape.name)
    &&& wanted.len() > n
    &&& wanted.take(n) == shape.name
    &&& forall|i: int|
        n <= i < wanted.len() ==> pattern::in_class(shape.class, #[trigger] wanted[i]) && wanted[i]
            != shape.name[0]
}

/// A replacement begins as the match that it stands for.
pub open spec fn faithful(shape: pattern::Shape, keep: bool, put: Seq<char>) -> bool {
    !shape.led && tipped(shape.name) && (keep || text::begins(put, shape.name))
}

proof fn lemma_block(s: Seq<char>, shape: pattern::Shape, keep: bool, put: Seq<char>)
    requires
        faithful(shape, keep, put),
        shape.starts(s),
    ensures
        text::begins(pattern::respelled(s, shape, keep, put), shape.name),
{
    pattern::lemma_match(s, shape);
    let n = shape.length(s);
    let name = shape.name;
    let r = pattern::respelled(s, shape, keep, put);
    if keep {
        assert(r.subrange(0, name.len() as int) =~= s.subrange(0, name.len() as int));
    } else {
        assert(r.subrange(0, name.len() as int) =~= put.subrange(0, name.len() as int));
    }
}

/// Respelling keeps the first character.
proof fn lemma_first(s: Seq<char>, shape: pattern::Shape, keep: bool, put: Seq<char>)
    requires
        faithful(shape, keep, put),
    ensures
        s.len() == 0 <==> pattern::respelled(s, shape, keep, put).len() == 0,
        s.len() > 0 ==> pattern::respelled(s, shape, keep, put)[0] == s[0],
{
    if s.len() > 0 && shape.starts(s) {
        lemma_block(s, shape, keep, put);
        let r = pattern::respelled(s, shape, keep, put);
        let n = shape.name.len() as int;
        assert(r.subrange(0, n)[0] == s.subrange(0, n)[0]);
    }
}

/// Where a respelled text begins with the end of the name, so did the text, and the character
/// behind it is the same.
proof fn lemma_through(
    t: Seq<char>,
    shape: pattern::Shape,
    keep: bool,
    put: Seq<char>,
    k: int,
)
    requires
        faithful(shape, keep, put),
        1 <= k <= shape.name.len(),
        text::begins(pattern::respelled(t, shape, keep, put), shape.name.skip(k)),
    ensures
        text::begins(t, shape.name.skip(k)),
        ({
            let r = pattern::respelled(t, shape, keep, put);
            let m = shape.name.len() - k;
            (t.len() > m <==> r.len() > m) && (t.len() > m ==> r[m] == t[m])
        }),
    decreases t.len(),
{
    let name = shape.name;
    let w = name.skip(k);
    let r = pattern::respelled(t, shape, keep, put);
    if w.len() == 0 {
        lemma_first(t, shape, keep, put);
        assert(t.subrange(0, 0) =~= w);
    } else {
        assert(r.subrange(0, w.len() as int) == w);
        assert(w.last() == name.last());
        if t.len() == 0 {
        } else if shape.starts(t) {
            lemma_block(t, shape, keep, put);
            assert(r.subrange(0, name.len() as int) == name);
            assert(w[w.len() - 1] == r.subrange(0, w.len() as int)[w.len() - 1]);
            assert(name[w.len() - 1] == r.subrange(0, name.len() as int)[w.len() - 1]);
            assert(name.drop_last()[w.len() - 1] == name.last());
            assert(name.drop_last().contains(name.last()));
        } else {
            let rest = pattern::respelled(t.skip(1), shape, keep, put);
            assert(r == seq![t[0]] + rest);
            assert(rest.subrange(0, w.len() - 1) =~= r.subrange(0, w.len() as int).skip(1));
            assert(w.skip(1) =~= name.skip(k + 1));
            lemma_through(t.skip(1), shape, keep, put, k + 1);
            assert(r.subrange(0, w.len() as int)[0] == w[0]);
            assert(t.subrange(0, w.len() as int) =~= seq![t[0]] + t.skip(1).subrange(
                0,
                w.len() - 1,
            ));
            assert(seq![t[0]] + w.skip(1) =~= w);
            let m = name.len() - k;
            if t.len() > m {
                assert(r[m] == rest[m - 1]);
                assert(t[m] == t.skip(1)[m - 1]);
            }
        }
    }
}

/// A text that does not begin with a match does not begin with one after respelling.
proof fn lemma_unmatched(s: Seq<char>, shape: pattern::Shape, keep: bool, put: Seq<char>)
    requires
        faithful(shape, keep, put),
        s.len() > 0,
        !shape.starts(s),
    ensures
        !shape.starts(pattern::respelled(s, shape, keep, put)),
{
    let name = shape.name;
    let n = name.len() as int;
    let t = s.skip(1);
    let rest = pattern::respelled(t, shape, keep, put);
    let r = pattern::respelled(s, shape, keep, put);
    assert(r == seq![s[0]] + rest);
    if shape.starts(r) {
        assert(r.subrange(0, n) == name);
        assert(rest.subrange(0, n - 1) =~= name.skip(1)) by {
            assert(rest.subrange(0, n - 1) =~= r.subrange(0, n).skip(1));
        }
        lemma_through(t, shape, keep, put, 1);
        assert(r.subrange(0, n)[0] == name[0]);
        assert(s.subrange(0, n) =~= seq![s[0]] + t.subrange(0, n - 1));
        assert(seq![name[0]] + name.skip(1) =~= name);
        assert(s.len() > n);
        assert(s[n] == t[n - 1]);
        assert(r[n] == rest[n - 1]);
    }
}

proof fn lemma_skip_join(a: Seq<char>, b: Seq<char>, i: int)
    requires
        a.len() <= i <= a.len() + b.len(),
    ensures
        (a + b).skip(i) == b.skip(i - a.len()),
{
    assert((a + b).skip(i) =~= b.skip(i - a.len()));
}

/// Where every setting of a name is spelled as wanted, respelling changes nothing.
pub proof fn law_right_stays(s: Seq<char>, shape: pattern::Shape, wanted: Seq<char>)
    requires
        all_right(s, shape, wanted),
        !shape.led,
    ensures
        pattern::respelled(s, shape, false, wanted) == s,
    decreases s.len(),
{
    if s.len() > 0 {
        assert(s.skip(0) =~= s);
        let n = if shape.starts(s) {
            shape.length(s)
        } else {
            1
        };
        if shape.starts(s) {
            pattern::lemma_match(s, shape);
            assert(shape.starts(s.skip(0)));
        }
        let t = s.skip(n);
        assert forall|i: int| 0 <= i < t.len() && #[trigger] shape.starts(t.skip(i)) implies t.skip(
            i,
        ).take(shape.length(t.skip(i))) == wanted by {
            assert(t.skip(i) =~= s.skip(i + n));
        }
        law_right_stays(t, shape, wanted);
        assert(s =~= s.take(n) + t);
        if !shape.starts(s) {
            assert(s.take(1) =~= seq![s[0]]);
        } else {
            assert(Seq::<char>::empty() + wanted + t =~= s);
        }
    }
}

/// After respelling, every setting of the name is spelled as wanted.
pub proof fn law_respelled_right(s: Seq<char>, shape: pattern::Shape, wanted: Seq<char>)
    requires
        proper(shape, wanted),
    ensures
        all_right(pattern::respelled(s, shape, false, wanted), shape, wanted),
    decreases s.len(),
{
    let r = pattern::respelled(s, shape, false, wanted);
    let name = shape.name;
    let n = name.len() as int;
    assert(text::begins(wanted, name)) by {
        assert(wanted.subrange(0, n) =~= wanted.take(n));
    }
    if s.len() > 0 {
        if shape.starts(s) {
            pattern::lemma_match(s, shape);
            let t = s.skip(shape.length(s));
            let rest = pattern::respelled(t, shape, false, wanted);
            law_respelled_right(t, shape, wanted);
            lemma_first(t, shape, false, wanted);
            assert(r =~= wanted + rest);
            lemma_wanted_front(shape, wanted, rest);
        } else {
            let t = s.skip(1);
            let rest = pattern::respelled(t, shape, false, wanted);
            law_respelled_right(t, shape, wanted);
            assert(r == seq![s[0]] + rest);
            assert forall|i: int| 0 <= i < r.len() && #[trigger] shape.starts(
                r.skip(i),
            ) implies r.skip(i).take(shape.length(r.skip(i))) == wanted by {
                if i == 0 {
                    assert(r.skip(0) =~= r);
                    lemma_unmatched(s, shape, false, wanted);
                } else {
                    lemma_skip_join(seq![s[0]], rest, i);
                }
            }
        }
    }
}

/// A wanted setting before a text with right settings, whose first character does not belong to
/// the value, makes a text with right settings.
proof fn lemma_wanted_front(shape: pattern::Shape, wanted: Seq<char>, rest: Seq<char>)
    requires
        proper(shape, wanted),
        all_right(rest, shape, wanted),
        rest.len() > 0 ==> !pattern::in_class(shape.class, rest[0]),
    ensures
        all_right(wanted + rest, shape, wanted),
{
    let r = wanted + rest;
    let name = shape.name;
    let n = name.len() as int;
    assert forall|i: int| 0 <= i < r.len() && #[trigger] shape.starts(r.skip(i)) implies r.skip(
        i,
    ).take(shape.length(r.skip(i))) == wanted by {
        let u = r.skip(i);
        if i == 0 {
            assert(u =~= r);
            assert forall|j: int| n <= j < wanted.len() implies pattern::in_class(
                shape.class,
                #[trigger] u[j],
            ) by {
                assert(u[j] == wanted[j]);
            }
            pattern::lemma_match_is(u, shape, wanted.len() as int);
            assert(u.take(wanted.len() as int) =~= wanted);
        } else if i < wanted.len() {
            assert(u.subrange(0, n) == name);
            assert(u[0] == wanted[i]);
            assert(u.subrange(0, n)[0] == name[0]);
            if i < n {
                // The name's last character would stand inside the name.
                let j = n - 1 - i;
                assert(u.subrange(0, n)[j] == name[j]);
                assert(u[j] == wanted[n - 1]);
                assert(wanted.take(n)[n - 1] == name[n - 1]);
                assert(name.drop_last()[j] == name.last());
                assert(name.drop_last().contains(name.last()));
            }
        } else {
            lemma_skip_join(wanted, rest, i);
        }
    }
}

/// Respelling again changes nothing.
pub proof fn law_respelled_again(s: Seq<char>, shape: pattern::Shape, wanted: Seq<char>)
    requires
        proper(shape, wanted),
    ensures
        pattern::respelled(
            pattern::respelled(s, shape, false, wanted),
            shape,
            false,
            wanted,
        ) == pattern::respelled(s, shape, false, wanted),
{
    law_respelled_right(s, shape, wanted);
    law_right_stays(pattern::respelled(s, shape, false, wanted), shape, wanted);
}

/// Every match in a text is followed by `put`.
pub open spec fn all_followed(s: Seq<char>, shape: pattern::Shape, put: Seq<char>) -> bool {
    forall|i: int|
        0 <= i < s.len() && #[trigger] shape.starts(s.skip(i)) ==> text::occurs_at(
            s.skip(i),
            put,
            shape.length(s.skip(i)),
        )
}

/// What is put behind matches can be told from them: the name's first character stands in the
/// name once, and neither in the class nor in `put`; and the first character of `put` stands
/// neither in the name nor in the class.
pub open spec fn distinct(shape: pattern::Shape, put: Seq<char>) -> bool {
    let name = shape.name;
    &&& !shape.led
    &&& tipped(name)
    &&& name.len() > 1
    &&& put.len() > 0
    &&& !name.skip(1).contains(name[0])
    &&& !pattern::in_class(shape.class, name[0])
    &&& !put.contains(name[0])
    &&& !name.contains(put[0])
    &&& !pattern::in_class(shape.class, put[0])
}

/// Where a respelled text begins with a text that lacks the name's first character, so did the
/// text.
proof fn lemma_foreign(
    t: Seq<char>,
    shape: pattern::Shape,
    keep: bool,
    put: Seq<char>,
    w: Seq<char>,
)
    requires
        faithful(shape, keep, put),
        !w.contains(shape.name[0]),
        text::begins(pattern::respelled(t, shape, keep, put), w),
    ensures
        text::begins(t, w),
    decreases t.len(),
{
    let r = pattern::respelled(t, shape, keep, put);
    if w.len() == 0 {
        assert(t.subrange(0, 0) =~= w);
    } else {
        assert(r.subrange(0, w.len() as int)[0] == w[0]);
        assert(w.contains(w[0]));
        if t.len() == 0 {
        } else if shape.starts(t) {
            lemma_block(t, shape, keep, put);
            assert(r.subrange(0, shape.name.len() as int)[0] == shape.name[0]);
        } else {
            let rest = pattern::respelled(t.skip(1), shape, keep, put);
            let v = w.skip(1);
            assert(rest.subrange(0, v.len() as int) =~= r.subrange(0, w.len() as int).skip(1));
            assert(!v.contains(shape.name[0])) by {
                if v.contains(shape.name[0]) {
                    let i = choose|i: int| 0 <= i < v.len() && v[i] == shape.name[0];
                    assert(w[i + 1] == shape.name[0]);
                }
            }
            lemma_foreign(t.skip(1), shape, keep, put, v);
            assert(t.subrange(0, w.len() as int) =~= seq![t[0]] + t.skip(1).subrange(
                0,
                v.len() as int,
            ));
            assert(seq![w[0]] + v =~= w);
        }
    }
}

/// The characters of a match: but for the first one, none is the name's first one, and none is the
/// first one of `put`.
proof fn lemma_match_chars(s: Seq<char>, shape: pattern::Shape, put: Seq<char>)
    requires
        distinct(shape, put),
        shape.starts(s),
    ensures
        forall|i: int|
            0 <= i < shape.length(s) ==> #[trigger] s[i] != put[0] && (i > 0 ==> s[i]
                != shape.name[0]),
{
    let name = shape.name;
    let n = name.len() as int;
    pattern::lemma_match(s, shape);
    assert forall|i: int| 0 <= i < shape.length(s) implies #[trigger] s[i] != put[0] && (i > 0
        ==> s[i] != name[0]) by {
        if i < n {
            assert(s.subrange(0, n)[i] == name[i]);
            assert(name.contains(name[i]));
            if i > 0 {
                assert(name.skip(1)[i - 1] == name[i]);
                assert(name.skip(1).contains(name[i]));
            }
        }
    }
}

/// Where a text is put behind every match, every match is followed by it.
pub proof fn law_put_behind(s: Seq<char>, shape: pattern::Shape, put: Seq<char>)
    requires
        distinct(shape, put),
    ensures
        all_followed(pattern::respelled(s, shape, true, put), shape, put),
    decreases s.len(),
{
    let r = pattern::respelled(s, shape, true, put);
    let name = shape.name;
    if s.len() > 0 {
        if shape.starts(s) {
            pattern::lemma_match(s, shape);
            lemma_match_chars(s, shape, put);
            let n = shape.length(s);
            let m = s.take(n);
            let rest = pattern::respelled(s.skip(n), shape, true, put);
            law_put_behind(s.skip(n), shape, put);
            assert(r == m + put + rest);
            assert forall|i: int| 0 <= i < r.len() && #[trigger] shape.starts(
                r.skip(i),
            ) implies text::occurs_at(r.skip(i), put, shape.length(r.skip(i))) by {
                let u = r.skip(i);
                assert(u.subrange(0, name.len() as int)[0] == name[0]);
                assert(u[0] == r[i]);
                if i == 0 {
                    assert(u =~= r);
                    assert forall|j: int| shape.head() <= j < n implies pattern::in_class(
                        shape.class,
                        #[trigger] u[j],
                    ) by {
                        assert(u[j] == s[j]);
                    }
                    assert(u[n] == put[0]);
                    pattern::lemma_match_is(u, shape, n);
                    assert(u.subrange(n, n + put.len()) =~= put);
                } else if i < n {
                    assert(r[i] == s[i]);
                } else if i < n + put.len() {
                    assert(r[i] == put[i - n]);
                    assert(put.contains(put[i - n]));
                } else {
                    lemma_skip_join(m + put, rest, i);
                }
            }
        } else {
            let rest = pattern::respelled(s.skip(1), shape, true, put);
            law_put_behind(s.skip(1), shape, put);
            assert(r == seq![s[0]] + rest);
            assert forall|i: int| 0 <= i < r.len() && #[trigger] shape.starts(
                r.skip(i),
            ) implies text::occurs_at(r.skip(i), put, shape.length(r.skip(i))) by {
                if i == 0 {
                    assert(r.skip(0) =~= r);
                    lemma_unmatched(s, shape, true, put);
                } else {
                    lemma_skip_join(seq![s[0]], rest, i);
                }
            }
        }
    }
}

proof fn lemma_replaced_front(m: Seq<char>, v: Seq<char>, p: Seq<char>, q: Seq<char>)
    requires
        p.len() > 0,
        !m.contains(p[0]),
    ensures
        text::replaced(m + v, p, q) == m + text::replaced(v, p, q),
    decreases m.len(),
{
    let s = m + v;
    if m.len() == 0 {
        assert(s =~= v);
        assert(m + text::replaced(v, p, q) =~= text::replaced(v, p, q));
    } else {
        assert(m.contains(m[0]));
        if text::begins(s, p) {
            assert(s.subrange(0, p.len() as int)[0] == m[0]);
        }
        let rest = m.skip(1);
        assert(!rest.contains(p[0])) by {
            if rest.contains(p[0]) {
                let i = choose|i: int| 0 <= i < rest.len() && rest[i] == p[0];
                assert(m[i + 1] == p[0]);
            }
        }
        assert(s.skip(1) =~= rest + v);
        lemma_replaced_front(rest, v, p, q);
        assert(seq![s[0]] + (rest + text::replaced(v, p, q)) =~= m + text::replaced(v, p, q));
    }
}

/// Taking out again what was put behind matches gives the text back.
pub proof fn law_taken_out_again(s: Seq<char>, shape: pattern::Shape, put: Seq<char>)
    requires
        distinct(shape, put),
        !text::occurs(s, put),
    ensures
        text::replaced(pattern::respelled(s, shape, true, put), put, Seq::empty()) == s,
    decreases s.len(),
{
    let r = pattern::respelled(s, shape, true, put);
    let none = Seq::<char>::empty();
    if s.len() > 0 {
        let n = if shape.starts(s) {
            shape.length(s)
        } else {
            1
        };
        if shape.starts(s) {
            pattern::lemma_match(s, shape);
        }
        let t = s.skip(n);
        let rest = pattern::respelled(t, shape, true, put);
        assert(!text::occurs(t, put)) by {
            if text::occurs(t, put) {
                text::lemma_occurs_shifted(s.take(n), t, none, put);
                assert(s.take(n) + t + none =~= s);
            }
        }
        law_taken_out_again(t, shape, put);
        if shape.starts(s) {
            let m = s.take(n);
            lemma_match_chars(s, shape, put);
            assert(!m.contains(put[0])) by {
                if m.contains(put[0]) {
                    let i = choose|i: int| 0 <= i < m.len() && m[i] == put[0];
                    assert(s[i] == put[0]);
                }
            }
            assert(r =~= m + (put + rest));
            lemma_replaced_front(m, put + rest, put, none);
            assert((put + rest).subrange(0, put.len() as int) =~= put);
            assert((put + rest).skip(put.len() as int) =~= rest);
            assert(none + text::replaced(rest, put, none) =~= t);
            assert(m + t =~= s);
        } else {
            assert(r == seq![s[0]] + rest);
            assert(r.skip(1) =~= rest);
            if text::begins(r, put) {
                let w = put.skip(1);
                assert(rest.subrange(0, w.len() as int) =~= r.subrange(0, put.len() as int).skip(1));
                assert(!w.contains(shape.name[0])) by {
                    if w.contains(shape.name[0]) {
                        let i = choose|i: int| 0 <= i < w.len() && w[i] == shape.name[0];
                        assert(put[i + 1] == shape.name[0]);
                    }
                }
                lemma_foreign(t, shape, true, put, w);
                assert(r.subrange(0, put.len() as int)[0] == put[0]);
                assert(s.subrange(0, put.len() as int) =~= seq![s[0]] + t.subrange(
                    0,
                    w.len() as int,
                ));
                assert(seq![put[0]] + w =~= put);
                assert(text::occurs_at(s, put, 0));
            }
            assert(seq![s[0]] + t =~= s);
        }
    }
}

/// A text before another that holds no first character of the name brings no setting in.
proof fn lemma_plain_front(
    m: Seq<char>,
    v: Seq<char>,
    shape: pattern::Shape,
    wanted: Seq<char>,
)
    requires
        !shape.led,
        shape.name.len() > 0,
        !m.contains(shape.name[0]),
        all_right(v, shape, wanted),
    ensures
        all_right(m + v, shape, wanted),
{
    let r = m + v;
    assert forall|i: int| 0 <= i < r.len() && #[trigger] shape.starts(r.skip(i)) implies r.skip(
        i,
    ).take(shape.length(r.skip(i))) == wanted by {
        if i < m.len() {
            assert(r.skip(i).subrange(0, shape.name.len() as int)[0] == m[i]);
            assert(m.contains(m[i]));
        } else {
            lemma_skip_join(m, v, i);
        }
    }
}

/// Where the name of a setting does not stand, no setting is wrong.
pub proof fn lemma_unnamed(s: Seq<char>, shape: pattern::Shape, wanted: Seq<char>)
    requires
        !shape.led,
        !text::occurs(s, shape.name),
    ensures
        all_right(s, shape, wanted),
{
    assert forall|i: int| 0 <= i < s.len() && #[trigger] shape.starts(s.skip(i)) implies s.skip(
        i,
    ).take(shape.length(s.skip(i))) == wanted by {
        assert(s.subrange(i, i + shape.name.len()) =~= s.skip(i).subrange(
            0,
            shape.name.len() as int,
        ));
        assert(text::occurs_at(s, shape.name, i));
    }
}

proof fn lemma_not_within(s: Seq<char>, n: int, p: Seq<char>)
    requires
        0 <= n <= s.len(),
        !text::occurs(s, p),
    ensures
        !text::occurs(s.skip(n), p),
{
    if text::occurs(s.skip(n), p) {
        text::lemma_occurs_shifted(s.take(n), s.skip(n), Seq::empty(), p);
        assert(s.take(n) + s.skip(n) + Seq::<char>::empty() =~= s);
    }
}

/// Settings that are put behind matches in a text without such settings are right.
pub proof fn law_put_behind_right(
    s: Seq<char>,
    shape: pattern::Shape,
    other: pattern::Shape,
    lead: Seq<char>,
    wanted: Seq<char>,
)
    requires
        distinct(shape, lead + wanted),
        proper(other, wanted),
        other.class == shape.class,
        !pattern::in_class(shape.class, other.name[0]),
        !shape.name.contains(other.name[0]),
        !other.name.contains(shape.name[0]),
        !lead.contains(other.name[0]),
        !text::occurs(s, other.name),
    ensures
        all_right(pattern::respelled(s, shape, true, lead + wanted), other, wanted),
    decreases s.len(),
{
    let put = lead + wanted;
    let r = pattern::respelled(s, shape, true, put);
    let name = other.name;
    if s.len() == 0 {
    } else if shape.starts(s) {
        pattern::lemma_match(s, shape);
        let n = shape.length(s);
        let m = s.take(n);
        let t = s.skip(n);
        let rest = pattern::respelled(t, shape, true, put);
        lemma_not_within(s, n, name);
        law_put_behind_right(t, shape, other, lead, wanted);
        lemma_first(t, shape, true, put);
        lemma_wanted_front(other, wanted, rest);
        let front = m + lead;
        assert(!front.contains(name[0])) by {
            if front.contains(name[0]) {
                let i = choose|i: int| 0 <= i < front.len() && front[i] == name[0];
                if i < shape.name.len() {
                    assert(s.subrange(0, shape.name.len() as int)[i] == name[0]);
                    assert(shape.name.contains(name[0]));
                } else if i < n {
                    assert(pattern::in_class(shape.class, s[i]));
                } else {
                    assert(lead[i - n] == name[0]);
                    assert(lead.contains(name[0]));
                }
            }
        }
        lemma_plain_front(front, wanted + rest, other, wanted);
        assert(r =~= front + (wanted + rest));
    } else {
        let t = s.skip(1);
        let rest = pattern::respelled(t, shape, true, put);
        lemma_not_within(s, 1, name);
        law_put_behind_right(t, shape, other, lead, wanted);
        assert(r == seq![s[0]] + rest);
        assert forall|i: int| 0 <= i < r.len() && #[trigger] other.starts(r.skip(i)) implies r.skip(
            i,
        ).take(other.length(r.skip(i))) == wanted by {
            if i == 0 {
                let n = name.len() as int;
                let w = name.skip(1);
                assert(r.skip(0) =~= r);
                assert(rest.subrange(0, n - 1) =~= r.subrange(0, n).skip(1));
                assert(!w.contains(shape.name[0])) by {
                    if w.contains(shape.name[0]) {
                        let j = choose|j: int| 0 <= j < w.len() && w[j] == shape.name[0];
                        assert(name[j + 1] == shape.name[0]);
                    }
                }
                lemma_foreign(t, shape, true, put, w);
                assert(r.subrange(0, n)[0] == name[0]);
                assert(s.subrange(0, n) =~= seq![s[0]] + t.subrange(0, n - 1));
                assert(seq![name[0]] + w =~= name);
                assert(text::occurs_at(s, name, 0));
            } else {
                lemma_skip_join(seq![s[0]], rest, i);
            }
        }
    }
}

/// The name does not begin anywhere in a text from position `j` on, as its first three characters
/// tell.
pub open spec fn apart(s: Seq<char>, name: Seq<char>, j: int) -> bool
    decreases s.len() - j,
{
    j >= s.len() || ((s[j] != name[0] || (j + 1 < s.len() && s[j + 1] != name[1]) || (j + 2
        < s.len() && s[j + 2] != name[2])) && apart(s, name, j + 1))
}

proof fn lemma_apart(s: Seq<char>, name: Seq<char>, j: int, i: int)
    requires
        apart(s, name, j),
        j <= i < s.len(),
    ensures
        s[i] != name[0] || (i + 1 < s.len() && s[i + 1] != name[1]) || (i + 2 < s.len() && s[i + 2]
            != name[2]),
    decreases i - j,
{
    if j < i {
        lemma_apart(s, name, j + 1, i);
    }
}

/// A wanted setting and what stands behind it, before a text with right settings, make a text with
/// right settings.
pub proof fn lemma_wanted_block(
    shape: pattern::Shape,
    wanted: Seq<char>,
    tail: Seq<char>,
    rest: Seq<char>,
)
    requires
        proper(shape, wanted),
        shape.name.len() >= 3,
        tail.len() > 0,
        !pattern::in_class(shape.class, tail[0]),
        apart(tail, shape.name, 0),
        all_right(rest, shape, wanted),
    ensures
        all_right(wanted + (tail + rest), shape, wanted),
{
    let v = tail + rest;
    let name = shape.name;
    assert forall|i: int| 0 <= i < v.len() && #[trigger] shape.starts(v.skip(i)) implies v.skip(
        i,
    ).take(shape.length(v.skip(i))) == wanted by {
        if i < tail.len() {
            let u = v.skip(i).subrange(0, name.len() as int);
            lemma_apart(tail, name, 0, i);
            assert(u[0] == v[i] && u[1] == v[i + 1] && u[2] == v[i + 2]);
        } else {
            lemma_skip_join(tail, rest, i);
        }
    }
    lemma_wanted_front(shape, wanted, v);
}

/// Where a text in which a text was replaced by one that begins with a name begins with the end of
/// that name, so did the text.
proof fn lemma_replaced_through(
    t: Seq<char>,
    p: Seq<char>,
    block: Seq<char>,
    name: Seq<char>,
    k: int,
)
    requires
        tipped(name),
        text::begins(block, name),
        1 <= k <= name.len(),
        text::begins(text::replaced(t, p, block), name.skip(k)),
    ensures
        text::begins(t, name.skip(k)),
    decreases t.len(),
{
    let w = name.skip(k);
    let r = text::replaced(t, p, block);
    if w.len() == 0 {
        assert(t.subrange(0, 0) =~= w);
    } else {
        assert(r.subrange(0, w.len() as int) == w);
        if t.len() == 0 {
        } else if p.len() > 0 && text::begins(t, p) {
            assert(block.subrange(0, name.len() as int) == name);
            assert(w[w.len() - 1] == r.subrange(0, w.len() as int)[w.len() - 1]);
            assert(name[w.len() - 1] == block.subrange(0, name.len() as int)[w.len() - 1]);
            assert(name.drop_last()[w.len() - 1] == name.last());
            assert(name.drop_last().contains(name.last()));
        } else {
            let rest = text::replaced(t.skip(1), p, block);
            assert(rest.subrange(0, w.len() - 1) =~= r.subrange(0, w.len() as int).skip(1));
            assert(w.skip(1) =~= name.skip(k + 1));
            lemma_replaced_through(t.skip(1), p, block, name, k + 1);
            assert(r.subrange(0, w.len() as int)[0] == w[0]);
            assert(t.subrange(0, w.len() as int) =~= seq![t[0]] + t.skip(1).subrange(
                0,
                w.len() - 1,
            ));
            assert(seq![t[0]] + w.skip(1) =~= w);
        }
    }
}

/// Settings that are put before a text, where there were none, are right.
pub proof fn law_put_before_right(
    s: Seq<char>,
    p: Seq<char>,
    shape: pattern::Shape,
    wanted: Seq<char>,
    tail: Seq<char>,
)
    requires
        proper(shape, wanted),
        shape.name.len() >= 3,
        tail.len() > 0,
        !pattern::in_class(shape.class, tail[0]),
        apart(tail, shape.name, 0),
        !text::occurs(s, shape.name),
    ensures
        all_right(text::replaced(s, p, wanted + tail), shape, wanted),
    decreases s.len(),
{
    let block = wanted + tail;
    let name = shape.name;
    let n = name.len() as int;
    let r = text::replaced(s, p, block);
    assert(text::begins(block, name)) by {
        assert(block.subrange(0, n) =~= wanted.take(n));
    }
    if s.len() == 0 {
    } else if p.len() > 0 && text::begins(s, p) {
        let t = s.skip(p.len() as int);
        let rest = text::replaced(t, p, block);
        lemma_not_within(s, p.len() as int, name);
        law_put_before_right(t, p, shape, wanted, tail);
        lemma_wanted_block(shape, wanted, tail, rest);
        assert(r =~= wanted + (tail + rest));
    } else {
        let t = s.skip(1);
        let rest = text::replaced(t, p, block);
        lemma_not_within(s, 1, name);
        law_put_before_right(t, p, shape, wanted, tail);
        assert(r == seq![s[0]] + rest);
        assert forall|i: int| 0 <= i < r.len() && #[trigger] shape.starts(r.skip(i)) implies r.skip(
            i,
        ).take(shape.length(r.skip(i))) == wanted by {
            if i == 0 {
                assert(r.skip(0) =~= r);
                assert(rest.subrange(0, n - 1) =~= r.subrange(0, n).skip(1));
                lemma_replaced_through(t, p, block, name, 1);
                assert(r.subrange(0, n)[0] == name[0]);
                assert(s.subrange(0, n) =~= seq![s[0]] + t.subrange(0, n - 1));
                assert(seq![name[0]] + name.skip(1) =~= name);
                assert(text::occurs_at(s, name, 0));
            } else {
                lemma_skip_join(seq![s[0]], rest, i);
            }
        }
    }
}

/// Every character of a text belongs to a class.
pub open spec fn all_in(class: pattern::Class, s: Seq<char>) -> bool
    decreases s.len(),
{
    s.len() == 0 || (pattern::in_class(class, s[0]) && all_in(class, s.skip(1)))
}

proof fn lemma_all_in(class: pattern::Class, s: Seq<char>, i: int)
    requires
        all_in(class, s),
        0 <= i < s.len(),
    ensures
        pattern::in_class(class, s[i]),
    decreases s.len(),
{
    if i > 0 {
        lemma_all_in(class, s.skip(1), i - 1);
    }
}

/// A name and a value make a setting as it is wanted.
pub proof fn lemma_proper(name: Seq<char>, value: Seq<char>, class: pattern::Class)
    requires
        name.len() > 0,
        value.len() > 0,
        pattern::lacks(name.drop_last(), name.last()),
        pattern::lacks(value, name[0]),
        all_in(class, value),
    ensures
        proper(pattern::setting(name, class), name + value),
{
    let wanted = name + value;
    pattern::lemma_lacks(name.drop_last(), name.last());
    pattern::lemma_lacks(value, name[0]);
    assert(wanted.take(name.len() as int) =~= name);
    assert forall|i: int| name.len() <= i < wanted.len() implies pattern::in_class(
        class,
        #[trigger] wanted[i],
    ) && wanted[i] != name[0] by {
        lemma_all_in(class, value, i - name.len());
        assert(value.contains(value[i - name.len()]));
    }
}

/// Respelling leaves a text as it is, or puts in what it puts in.
pub proof fn lemma_respelled(s: Seq<char>, shape: pattern::Shape, keep: bool, put: Seq<char>)
    ensures
        pattern::respelled(s, shape, keep, put) == s || text::occurs(
            pattern::respelled(s, shape, keep, put),
            put,
        ),
    decreases s.len(),
{
    let r = pattern::respelled(s, shape, keep, put);
    if s.len() == 0 {
    } else if shape.starts(s) {
        pattern::lemma_match(s, shape);
        let n = shape.length(s);
        let m = if keep {
            s.take(n)
        } else {
            Seq::empty()
        };
        assert(r.subrange(m.len() as int, m.len() as int + put.len()) =~= put);
        assert(text::occurs_at(r, put, m.len() as int));
    } else {
        let rest = pattern::respelled(s.skip(1), shape, keep, put);
        lemma_respelled(s.skip(1), shape, keep, put);
        if rest == s.skip(1) {
            assert(seq![s[0]] + rest =~= s);
        } else {
            text::lemma_occurs_shifted(seq![s[0]], rest, Seq::empty(), put);
            assert(seq![s[0]] + rest + Seq::<char>::empty() =~= r);
        }
    }
}

/// Respelling brings in no character that is neither in the text nor in what is put in.
pub proof fn lemma_respelled_lacks(
    s: Seq<char>,
    shape: pattern::Shape,
    keep: bool,
    put: Seq<char>,
    c: char,
)
    requires
        !s.contains(c),
        !put.contains(c),
    ensures
        !pattern::respelled(s, shape, keep, put).contains(c),
    decreases s.len(),
{
    let r = pattern::respelled(s, shape, keep, put);
    if s.len() > 0 {
        let n = if shape.starts(s) {
            shape.length(s)
        } else {
            1
        };
        if shape.starts(s) {
            pattern::lemma_match(s, shape);
        }
        let t = s.skip(n);
        if t.contains(c) {
            let i = choose|i: int| 0 <= i < t.len() && t[i] == c;
            assert(s[i + n] == c);
        }
        lemma_respelled_lacks(t, shape, keep, put, c);
        let rest = pattern::respelled(t, shape, keep, put);
        if r.contains(c) {
            let i = choose|i: int| 0 <= i < r.len() && r[i] == c;
            let k = r.len() - rest.len();
            if i >= k {
                assert(rest[i - k] == c);
            } else if !shape.starts(s) {
                assert(s[0] == c);
            } else if keep && i < n {
                assert(s[i] == c);
            } else {
                assert(put[i - (k - put.len())] == c);
            }
        }
    }
}

/// Replacing brings in no character that is neither in the text nor in the replacement.
pub proof fn lemma_replaced_lacks(s: Seq<char>, p: Seq<char>, q: Seq<char>, c: char)
    requires
        !s.contains(c),
        !q.contains(c),
    ensures
        !text::replaced(s, p, q).contains(c),
    decreases s.len(),
{
    let r = text::replaced(s, p, q);
    if s.len() > 0 {
        let found = p.len() > 0 && text::begins(s, p);
        let n = if found {
            p.len() as int
        } else {
            1
        };
        let t = s.skip(n);
        if t.contains(c) {
            let i = choose|i: int| 0 <= i < t.len() && t[i] == c;
            assert(s[i + n] == c);
        }
        lemma_replaced_lacks(t, p, q, c);
        let rest = text::replaced(t, p, q);
        if r.contains(c) {
            let i = choose|i: int| 0 <= i < r.len() && r[i] == c;
            let k = r.len() - rest.len();
            if i >= k {
                assert(rest[i - k] == c);
            } else if found {
                assert(q[i] == c);
            } else {
                assert(s[0] == c);
            }
        }
    }
}

} // verus!
