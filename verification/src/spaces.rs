//! What holds of white space, words and lines.

use vstd::prelude::*;
use crate::number;
use crate::text;

verus! {

/// A text of white space alone.
pub open spec fn all_white(s: Seq<char>) -> bool {
    forall|i: int| 0 <= i < s.len() ==> text::white(#[trigger] s[i])
}

/// A text without white space.
pub open spec fn none_white(s: Seq<char>) -> bool {
    forall|i: int| 0 <= i < s.len() ==> !text::white(#[trigger] s[i])
}

/// The characters that are white space: the tabs, the line ends, the page end and the spaces of
/// Unicode. No letter, digit or mark of ASCII is one.
pub proof fn law_white_space(c: char)
    ensures
        text::white(c) <==> [
            0x9u32, 0xau32, 0xbu32, 0xcu32, 0xdu32, 0x20u32, 0x85u32, 0xa0u32, 0x1680u32,
            0x2000u32, 0x2001u32, 0x2002u32, 0x2003u32, 0x2004u32, 0x2005u32, 0x2006u32,
            0x2007u32, 0x2008u32, 0x2009u32, 0x200au32, 0x2028u32, 0x2029u32, 0x202fu32,
            0x205fu32, 0x3000u32,
        ]@.contains(c as u32),
{
    let list = [
        0x9u32, 0xau32, 0xbu32, 0xcu32, 0xdu32, 0x20u32, 0x85u32, 0xa0u32, 0x1680u32, 0x2000u32,
        0x2001u32, 0x2002u32, 0x2003u32, 0x2004u32, 0x2005u32, 0x2006u32, 0x2007u32, 0x2008u32,
        0x2009u32, 0x200au32, 0x2028u32, 0x2029u32, 0x202fu32, 0x205fu32, 0x3000u32,
    ]@;
    let u = c as u32;
    if text::white(c) {
        let k: int = if u <= 0xd {
            u - 9
        } else if u == 0x20 {
            5
        } else if u == 0x85 {
            6
        } else if u == 0xa0 {
            7
        } else if u == 0x1680 {
            8
        } else if u <= 0x200a {
            u - 0x2000 + 9
        } else if u <= 0x2029 {
            u - 0x2028 + 20
        } else if u == 0x202f {
            22
        } else if u == 0x205f {
            23
        } else {
            24
        };
        assert(0 <= k < 25);
        assert(list[k] == u);
    }
}

proof fn lemma_start(a: Seq<char>, s: Seq<char>)
    requires
        all_white(a),
    ensures
        text::trimmed_start(a + s) == text::trimmed_start(s),
    decreases a.len(),
{
    if a.len() == 0 {
        assert(a + s =~= s);
    } else {
        assert((a + s).skip(1) =~= a.skip(1) + s);
        assert forall|i: int| 0 <= i < a.skip(1).len() implies text::white(#[trigger] a.skip(1)[i]) by {
            assert(a.skip(1)[i] == a[i + 1]);
        }
        lemma_start(a.skip(1), s);
        assert((a + s)[0] == a[0]);
    }
}

proof fn lemma_end(s: Seq<char>, b: Seq<char>)
    requires
        all_white(b),
    ensures
        text::trimmed_end(s + b) == text::trimmed_end(s),
    decreases b.len(),
{
    if b.len() == 0 {
        assert(s + b =~= s);
    } else {
        assert((s + b).drop_last() =~= s + b.drop_last());
        lemma_end(s, b.drop_last());
        assert((s + b).last() == b[b.len() - 1]);
    }
}

/// Trimming takes the white space at both ends away and nothing else.
pub proof fn law_trimmed(a: Seq<char>, m: Seq<char>, b: Seq<char>)
    requires
        all_white(a),
        all_white(b),
        m.len() > 0 ==> !text::white(m[0]) && !text::white(m.last()),
    ensures
        text::trimmed(a + m + b) == m,
{
    assert(a + m + b =~= a + (m + b));
    lemma_start(a, m + b);
    if m.len() == 0 {
        assert(m + b =~= b + m);
        lemma_start(b, m);
    } else {
        assert((m + b)[0] == m[0]);
        lemma_end(m, b);
    }
}

/// The words of a text: white space before them does not count, and each ends at the next white
/// space or at the end.
pub proof fn law_words(a: Seq<char>, w: Seq<char>, c: char, rest: Seq<char>)
    requires
        all_white(a),
        none_white(w),
        w.len() > 0,
        text::white(c),
    ensures
        text::words(a) == Seq::<Seq<char>>::empty(),
        text::words(a + rest) == text::words(rest),
        text::words(w) == seq![w],
        text::words(w + seq![c] + rest) == seq![w] + text::words(rest),
{
    lemma_words_behind(a, rest);
    lemma_words_behind(a, Seq::empty());
    assert(a + Seq::<char>::empty() =~= a);
    let stop = |x: char| text::white(x);
    assert forall|i: int| 0 <= i < w.len() implies !stop(#[trigger] w[i]) by {}
    text::lemma_run_is(w, stop, w.len());
    assert(w.take(w.len() as int) =~= w);
    assert(w.skip(w.len() as int) =~= Seq::empty());
    assert(seq![w] + Seq::<Seq<char>>::empty() =~= seq![w]);
    let s = w + seq![c] + rest;
    let n = w.len() as int;
    assert forall|i: int| 0 <= i < n implies !stop(#[trigger] s[i]) by {
        assert(s[i] == w[i]);
    }
    assert(stop(s[n]));
    text::lemma_run_is(s, stop, w.len());
    assert(s.take(n) =~= w);
    assert(s.skip(n) =~= seq![c] + rest);
    lemma_words_behind(seq![c], rest);
    assert(s[0] == w[0]);
    assert(text::run(s, |x: char| text::white(x)) == n);
    assert(text::words(s) == seq![s.take(n)] + text::words(s.skip(n)));
}

proof fn lemma_words_behind(a: Seq<char>, rest: Seq<char>)
    requires
        all_white(a),
    ensures
        text::words(a + rest) == text::words(rest),
    decreases a.len(),
{
    if a.len() == 0 {
        assert(a + rest =~= rest);
    } else {
        assert((a + rest).skip(1) =~= a.skip(1) + rest);
        assert forall|i: int| 0 <= i < a.skip(1).len() implies text::white(#[trigger] a.skip(1)[i]) by {
            assert(a.skip(1)[i] == a[i + 1]);
        }
        lemma_words_behind(a.skip(1), rest);
        assert((a + rest)[0] == a[0]);
    }
}

/// The lines of a text: each ends at a line feed, with or without a carriage return before it, and
/// the last one at the end. A carriage return elsewhere belongs to its line.
pub proof fn law_lines(l: Seq<char>, rest: Seq<char>)
    requires
        !l.contains('\n'),
    ensures
        text::lines(Seq::empty()) == Seq::<Seq<char>>::empty(),
        l.len() > 0 ==> text::lines(l) == seq![l],
        text::lines(l + seq!['\r', '\n'] + rest) == seq![l] + text::lines(rest),
        l.len() == 0 || l.last() != '\r' ==> text::lines(l + seq!['\n'] + rest) == seq![l]
            + text::lines(rest),
{
    let stop = |c: char| c == '\n';
    assert forall|i: int| 0 <= i < l.len() implies !stop(#[trigger] l[i]) by {}
    text::lemma_run_is(l, stop, l.len());
    let s = l + seq!['\r', '\n'] + rest;
    let n = l.len() as int + 1;
    assert forall|i: int| 0 <= i < n implies !stop(#[trigger] s[i]) by {
        if i < l.len() {
            assert(s[i] == l[i]);
        }
    }
    assert(stop(s[n]));
    text::lemma_run_is(s, stop, n as nat);
    assert(s.take(n).drop_last() =~= l);
    assert(s.take(n).last() == '\r');
    assert(s.skip(n + 1) =~= rest);
    let t = l + seq!['\n'] + rest;
    let m = l.len() as int;
    assert forall|i: int| 0 <= i < m implies !stop(#[trigger] t[i]) by {
        assert(t[i] == l[i]);
    }
    assert(stop(t[m]));
    text::lemma_run_is(t, stop, m as nat);
    assert(t.take(m) =~= l);
    assert(t.skip(m + 1) =~= rest);
}

/// Lowercase letters: each capital letter of ASCII becomes the small one, and every other character
/// stays.
pub proof fn law_ascii_lowercase(s: Seq<char>, i: int)
    requires
        0 <= i < s.len(),
    ensures
        text::ascii_lowercased(s).len() == s.len(),
        0x41 <= s[i] as u32 <= 0x5a ==> text::ascii_lowercased(s)[i] as u32 == s[i] as u32 + 0x20,
        !(0x41 <= s[i] as u32 <= 0x5a) ==> text::ascii_lowercased(s)[i] == s[i],
        number::ascii_lower(number::ascii_lower(s[i])) == number::ascii_lower(s[i]),
{
}

/// A text is replaced where it stands first, and then behind that.
pub proof fn law_replaced_first(h: Seq<char>, p: Seq<char>, t: Seq<char>, q: Seq<char>)
    requires
        p.len() > 0,
        forall|i: int| 0 <= i < h.len() ==> !text::occurs_at(h + p + t, p, i),
    ensures
        text::replaced(h + p + t, p, q) == h + q + text::replaced(t, p, q),
    decreases h.len(),
{
    let s = h + p + t;
    if h.len() == 0 {
        assert(s =~= p + t);
        assert(s.subrange(0, p.len() as int) =~= p);
        assert(s.skip(p.len() as int) =~= t);
        assert(h + q + text::replaced(t, p, q) =~= q + text::replaced(t, p, q));
    } else {
        let k = h.skip(1);
        assert(!text::occurs_at(s, p, 0));
        assert(s.skip(1) =~= k + p + t);
        assert forall|i: int| 0 <= i < k.len() implies !text::occurs_at(k + p + t, p, i) by {
            if text::occurs_at(k + p + t, p, i) {
                assert(s.subrange(i + 1, i + 1 + p.len()) =~= (k + p + t).subrange(i, i + p.len()));
                assert(text::occurs_at(s, p, i + 1));
            }
        }
        law_replaced_first(k, p, t, q);
        assert(seq![s[0]] + (k + q + text::replaced(t, p, q)) =~= h + q + text::replaced(t, p, q));
    }
}

} // verus!
