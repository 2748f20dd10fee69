//! Text as sequences of characters: searching, splitting, trimming, joining.

use vstd::prelude::*;

verus! {

broadcast use vstd::string::group_string_axioms;

/// `String::push` appends one character.
pub assume_specification[ String::push ](s: &mut String, c: char)
    ensures
        final(s)@ == old(s)@.push(c),
;

/// The characters of a string.
pub fn to_chars(s: &str) -> (r: Vec<char>)
    ensures
        r@ == s@,
{
    let mut out: Vec<char> = Vec::new();
    for c in it: s.chars()
        invariant
            it.seq() == s@,
            out@ == s@.take(it.index()),
    {
        out.push(c);
        assert(s@.take(it.index() + 1) =~= s@.take(it.index()).push(s@[it.index()]));
    }
    assert(s@.take(s@.len() as int) =~= s@);
    out
}

/// The string made of the given characters.
pub fn to_text(v: &[char]) -> (r: String)
    ensures
        r@ == v@,
{
    let mut out = String::new();
    let mut i: usize = 0;
    while i < v.len()
        invariant
            i <= v@.len(),
            out@ == v@.take(i as int),
        decreases v@.len() - i,
    {
        out.push(v[i]);
        assert(v@.take(i + 1) =~= v@.take(i as int).push(v@[i as int]));
        i += 1;
    }
    assert(v@.take(v@.len() as int) =~= v@);
    out
}

/// The characters from position `i` up to position `j`.
pub fn piece(s: &[char], i: usize, j: usize) -> (r: Vec<char>)
    requires
        i <= j <= s@.len(),
    ensures
        r@ == s@.subrange(i as int, j as int),
{
    let mut out: Vec<char> = Vec::new();
    let mut k: usize = i;
    while k < j
        invariant
            i <= k <= j <= s@.len(),
            out@ == s@.subrange(i as int, k as int),
        decreases j - k,
    {
        out.push(s[k]);
        assert(s@.subrange(i as int, k + 1) =~= s@.subrange(i as int, k as int).push(s@[k as int]));
        k += 1;
    }
    out
}

/// Appends the characters of `b` to `a`.
pub fn push_all(a: &mut Vec<char>, b: &[char])
    ensures
        final(a)@ == old(a)@ + b@,
{
    let mut k: usize = 0;
    while k < b.len()
        invariant
            k <= b@.len(),
            a@ == old(a)@ + b@.take(k as int),
        decreases b@.len() - k,
    {
        a.push(b[k]);
        assert(b@.take(k + 1) =~= b@.take(k as int).push(b@[k as int]));
        k += 1;
    }
    assert(b@.take(b@.len() as int) =~= b@);
}

/// Appends a string to `a`.
pub fn push_str(a: &mut Vec<char>, b: &str)
    ensures
        final(a)@ == old(a)@ + b@,
{
    push_all(a, to_chars(b).as_slice());
}

/// Two strings, one after the other.
pub fn cat(a: &str, b: &str) -> (r: String)
    ensures
        r@ == a@ + b@,
{
    let mut out = a.to_string();
    out.append(b);
    out
}

/// A text made of two others and what stands around and between them.
pub open spec fn framed(
    head: Seq<char>,
    a: Seq<char>,
    middle: Seq<char>,
    b: Seq<char>,
    tail: Seq<char>,
) -> Seq<char> {
    head + a + middle + b + tail
}

/// Puts two texts between others.
pub fn frame(head: &str, a: &[char], middle: &str, b: &[char], tail: &str) -> (r: String)
    ensures
        r@ == framed(head@, a@, middle@, b@, tail@),
{
    let mut out = to_chars(head);
    push_all(&mut out, a);
    push_str(&mut out, middle);
    push_all(&mut out, b);
    push_str(&mut out, tail);
    to_text(out.as_slice())
}

/// A result whose error is a text, taken by the characters of the error.
pub open spec fn told<T>(r: Result<T, String>) -> Result<T, Seq<char>> {
    match r {
        Ok(v) => Ok(v),
        Err(e) => Err(e@),
    }
}

/// The characters of an optional text.
pub open spec fn text_of(t: Option<String>) -> Option<Seq<char>> {
    match t {
        Some(s) => Some(s@),
        None => None,
    }
}

/// `p` stands in `s` at position `i`.
pub open spec fn occurs_at(s: Seq<char>, p: Seq<char>, i: int) -> bool {
    0 <= i && i + p.len() <= s.len() && s.subrange(i, i + p.len()) == p
}

/// `p` stands somewhere in `s`.
pub open spec fn occurs(s: Seq<char>, p: Seq<char>) -> bool {
    exists|i: int| #[trigger] occurs_at(s, p, i)
}

/// `s` begins with `p`.
pub open spec fn begins(s: Seq<char>, p: Seq<char>) -> bool {
    occurs_at(s, p, 0)
}

fn matches_at(s: &[char], p: &[char], i: usize) -> (r: bool)
    requires
        i <= s@.len(),
    ensures
        r == occurs_at(s@, p@, i as int),
{
    let n = s.len();
    if n - i < p.len() {
        return false;
    }
    let mut k: usize = 0;
    while k < p.len()
        invariant
            n == s@.len(),
            i + p@.len() <= n,
            k <= p@.len(),
            forall|j: int| 0 <= j < k ==> s@[i + j] == p@[j],
        decreases p@.len() - k,
    {
        if s[i + k] != p[k] {
            assert(s@.subrange(i as int, i + p@.len())[k as int] != p@[k as int]);
            return false;
        }
        k += 1;
    }
    assert(s@.subrange(i as int, i + p@.len()) =~= p@);
    true
}

/// Whether two runs of characters are equal.
pub fn same(a: &[char], b: &[char]) -> (r: bool)
    ensures
        r == (a@ == b@),
{
    if a.len() != b.len() {
        return false;
    }
    let r = matches_at(a, b, 0);
    assert(a@.subrange(0, b@.len() as int) =~= a@);
    r
}

/// Whether a run of characters equals a string.
pub fn is(a: &[char], b: &str) -> (r: bool)
    ensures
        r == (a@ == b@),
{
    same(a, to_chars(b).as_slice())
}

/// Whether `s` begins with `p`.
pub fn starts_with(s: &[char], p: &str) -> (r: bool)
    ensures
        r == begins(s@, p@),
{
    matches_at(s, to_chars(p).as_slice(), 0)
}

/// What follows `p` in `s`, if `s` begins with `p`.
pub fn strip_prefix(s: &[char], p: &str) -> (r: Option<Vec<char>>)
    ensures
        r is Some <==> begins(s@, p@),
        r matches Some(rest) ==> s@ == p@ + rest@ && rest@ == s@.skip(p@.len() as int),
{
    let pc = to_chars(p);
    if matches_at(s, pc.as_slice(), 0) {
        let rest = piece(s, pc.len(), s.len());
        assert(rest@ =~= s@.skip(p@.len() as int));
        assert(s@ =~= s@.subrange(0, p@.len() as int) + rest@);
        Some(rest)
    } else {
        None
    }
}

/// Whether `p` stands somewhere in `s`.
pub fn contains(s: &[char], p: &str) -> (r: bool)
    ensures
        r == occurs(s@, p@),
{
    let pc = to_chars(p);
    let mut i: usize = 0;
    while i < s.len()
        invariant
            pc@ == p@,
            i <= s@.len(),
            forall|j: int| 0 <= j < i ==> !#[trigger] occurs_at(s@, p@, j),
        decreases s@.len() - i,
    {
        if matches_at(s, pc.as_slice(), i) {
            assert(occurs_at(s@, p@, i as int));
            return true;
        }
        i += 1;
    }
    let r = matches_at(s, pc.as_slice(), i);
    assert(r ==> occurs_at(s@, p@, i as int));
    r
}

/// `s` with every occurrence of `p` replaced by `q`: occurrences are taken from left to right and
/// do not overlap.
pub open spec fn replaced(s: Seq<char>, p: Seq<char>, q: Seq<char>) -> Seq<char>
    decreases s.len(),
{
    if s.len() == 0 {
        s
    } else if p.len() > 0 && begins(s, p) {
        q + replaced(s.skip(p.len() as int), p, q)
    } else {
        seq![s[0]] + replaced(s.skip(1), p, q)
    }
}

/// Replaces every occurrence of `p` in `s` by `q`.
pub fn replace(s: &[char], p: &[char], q: &[char]) -> (r: Vec<char>)
    requires
        p@.len() > 0,
    ensures
        r@ == replaced(s@, p@, q@),
{
    let mut out: Vec<char> = Vec::new();
    let mut i: usize = 0;
    assert(s@.skip(0) =~= s@);
    while i < s.len()
        invariant
            p@.len() > 0,
            i <= s@.len(),
            replaced(s@, p@, q@) == out@ + replaced(s@.skip(i as int), p@, q@),
        decreases s@.len() - i,
    {
        let ghost tail = s@.skip(i as int);
        if matches_at(s, p, i) {
            assert(s@.subrange(i as int, i + p@.len()) =~= tail.subrange(0, p@.len() as int));
            assert(tail.skip(p@.len() as int) =~= s@.skip(i + p@.len()));
            push_all(&mut out, q);
            i += p.len();
        } else {
            assert(begins(tail, p@) ==> tail.subrange(0, p@.len() as int) =~= s@.subrange(
                i as int,
                i + p@.len(),
            ));
            assert(tail.skip(1) =~= s@.skip(i + 1));
            out.push(s[i]);
            i += 1;
        }
        assert(replaced(s@, p@, q@) =~= out@ + replaced(s@.skip(i as int), p@, q@));
    }
    assert(out@ + replaced(s@.skip(i as int), p@, q@) =~= out@);
    out
}

/// Whether `p` stands somewhere in `s`.
pub fn has(s: &str, p: &str) -> (r: bool)
    ensures
        r == occurs(s@, p@),
{
    contains(to_chars(s).as_slice(), p)
}

/// Replaces every occurrence of `p` in `s` by `q`.
pub fn substitute(s: &str, p: &str, q: &str) -> (r: String)
    requires
        p@.len() > 0,
    ensures
        r@ == replaced(s@, p@, q@),
{
    let r = replace(to_chars(s).as_slice(), to_chars(p).as_slice(), to_chars(q).as_slice());
    to_text(r.as_slice())
}

/// What stands in a part stands in the whole.
pub proof fn lemma_occurs_within(s: Seq<char>, p: Seq<char>, q: Seq<char>)
    requires
        occurs(s, p),
        occurs(p, q),
    ensures
        occurs(s, q),
{
    let i = choose|i: int| #[trigger] occurs_at(s, p, i);
    let j = choose|j: int| #[trigger] occurs_at(p, q, j);
    assert(s.subrange(i + j, i + j + q.len()) =~= p.subrange(j, j + q.len()));
    assert(occurs_at(s, q, i + j));
}

/// What stands in a part of a text stands in the text.
pub proof fn lemma_occurs_shifted(head: Seq<char>, s: Seq<char>, tail: Seq<char>, p: Seq<char>)
    requires
        occurs(s, p),
    ensures
        occurs(head + s + tail, p),
{
    let i = choose|i: int| #[trigger] occurs_at(s, p, i);
    let all = head + s + tail;
    assert(all.subrange(head.len() + i, head.len() + i + p.len()) =~= s.subrange(i, i + p.len()));
    assert(occurs_at(all, p, head.len() + i));
}

/// Replacing puts the replacement in exactly where there is something to replace: otherwise the
/// text stays as it is.
pub proof fn law_replaced(s: Seq<char>, p: Seq<char>, q: Seq<char>)
    requires
        p.len() > 0,
    ensures
        occurs(s, p) ==> occurs(replaced(s, p, q), q),
        !occurs(s, p) ==> replaced(s, p, q) == s,
    decreases s.len(),
{
    if s.len() == 0 {
        assert forall|i: int| !occurs_at(s, p, i) by {}
    } else if begins(s, p) {
        let rest = replaced(s.skip(p.len() as int), p, q);
        assert(occurs_at(s, p, 0));
        assert((q + rest).subrange(0, q.len() as int) =~= q);
        assert(occurs_at(q + rest, q, 0));
    } else {
        let tail = s.skip(1);
        let rest = replaced(tail, p, q);
        law_replaced(tail, p, q);
        if occurs(s, p) {
            let i = choose|i: int| #[trigger] occurs_at(s, p, i);
            assert(i > 0);
            assert(tail.subrange(i - 1, i - 1 + p.len()) =~= s.subrange(i, i + p.len()));
            assert(occurs_at(tail, p, i - 1));
            lemma_occurs_shifted(seq![s[0]], rest, Seq::empty(), q);
            assert(seq![s[0]] + rest + Seq::<char>::empty() =~= seq![s[0]] + rest);
        } else {
            if occurs(tail, p) {
                lemma_occurs_shifted(seq![s[0]], tail, Seq::empty(), p);
                assert(seq![s[0]] + tail + Seq::<char>::empty() =~= s);
            }
            assert(seq![s[0]] + rest =~= s);
        }
    }
}

/// `head` put before the first of `pieces`.
pub open spec fn glued(head: Seq<char>, pieces: Seq<Seq<char>>) -> Seq<Seq<char>> {
    seq![head + pieces[0]] + pieces.skip(1)
}

/// The pieces of `s` between the occurrences of `sep`, at most `n` of them: the last one holds
/// what is left.
pub open spec fn split_n(s: Seq<char>, sep: Seq<char>, n: nat) -> Seq<Seq<char>>
    decreases s.len(),
{
    if n <= 1 || s.len() == 0 {
        seq![s]
    } else if sep.len() > 0 && begins(s, sep) {
        seq![Seq::<char>::empty()] + split_n(s.skip(sep.len() as int), sep, (n - 1) as nat)
    } else {
        glued(seq![s[0]], split_n(s.skip(1), sep, n))
    }
}

/// All the pieces of `s` between the occurrences of `sep`.
pub open spec fn split(s: Seq<char>, sep: Seq<char>) -> Seq<Seq<char>> {
    split_n(s, sep, s.len() + 1)
}

/// The characters of each of a list of texts.
pub open spec fn texts(v: Seq<Vec<char>>) -> Seq<Seq<char>> {
    Seq::new(v.len(), |i: int| v[i]@)
}

/// Splitting yields at least one piece and at most `n`.
pub proof fn lemma_split_n_len(s: Seq<char>, sep: Seq<char>, n: nat)
    ensures
        1 <= split_n(s, sep, n).len(),
        n >= 1 ==> split_n(s, sep, n).len() <= n,
    decreases s.len(),
{
    if n <= 1 || s.len() == 0 {
    } else if sep.len() > 0 && begins(s, sep) {
        lemma_split_n_len(s.skip(sep.len() as int), sep, (n - 1) as nat);
    } else {
        lemma_split_n_len(s.skip(1), sep, n);
    }
}

/// Every piece of a split text stands in the text.
pub proof fn lemma_split_parts(s: Seq<char>, sep: Seq<char>, n: nat, i: int)
    requires
        0 <= i < split_n(s, sep, n).len(),
    ensures
        occurs(s, split_n(s, sep, n)[i]),
        i == 0 ==> begins(s, split_n(s, sep, n)[0]),
    decreases s.len(),
{
    let p = split_n(s, sep, n)[i];
    if n <= 1 || s.len() == 0 {
        assert(s.subrange(0, s.len() as int) =~= s);
        assert(occurs_at(s, p, 0));
    } else if sep.len() > 0 && begins(s, sep) {
        let tail = s.skip(sep.len() as int);
        if i == 0 {
            assert(s.subrange(0, 0) =~= p);
            assert(occurs_at(s, p, 0));
        } else {
            assert(p == split_n(tail, sep, (n - 1) as nat)[i - 1]);
            lemma_split_parts(tail, sep, (n - 1) as nat, i - 1);
            lemma_occurs_shifted(s.take(sep.len() as int), tail, Seq::empty(), p);
            assert(s.take(sep.len() as int) + tail + Seq::<char>::empty() =~= s);
        }
    } else {
        let tail = s.skip(1);
        lemma_split_n_len(tail, sep, n);
        lemma_split_parts(tail, sep, n, i);
        if i == 0 {
            let q = split_n(tail, sep, n)[0];
            assert(s.subrange(0, p.len() as int) =~= seq![s[0]] + tail.subrange(0, q.len() as int));
            assert(occurs_at(s, p, 0));
        } else {
            assert(p == split_n(tail, sep, n)[i]);
            lemma_occurs_shifted(seq![s[0]], tail, Seq::empty(), p);
            assert(seq![s[0]] + tail + Seq::<char>::empty() =~= s);
        }
    }
}

/// A text that is split wherever it can be has pieces without the separator.
pub proof fn lemma_split_clean(s: Seq<char>, sep: Seq<char>, n: nat, i: int)
    requires
        sep.len() > 0,
        n > s.len(),
        0 <= i < split_n(s, sep, n).len(),
    ensures
        !occurs(split_n(s, sep, n)[i], sep),
    decreases s.len(),
{
    let p = split_n(s, sep, n)[i];
    if s.len() == 0 {
        assert forall|k: int| !occurs_at(p, sep, k) by {}
    } else if n <= 1 {
    } else if begins(s, sep) {
        let tail = s.skip(sep.len() as int);
        if i == 0 {
            assert forall|k: int| !occurs_at(p, sep, k) by {}
        } else {
            assert(p == split_n(tail, sep, (n - 1) as nat)[i - 1]);
            lemma_split_clean(tail, sep, (n - 1) as nat, i - 1);
        }
    } else {
        let tail = s.skip(1);
        let rest = split_n(tail, sep, n);
        lemma_split_n_len(tail, sep, n);
        lemma_split_clean(tail, sep, n, i);
        if i == 0 {
            lemma_split_parts(s, sep, n, 0);
            assert forall|k: int| !occurs_at(p, sep, k) by {
                if occurs_at(p, sep, k) {
                    if k == 0 {
                        assert(s.subrange(0, sep.len() as int) =~= s.subrange(
                            0,
                            p.len() as int,
                        ).subrange(0, sep.len() as int));
                    } else {
                        assert(rest[0].subrange(k - 1, k - 1 + sep.len()) =~= p.subrange(
                            k,
                            k + sep.len(),
                        ));
                        assert(occurs_at(rest[0], sep, k - 1));
                    }
                }
            }
        } else {
            assert(p == rest[i]);
        }
    }
}

/// A text of two different characters.
pub open spec fn two_marks(sep: Seq<char>) -> bool {
    sep.len() == 2 && sep[0] != sep[1]
}

proof fn lemma_split_at_first(head: Seq<char>, sep: Seq<char>, tail: Seq<char>, n: nat)
    requires
        two_marks(sep),
        n >= 2,
        !occurs(head, sep),
    ensures
        split_n(head + sep + tail, sep, n) == seq![head] + split_n(tail, sep, (n - 1) as nat),
    decreases head.len(),
{
    let s = head + sep + tail;
    let rest = split_n(tail, sep, (n - 1) as nat);
    if head.len() == 0 {
        assert(s.subrange(0, 2) =~= sep);
        assert(s.skip(2) =~= tail);
        assert(head =~= Seq::<char>::empty());
    } else {
        let next = head.skip(1);
        if occurs(next, sep) {
            lemma_occurs_shifted(seq![head[0]], next, Seq::empty(), sep);
            assert(seq![head[0]] + next + Seq::<char>::empty() =~= head);
        }
        if begins(s, sep) {
            assert(s.subrange(0, 2)[0] == s[0] && s.subrange(0, 2)[1] == s[1]);
            if head.len() >= 2 {
                assert(head.subrange(0, 2) =~= sep);
                assert(occurs_at(head, sep, 0));
            }
        }
        assert(s.skip(1) =~= next + sep + tail);
        lemma_split_at_first(next, sep, tail, n);
        assert(seq![s[0]] + next =~= head);
        assert(glued(seq![s[0]], seq![next] + rest) =~= seq![head] + rest);
    }
}

proof fn lemma_split_whole(s: Seq<char>, sep: Seq<char>, n: nat)
    requires
        two_marks(sep),
        !occurs(s, sep),
    ensures
        split_n(s, sep, n) == seq![s],
    decreases s.len(),
{
    if n > 1 && s.len() > 0 {
        let next = s.skip(1);
        if occurs(next, sep) {
            lemma_occurs_shifted(seq![s[0]], next, Seq::empty(), sep);
            assert(seq![s[0]] + next + Seq::<char>::empty() =~= s);
        }
        assert(begins(s, sep) ==> occurs_at(s, sep, 0));
        lemma_split_whole(next, sep, n);
        assert(seq![s[0]] + next =~= s);
        assert(glued(seq![s[0]], seq![next]) =~= seq![s]);
    }
}

/// Splitting joined pieces gives the pieces back, where none of them holds the separator.
pub proof fn law_join_split(pieces: Seq<Seq<char>>, sep: Seq<char>, n: nat)
    requires
        two_marks(sep),
        pieces.len() > 0,
        n >= pieces.len(),
        forall|i: int| 0 <= i < pieces.len() ==> !occurs(#[trigger] pieces[i], sep),
    ensures
        split_n(joined(pieces, sep), sep, n) == pieces,
        joined(pieces, sep).len() + 1 >= pieces.len(),
    decreases pieces.len(),
{
    if pieces.len() == 1 {
        lemma_split_whole(pieces[0], sep, n);
        assert(seq![pieces[0]] =~= pieces);
    } else {
        let rest = pieces.skip(1);
        assert forall|i: int| 0 <= i < rest.len() implies !occurs(#[trigger] rest[i], sep) by {
            assert(rest[i] == pieces[i + 1]);
        }
        law_join_split(rest, sep, (n - 1) as nat);
        lemma_joined_first(pieces[0], rest, sep);
        assert(seq![pieces[0]] + rest =~= pieces);
        lemma_split_at_first(pieces[0], sep, joined(rest, sep), n);
    }
}

/// The number of pieces that a limit allows: without one, as many as the text can give.
pub open spec fn allowed(s: Seq<char>, limit: Option<usize>) -> nat {
    match limit {
        Some(n) => n as nat,
        None => s.len() + 1,
    }
}

/// Splits `s` at the occurrences of `sep`, into at most as many pieces as the limit says.
pub fn split_limited(s: &[char], sep: &[char], limit: Option<usize>) -> (r: Vec<Vec<char>>)
    requires
        sep@.len() > 0,
        limit matches Some(n) ==> n >= 1,
    ensures
        texts(r@) == split_n(s@, sep@, allowed(s@, limit)),
{
    let bounded = limit.is_some();
    let mut left: usize = match limit {
        Some(n) => n,
        None => 1,
    };
    let ghost n = allowed(s@, limit);
    let ghost mut room = n;
    let mut done: Vec<Vec<char>> = Vec::new();
    let mut current: Vec<char> = Vec::new();
    let mut i: usize = 0;
    proof {
        assert(s@.skip(0) =~= s@);
        lemma_split_n_len(s@, sep@, n);
        assert(split_n(s@, sep@, n) =~= texts(done@) + glued(
            current@,
            split_n(s@, sep@, n),
        )) by {
            assert(current@ + split_n(s@, sep@, n)[0] =~= split_n(s@, sep@, n)[0]);
        }
    }
    while i < s.len() && (!bounded || left > 1)
        invariant
            sep@.len() > 0,
            i <= s@.len(),
            left >= 1,
            bounded ==> room == left,
            !bounded ==> room > s@.len() - i,
            room >= 1,
            split_n(s@, sep@, n) == texts(done@) + glued(
                current@,
                split_n(s@.skip(i as int), sep@, room),
            ),
        decreases s@.len() - i,
    {
        let ghost tail = s@.skip(i as int);
        let ghost before = texts(done@);
        let ghost whole = split_n(s@, sep@, n);
        if matches_at(s, sep, i) {
            proof {
                assert(s@.subrange(i as int, i + sep@.len()) =~= tail.subrange(
                    0,
                    sep@.len() as int,
                ));
                assert(tail.skip(sep@.len() as int) =~= s@.skip(i + sep@.len()));
                lemma_split_n_len(s@.skip(i + sep@.len()), sep@, (room - 1) as nat);
            }
            let ghost cur = current@;
            done.push(current);
            current = Vec::new();
            i += sep.len();
            if bounded {
                left -= 1;
            }
            proof {
                room = (room - 1) as nat;
                let rest = split_n(s@.skip(i as int), sep@, room);
                assert(split_n(tail, sep@, (room + 1) as nat) =~= seq![Seq::<char>::empty()]
                    + rest);
                assert(texts(done@) =~= before + seq![cur]);
                assert(cur + Seq::<char>::empty() =~= cur);
                assert(current@ + rest[0] =~= rest[0]);
                assert(whole =~= texts(done@) + glued(current@, rest));
            }
        } else {
            proof {
                assert(begins(tail, sep@) ==> tail.subrange(0, sep@.len() as int) =~= s@.subrange(
                    i as int,
                    i + sep@.len(),
                ));
                assert(tail.skip(1) =~= s@.skip(i + 1));
                lemma_split_n_len(s@.skip(i + 1), sep@, room);
            }
            let ghost cur = current@;
            current.push(s[i]);
            i += 1;
            proof {
                let rest = split_n(s@.skip(i as int), sep@, room);
                assert(split_n(tail, sep@, room) == glued(seq![tail[0]], rest));
                assert(cur + (seq![tail[0]] + rest[0]) =~= current@ + rest[0]);
                assert(whole =~= texts(done@) + glued(current@, rest));
            }
        }
    }
    let ghost tail = s@.skip(i as int);
    let ghost before = texts(done@);
    let ghost cur = current@;
    let rest = piece(s, i, s.len());
    push_all(&mut current, rest.as_slice());
    proof {
        assert(rest@ =~= tail);
        assert(split_n(tail, sep@, room) =~= seq![tail]);
        assert(glued(cur, seq![tail]) =~= seq![cur + tail]);
    }
    done.push(current);
    assert(texts(done@) =~= before + seq![cur + tail]);
    done
}

/// Splits `s` at every occurrence of `sep`.
pub fn split_all(s: &[char], sep: &str) -> (r: Vec<Vec<char>>)
    requires
        sep@.len() > 0,
    ensures
        texts(r@) == split(s@, sep@),
{
    split_limited(s, to_chars(sep).as_slice(), None)
}

/// A text is split at its first separator: what stands before it is the first piece.
pub proof fn lemma_split_first(head: Seq<char>, sep: Seq<char>, tail: Seq<char>, n: nat)
    requires
        sep.len() == 1,
        n >= 2,
        !head.contains(sep[0]),
    ensures
        split_n(head + sep + tail, sep, n) == seq![head] + split_n(tail, sep, (n - 1) as nat),
    decreases head.len(),
{
    let s = head + sep + tail;
    if head.len() == 0 {
        assert(s.subrange(0, 1) =~= sep);
        assert(s.skip(1) =~= tail);
        assert(head =~= Seq::<char>::empty());
    } else {
        let next = head.skip(1);
        assert(!next.contains(sep[0])) by {
            if next.contains(sep[0]) {
                let i = choose|i: int| 0 <= i < next.len() && next[i] == sep[0];
                assert(head[i + 1] == sep[0]);
            }
        }
        assert(head[0] != sep[0]);
        assert(begins(s, sep) ==> s.subrange(0, 1)[0] == s[0]);
        assert(s.skip(1) =~= next + sep + tail);
        lemma_split_first(next, sep, tail, n);
        assert(seq![s[0]] + next =~= head);
        assert(glued(seq![s[0]], seq![next] + split_n(tail, sep, (n - 1) as nat)) =~= seq![head]
            + split_n(tail, sep, (n - 1) as nat));
    }
}

/// A text without the separator is one piece.
pub proof fn lemma_split_none(s: Seq<char>, sep: Seq<char>, n: nat)
    requires
        sep.len() == 1,
        !s.contains(sep[0]),
    ensures
        split_n(s, sep, n) == seq![s],
    decreases s.len(),
{
    if n <= 1 || s.len() == 0 {
    } else {
        let next = s.skip(1);
        assert(!next.contains(sep[0])) by {
            if next.contains(sep[0]) {
                let i = choose|i: int| 0 <= i < next.len() && next[i] == sep[0];
                assert(s[i + 1] == sep[0]);
            }
        }
        assert(s[0] != sep[0]);
        assert(begins(s, sep) ==> s.subrange(0, 1)[0] == s[0]);
        lemma_split_none(next, sep, n);
        assert(seq![s[0]] + next =~= s);
        assert(glued(seq![s[0]], seq![next]) =~= seq![s]);
    }
}

/// `pieces` put one after the other with `sep` between them.
pub open spec fn joined(pieces: Seq<Seq<char>>, sep: Seq<char>) -> Seq<char>
    decreases pieces.len(),
{
    if pieces.len() == 0 {
        Seq::empty()
    } else if pieces.len() == 1 {
        pieces[0]
    } else {
        joined(pieces.drop_last(), sep) + sep + pieces.last()
    }
}

/// Puts texts one after the other with `sep` between them.
pub fn join(pieces: &Vec<Vec<char>>, sep: &str) -> (r: Vec<char>)
    ensures
        r@ == joined(texts(pieces@), sep@),
{
    let mut out: Vec<char> = Vec::new();
    let mut i: usize = 0;
    while i < pieces.len()
        invariant
            i <= pieces@.len(),
            out@ == joined(texts(pieces@).take(i as int), sep@),
        decreases pieces@.len() - i,
    {
        if i > 0 {
            push_str(&mut out, sep);
        }
        push_all(&mut out, pieces[i].as_slice());
        proof {
            let next = texts(pieces@).take(i + 1);
            assert(next.drop_last() =~= texts(pieces@).take(i as int));
            assert(next.last() == pieces@[i as int]@);
            assert(out@ =~= joined(next, sep@));
        }
        i += 1;
    }
    assert(texts(pieces@).take(pieces@.len() as int) =~= texts(pieces@));
    out
}

proof fn lemma_joined_first(first: Seq<char>, rest: Seq<Seq<char>>, sep: Seq<char>)
    requires
        rest.len() > 0,
    ensures
        joined(seq![first] + rest, sep) == first + sep + joined(rest, sep),
    decreases rest.len(),
{
    let all = seq![first] + rest;
    if rest.len() == 1 {
        assert(all.drop_last() =~= seq![first]);
        assert(joined(seq![first], sep) == first);
        assert(joined(all, sep) =~= first + sep + rest[0]);
    } else {
        assert(all.drop_last() =~= seq![first] + rest.drop_last());
        lemma_joined_first(first, rest.drop_last(), sep);
        assert(joined(all, sep) =~= first + sep + joined(rest, sep));
    }
}

proof fn lemma_joined_glued(head: Seq<char>, pieces: Seq<Seq<char>>, sep: Seq<char>)
    requires
        pieces.len() > 0,
    ensures
        joined(glued(head, pieces), sep) == head + joined(pieces, sep),
{
    let rest = pieces.skip(1);
    if rest.len() == 0 {
        assert(glued(head, pieces) =~= seq![head + pieces[0]]);
    } else {
        lemma_joined_first(head + pieces[0], rest, sep);
        lemma_joined_first(pieces[0], rest, sep);
        assert(pieces =~= seq![pieces[0]] + rest);
        assert(head + pieces[0] + sep + joined(rest, sep) =~= head + (pieces[0] + sep + joined(
            rest,
            sep,
        )));
    }
}

/// Joining the pieces of a split text gives the text back.
pub proof fn law_split_join(s: Seq<char>, sep: Seq<char>, n: nat)
    ensures
        joined(split_n(s, sep, n), sep) == s,
    decreases s.len(),
{
    if n <= 1 || s.len() == 0 {
    } else if sep.len() > 0 && begins(s, sep) {
        let tail = s.skip(sep.len() as int);
        law_split_join(tail, sep, (n - 1) as nat);
        lemma_split_n_len(tail, sep, (n - 1) as nat);
        lemma_joined_first(Seq::empty(), split_n(tail, sep, (n - 1) as nat), sep);
        assert(s =~= Seq::<char>::empty() + s.subrange(0, sep.len() as int) + tail);
    } else {
        law_split_join(s.skip(1), sep, n);
        lemma_split_n_len(s.skip(1), sep, n);
        lemma_joined_glued(seq![s[0]], split_n(s.skip(1), sep, n), sep);
        assert(s =~= seq![s[0]] + s.skip(1));
    }
}

/// The lowercase form of a text.
pub uninterp spec fn lowercased(s: Seq<char>) -> Seq<char>;

/// A text of ASCII characters.
pub open spec fn ascii(s: Seq<char>) -> bool {
    forall|i: int| 0 <= i < s.len() ==> #[trigger] s[i] as u32 <= 127
}

/// A text with its ASCII letters in lowercase.
pub open spec fn ascii_lowercased(s: Seq<char>) -> Seq<char> {
    Seq::new(s.len(), |i: int| crate::number::ascii_lower(s[i]))
}

/// `str::to_lowercase`: the result depends on the text alone; in an ASCII text each letter becomes
/// the lowercase one and the rest stays.
#[verifier::external_body]
pub(crate) fn lowercase(s: &str) -> (r: String)
    ensures
        r@ == lowercased(s@),
        ascii(s@) ==> r@ == ascii_lowercased(s@),
{
    s.to_lowercase()
}

/// The characters with the Unicode property `White_Space`.
pub open spec fn white(c: char) -> bool {
    let u = c as u32;
    ||| 0x09 <= u <= 0x0d
    ||| u == 0x20
    ||| u == 0x85
    ||| u == 0xa0
    ||| u == 0x1680
    ||| 0x2000 <= u <= 0x200a
    ||| 0x2028 <= u <= 0x2029
    ||| u == 0x202f
    ||| u == 0x205f
    ||| u == 0x3000
}

/// Whether a character is white space.
pub fn is_white(c: char) -> (r: bool)
    ensures
        r == white(c),
{
    let u: u32 = c as u32;
    (0x09 <= u && u <= 0x0d) || u == 0x20 || u == 0x85 || u == 0xa0 || u == 0x1680 || (0x2000 <= u
        && u <= 0x200a) || (0x2028 <= u && u <= 0x2029) || u == 0x202f || u == 0x205f || u == 0x3000
}

/// `s` without the white space at its start.
pub open spec fn trimmed_start(s: Seq<char>) -> Seq<char>
    decreases s.len(),
{
    if s.len() > 0 && white(s[0]) {
        trimmed_start(s.skip(1))
    } else {
        s
    }
}

/// `s` without the white space at its end.
pub open spec fn trimmed_end(s: Seq<char>) -> Seq<char>
    decreases s.len(),
{
    if s.len() > 0 && white(s.last()) {
        trimmed_end(s.drop_last())
    } else {
        s
    }
}

/// `s` without the white space at either end.
pub open spec fn trimmed(s: Seq<char>) -> Seq<char> {
    trimmed_end(trimmed_start(s))
}

/// Removes the white space at either end.
pub fn trim(s: &[char]) -> (r: Vec<char>)
    ensures
        r@ == trimmed(s@),
{
    let mut i: usize = 0;
    assert(s@.skip(0) =~= s@);
    while i < s.len() && is_white(s[i])
        invariant
            i <= s@.len(),
            trimmed_start(s@) == trimmed_start(s@.skip(i as int)),
        decreases s@.len() - i,
    {
        assert(s@.skip(i as int).skip(1) =~= s@.skip(i + 1));
        i += 1;
    }
    let ghost start = s@.skip(i as int);
    assert(trimmed_start(s@) == start);
    let mut j: usize = s.len();
    assert(s@.subrange(i as int, j as int) =~= start);
    while j > i && is_white(s[j - 1])
        invariant
            i <= j <= s@.len(),
            trimmed_end(start) == trimmed_end(s@.subrange(i as int, j as int)),
        decreases j,
    {
        assert(s@.subrange(i as int, j as int).drop_last() =~= s@.subrange(i as int, j - 1));
        j -= 1;
    }
    piece(s, i, j)
}

/// A text that holds nothing but white space.
pub open spec fn blank(s: Seq<char>) -> bool {
    trimmed(s).len() == 0
}

/// How many characters stand before the first one of `s` for which `stop` holds.
pub open spec fn run(s: Seq<char>, stop: spec_fn(char) -> bool) -> nat
    decreases s.len(),
{
    if s.len() == 0 || stop(s[0]) {
        0
    } else {
        1 + run(s.skip(1), stop)
    }
}

pub proof fn lemma_run(s: Seq<char>, stop: spec_fn(char) -> bool)
    ensures
        run(s, stop) <= s.len(),
        run(s, stop) < s.len() ==> stop(s[run(s, stop) as int]),
        forall|i: int| 0 <= i < run(s, stop) ==> !stop(#[trigger] s[i]),
    decreases s.len(),
{
    if s.len() == 0 || stop(s[0]) {
    } else {
        lemma_run(s.skip(1), stop);
        assert forall|i: int| 0 <= i < run(s, stop) implies !stop(#[trigger] s[i]) by {
            if i > 0 {
                assert(s[i] == s.skip(1)[i - 1]);
            }
        }
    }
}

pub proof fn lemma_run_is(s: Seq<char>, stop: spec_fn(char) -> bool, n: nat)
    requires
        n <= s.len(),
        n < s.len() ==> stop(s[n as int]),
        forall|i: int| 0 <= i < n ==> !stop(#[trigger] s[i]),
    ensures
        run(s, stop) == n,
{
    lemma_run(s, stop);
    let m = run(s, stop);
    if m < n {
        assert(stop(s[m as int]));
    }
    if n < m {
        assert(!stop(s[n as int]));
    }
}

/// The words of `s`: its maximal runs of characters that are not white space.
pub open spec fn words(s: Seq<char>) -> Seq<Seq<char>>
    decreases s.len(),
    via words_decreases
{
    if s.len() == 0 {
        Seq::empty()
    } else if white(s[0]) {
        words(s.skip(1))
    } else {
        let n = run(s, |c: char| white(c)) as int;
        seq![s.take(n)] + words(s.skip(n))
    }
}

#[via_fn]
proof fn words_decreases(s: Seq<char>) {
    lemma_run(s, |c: char| white(c));
}

/// Splits a text into its words.
pub fn split_words(s: &[char]) -> (r: Vec<Vec<char>>)
    ensures
        texts(r@) == words(s@),
{
    let mut out: Vec<Vec<char>> = Vec::new();
    let mut i: usize = 0;
    assert(s@.skip(0) =~= s@);
    assert(texts(out@) + words(s@) =~= words(s@));
    while i < s.len()
        invariant
            i <= s@.len(),
            words(s@) == texts(out@) + words(s@.skip(i as int)),
        decreases s@.len() - i,
    {
        let ghost tail = s@.skip(i as int);
        if is_white(s[i]) {
            assert(tail.skip(1) =~= s@.skip(i + 1));
            i += 1;
        } else {
            let mut j: usize = i;
            while j < s.len() && !is_white(s[j])
                invariant
                    i <= j <= s@.len(),
                    forall|k: int| i <= k < j ==> !white(#[trigger] s@[k]),
                decreases s@.len() - j,
            {
                j += 1;
            }
            let ghost before = texts(out@);
            let word = piece(s, i, j);
            proof {
                lemma_run_is(tail, |c: char| white(c), (j - i) as nat);
                assert(tail.take(j - i) =~= word@);
                assert(tail.skip(j - i) =~= s@.skip(j as int));
            }
            out.push(word);
            assert(texts(out@) =~= before + seq![word@]);
            assert(texts(out@) + words(s@.skip(j as int)) =~= before + (seq![word@] + words(
                s@.skip(j as int),
            )));
            i = j;
        }
    }
    assert(texts(out@) + words(s@.skip(i as int)) =~= texts(out@));
    out
}

/// A line without the carriage return at its end.
pub open spec fn without_cr(s: Seq<char>) -> Seq<char> {
    if s.len() > 0 && s.last() == '\r' {
        s.drop_last()
    } else {
        s
    }
}

/// The lines of `s`: each ends at a line feed, or at a carriage return and a line feed, which are
/// not part of it; the last one may lack them.
pub open spec fn lines(s: Seq<char>) -> Seq<Seq<char>>
    decreases s.len(),
    via lines_decreases
{
    if s.len() == 0 {
        Seq::empty()
    } else {
        let n = run(s, |c: char| c == '\n') as int;
        if n == s.len() {
            seq![s]
        } else {
            seq![without_cr(s.take(n))] + lines(s.skip(n + 1))
        }
    }
}

#[via_fn]
proof fn lines_decreases(s: Seq<char>) {
    lemma_run(s, |c: char| c == '\n');
}

/// Splits a text into its lines.
pub fn split_lines(s: &[char]) -> (r: Vec<Vec<char>>)
    ensures
        texts(r@) == lines(s@),
{
    let mut out: Vec<Vec<char>> = Vec::new();
    let mut i: usize = 0;
    assert(s@.skip(0) =~= s@);
    assert(texts(out@) + lines(s@) =~= lines(s@));
    while i < s.len()
        invariant
            i <= s@.len(),
            lines(s@) == texts(out@) + lines(s@.skip(i as int)),
        decreases s@.len() - i,
    {
        let ghost tail = s@.skip(i as int);
        let mut j: usize = i;
        while j < s.len() && s[j] != '\n'
            invariant
                i <= j <= s@.len(),
                forall|k: int| i <= k < j ==> #[trigger] s@[k] != '\n',
            decreases s@.len() - j,
        {
            j += 1;
        }
        let ghost before = texts(out@);
        proof {
            lemma_run_is(tail, |c: char| c == '\n', (j - i) as nat);
        }
        if j == s.len() {
            let line = piece(s, i, j);
            assert(line@ =~= tail);
            out.push(line);
            i = j;
            assert(texts(out@) + lines(s@.skip(i as int)) =~= before + seq![line@]);
        } else {
            let line = if j > i && s[j - 1] == '\r' {
                piece(s, i, j - 1)
            } else {
                piece(s, i, j)
            };
            assert(line@ =~= without_cr(tail.take(j - i)));
            assert(tail.skip(j - i + 1) =~= s@.skip(j + 1));
            out.push(line);
            i = j + 1;
            assert(texts(out@) =~= before + seq![line@]);
            assert(texts(out@) + lines(s@.skip(i as int)) =~= before + (seq![line@] + lines(
                s@.skip(i as int),
            )));
        }
    }
    assert(texts(out@) + lines(s@.skip(i as int)) =~= texts(out@));
    out
}

} // verus!
