//! Regular expressions over session descriptions.

use vstd::prelude::*;
use crate::number;
use crate::text;

verus! {

broadcast use vstd::string::group_string_axioms;

/// The payload type that a retransmission stream belongs to.
pub const APT: &'static str = "(apt=\\d+)";

/// A retransmission time.
pub const RTX_TIME: &'static str = "rtx-time=\\d+";

/// An H.264 profile and level.
pub const PROFILE_LEVEL_ID: &'static str = "profile-level-id=\\w+";

/// Whether the level may differ between the directions.
pub const LEVEL_ASYMMETRY: &'static str = "level-asymmetry-allowed=\\d+";

/// Whether parameter sets precede each key frame.
pub const SPS_PPS_IDR: &'static str = "sps-pps-idr-in-keyframe=\\d+";

/// A parameter of a media stream: what stands before it is not a dash.
pub const SPROP: &'static str = "([^-]sprop-[^\\r\\n]+)";

/// An H.265 level.
pub const LEVEL_ID: &'static str = "level-id=\\d+";

/// The start of a format line, and its parameters.
pub const FMTP: &'static str = "^(a=fmtp:\\d+ )(.*)$";

/// A base64 sequence parameter set.
pub const SPROP_SPS: &'static str = "sprop-sps=([A-Za-z0-9+/=]+)";

/// A text with every match of a regular expression replaced.
pub uninterp spec fn regex_replaced(
    pattern: Seq<char>,
    haystack: Seq<char>,
    replacement: Seq<char>,
) -> Seq<char>;

/// A set of characters.
pub enum Class {
    /// Decimal digits.
    Digit,
    /// Letters, digits and the underscore.
    Word,
    /// All but the ends of lines.
    InLine,
    /// What base64 is written with.
    Base64,
}

/// A character belongs to a class. Whether one that is not ASCII is a digit or a letter, the
/// expressions themselves say: behind a name, they take it away or leave it.
pub open spec fn in_class(class: Class, c: char) -> bool {
    match class {
        Class::Digit => if c as u32 <= 127 {
            number::digit(c)
        } else {
            regex_replaced(LEVEL_ID@, "level-id="@ + seq![c], ""@) == ""@
        },
        Class::Word => if c as u32 <= 127 {
            number::digit(c) || 'a' <= c <= 'z' || 'A' <= c <= 'Z' || c == '_'
        } else {
            regex_replaced(PROFILE_LEVEL_ID@, "profile-level-id="@ + seq![c], ""@) == ""@
        },
        Class::InLine => c != '\r' && c != '\n',
        Class::Base64 => number::digit(c) || 'a' <= c <= 'z' || 'A' <= c <= 'Z' || c == '+' || c
            == '/' || c == '=',
    }
}

/// The test for a character that does not belong to a class.
pub open spec fn outside(class: Class) -> spec_fn(char) -> bool {
    |c: char| !in_class(class, c)
}

/// What a regular expression looks for: a name, and behind it the longest run of characters of a
/// class, at least one of them. Where it is led, one character that is no dash stands before it.
pub struct Shape {
    pub led: bool,
    pub name: Seq<char>,
    pub class: Class,
}

impl Shape {
    /// How many characters stand before the run.
    pub open spec fn head(self) -> int {
        if self.led {
            self.name.len() as int + 1
        } else {
            self.name.len() as int
        }
    }

    /// A text begins with a match.
    pub open spec fn starts(self, s: Seq<char>) -> bool {
        &&& s.len() > self.head()
        &&& self.led ==> s[0] != '-'
        &&& text::occurs_at(s, self.name, self.head() - self.name.len())
        &&& in_class(self.class, s[self.head()])
    }

    /// How long the match is that a text begins with.
    pub open spec fn length(self, s: Seq<char>) -> int {
        self.head() + text::run(s.skip(self.head()), outside(self.class))
    }
}

/// A setting: a name and its value.
pub open spec fn setting(name: Seq<char>, class: Class) -> Shape {
    Shape { led: false, name, class }
}

/// What an expression that is used for replacing looks for.
pub open spec fn looks_for(pattern: Seq<char>, shape: Shape) -> bool {
    ||| pattern == APT@ && shape == setting("apt="@, Class::Digit)
    ||| pattern == RTX_TIME@ && shape == setting("rtx-time="@, Class::Digit)
    ||| pattern == PROFILE_LEVEL_ID@ && shape == setting("profile-level-id="@, Class::Word)
    ||| pattern == LEVEL_ASYMMETRY@ && shape == setting("level-asymmetry-allowed="@, Class::Digit)
    ||| pattern == SPS_PPS_IDR@ && shape == setting("sps-pps-idr-in-keyframe="@, Class::Digit)
    ||| pattern == LEVEL_ID@ && shape == setting("level-id="@, Class::Digit)
    ||| pattern == SPROP@ && shape == (Shape {
        led: true,
        name: "sprop-"@,
        class: Class::InLine,
    })
}

/// A text with every match replaced, from left to right: the match is kept or not, and `put`
/// stands behind it or in its place.
pub open spec fn respelled(s: Seq<char>, shape: Shape, keep: bool, put: Seq<char>) -> Seq<char>
    decreases s.len(),
    via respelled_decreases
{
    if s.len() == 0 {
        s
    } else if shape.starts(s) {
        let n = shape.length(s);
        (if keep {
            s.take(n)
        } else {
            Seq::empty()
        }) + put + respelled(s.skip(n), shape, keep, put)
    } else {
        seq![s[0]] + respelled(s.skip(1), shape, keep, put)
    }
}

#[via_fn]
proof fn respelled_decreases(s: Seq<char>, shape: Shape, keep: bool, put: Seq<char>) {
    if shape.starts(s) {
        lemma_match(s, shape);
    }
}

/// A match holds its head and at least one character of the class, and ends before the next
/// character that is not of the class.
pub proof fn lemma_match(s: Seq<char>, shape: Shape)
    requires
        shape.starts(s),
    ensures
        0 <= shape.head() < shape.length(s) <= s.len(),
        shape.length(s) < s.len() ==> !in_class(shape.class, s[shape.length(s)]),
        forall|i: int|
            shape.head() <= i < shape.length(s) ==> in_class(shape.class, #[trigger] s[i]),
{
    let h = shape.head();
    let tail = s.skip(h);
    let stop = outside(shape.class);
    text::lemma_run(tail, stop);
    assert(tail[0] == s[h]);
    if text::run(tail, stop) == 0 {
        assert(stop(tail[0]));
    }
    assert forall|i: int| h <= i < shape.length(s) implies in_class(
        shape.class,
        #[trigger] s[i],
    ) by {
        assert(s[i] == tail[i - h]);
        assert(!stop(tail[i - h]));
    }
    if shape.length(s) < s.len() {
        assert(s[shape.length(s)] == tail[shape.length(s) - h]);
    }
}

/// The length of a match is told by where its run ends.
pub proof fn lemma_match_is(s: Seq<char>, shape: Shape, n: int)
    requires
        shape.head() < n <= s.len(),
        0 <= shape.head(),
        n < s.len() ==> !in_class(shape.class, s[n]),
        forall|i: int| shape.head() <= i < n ==> in_class(shape.class, #[trigger] s[i]),
    ensures
        shape.length(s) == n,
{
    let h = shape.head();
    let tail = s.skip(h);
    let stop = outside(shape.class);
    assert forall|i: int| 0 <= i < n - h implies !stop(#[trigger] tail[i]) by {
        assert(tail[i] == s[i + h]);
    }
    if n < s.len() {
        assert(tail[n - h] == s[n]);
    }
    text::lemma_run_is(tail, stop, (n - h) as nat);
}

/// The first match in a text: where it begins.
pub open spec fn first_match(s: Seq<char>, shape: Shape) -> Option<int>
    decreases s.len(),
{
    if s.len() == 0 {
        None
    } else if shape.starts(s) {
        Some(0)
    } else {
        match first_match(s.skip(1), shape) {
            Some(i) => Some(i + 1),
            None => None,
        }
    }
}

pub proof fn lemma_first_match(s: Seq<char>, shape: Shape)
    ensures
        match first_match(s, shape) {
            Some(i) => 0 <= i < s.len() && shape.starts(s.skip(i)) && forall|j: int|
                0 <= j < i ==> !shape.starts(#[trigger] s.skip(j)),
            None => forall|j: int| 0 <= j < s.len() ==> !shape.starts(#[trigger] s.skip(j)),
        },
    decreases s.len(),
{
    if s.len() > 0 {
        assert(s.skip(0) =~= s);
        let t = s.skip(1);
        if !shape.starts(s) {
            lemma_first_match(t, shape);
            let end = match first_match(s, shape) {
                Some(i) => i,
                None => s.len() as int,
            };
            assert forall|j: int| 0 <= j < end implies !shape.starts(#[trigger] s.skip(j)) by {
                if j > 0 {
                    assert(s.skip(j) =~= t.skip(j - 1));
                }
            }
            match first_match(s, shape) {
                Some(i) => {
                    assert(s.skip(i) =~= t.skip(i - 1));
                },
                None => {},
            }
        }
    }
}

pub proof fn lemma_first_match_is(s: Seq<char>, shape: Shape, i: int)
    requires
        0 <= i < s.len(),
        shape.starts(s.skip(i)),
        forall|j: int| 0 <= j < i ==> !shape.starts(#[trigger] s.skip(j)),
    ensures
        first_match(s, shape) == Some(i),
{
    lemma_first_match(s, shape);
    match first_match(s, shape) {
        Some(k) => {
            if k < i {
                assert(!shape.starts(s.skip(k)));
            }
        },
        None => {},
    }
}

/// The first match of a setting in a text: written out whole, and its value.
pub open spec fn found(s: Seq<char>, shape: Shape) -> Option<(Seq<char>, Seq<char>)> {
    match first_match(s, shape) {
        Some(i) => {
            let m = s.skip(i).take(shape.length(s.skip(i)));
            Some((m, m.skip(shape.head())))
        },
        None => None,
    }
}

/// What a base64 parameter set looks like among parameters.
pub open spec fn sprop_sps() -> Shape {
    setting("sprop-sps="@, Class::Base64)
}

/// The start of a format line, with its payload number and the space behind it, and the rest of
/// the line.
pub open spec fn format_parts(line: Seq<char>) -> Option<(Seq<char>, Seq<char>)> {
    let shape = setting("a=fmtp:"@, Class::Digit);
    let n = shape.length(line);
    if shape.starts(line) && n < line.len() && line[n] == ' ' && !line.skip(n + 1).contains('\n') {
        Some((line.take(n + 1), line.skip(n + 1)))
    } else {
        None
    }
}

/// A text does not hold a character.
pub open spec fn lacks(s: Seq<char>, c: char) -> bool
    decreases s.len(),
{
    s.len() == 0 || (s[0] != c && lacks(s.skip(1), c))
}

pub proof fn lemma_lacks(s: Seq<char>, c: char)
    ensures
        lacks(s, c) <==> !s.contains(c),
    decreases s.len(),
{
    if s.len() > 0 {
        let t = s.skip(1);
        lemma_lacks(t, c);
        if t.contains(c) {
            let i = choose|i: int| 0 <= i < t.len() && t[i] == c;
            assert(s[i + 1] == c);
        }
        if s.contains(c) && s[0] != c {
            let i = choose|i: int| 0 <= i < s.len() && s[i] == c;
            assert(t[i - 1] == c);
        }
    }
}

/// What a replacement puts in besides the first group, where it names that group at its start.
pub open spec fn inserted(replacement: Seq<char>) -> Seq<char> {
    if text::begins(replacement, "${1}"@) {
        replacement.skip(4)
    } else {
        replacement
    }
}

/// A replacement keeps the match: it names the group that the whole expression is.
pub open spec fn keeps(pattern: Seq<char>, replacement: Seq<char>) -> bool {
    text::begins(replacement, "${1}"@) && (pattern == APT@ || pattern == SPROP@)
}

/// A replacement that names no group is put in as it is.
pub proof fn lemma_inserted_plain(s: Seq<char>)
    requires
        lacks(s, '$'),
    ensures
        inserted(s) == s,
        !text::begins(s, "${1}"@),
{
    reveal_strlit("${1}");
    if text::begins(s, "${1}"@) {
        assert(s.subrange(0, 4)[0] == s[0]);
    }
}

/// `regex::Regex::replace_all` of `regex::Regex::new(pattern)`: the result depends on the three
/// texts alone. Every match is replaced, from left to right, each as long as the run of the class
/// at its end; the replacement puts in what it says, besides the group that it names. Every one of
/// the expressions is valid.
#[verifier::external_body]
pub(crate) fn replace_all(pattern: &str, haystack: &str, replacement: &str) -> (r: String)
    requires
        exists|shape: Shape| looks_for(pattern@, shape),
    ensures
        r@ == regex_replaced(pattern@, haystack@, replacement@),
        lacks(inserted(replacement@), '$') ==> forall|shape: Shape|
            #[trigger] looks_for(pattern@, shape) ==> r@ == respelled(
                haystack@,
                shape,
                keeps(pattern@, replacement@),
                inserted(replacement@),
            ),
{
    regex::Regex::new(pattern).unwrap().replace_all(haystack, replacement).into_owned()
}

/// `regex::Regex::captures` of `regex::Regex::new(pattern)`, each group by its text. The expression
/// for format lines matches a whole line, and has two groups: the start with the payload number, and
/// the rest. The expression for parameter sets finds the first one; its groups are the whole and the
/// base64 text.
#[verifier::external_body]
pub(crate) fn captures(pattern: &str, haystack: &str) -> (r: Option<Vec<Option<String>>>)
    requires
        pattern@ == FMTP@ || pattern@ == SPROP_SPS@,
    ensures
        pattern@ == FMTP@ ==> match format_parts(haystack@) {
            Some((start, rest)) => {
                &&& r is Some
                &&& r->0@.len() == 3
                &&& text::text_of(r->0@[0]) == Some(haystack@)
                &&& text::text_of(r->0@[1]) == Some(start)
                &&& text::text_of(r->0@[2]) == Some(rest)
            },
            None => r is None,
        },
        pattern@ == SPROP_SPS@ ==> match found(haystack@, sprop_sps()) {
            Some((whole, blob)) => {
                &&& r is Some
                &&& r->0@.len() == 2
                &&& text::text_of(r->0@[0]) == Some(whole)
                &&& text::text_of(r->0@[1]) == Some(blob)
            },
            None => r is None,
        },
{
    let found = regex::Regex::new(pattern).unwrap();
    let found = found.captures(haystack);
    found.map(|c| c.iter().map(|g| g.map(|m| m.as_str().to_string())).collect())
}

} // verus!
