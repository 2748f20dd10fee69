//! Numbers as text: decimal integers, and the grammar of floating-point literals.

use vstd::prelude::*;
use crate::text;

verus! {

broadcast use vstd::string::group_string_axioms;

/// Why a text is not an integer of the wanted range.
#[derive(Debug, Clone, Copy, PartialEq, Eq, Structural)]
pub enum IntError {
    Empty,
    InvalidDigit,
    TooLarge,
    TooSmall,
}

impl IntError {
    /// The error in words.
    pub open spec fn words(self) -> Seq<char> {
        match self {
            IntError::Empty => "cannot parse integer from empty string"@,
            IntError::InvalidDigit => "invalid digit found in string"@,
            IntError::TooLarge => "number too large to fit in target type"@,
            IntError::TooSmall => "number too small to fit in target type"@,
        }
    }

    /// The error in words.
    pub fn message(self) -> (r: &'static str)
        ensures
            r@ == self.words(),
    {
        match self {
            IntError::Empty => "cannot parse integer from empty string",
            IntError::InvalidDigit => "invalid digit found in string",
            IntError::TooLarge => "number too large to fit in target type",
            IntError::TooSmall => "number too small to fit in target type",
        }
    }
}

/// A decimal digit.
pub open spec fn digit(c: char) -> bool {
    '0' <= c <= '9'
}

/// The value of a decimal digit.
pub open spec fn digit_value(c: char) -> nat {
    (c as u32 - '0' as u32) as nat
}

/// Whether a character is a decimal digit.
pub fn is_digit(c: char) -> (r: bool)
    ensures
        r == digit(c),
{
    '0' <= c && c <= '9'
}

/// A text made of decimal digits only.
pub open spec fn all_digits(s: Seq<char>) -> bool {
    forall|i: int| 0 <= i < s.len() ==> digit(#[trigger] s[i])
}

/// The number that a run of decimal digits stands for.
pub open spec fn decimal_value(s: Seq<char>) -> nat
    decreases s.len(),
{
    if s.len() == 0 {
        0
    } else {
        decimal_value(s.drop_last()) * 10 + digit_value(s.last())
    }
}

/// Reads digits from left to right after the number `acc`, up to the number `limit`. What stops
/// the reading first decides the error: a character that is no digit, or a number above the limit.
pub open spec fn read_digits(s: Seq<char>, acc: nat, limit: nat, over: IntError) -> Result<
    nat,
    IntError,
>
    decreases s.len(),
{
    if s.len() == 0 {
        Ok(acc)
    } else if !digit(s[0]) {
        Err(IntError::InvalidDigit)
    } else if acc * 10 + digit_value(s[0]) > limit {
        Err(over)
    } else {
        read_digits(s.skip(1), acc * 10 + digit_value(s[0]), limit, over)
    }
}

/// The integer that a text stands for: an optional sign, then one or more decimal digits. A minus
/// sign is a sign only where negative numbers are allowed. The number lies between `-below` and
/// `above`.
pub open spec fn integer(s: Seq<char>, signed: bool, below: nat, above: nat) -> Result<
    int,
    IntError,
> {
    if s.len() == 0 {
        Err(IntError::Empty)
    } else if s.len() == 1 && (s[0] == '+' || s[0] == '-') {
        Err(IntError::InvalidDigit)
    } else if s[0] == '-' && signed {
        match read_digits(s.skip(1), 0, below, IntError::TooSmall) {
            Ok(n) => Ok(-(n as int)),
            Err(e) => Err(e),
        }
    } else {
        let digits = if s[0] == '+' {
            s.skip(1)
        } else {
            s
        };
        match read_digits(digits, 0, above, IntError::TooLarge) {
            Ok(n) => Ok(n as int),
            Err(e) => Err(e),
        }
    }
}

/// Reads digits from position `from` on, up to the number `limit`.
pub fn scan_digits(s: &[char], from: usize, limit: u64, over: IntError) -> (r: Result<
    u64,
    IntError,
>)
    requires
        from <= s@.len(),
    ensures
        match r {
            Ok(n) => read_digits(s@.skip(from as int), 0, limit as nat, over) == Ok::<
                nat,
                IntError,
            >(n as nat) && n <= limit,
            Err(e) => read_digits(s@.skip(from as int), 0, limit as nat, over) == Err::<
                nat,
                IntError,
            >(e),
        },
{
    let mut acc: u64 = 0;
    let mut i: usize = from;
    while i < s.len()
        invariant
            from <= i <= s@.len(),
            acc <= limit,
            read_digits(s@.skip(from as int), 0, limit as nat, over) == read_digits(
                s@.skip(i as int),
                acc as nat,
                limit as nat,
                over,
            ),
        decreases s@.len() - i,
    {
        let c = s[i];
        assert(s@.skip(i as int).skip(1) =~= s@.skip(i + 1));
        if !is_digit(c) {
            return Err(IntError::InvalidDigit);
        }
        let next: u128 = acc as u128 * 10 + (c as u32 - '0' as u32) as u128;
        if next > limit as u128 {
            return Err(over);
        }
        acc = next as u64;
        i += 1;
    }
    Ok(acc)
}

/// Reads an integer between `-below` and `above`.
pub fn parse_integer(s: &[char], signed: bool, below: u64, above: u64) -> (r: Result<i64, IntError>)
    requires
        below <= 0xffff_ffff,
        above <= 0xffff_ffff,
    ensures
        match r {
            Ok(n) => integer(s@, signed, below as nat, above as nat) == Ok::<int, IntError>(
                n as int,
            ) && -below <= n <= above && (!signed ==> 0 <= n),
            Err(e) => integer(s@, signed, below as nat, above as nat) == Err::<int, IntError>(e),
        },
{
    if s.len() == 0 {
        return Err(IntError::Empty);
    }
    let first = s[0];
    if s.len() == 1 && (first == '+' || first == '-') {
        return Err(IntError::InvalidDigit);
    }
    if first == '-' && signed {
        match scan_digits(s, 1, below, IntError::TooSmall) {
            Ok(n) => Ok(-(n as i64)),
            Err(e) => Err(e),
        }
    } else {
        let from: usize = if first == '+' {
            1
        } else {
            0
        };
        assert(s@.skip(0) =~= s@);
        match scan_digits(s, from, above, IntError::TooLarge) {
            Ok(n) => Ok(n as i64),
            Err(e) => Err(e),
        }
    }
}

/// The `u8` that a text stands for.
pub open spec fn as_u8(s: Seq<char>) -> Result<u8, IntError> {
    match integer(s, false, 0, u8::MAX as nat) {
        Ok(n) => Ok(n as u8),
        Err(e) => Err(e),
    }
}

/// The `u32` that a text stands for.
pub open spec fn as_u32(s: Seq<char>) -> Result<u32, IntError> {
    match integer(s, false, 0, u32::MAX as nat) {
        Ok(n) => Ok(n as u32),
        Err(e) => Err(e),
    }
}

/// The `i32` that a text stands for.
pub open spec fn as_i32(s: Seq<char>) -> Result<i32, IntError> {
    match integer(s, true, 0x8000_0000, i32::MAX as nat) {
        Ok(n) => Ok(n as i32),
        Err(e) => Err(e),
    }
}

/// Reads a `u8`.
pub fn parse_u8(s: &[char]) -> (r: Result<u8, IntError>)
    ensures
        r == as_u8(s@),
{
    match parse_integer(s, false, 0, 0xff) {
        Ok(n) => Ok(n as u8),
        Err(e) => Err(e),
    }
}

/// Reads a `u32`.
pub fn parse_u32(s: &[char]) -> (r: Result<u32, IntError>)
    ensures
        r == as_u32(s@),
{
    match parse_integer(s, false, 0, 0xffff_ffff) {
        Ok(n) => Ok(n as u32),
        Err(e) => Err(e),
    }
}

/// Reads an `i32`.
pub fn parse_i32(s: &[char]) -> (r: Result<i32, IntError>)
    ensures
        r == as_i32(s@),
{
    match parse_integer(s, true, 0x8000_0000, 0x7fff_ffff) {
        Ok(n) => Ok(n as i32),
        Err(e) => Err(e),
    }
}

/// The character of a decimal digit.
pub open spec fn digit_char(d: nat) -> char {
    (d + '0' as u32) as char
}

/// A number in decimal digits, without leading zeros.
pub open spec fn decimal(n: nat) -> Seq<char>
    decreases n,
{
    if n < 10 {
        seq![digit_char(n)]
    } else {
        decimal(n / 10).push(digit_char(n % 10))
    }
}

/// Appends a number in decimal digits.
pub fn push_decimal(out: &mut Vec<char>, n: u64)
    ensures
        final(out)@ == old(out)@ + decimal(n as nat),
    decreases n,
{
    if n < 10 {
        out.push(digit_of(n as u8));
    } else {
        push_decimal(out, n / 10);
        out.push(digit_of((n % 10) as u8));
    }
}

/// A number in decimal digits.
pub fn decimal_text(n: u64) -> (r: Vec<char>)
    ensures
        r@ == decimal(n as nat),
{
    let mut out: Vec<char> = Vec::new();
    push_decimal(&mut out, n);
    out
}

/// The character of a decimal digit.
pub fn digit_of(d: u8) -> (r: char)
    requires
        d < 10,
    ensures
        r == digit_char(d as nat),
{
    (d + 48) as char
}

/// The decimal text of a number stands for that number.
pub proof fn law_decimal_reads_back(n: nat)
    ensures
        all_digits(decimal(n)),
        decimal(n).len() >= 1,
        decimal_value(decimal(n)) == n,
    decreases n,
{
    if n < 10 {
        assert(decimal(n).drop_last() =~= Seq::<char>::empty());
        assert(decimal_value(Seq::<char>::empty()) == 0);
    } else {
        law_decimal_reads_back(n / 10);
        assert(decimal(n).drop_last() =~= decimal(n / 10));
        assert forall|i: int| 0 <= i < decimal(n).len() implies digit(#[trigger] decimal(n)[i]) by {
            if i < decimal(n / 10).len() {
                assert(decimal(n)[i] == decimal(n / 10)[i]);
            }
        }
    }
}

proof fn lemma_decimal_value_split(s: Seq<char>, k: int)
    requires
        all_digits(s),
        0 <= k <= s.len(),
    ensures
        decimal_value(s.take(k)) <= decimal_value(s),
    decreases s.len() - k,
{
    if k < s.len() {
        assert(s.take(k + 1).drop_last() =~= s.take(k));
        lemma_decimal_value_split(s, k + 1);
    } else {
        assert(s.take(k) =~= s);
    }
}

proof fn lemma_read_digits(s: Seq<char>, k: int, limit: nat, over: IntError)
    requires
        all_digits(s),
        0 <= k <= s.len(),
        decimal_value(s) <= limit,
    ensures
        read_digits(s.skip(k), decimal_value(s.take(k)), limit, over) == Ok::<nat, IntError>(
            decimal_value(s),
        ),
    decreases s.len() - k,
{
    if k < s.len() {
        assert(s.take(k + 1).drop_last() =~= s.take(k));
        assert(s.skip(k).skip(1) =~= s.skip(k + 1));
        lemma_decimal_value_split(s, k + 1);
        lemma_read_digits(s, k + 1, limit, over);
    } else {
        assert(s.take(k) =~= s);
    }
}

/// A run of digits whose number lies within the range is read as that number.
pub proof fn law_digits_are_read(s: Seq<char>, signed: bool, below: nat, above: nat)
    requires
        s.len() >= 1,
        all_digits(s),
        decimal_value(s) <= above,
    ensures
        integer(s, signed, below, above) == Ok::<int, IntError>(decimal_value(s) as int),
{
    lemma_read_digits(s, 0, above, IntError::TooLarge);
    assert(s.skip(0) =~= s);
    assert(s.take(0) =~= Seq::<char>::empty());
    assert(digit(s[0]));
}

/// The lower-case form of an ASCII letter; any other character itself.
pub open spec fn ascii_lower(c: char) -> char {
    if 'A' <= c <= 'Z' {
        (c as u32 + 32) as char
    } else {
        c
    }
}

/// `s` equals `w` if ASCII letters are compared without their case.
pub open spec fn same_letters(s: Seq<char>, w: Seq<char>) -> bool {
    s.len() == w.len() && forall|i: int|
        0 <= i < s.len() ==> #[trigger] ascii_lower(s[i]) == ascii_lower(w[i])
}

fn lower(c: char) -> (r: char)
    ensures
        r == ascii_lower(c),
{
    if 'A' <= c && c <= 'Z' {
        (c as u8 + 32) as char
    } else {
        c
    }
}

/// Whether the characters from position `from` on equal a text, if ASCII letters are compared without
/// their case.
pub fn equals_letters(s: &[char], from: usize, w: &str) -> (r: bool)
    requires
        from <= s@.len(),
    ensures
        r == same_letters(s@.skip(from as int), w@),
{
    let wc = text::to_chars(w);
    if s.len() - from != wc.len() {
        return false;
    }
    let mut i: usize = 0;
    while i < wc.len()
        invariant
            wc@ == w@,
            from + wc@.len() == s@.len(),
            s@.len() <= usize::MAX,
            i <= wc@.len(),
            forall|k: int| 0 <= k < i ==> #[trigger] ascii_lower(s@.skip(from as int)[k]) == ascii_lower(w@[k]),
        decreases wc@.len() - i,
    {
        if lower(s[from + i]) != lower(wc[i]) {
            assert(ascii_lower(s@.skip(from as int)[i as int]) != ascii_lower(w@[i as int]));
            return false;
        }
        i += 1;
    }
    true
}

/// `s` without a sign at its start.
pub open spec fn unsigned(s: Seq<char>) -> Seq<char> {
    if s.len() > 0 && (s[0] == '+' || s[0] == '-') {
        s.skip(1)
    } else {
        s
    }
}

/// Digits with at most one point among them, and at least one digit.
pub open spec fn mantissa(s: Seq<char>) -> bool {
    let n = text::run(s, |c: char| c == '.') as int;
    &&& all_digits(s.take(n))
    &&& n < s.len() ==> all_digits(s.skip(n + 1)) && s.len() >= 2
    &&& s.len() >= 1
}

/// A mantissa, which an `e` or `E` and an exponent may follow: a number with an optional sign.
pub open spec fn float_number(s: Seq<char>) -> bool {
    let n = text::run(s, |c: char| c == 'e' || c == 'E') as int;
    &&& mantissa(s.take(n))
    &&& n < s.len() ==> all_digits(unsigned(s.skip(n + 1))) && unsigned(s.skip(n + 1)).len() >= 1
}

/// A floating-point literal: an optional sign, then a number, an infinity or a not-a-number.
pub open spec fn float_literal(s: Seq<char>) -> bool {
    let body = unsigned(s);
    ||| same_letters(body, "inf"@)
    ||| same_letters(body, "infinity"@)
    ||| same_letters(body, "nan"@)
    ||| float_number(body)
}

fn skip_digits(s: &[char], from: usize) -> (r: usize)
    requires
        from <= s@.len(),
    ensures
        from <= r <= s@.len(),
        forall|k: int| from <= k < r ==> digit(#[trigger] s@[k]),
        r < s@.len() ==> !digit(s@[r as int]),
{
    let mut i: usize = from;
    while i < s.len() && is_digit(s[i])
        invariant
            from <= i <= s@.len(),
            forall|k: int| from <= k < i ==> digit(#[trigger] s@[k]),
        decreases s@.len() - i,
    {
        i += 1;
    }
    i
}

fn is_mantissa(s: &[char]) -> (r: bool)
    ensures
        r == mantissa(s@),
{
    let i = skip_digits(s, 0);
    let ghost n = text::run(s@, |c: char| c == '.') as int;
    proof {
        text::lemma_run(s@, |c: char| c == '.');
    }
    if i == s.len() {
        proof {
            if n < s@.len() {
                assert(digit(s@[n]));
            }
        }
        return i > 0;
    }
    if s[i] != '.' {
        proof {
            if n < i {
                assert(digit(s@[n]));
            }
            if mantissa(s@) {
                assert(digit(s@.take(n)[i as int]));
            }
        }
        return false;
    }
    proof {
        if n < i {
            assert(digit(s@[n]));
        }
        if n > i {
            assert(s@[i as int] != '.');
        }
        assert(n == i);
    }
    let j = skip_digits(s, i + 1);
    if j == s.len() {
        assert(all_digits(s@.skip(n + 1))) by {
            assert forall|k: int| 0 <= k < s@.skip(n + 1).len() implies digit(
                #[trigger] s@.skip(n + 1)[k],
            ) by {
                assert(s@.skip(n + 1)[k] == s@[n + 1 + k]);
            }
        }
        s.len() >= 2
    } else {
        assert(s@.skip(n + 1)[j - n - 1] == s@[j as int]);
        false
    }
}

fn is_float_number(s: &[char]) -> (r: bool)
    ensures
        r == float_number(s@),
{
    let ghost stop = |c: char| c == 'e' || c == 'E';
    let mut n: usize = 0;
    while n < s.len() && s[n] != 'e' && s[n] != 'E'
        invariant
            n <= s@.len(),
            forall|k: int| 0 <= k < n ==> #[trigger] s@[k] != 'e' && s@[k] != 'E',
        decreases s@.len() - n,
    {
        n += 1;
    }
    proof {
        text::lemma_run_is(s@, stop, n as nat);
    }
    let head = text::piece(s, 0, n);
    assert(head@ =~= s@.take(n as int));
    if !is_mantissa(head.as_slice()) {
        return false;
    }
    if n == s.len() {
        return true;
    }
    let tail = text::piece(s, n + 1, s.len());
    assert(tail@ =~= s@.skip(n + 1));
    let from: usize = if tail.len() > 0 && (tail[0] == '+' || tail[0] == '-') {
        1
    } else {
        0
    };
    assert(unsigned(tail@) =~= tail@.skip(from as int));
    let j = skip_digits(tail.as_slice(), from);
    if j < tail.len() {
        assert(tail@.skip(from as int)[j - from] == tail@[j as int]);
        return false;
    }
    assert forall|k: int| 0 <= k < tail@.skip(from as int).len() implies digit(
        #[trigger] tail@.skip(from as int)[k],
    ) by {
        assert(tail@.skip(from as int)[k] == tail@[from + k]);
    }
    tail.len() > from
}

/// Whether a text is a floating-point literal.
pub fn is_float_literal(s: &[char]) -> (r: bool)
    ensures
        r == float_literal(s@),
{
    let from: usize = if s.len() > 0 && (s[0] == '+' || s[0] == '-') {
        1
    } else {
        0
    };
    assert(unsigned(s@) =~= s@.skip(from as int));
    if equals_letters(s, from, "inf") || equals_letters(s, from, "infinity") || equals_letters(
        s,
        from,
        "nan",
    ) {
        return true;
    }
    let body = text::piece(s, from, s.len());
    assert(body@ =~= s@.skip(from as int));
    is_float_number(body.as_slice())
}

/// A floating-point number by its bit pattern: carried through, not computed with.
#[derive(Debug, Clone, Copy, PartialEq, Eq, Structural)]
pub struct Double {
    pub bits: u64,
}

impl Double {
    /// The number is below zero: its sign bit is set, and it is neither zero nor a not-a-number.
    pub open spec fn negative(self) -> bool {
        0x8000_0000_0000_0000 < self.bits <= 0xfff0_0000_0000_0000
    }

    /// Whether the number is below zero.
    pub fn is_negative(self) -> (r: bool)
        ensures
            r == self.negative(),
    {
        0x8000_0000_0000_0000 < self.bits && self.bits <= 0xfff0_0000_0000_0000
    }
}

/// Why a text is not a floating-point literal.
#[derive(Debug, Clone, Copy, PartialEq, Eq, Structural)]
pub enum FloatError {
    Empty,
    Invalid,
}

impl FloatError {
    /// The error in words.
    pub open spec fn words(self) -> Seq<char> {
        match self {
            FloatError::Empty => "cannot parse float from empty string"@,
            FloatError::Invalid => "invalid float literal"@,
        }
    }

    /// The error in words.
    pub fn message(self) -> (r: &'static str)
        ensures
            r@ == self.words(),
    {
        match self {
            FloatError::Empty => "cannot parse float from empty string",
            FloatError::Invalid => "invalid float literal",
        }
    }
}

/// A floating-point literal, kept as its text: the callers that compute with the number read it
/// from there.
#[derive(Debug)]
pub struct FloatText {
    text: String,
}

impl View for FloatText {
    type V = Seq<char>;

    closed spec fn view(&self) -> Seq<char> {
        self.text@
    }
}

impl Clone for FloatText {
    fn clone(&self) -> (r: Self)
        ensures
            r@ == self@,
    {
        proof {
            use_type_invariant(self);
        }
        FloatText { text: self.text.clone() }
    }
}

/// The floating-point literal that a text is.
pub open spec fn as_float(s: Seq<char>) -> Result<Seq<char>, FloatError> {
    if s.len() == 0 {
        Err(FloatError::Empty)
    } else if float_literal(s) {
        Ok(s)
    } else {
        Err(FloatError::Invalid)
    }
}

impl FloatText {
    #[verifier::type_invariant]
    spec fn well_formed(self) -> bool {
        float_literal(self.text@)
    }

    /// Accepts a text that is a floating-point literal.
    pub fn parse(s: &[char]) -> (r: Result<FloatText, FloatError>)
        ensures
            match r {
                Ok(f) => as_float(s@) == Ok::<Seq<char>, FloatError>(f@),
                Err(e) => as_float(s@) == Err::<Seq<char>, FloatError>(e),
            },
    {
        if s.len() == 0 {
            Err(FloatError::Empty)
        } else if is_float_literal(s) {
            Ok(FloatText { text: text::to_text(s) })
        } else {
            Err(FloatError::Invalid)
        }
    }

    /// The literal's text.
    pub fn as_str(&self) -> (r: &str)
        ensures
            r@ == self@,
            float_literal(r@),
    {
        proof {
            use_type_invariant(self);
        }
        self.text.as_str()
    }
}

/// A number in decimal digits, with a minus sign if it is negative.
pub open spec fn signed_decimal(n: int) -> Seq<char> {
    if n < 0 {
        seq!['-'] + decimal((-n) as nat)
    } else {
        decimal(n as nat)
    }
}

/// Numbers that were written in decimal digits are read as these numbers, if they lie in the range of
/// the type; one above it is too large.
pub proof fn law_numbers_read_back(a: i32, b: u32, c: u8)
    ensures
        as_i32(signed_decimal(a as int)) == Ok::<i32, IntError>(a),
        as_u32(decimal(b as nat)) == Ok::<u32, IntError>(b),
        as_u8(decimal(c as nat)) == Ok::<u8, IntError>(c),
        b > 255 ==> as_u8(decimal(b as nat)) == Err::<u8, IntError>(IntError::TooLarge),
        b > 0x7fff_ffff ==> as_i32(decimal(b as nat)) == Err::<i32, IntError>(IntError::TooLarge),
        b > 0x8000_0000 ==> as_i32(seq!['-'] + decimal(b as nat)) == Err::<i32, IntError>(
            IntError::TooSmall,
        ),
        as_u32(seq!['-'] + decimal(b as nat)) == Err::<u32, IntError>(IntError::InvalidDigit),
        as_u8(seq!['-'] + decimal(c as nat)) == Err::<u8, IntError>(IntError::InvalidDigit),
{
    law_decimal_reads_back(b as nat);
    law_decimal_reads_back(c as nat);
    law_digits_are_read(decimal(b as nat), false, 0, u32::MAX as nat);
    law_digits_are_read(decimal(c as nat), false, 0, u8::MAX as nat);
    let d = decimal(b as nat);
    assert(digit(d[0]));
    lemma_digits_over(d, 0, 255, IntError::TooLarge);
    lemma_digits_over(d, 0, 0x7fff_ffff, IntError::TooLarge);
    lemma_digits_over(d, 0, 0x8000_0000, IntError::TooSmall);
    assert(d.skip(0) =~= d && d.take(0) =~= Seq::<char>::empty());
    let m = seq!['-'] + d;
    assert(m.skip(1) =~= d);
    let w = seq!['-'] + decimal(c as nat);
    assert(w[0] == '-' && m[0] == '-');
    if a < 0 {
        let n = (-(a as int)) as nat;
        law_decimal_reads_back(n);
        let x = decimal(n);
        lemma_read_digits(x, 0, 0x8000_0000, IntError::TooSmall);
        assert(x.skip(0) =~= x && x.take(0) =~= Seq::<char>::empty());
        assert((seq!['-'] + x).skip(1) =~= x);
        assert((seq!['-'] + x)[0] == '-');
    } else {
        law_decimal_reads_back(a as nat);
        law_digits_are_read(decimal(a as nat), true, 0x8000_0000, i32::MAX as nat);
    }
}

proof fn lemma_digits_over(s: Seq<char>, k: int, limit: nat, over: IntError)
    requires
        all_digits(s),
        0 <= k <= s.len(),
        decimal_value(s.take(k)) <= limit,
    ensures
        decimal_value(s) > limit ==> read_digits(
            s.skip(k),
            decimal_value(s.take(k)),
            limit,
            over,
        ) == Err::<nat, IntError>(over),
    decreases s.len() - k,
{
    if k < s.len() {
        assert(s.take(k + 1).drop_last() =~= s.take(k));
        assert(s.skip(k).skip(1) =~= s.skip(k + 1));
        if decimal_value(s.take(k + 1)) <= limit {
            lemma_digits_over(s, k + 1, limit, over);
        }
    } else {
        assert(s.take(k) =~= s);
    }
}

proof fn lemma_read_sound(s: Seq<char>, acc: nat, limit: nat, over: IntError, before: Seq<char>)
    requires
        all_digits(before),
        decimal_value(before) == acc,
        acc <= limit,
        read_digits(s, acc, limit, over) is Ok,
    ensures
        all_digits(s),
        decimal_value(before + s) == read_digits(s, acc, limit, over)->Ok_0,
        read_digits(s, acc, limit, over)->Ok_0 <= limit,
    decreases s.len(),
{
    if s.len() == 0 {
        assert(before + s =~= before);
    } else {
        let t = before.push(s[0]);
        assert(t.drop_last() =~= before);
        assert forall|i: int| 0 <= i < t.len() implies digit(#[trigger] t[i]) by {
            if i < before.len() {
                assert(digit(before[i]));
            }
        }
        lemma_read_sound(s.skip(1), acc * 10 + digit_value(s[0]), limit, over, t);
        assert(t + s.skip(1) =~= before + s);
        assert forall|i: int| 0 <= i < s.len() implies digit(#[trigger] s[i]) by {
            if i > 0 {
                assert(digit(s.skip(1)[i - 1]));
            }
        }
    }
}

/// A text that is read as an integer is one: an optional sign and digits, at least one of them,
/// whose number it is, within the range.
pub proof fn law_integers_are_digits(s: Seq<char>, signed: bool, below: nat, above: nat)
    requires
        integer(s, signed, below, above) is Ok,
    ensures
        ({
            let n = integer(s, signed, below, above)->Ok_0;
            let digits = if s[0] == '+' || s[0] == '-' {
                s.skip(1)
            } else {
                s
            };
            &&& s.len() > 0
            &&& digits.len() > 0
            &&& all_digits(digits)
            &&& -below <= n <= above
            &&& s[0] == '-' ==> signed && n == -decimal_value(digits)
            &&& s[0] != '-' ==> n == decimal_value(digits)
        }),
{
    let none = Seq::<char>::empty();
    assert(all_digits(none) && decimal_value(none) == 0);
    let digits = if s[0] == '+' || s[0] == '-' {
        s.skip(1)
    } else {
        s
    };
    assert(none + digits =~= digits);
    assert(none + s =~= s);
    if s[0] == '-' && signed {
        lemma_read_sound(digits, 0, below, IntError::TooSmall, none);
    } else {
        let t = if s[0] == '+' {
            s.skip(1)
        } else {
            s
        };
        lemma_read_sound(t, 0, above, IntError::TooLarge, none);
        assert(none + t =~= t);
        if s[0] == '-' {
            assert(digit(s[0]));
        }
    }
}

/// Numbers in decimal notation are floating-point literals: with a fraction or without one, with a
/// sign or without one.
pub proof fn law_decimals_are_literals(n: nat, f: Seq<char>)
    requires
        all_digits(f),
    ensures
        as_float(decimal(n)) == Ok::<Seq<char>, FloatError>(decimal(n)),
        as_float(decimal(n) + seq!['.'] + f) == Ok::<Seq<char>, FloatError>(
            decimal(n) + seq!['.'] + f,
        ),
        as_float(seq!['-'] + (decimal(n) + seq!['.'] + f)) == Ok::<Seq<char>, FloatError>(
            seq!['-'] + (decimal(n) + seq!['.'] + f),
        ),
        as_float(seq!['-'] + decimal(n)) == Ok::<Seq<char>, FloatError>(seq!['-'] + decimal(n)),
{
    let d = decimal(n);
    law_decimal_reads_back(n);
    assert(digit(d[0]));
    lemma_plain_literal(d, Seq::empty(), false);
    lemma_plain_literal(d, f, true);
    let x = d + seq!['.'] + f;
    assert(d + Seq::<char>::empty() =~= d);
    assert(unsigned(d) == d && unsigned(x) == x);
    assert((seq!['-'] + d).skip(1) =~= d && (seq!['-'] + x).skip(1) =~= x);
    assert((seq!['-'] + d)[0] == '-' && (seq!['-'] + x)[0] == '-');
}

proof fn lemma_plain_literal(d: Seq<char>, f: Seq<char>, point: bool)
    requires
        all_digits(d),
        d.len() >= 1,
        all_digits(f),
        !point ==> f.len() == 0,
    ensures
        float_number(
            if point {
                d + seq!['.'] + f
            } else {
                d
            },
        ),
{
    let s = if point {
        d + seq!['.'] + f
    } else {
        d
    };
    let exponent = |c: char| c == 'e' || c == 'E';
    let dot = |c: char| c == '.';
    assert forall|i: int| 0 <= i < s.len() implies !exponent(#[trigger] s[i]) by {
        if i < d.len() {
            assert(digit(d[i]));
        } else if i > d.len() {
            assert(s[i] == f[i - d.len() - 1]);
            assert(digit(f[i - d.len() - 1]));
        }
    }
    text::lemma_run_is(s, exponent, s.len());
    assert(s.take(s.len() as int) =~= s);
    assert forall|i: int| 0 <= i < d.len() implies !dot(#[trigger] s[i]) by {
        assert(digit(d[i]));
    }
    if point {
        assert(dot(s[d.len() as int]));
    }
    text::lemma_run_is(s, dot, d.len());
    assert(s.take(d.len() as int) =~= d);
    if point {
        assert(s.skip(d.len() as int + 1) =~= f);
    }
}

/// A text that begins with a letter other than those of infinities and not-a-numbers, or is empty,
/// is no floating-point literal.
pub proof fn law_words_are_no_literals(s: Seq<char>)
    requires
        s.len() == 0 || ('a' <= s[0] <= 'z' && s[0] != 'i' && s[0] != 'n'),
    ensures
        s.len() == 0 ==> as_float(s) == Err::<Seq<char>, FloatError>(FloatError::Empty),
        s.len() > 0 ==> as_float(s) == Err::<Seq<char>, FloatError>(FloatError::Invalid),
{
    if s.len() > 0 {
        reveal_strlit("inf");
        reveal_strlit("infinity");
        reveal_strlit("nan");
        assert(unsigned(s) == s);
        assert(ascii_lower(s[0]) == s[0]);
        assert("inf"@[0] == 'i' && "infinity"@[0] == 'i' && "nan"@[0] == 'n');
        let exponent = |c: char| c == 'e' || c == 'E';
        let dot = |c: char| c == '.';
        text::lemma_run(s, exponent);
        let m = s.take(text::run(s, exponent) as int);
        text::lemma_run(m, dot);
        if float_number(s) {
            let h = m.take(text::run(m, dot) as int);
            if h.len() > 0 {
                assert(h[0] == s[0]);
                assert(digit(h[0]));
            } else {
                assert(m[0] == s[0]);
                assert(dot(m[0]));
            }
        }
    }
}

pub proof fn lemma_decimal_first(n: nat)
    requires
        n > 0,
    ensures
        decimal(n).len() > 0,
        decimal(n)[0] != '0',
    decreases n,
{
    if n >= 10 {
        lemma_decimal_first(n / 10);
        assert(decimal(n)[0] == decimal(n / 10)[0]);
    }
}

/// The decimal text of a number is the only one without a leading zero.
pub proof fn law_decimal_is_unique(s: Seq<char>)
    requires
        all_digits(s),
        s.len() > 0,
        s[0] != '0' || s.len() == 1,
    ensures
        s == decimal(decimal_value(s)),
        decimal_value(s) > 0 ==> decimal(decimal_value(s))[0] != '0',
    decreases s.len(),
{
    let n = decimal_value(s);
    assert(digit(s.last()));
    let d = digit_value(s.last());
    assert(digit_char(d) == s.last());
    let h = s.drop_last();
    if s.len() == 1 {
        assert(h =~= Seq::<char>::empty());
        assert(decimal_value(h) == 0);
        assert(s =~= seq![digit_char(n)]);
    } else {
        assert forall|i: int| 0 <= i < h.len() implies digit(#[trigger] h[i]) by {
            assert(h[i] == s[i]);
        }
        assert(h[0] == s[0]);
        law_decimal_is_unique(h);
        if decimal_value(h) == 0 {
            assert(h =~= seq![digit_char(0)]);
            assert(h[0] == '0');
        }
        assert(n / 10 == decimal_value(h) && n % 10 == d);
        assert(s =~= h.push(s.last()));
    }
    if n > 0 {
        lemma_decimal_first(n);
    }
}

/// What is wrong with an integer, in words.
pub proof fn law_integer_words(e: IntError)
    ensures
        e is Empty ==> e.words() == "cannot parse integer from empty string"@,
        e is InvalidDigit ==> e.words() == "invalid digit found in string"@,
        e is TooLarge ==> e.words() == "number too large to fit in target type"@,
        e is TooSmall ==> e.words() == "number too small to fit in target type"@,
{
}

/// What is wrong with a floating-point literal, in words: whether it is empty or not one.
pub proof fn law_float_words(s: Seq<char>)
    ensures
        s.len() == 0 ==> (as_float(s) matches Err(e) && e.words()
            == "cannot parse float from empty string"@),
        s.len() > 0 ==> (as_float(s) matches Err(e) ==> e.words() == "invalid float literal"@),
        as_float(s) matches Ok(t) ==> t == s,
{
}

} // verus!
