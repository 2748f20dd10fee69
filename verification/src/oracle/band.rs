//! Tolerance bands: numbers that are close, and JSON texts that differ in close numbers only.

use vstd::prelude::*;
use crate::number;
use crate::text;

verus! {

/// Ten to the power of `n`.
pub open spec fn pow10(n: nat) -> nat
    decreases n,
{
    if n == 0 {
        1
    } else {
        10 * pow10((n - 1) as nat)
    }
}

/// The distance of two integers.
pub open spec fn distance(a: int, b: int) -> int {
    if a < b {
        b - a
    } else {
        a - b
    }
}

/// A number in decimal notation: the mantissa times a power of ten.
#[derive(Debug, Clone, Copy)]
pub struct Decimal {
    pub negative: bool,
    pub mantissa: u64,
    pub exponent: i64,
}

impl Decimal {
    /// The number, counted in units of ten to the power of `unit`.
    pub open spec fn scaled(self, unit: int) -> int {
        let size = self.mantissa * pow10((self.exponent - unit) as nat) as int;
        if self.negative {
            -size
        } else {
            size
        }
    }
}

/// The smaller of two exponents.
pub open spec fn common_unit(a: Decimal, b: Decimal) -> int {
    if a.exponent < b.exponent {
        a.exponent as int
    } else {
        b.exponent as int
    }
}

/// `b` differs from `a` by at most a tenth of `a`.
pub open spec fn near(a: Decimal, b: Decimal) -> bool {
    let x = a.scaled(common_unit(a, b));
    let y = b.scaled(common_unit(a, b));
    10 * distance(x, y) <= distance(x, 0)
}

proof fn lemma_pow10_positive(n: nat)
    ensures
        pow10(n) >= 1,
    decreases n,
{
    if n > 0 {
        lemma_pow10_positive((n - 1) as nat);
    }
}

proof fn lemma_pow10_grows(m: nat, n: nat)
    requires
        m <= n,
    ensures
        pow10(m) <= pow10(n),
    decreases n,
{
    if m < n {
        lemma_pow10_grows(m, (n - 1) as nat);
    }
}

proof fn lemma_pow10_20()
    ensures
        pow10(19) == 10_000_000_000_000_000_000,
        pow10(20) == 100_000_000_000_000_000_000,
{
    reveal_with_fuel(pow10, 21);
}

fn power_of_ten(n: usize) -> (r: u128)
    requires
        n < 20,
    ensures
        r == pow10(n as nat),
        1 <= r <= 10_000_000_000_000_000_000,
{
    let mut r: u128 = 1;
    let mut i: usize = 0;
    proof {
        lemma_pow10_20();
    }
    while i < n
        invariant
            i <= n < 20,
            r == pow10(i as nat),
            pow10(19) == 10_000_000_000_000_000_000,
        decreases n - i,
    {
        proof {
            lemma_pow10_grows((i + 1) as nat, 19);
        }
        r = 10 * r;
        i += 1;
    }
    proof {
        lemma_pow10_positive(n as nat);
        lemma_pow10_grows(n as nat, 19);
    }
    r
}

/// Whether `b` differs from `a` by at most a tenth of `a`, both not negative.
fn sizes_near(a: u128, b: u128) -> (r: bool)
    ensures
        r == (10 * distance(a as int, b as int) <= a),
{
    if a < b {
        b - a <= a / 10
    } else {
        a - b <= a / 10
    }
}

/// Whether `b` differs from `a` by at most a tenth of `a`.
pub fn is_near(a: Decimal, b: Decimal) -> (r: bool)
    ensures
        r == near(a, b),
{
    let ghost unit = common_unit(a, b);
    let ghost x = a.scaled(unit);
    let ghost y = b.scaled(unit);
    if a.mantissa == 0 || b.mantissa == 0 {
        proof {
            lemma_pow10_positive((a.exponent - unit) as nat);
            lemma_pow10_positive((b.exponent - unit) as nat);
            lemma_product_zero(a.mantissa as int, pow10((a.exponent - unit) as nat) as int);
            lemma_product_zero(b.mantissa as int, pow10((b.exponent - unit) as nat) as int);
        }
        return a.mantissa == 0 && b.mantissa == 0;
    }
    proof {
        lemma_pow10_positive((a.exponent - unit) as nat);
        lemma_pow10_positive((b.exponent - unit) as nat);
        lemma_product_zero(a.mantissa as int, pow10((a.exponent - unit) as nat) as int);
        lemma_product_zero(b.mantissa as int, pow10((b.exponent - unit) as nat) as int);
    }
    if a.negative != b.negative {
        return false;
    }
    let (big, small, swapped) = if a.exponent >= b.exponent {
        (a, b, false)
    } else {
        (b, a, true)
    };
    let gap: i128 = big.exponent as i128 - small.exponent as i128;
    let ghost size = big.mantissa * pow10(gap as nat) as int;
    proof {
        assert(distance(big.scaled(unit), 0) == size);
        assert(distance(small.scaled(unit), 0) == small.mantissa) by {
            assert(small.mantissa * pow10(0) as int == small.mantissa) by (nonlinear_arith)
                requires
                    pow10(0) == 1,
            ;
        }
    }
    if gap >= 20 {
        proof {
            lemma_pow10_20();
            lemma_pow10_grows(20, gap as nat);
            lemma_product_at_least(big.mantissa as int, pow10(gap as nat) as int);
        }
        return false;
    }
    let factor = power_of_ten(gap as usize);
    proof {
        lemma_product_bound(big.mantissa as int, factor as int);
    }
    let wide: u128 = big.mantissa as u128 * factor;
    if swapped {
        sizes_near(small.mantissa as u128, wide)
    } else {
        sizes_near(wide, small.mantissa as u128)
    }
}

proof fn lemma_product_zero(m: int, p: int)
    requires
        m >= 0,
        p >= 1,
    ensures
        m == 0 ==> m * p == 0,
        m > 0 ==> m * p > 0,
{
    assert(m == 0 ==> m * p == 0) by (nonlinear_arith);
    assert(m > 0 ==> m * p > 0) by (nonlinear_arith)
        requires
            p >= 1,
    ;
}

proof fn lemma_product_at_least(m: int, p: int)
    requires
        m >= 1,
        p >= 1,
    ensures
        m * p >= p,
{
    assert(m * p >= p) by (nonlinear_arith)
        requires
            m >= 1,
            p >= 1,
    ;
}

proof fn lemma_product_bound(m: int, p: int)
    requires
        0 <= m <= u64::MAX,
        0 <= p <= 10_000_000_000_000_000_000,
    ensures
        0 <= m * p <= u128::MAX,
{
    assert(0 <= m * p <= 0xffff_ffff_ffff_ffff * 10_000_000_000_000_000_000) by (nonlinear_arith)
        requires
            0 <= m <= 0xffff_ffff_ffff_ffff,
            0 <= p <= 10_000_000_000_000_000_000,
    ;
}

/// Every number is near itself.
pub proof fn law_near_itself(a: Decimal)
    ensures
        near(a, a),
{
}

/// The test for one of two characters.
pub open spec fn either(a: char, b: char) -> spec_fn(char) -> bool {
    |c: char| c == a || c == b
}

/// How many characters stand before the first `a` or `b` in `s`.
pub open spec fn cut(s: Seq<char>, a: char, b: char) -> int {
    text::run(s, either(a, b)) as int
}

/// What stands behind the first `a` or `b` in `s`.
pub open spec fn behind(s: Seq<char>, a: char, b: char) -> Option<Seq<char>> {
    if cut(s, a, b) < s.len() {
        Some(s.skip(cut(s, a, b) + 1))
    } else {
        None
    }
}

/// The decimal number that a text stands for: an optional minus sign, digits, an optional
/// fraction, an optional exponent. Numbers of more digits than 64 bits hold, and exponents or
/// fractions beyond any that occurs, are left out.
pub open spec fn number_of(s: Seq<char>) -> Option<Decimal> {
    let negative = s.len() > 0 && s[0] == '-';
    let body = if negative {
        s.skip(1)
    } else {
        s
    };
    let mantissa = body.take(cut(body, 'e', 'E'));
    let whole = mantissa.take(cut(mantissa, '.', '.'));
    let fraction = match behind(mantissa, '.', '.') {
        Some(f) => f,
        None => Seq::empty(),
    };
    let exponent = match behind(body, 'e', 'E') {
        Some(x) => number::integer(x, true, 9999, 9999),
        None => Ok(0),
    };
    let digits = number::read_digits(
        whole + fraction,
        0,
        u64::MAX as nat,
        number::IntError::TooLarge,
    );
    match (digits, exponent) {
        (Ok(n), Ok(x)) => if whole.len() > 0 && fraction.len() <= 9999 {
            Some(
                Decimal { negative, mantissa: n as u64, exponent: (x - fraction.len()) as i64 },
            )
        } else {
            None
        },
        _ => None,
    }
}

fn find(s: &[char], a: char, b: char) -> (r: usize)
    ensures
        r == cut(s@, a, b),
        r <= s@.len(),
{
    let mut i: usize = 0;
    while i < s.len() && s[i] != a && s[i] != b
        invariant
            i <= s@.len(),
            forall|k: int| 0 <= k < i ==> #[trigger] s@[k] != a && s@[k] != b,
        decreases s@.len() - i,
    {
        i += 1;
    }
    proof {
        text::lemma_run_is(s@, either(a, b), i as nat);
    }
    i
}

/// Reads a decimal number.
pub fn read_number(s: &[char]) -> (r: Option<Decimal>)
    ensures
        r == number_of(s@),
{
    let negative = s.len() > 0 && s[0] == '-';
    let start: usize = if negative {
        1
    } else {
        0
    };
    let body = text::piece(s, start, s.len());
    assert(body@ =~= if negative {
        s@.skip(1)
    } else {
        s@
    });
    let e = find(body.as_slice(), 'e', 'E');
    let exponent: i64 = if e < body.len() {
        let tail = text::piece(body.as_slice(), e + 1, body.len());
        assert(tail@ =~= body@.skip(e + 1));
        match number::parse_integer(tail.as_slice(), true, 9999, 9999) {
            Ok(x) => x,
            Err(_) => {
                return None;
            },
        }
    } else {
        0
    };
    let mantissa = text::piece(body.as_slice(), 0, e);
    assert(mantissa@ =~= body@.take(e as int));
    let dot = find(mantissa.as_slice(), '.', '.');
    let mut digits = text::piece(mantissa.as_slice(), 0, dot);
    assert(digits@ =~= mantissa@.take(dot as int));
    let fraction = if dot < mantissa.len() {
        let tail = text::piece(mantissa.as_slice(), dot + 1, mantissa.len());
        assert(tail@ =~= mantissa@.skip(dot + 1));
        tail
    } else {
        Vec::new()
    };
    assert(fraction@ =~= match behind(mantissa@, '.', '.') {
        Some(f) => f,
        None => Seq::empty(),
    });
    text::push_all(&mut digits, fraction.as_slice());
    assert(digits@.skip(0) =~= digits@);
    match number::scan_digits(digits.as_slice(), 0, u64::MAX, number::IntError::TooLarge) {
        Ok(n) => if dot > 0 && fraction.len() <= 9999 {
            Some(Decimal { negative, mantissa: n, exponent: exponent - fraction.len() as i64 })
        } else {
            None
        },
        Err(_) => None,
    }
}

/// Two numerals are close: their numbers are near, or the texts are equal.
pub open spec fn numerals_close(a: Seq<char>, b: Seq<char>) -> bool {
    match (number_of(a), number_of(b)) {
        (Some(x), Some(y)) => near(x, y),
        _ => a == b,
    }
}

/// A part of a compact JSON text: a numeral, or a string literal or a single character.
#[derive(Debug)]
pub struct Token {
    pub numeral: bool,
    pub text: Vec<char>,
}

/// What a part of a compact JSON text says.
pub struct TokenView {
    pub numeral: bool,
    pub text: Seq<char>,
}

impl View for Token {
    type V = TokenView;

    open spec fn view(&self) -> TokenView {
        TokenView { numeral: self.numeral, text: self.text@ }
    }
}

/// What the parts of a list say.
pub open spec fn views(v: Seq<Token>) -> Seq<TokenView> {
    Seq::new(v.len(), |i: int| v[i]@)
}

/// Where the string literal ends that is open at position `i`: behind the next quote that no
/// backslash precedes.
pub open spec fn closing(s: Seq<char>, i: int) -> int
    decreases s.len() - i,
{
    if i >= s.len() {
        s.len() as int
    } else if s[i] == '\\' {
        if i + 2 <= s.len() {
            closing(s, i + 2)
        } else {
            s.len() as int
        }
    } else if s[i] == '"' {
        i + 1
    } else {
        closing(s, i + 1)
    }
}

/// A character that can stand in a numeral.
pub open spec fn numeric(c: char) -> bool {
    number::digit(c) || c == '+' || c == '-' || c == '.' || c == 'e' || c == 'E'
}

/// The test for a character that cannot stand in a numeral.
pub open spec fn no_numeral() -> spec_fn(char) -> bool {
    |c: char| !numeric(c)
}

/// The length of the part that a compact JSON text begins with.
pub open spec fn token_length(s: Seq<char>) -> int {
    if s[0] == '"' {
        closing(s, 1)
    } else if number::digit(s[0]) || s[0] == '-' {
        text::run(s, no_numeral()) as int
    } else {
        1
    }
}

/// The parts of a compact JSON text: string literals, numerals, and single characters.
pub open spec fn tokens(s: Seq<char>) -> Seq<TokenView>
    decreases s.len(),
    via tokens_decreases
{
    if s.len() == 0 {
        Seq::empty()
    } else {
        let numeral = number::digit(s[0]) || s[0] == '-';
        let n = token_length(s);
        seq![TokenView { numeral, text: s.take(n) }] + tokens(s.skip(n))
    }
}

proof fn lemma_closing(s: Seq<char>, i: int)
    requires
        0 <= i <= s.len(),
    ensures
        i <= closing(s, i) <= s.len(),
    decreases s.len() - i,
{
    if i < s.len() {
        if s[i] == '\\' {
            if i + 2 <= s.len() {
                lemma_closing(s, i + 2);
            }
        } else if s[i] != '"' {
            lemma_closing(s, i + 1);
        }
    }
}

#[via_fn]
proof fn tokens_decreases(s: Seq<char>) {
    if s.len() > 0 {
        lemma_closing(s, 1);
        text::lemma_run(s, no_numeral());
    }
}

fn literal_end(s: &[char], from: usize) -> (r: usize)
    requires
        from < s@.len(),
    ensures
        from < r <= s@.len(),
        r - from == closing(s@.skip(from as int), 1),
{
    let n = s.len();
    let ghost tail = s@.skip(from as int);
    let mut i: usize = from + 1;
    while i < n && s[i] != '"'
        invariant
            n == s@.len(),
            tail == s@.skip(from as int),
            from < i <= n,
            closing(tail, i - from) == closing(tail, 1),
        decreases n - i,
    {
        assert(tail[i - from] == s@[i as int]);
        if s[i] == '\\' {
            if n - i < 2 {
                return n;
            }
            i += 2;
        } else {
            i += 1;
        }
    }
    if i < n {
        assert(tail[i - from] == s@[i as int]);
        i + 1
    } else {
        i
    }
}

fn numeral_end(s: &[char], from: usize) -> (r: usize)
    requires
        from <= s@.len(),
    ensures
        from <= r <= s@.len(),
        r - from == text::run(s@.skip(from as int), no_numeral()),
{
    let ghost tail = s@.skip(from as int);
    let mut i: usize = from;
    while i < s.len() && (number::is_digit(s[i]) || s[i] == '+' || s[i] == '-' || s[i] == '.' || s[i]
        == 'e' || s[i] == 'E')
        invariant
            from <= i <= s@.len(),
            tail == s@.skip(from as int),
            forall|k: int| 0 <= k < i - from ==> numeric(#[trigger] tail[k]),
        decreases s@.len() - i,
    {
        assert(tail[i - from] == s@[i as int]);
        i += 1;
    }
    proof {
        assert(i < s@.len() ==> tail[i - from] == s@[i as int]);
        text::lemma_run_is(tail, no_numeral(), (i - from) as nat);
    }
    i
}

fn next_token(s: &[char], from: usize) -> (r: (Token, usize))
    requires
        from < s@.len(),
    ensures
        from < r.1 <= s@.len(),
        tokens(s@.skip(from as int)) == seq![r.0@] + tokens(s@.skip(r.1 as int)),
{
    let ghost tail = s@.skip(from as int);
    let c = s[from];
    assert(tail[0] == c);
    let numeral = number::is_digit(c) || c == '-';
    let end = if c == '"' {
        literal_end(s, from)
    } else if numeral {
        proof {
            text::lemma_run(tail, no_numeral());
        }
        numeral_end(s, from)
    } else {
        from + 1
    };
    let text = text::piece(s, from, end);
    assert(text@ =~= tail.take(end - from));
    assert(tail.skip(end - from) =~= s@.skip(end as int));
    (Token { numeral, text }, end)
}

/// Takes a compact JSON text apart.
pub fn tokenize(s: &[char]) -> (r: Vec<Token>)
    ensures
        views(r@) == tokens(s@),
{
    let mut out: Vec<Token> = Vec::new();
    let mut i: usize = 0;
    assert(s@.skip(0) =~= s@);
    assert(views(out@) + tokens(s@) =~= tokens(s@));
    while i < s.len()
        invariant
            i <= s@.len(),
            tokens(s@) == views(out@) + tokens(s@.skip(i as int)),
        decreases s@.len() - i,
    {
        let ghost before = views(out@);
        let (token, next) = next_token(s, i);
        let ghost said = token@;
        let ghost rest = tokens(s@.skip(next as int));
        out.push(token);
        i = next;
        assert(views(out@) =~= before + seq![said]);
        assert(before + (seq![said] + rest) =~= views(out@) + rest);
    }
    assert(views(out@) + tokens(s@.skip(i as int)) =~= views(out@));
    out
}

/// Two parts are close: both numerals that are close, or equal.
pub open spec fn tokens_close(a: TokenView, b: TokenView) -> bool {
    if a.numeral && b.numeral {
        numerals_close(a.text, b.text)
    } else {
        a == b
    }
}

/// Two compact JSON texts are close: they differ in numbers only, and each number is near the
/// other one.
pub open spec fn close(a: Seq<char>, b: Seq<char>) -> bool {
    tokens(a).len() == tokens(b).len() && forall|i: int|
        0 <= i < tokens(a).len() ==> tokens_close(#[trigger] tokens(a)[i], tokens(b)[i])
}

fn is_token_close(a: &Token, b: &Token) -> (r: bool)
    ensures
        r == tokens_close(a@, b@),
{
    let same = text::same(a.text.as_slice(), b.text.as_slice());
    if a.numeral && b.numeral {
        match (read_number(a.text.as_slice()), read_number(b.text.as_slice())) {
            (Some(x), Some(y)) => is_near(x, y),
            _ => same,
        }
    } else {
        a.numeral == b.numeral && same
    }
}

/// Whether two compact JSON texts are close.
pub fn is_close(a: &str, b: &str) -> (r: bool)
    ensures
        r == close(a@, b@),
{
    let left = tokenize(text::to_chars(a).as_slice());
    let right = tokenize(text::to_chars(b).as_slice());
    assert(tokens(a@).len() == left@.len());
    assert(tokens(b@).len() == right@.len());
    if left.len() != right.len() {
        return false;
    }
    let mut i: usize = 0;
    while i < left.len()
        invariant
            i <= left@.len(),
            left@.len() == right@.len(),
            tokens(a@) == views(left@),
            tokens(b@) == views(right@),
            forall|k: int| 0 <= k < i ==> tokens_close(#[trigger] tokens(a@)[k], tokens(b@)[k]),
        decreases left@.len() - i,
    {
        assert(tokens(a@)[i as int] == left@[i as int]@);
        assert(tokens(b@)[i as int] == right@[i as int]@);
        if !is_token_close(&left[i], &right[i]) {
            return false;
        }
        i += 1;
    }
    true
}

/// Every text is close to itself.
pub proof fn law_close_to_itself(a: Seq<char>)
    ensures
        close(a, a),
{
    assert forall|i: int| 0 <= i < tokens(a).len() implies tokens_close(
        #[trigger] tokens(a)[i],
        tokens(a)[i],
    ) by {
        match number_of(tokens(a)[i].text) {
            Some(n) => law_near_itself(n),
            None => {},
        }
    }
}

proof fn lemma_digits_uncut(s: Seq<char>, a: char, b: char)
    requires
        number::all_digits(s),
        !number::digit(a),
        !number::digit(b),
    ensures
        cut(s, a, b) == s.len(),
{
    assert forall|i: int| 0 <= i < s.len() implies !either(a, b)(#[trigger] s[i]) by {
        assert(number::digit(s[i]));
    }
    text::lemma_run_is(s, either(a, b), s.len());
}

/// The numeral of an integer stands for that integer.
proof fn lemma_integer_numeral(n: u64)
    ensures
        number_of(number::decimal(n as nat)) == Some(
            Decimal { negative: false, mantissa: n, exponent: 0 },
        ),
{
    let s = number::decimal(n as nat);
    number::law_decimal_reads_back(n as nat);
    assert(number::digit(s[0]));
    lemma_digits_uncut(s, 'e', 'E');
    lemma_digits_uncut(s, '.', '.');
    assert(s.take(s.len() as int) =~= s);
    assert(s + Seq::<char>::empty() =~= s);
    number::law_digits_are_read(s, false, 0, u64::MAX as nat);
}

/// Integers in statistics are close exactly if the second differs from the first by at most a
/// tenth.
pub proof fn law_integers_close(a: u64, b: u64)
    ensures
        numerals_close(number::decimal(a as nat), number::decimal(b as nat)) <==> 10 * distance(
            a as int,
            b as int,
        ) <= a,
{
    lemma_integer_numeral(a);
    lemma_integer_numeral(b);
    let x = Decimal { negative: false, mantissa: a, exponent: 0 };
    let y = Decimal { negative: false, mantissa: b, exponent: 0 };
    assert(pow10(0) == 1);
    assert(x.scaled(0) == a) by {
        assert(a * pow10(0) as int == a) by (nonlinear_arith)
            requires
                pow10(0) == 1,
        ;
    }
    assert(y.scaled(0) == b) by {
        assert(b * pow10(0) as int == b) by (nonlinear_arith)
            requires
                pow10(0) == 1,
        ;
    }
}

/// Texts that go on alike behind their first part are close exactly if the first parts and the rests
/// are.
proof fn lemma_first_part(x: TokenView, s: Seq<char>, y: TokenView, t: Seq<char>, a: Seq<char>, b: Seq<char>)
    requires
        tokens(a) == seq![x] + tokens(s),
        tokens(b) == seq![y] + tokens(t),
    ensures
        close(a, b) <==> tokens_close(x, y) && close(s, t),
{
    if close(a, b) {
        assert(tokens_close(tokens(a)[0], tokens(b)[0]));
        assert forall|i: int| 0 <= i < tokens(s).len() implies tokens_close(
            #[trigger] tokens(s)[i],
            tokens(t)[i],
        ) by {
            assert(tokens(a)[i + 1] == tokens(s)[i]);
            assert(tokens(b)[i + 1] == tokens(t)[i]);
            assert(tokens_close(tokens(a)[i + 1], tokens(b)[i + 1]));
        }
    }
    if tokens_close(x, y) && close(s, t) {
        assert forall|i: int| 0 <= i < tokens(a).len() implies tokens_close(
            #[trigger] tokens(a)[i],
            tokens(b)[i],
        ) by {
            if i > 0 {
                assert(tokens(a)[i] == tokens(s)[i - 1]);
                assert(tokens(b)[i] == tokens(t)[i - 1]);
                assert(tokens_close(tokens(s)[i - 1], tokens(t)[i - 1]));
            }
        }
    }
}

/// Punctuation must be the same, and what stands behind it close.
pub proof fn law_marks_close(c: char, s: Seq<char>, e: char, t: Seq<char>)
    requires
        c != '"' && c != '-' && !number::digit(c),
        e != '"' && e != '-' && !number::digit(e),
    ensures
        close(seq![c] + s, seq![e] + t) <==> c == e && close(s, t),
{
    let (a, b) = (seq![c] + s, seq![e] + t);
    assert(a.skip(1) =~= s && b.skip(1) =~= t);
    assert(a.take(1) =~= seq![c] && b.take(1) =~= seq![e]);
    let (x, y) = (
        TokenView { numeral: false, text: seq![c] },
        TokenView { numeral: false, text: seq![e] },
    );
    assert(seq![c][0] == c && seq![e][0] == e);
    lemma_first_part(x, s, y, t, a, b);
}

proof fn lemma_string_part(k: Seq<char>, s: Seq<char>)
    requires
        !k.contains('"'),
        !k.contains('\\'),
    ensures
        tokens(seq!['"'] + k + seq!['"'] + s) == seq![
            TokenView { numeral: false, text: seq!['"'] + k + seq!['"'] },
        ] + tokens(s),
{
    let a = seq!['"'] + k + seq!['"'] + s;
    lemma_closing_plain(a, 1, k.len() as int + 1);
    assert(a.take(k.len() as int + 2) =~= seq!['"'] + k + seq!['"']);
    assert(a.skip(k.len() as int + 2) =~= s);
}

proof fn lemma_closing_plain(a: Seq<char>, i: int, n: int)
    requires
        0 <= i <= n < a.len(),
        a[n] == '"',
        forall|j: int| 1 <= j < n ==> #[trigger] a[j] != '"' && a[j] != '\\',
        i >= 1,
    ensures
        closing(a, i) == n + 1,
    decreases n - i,
{
    if i < n {
        lemma_closing_plain(a, i + 1, n);
    }
}

/// Strings, the names of members among them, must be the same, and what stands behind them close.
pub proof fn law_strings_close(k: Seq<char>, s: Seq<char>, l: Seq<char>, t: Seq<char>)
    requires
        !k.contains('"') && !k.contains('\\'),
        !l.contains('"') && !l.contains('\\'),
    ensures
        close(seq!['"'] + k + seq!['"'] + s, seq!['"'] + l + seq!['"'] + t) <==> k == l && close(s, t),
{
    lemma_string_part(k, s);
    lemma_string_part(l, t);
    let (p, q) = (seq!['"'] + k + seq!['"'], seq!['"'] + l + seq!['"']);
    lemma_first_part(
        TokenView { numeral: false, text: p },
        s,
        TokenView { numeral: false, text: q },
        t,
        p + s,
        q + t,
    );
    if p == q {
        assert(p.subrange(1, p.len() - 1) =~= k);
        assert(q.subrange(1, q.len() - 1) =~= l);
    }
}

proof fn lemma_number_part(n: u64, s: Seq<char>)
    requires
        s.len() > 0 ==> !numeric(s[0]),
    ensures
        tokens(number::decimal(n as nat) + s) == seq![
            TokenView { numeral: true, text: number::decimal(n as nat) },
        ] + tokens(s),
{
    let d = number::decimal(n as nat);
    let a = d + s;
    number::law_decimal_reads_back(n as nat);
    assert forall|i: int| 0 <= i < d.len() implies !no_numeral()(#[trigger] a[i]) by {
        assert(a[i] == d[i]);
        assert(number::digit(d[i]));
    }
    if s.len() > 0 {
        assert(a[d.len() as int] == s[0]);
    }
    text::lemma_run_is(a, no_numeral(), d.len());
    assert(number::digit(d[0]) && a[0] == d[0]);
    assert(a.take(d.len() as int) =~= d);
    assert(a.skip(d.len() as int) =~= s);
}

/// An integer may differ from the one in the first text by at most a tenth of that; what stands
/// behind it must be close.
pub proof fn law_numbers_close(m: u64, s: Seq<char>, n: u64, t: Seq<char>)
    requires
        s.len() > 0 ==> !number::digit(s[0]) && s[0] != '+' && s[0] != '-' && s[0] != '.' && s[0]
            != 'e' && s[0] != 'E',
        t.len() > 0 ==> !number::digit(t[0]) && t[0] != '+' && t[0] != '-' && t[0] != '.' && t[0]
            != 'e' && t[0] != 'E',
    ensures
        close(number::decimal(m as nat) + s, number::decimal(n as nat) + t) <==> close(s, t) && (m
            >= n ==> 10 * (m - n) <= m) && (m <= n ==> 10 * (n - m) <= m),
{
    lemma_number_part(m, s);
    lemma_number_part(n, t);
    law_integers_close(m, n);
    let (p, q) = (number::decimal(m as nat), number::decimal(n as nat));
    lemma_first_part(
        TokenView { numeral: true, text: p },
        s,
        TokenView { numeral: true, text: q },
        t,
        p + s,
        q + t,
    );
}

/// Empty texts are close, and nothing else is close to one.
pub proof fn law_empty_close(s: Seq<char>)
    ensures
        close(s, Seq::empty()) <==> s.len() == 0,
        close(Seq::empty(), s) <==> s.len() == 0,
{
}

/// A number is near another exactly if both have the same sign and the sizes differ by at most a
/// tenth of the first: where both are counted in the same power of ten, and where the second is
/// counted in tenths of it.
pub proof fn law_near_sizes(negative: bool, m: u64, n: u64, exponent: i64)
    requires
        exponent > i64::MIN,
    ensures
        ({
            let a = Decimal { negative, mantissa: m, exponent };
            let b = Decimal { negative, mantissa: n, exponent };
            let c = Decimal { negative, mantissa: n, exponent: (exponent - 1) as i64 };
            let d = Decimal { negative: !negative, mantissa: n, exponent };
            &&& near(a, b) <==> (m >= n ==> 10 * (m - n) <= m) && (m <= n ==> 10 * (n - m) <= m)
            &&& near(a, c) <==> (10 * m >= n ==> 10 * (10 * m - n) <= 10 * m) && (10 * m <= n ==> 10 * (
            n - 10 * m) <= 10 * m)
            &&& near(a, d) <==> m == 0 && n == 0
        }),
{
    reveal_with_fuel(pow10, 2);
    let p = pow10(0) as int;
    let q = pow10(1) as int;
    assert(p == 1 && q == 10);
    assert(m * p == m && n * p == n && m * q == 10 * m) by (nonlinear_arith)
        requires
            p == 1,
            q == 10,
    ;
}

} // verus!
