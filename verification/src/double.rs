//! Double-precision arithmetic, as far as five per cent of a bitrate need it: on integers, exactly.
//! A double that is no integer stands here in units of the power of two that `ONE` counts.

use vstd::prelude::*;
use vstd::arithmetic::div_mod;
use vstd::arithmetic::power2;
use crate::number;

verus! {

/// One, in units.
pub const ONE: u128 = 144115188075855872;

/// The double nearest to a twentieth, in units.
pub const TWENTIETH: u128 = 7205759403792794;

/// Below this number, every integer is a double.
pub const DENSE: u128 = 9007199254740992;

/// The least number with as many binary digits as a double has.
pub const FULL: u128 = 4503599627370496;

/// How many binary digits of a number lie below those that a double has.
pub open spec fn excess(n: nat) -> nat
    decreases n,
{
    if n < DENSE {
        0
    } else {
        excess(n / 2) + 1
    }
}

/// How far doubles lie apart at a number.
pub open spec fn spacing(n: nat) -> nat {
    power2::pow2(excess(n))
}

/// The double nearest to a number: of two that are equally near, the one whose last binary digit is
/// zero.
pub open spec fn nearest(n: nat) -> nat {
    let u = spacing(n);
    let q = n / u;
    let r = n % u;
    if 2 * r > u || (2 * r == u && q % 2 == 1) {
        (q + 1) * u
    } else {
        q * u
    }
}

/// The product of a number and a twentieth, in units.
pub open spec fn twentieth_of(a: nat) -> nat {
    nearest(nearest(a) * TWENTIETH as nat)
}

/// The distance of two numbers.
pub open spec fn apart(a: nat, b: nat) -> nat {
    let x = nearest(a);
    let y = nearest(b);
    if x < y {
        nearest((y - x) as nat)
    } else {
        nearest((x - y) as nat)
    }
}

/// A power of ten.
pub open spec fn tens(n: nat) -> nat
    decreases n,
{
    if n == 0 {
        1
    } else {
        10 * tens((n - 1) as nat)
    }
}

/// The numbers that are read as one double: they lie between two bounds, which belong to them or
/// not. All of it is counted in parts, `one` of which make a one.
pub struct Around {
    pub low: nat,
    pub middle: nat,
    pub high: nat,
    pub closed: bool,
    pub one: nat,
}

/// The numbers that are read as a double. They reach half of the way to its neighbours, and hold
/// the ends if its last binary digit is zero.
pub open spec fn around(p: nat) -> Around {
    let u = spacing(p);
    let below = if p / u == FULL {
        u / 4
    } else {
        u / 2
    };
    Around {
        low: (p - below) as nat,
        middle: p,
        high: p + u / 2,
        closed: p / u % 2 == 0,
        one: ONE as nat,
    }
}

/// What a part is multiplied with before it is compared with a number of `10^x`.
pub open spec fn finer(x: int) -> nat {
    if x < 0 {
        tens((-x) as nat)
    } else {
        1
    }
}

impl Around {
    /// How many parts a `10^x` has, after they were multiplied.
    pub open spec fn step(self, x: int) -> nat {
        if x > 0 {
            tens(x as nat) * self.one
        } else {
            self.one
        }
    }

    /// `d * 10^x` is among the numbers.
    pub open spec fn holds(self, d: nat, x: int) -> bool {
        let low = self.low * finer(x);
        let high = self.high * finer(x);
        let v = d * self.step(x);
        if self.closed {
            low <= v <= high
        } else {
            low < v < high
        }
    }

    /// The highest place, from `x` down, with a multiple of which one of the numbers can be
    /// written.
    pub open spec fn place(self, x: int) -> int
        decreases x + 17,
    {
        if x <= -17 || exists|d: nat| #[trigger] self.holds(d, x) {
            x
        } else {
            self.place(x - 1)
        }
    }

    /// The multiple of `10^x` just below the double, or on it.
    pub open spec fn floor(self, x: int) -> nat {
        self.middle * finer(x) / self.step(x)
    }

    /// The multiple of `10^x` among the numbers that is nearest to the double: of two that are
    /// equally near, the greater one.
    pub open spec fn digits(self, x: int) -> nat {
        let f = self.floor(x);
        if !self.holds(f, x) {
            f + 1
        } else if !self.holds(f + 1, x) {
            f
        } else if 2 * (self.middle * finer(x) - f * self.step(x)) < self.step(x) {
            f
        } else {
            f + 1
        }
    }
}

/// The last digits of a number.
pub open spec fn last_digits(n: nat, count: nat) -> Seq<char>
    decreases count,
{
    if count == 0 {
        Seq::empty()
    } else {
        last_digits(n / 10, (count - 1) as nat).push(number::digit_char(n % 10))
    }
}

/// `d * 10^x` in decimal digits.
pub open spec fn positional(d: nat, x: int) -> Seq<char> {
    if x >= 0 {
        number::decimal(d) + last_digits(0, x as nat)
    } else {
        let t = tens((-x) as nat);
        number::decimal(d / t) + "."@ + last_digits(d % t, (-x) as nat)
    }
}

/// A double, given in units, in the fewest decimal digits that are read as it.
pub open spec fn shortest(p: nat) -> Seq<char> {
    let x = around(p).place(17);
    positional(around(p).digits(x), x)
}

/// The spacing of a number, as an exponent and as a number.
fn spacing_of(n: u128) -> (r: (u32, u128))
    ensures
        r.0 == excess(n as nat),
        r.1 == spacing(n as nat),
        r.0 <= 75,
        r.1 * FULL <= n || r.0 == 0,
        r.0 == 0 ==> r.1 == 1 && n < DENSE,
        n < r.1 * DENSE,
{
    let mut k: u32 = 0;
    let mut u: u128 = 1;
    let mut m: u128 = n;
    proof {
        power2::lemma2_to64();
    }
    while m >= DENSE
        invariant
            excess(n as nat) == k + excess(m as nat),
            u == power2::pow2(k as nat),
            u * m <= n,
            n < u * (m + 1),
            k == 0 ==> u == 1 && m == n,
            k > 0 ==> m >= FULL,
            k <= 75,
            u >= 1,
        decreases m,
    {
        proof {
            assert(u * DENSE <= n) by (nonlinear_arith)
                requires
                    u * m <= n,
                    m >= DENSE,
            ;
            power2::lemma_pow2_unfold((k + 1) as nat);
            let h = m / 2;
            assert((2 * u) * h <= u * m) by (nonlinear_arith)
                requires
                    2 * h <= m,
                    u >= 1,
            ;
            assert(u * (m + 1) <= (2 * u) * (h + 1)) by (nonlinear_arith)
                requires
                    m <= 2 * h + 1,
                    u >= 1,
            ;
            if k == 75 {
                lemma_powers();
            }
        }
        k += 1;
        u *= 2;
        m /= 2;
    }
    proof {
        assert(n < u * DENSE) by (nonlinear_arith)
            requires
                n < u * (m + 1),
                m < DENSE,
                u >= 1,
        ;
        if k > 0 {
            assert(u * FULL <= n) by (nonlinear_arith)
                requires
                    u * m <= n,
                    m >= FULL,
                    u >= 1,
            ;
        }
    }
    (k, u)
}

/// Rounds a number to the nearest double.
fn round(n: u128) -> (r: u128)
    requires
        n < 0x8000_0000_0000_0000_0000_0000_0000_0000,
    ensures
        r == nearest(n as nat),
        r <= 2 * n,
{
    let (k, u) = spacing_of(n);
    let q: u128 = n / u;
    let r: u128 = n % u;
    proof {
        div_mod::lemma_fundamental_div_mod(n as int, u as int);
        assert((q + 1) * u == q * u + u) by (nonlinear_arith);
        assert(q * u == u * q) by (nonlinear_arith);
        if k == 0 {
            assert(r == 0);
        } else {
            assert(u <= n) by (nonlinear_arith)
                requires
                    u * FULL <= n,
            ;
        }
    }
    if 2 * r > u || (2 * r == u && q % 2 == 1) {
        (q + 1) * u
    } else {
        q * u
    }
}

/// What a power of ten is at most, here.
pub const TOP: u128 = 100000000000000000;

fn tens_of(n: u32) -> (r: u128)
    requires
        n <= 17,
    ensures
        r == tens(n as nat),
        1 <= r <= TOP,
{
    reveal_with_fuel(tens, 18);
    let mut r: u128 = 1;
    let mut i: u32 = 0;
    while i < n
        invariant
            i <= n <= 17,
            r == tens(i as nat),
            r >= 1,
            tens(17) == TOP,
        decreases n - i,
    {
        proof {
            lemma_tens_grow(i as nat, 16);
            reveal_with_fuel(tens, 18);
        }
        i += 1;
        r *= 10;
    }
    proof {
        lemma_tens_grow(n as nat, 17);
        reveal_with_fuel(tens, 18);
    }
    r
}

proof fn lemma_tens_grow(a: nat, b: nat)
    requires
        a <= b,
    ensures
        1 <= tens(a) <= tens(b),
    decreases b,
{
    if a < b {
        lemma_tens_grow(a, (b - 1) as nat);
    } else if a > 0 {
        lemma_tens_grow((a - 1) as nat, (a - 1) as nat);
    }
}

impl Around {
    /// The bounds stand around the double, and there is a one.
    pub open spec fn sound(self) -> bool {
        self.low < self.middle < self.high && self.one > 0
    }

    /// The same numbers counted in parts that are `g` times as fine.
    pub open spec fn in_parts(self, g: nat) -> Around {
        Around {
            low: self.low * g,
            middle: self.middle * g,
            high: self.high * g,
            closed: self.closed,
            one: self.one * g,
        }
    }

    proof fn lemma_step(self, x: int)
        requires
            self.sound(),
        ensures
            self.step(x) > 0,
            finer(x) > 0,
    {
        let t = tens(x as nat) as int;
        let o = self.one as int;
        if x > 0 {
            lemma_tens_grow(0, x as nat);
            assert(t * o > 0) by (nonlinear_arith)
                requires
                    t >= 1,
                    o >= 1,
            ;
        } else {
            lemma_tens_grow(0, (-x) as nat);
        }
    }

    /// The multiples next to the double tell whether one of the numbers is a multiple.
    proof fn lemma_next(self, x: int)
        requires
            self.sound(),
        ensures
            (exists|d: nat| #[trigger] self.holds(d, x)) <==> self.holds(self.floor(x), x)
                || self.holds(self.floor(x) + 1, x),
    {
        self.lemma_step(x);
        let f = self.floor(x) as int;
        let s = self.step(x) as int;
        let c = finer(x) as int;
        let m = self.middle * finer(x);
        let low = self.low as int;
        let high = self.high as int;
        let mid = self.middle as int;
        div_mod::lemma_fundamental_div_mod(m as int, s);
        assert(f * s <= m < (f + 1) * s) by (nonlinear_arith)
            requires
                m == s * f + m as int % s,
                0 <= m as int % s < s,
        ;
        assert(low * c < mid * c < high * c) by (nonlinear_arith)
            requires
                low < mid < high,
                c > 0,
        ;
        if exists|d: nat| #[trigger] self.holds(d, x) {
            let d = choose|d: nat| #[trigger] self.holds(d, x);
            let e = d as int;
            if e <= f {
                assert(e * s <= f * s) by (nonlinear_arith)
                    requires
                        e <= f,
                        s > 0,
                ;
            } else {
                assert((f + 1) * s <= e * s) by (nonlinear_arith)
                    requires
                        f + 1 <= e,
                        s > 0,
                ;
            }
        }
    }

    /// Counting in finer parts changes neither what is a multiple nor which one is nearest.
    proof fn lemma_parts(self, g: nat, x: int)
        requires
            self.sound(),
            g > 0,
        ensures
            forall|d: nat| self.in_parts(g).holds(d, x) == #[trigger] self.holds(d, x),
            self.in_parts(g).floor(x) == self.floor(x),
            self.in_parts(g).digits(x) == self.digits(x),
    {
        let other = self.in_parts(g);
        let k = g as int;
        self.lemma_step(x);
        let s = self.step(x) as int;
        let c = finer(x) as int;
        let low = self.low as int;
        let mid = self.middle as int;
        let high = self.high as int;
        let t = tens(x as nat) as int;
        let o = self.one as int;
        assert(t * (o * k) == t * o * k) by (nonlinear_arith);
        assert(other.step(x) == s * k);
        assert(low * k * c == low * c * k) by (nonlinear_arith);
        assert(mid * k * c == mid * c * k) by (nonlinear_arith);
        assert(high * k * c == high * c * k) by (nonlinear_arith);
        assert forall|d: nat| other.holds(d, x) == #[trigger] self.holds(d, x) by {
            let e = d as int;
            assert(e * (s * k) == e * s * k) by (nonlinear_arith);
            lemma_order(low * c, e * s, k);
            lemma_order(e * s, high * c, k);
            lemma_order(e * s, low * c, k);
            lemma_order(high * c, e * s, k);
        }
        let m = mid * c;
        assert(m >= 0) by (nonlinear_arith)
            requires
                m == mid * c,
                mid >= 0,
                c >= 0,
        ;
        div_mod::lemma_div_multiples_vanish_quotient(k, m, s);
        assert(k * m == m * k && k * s == s * k) by (nonlinear_arith);
        let f = self.floor(x) as int;
        assert(f * (s * k) == f * s * k) by (nonlinear_arith);
        assert(2 * (m * k - f * s * k) == 2 * (m - f * s) * k) by (nonlinear_arith);
        lemma_order(s, 2 * (m - f * s), k);
    }

    proof fn lemma_place_parts(self, g: nat, x: int)
        requires
            self.sound(),
            g > 0,
        ensures
            self.in_parts(g).place(x) == self.place(x),
        decreases x + 17,
    {
        self.lemma_parts(g, x);
        if exists|d: nat| #[trigger] self.holds(d, x) {
            let d = choose|d: nat| #[trigger] self.holds(d, x);
            assert(self.in_parts(g).holds(d, x));
        }
        if exists|d: nat| #[trigger] self.in_parts(g).holds(d, x) {
            let d = choose|d: nat| #[trigger] self.in_parts(g).holds(d, x);
            assert(self.holds(d, x));
        }
        if x > -17 {
            self.lemma_place_parts(g, x - 1);
        }
    }
}

proof fn lemma_order(a: int, b: int, k: int)
    requires
        k > 0,
    ensures
        a <= b <==> a * k <= b * k,
        a < b <==> a * k < b * k,
{
    assert(a <= b ==> a * k <= b * k) by (nonlinear_arith)
        requires
            k > 0,
    ;
    assert(a > b ==> a * k > b * k) by (nonlinear_arith)
        requires
            k > 0,
    ;
    assert(a < b ==> a * k < b * k) by (nonlinear_arith)
        requires
            k > 0,
    ;
    assert(a >= b ==> a * k >= b * k) by (nonlinear_arith)
        requires
            k > 0,
    ;
}

/// What is around a double, in numbers of the machine.
struct Bounds {
    low: u128,
    middle: u128,
    high: u128,
    closed: bool,
    one: u128,
}

/// What `Bounds` may hold at most.
const WIDE: u128 = 0x4000_0000_0000_0000;

impl Bounds {
    spec fn around(self) -> Around {
        Around {
            low: self.low as nat,
            middle: self.middle as nat,
            high: self.high as nat,
            closed: self.closed,
            one: self.one as nat,
        }
    }

    spec fn fits(self) -> bool {
        self.around().sound() && self.high < WIDE && self.one <= ONE
    }

    fn has(&self, d: u128, finer_by: u128, step: u128, Ghost(x): Ghost<int>) -> (r: bool)
        requires
            self.fits(),
            finer_by == finer(x),
            finer_by <= TOP,
            step == self.around().step(x),
            d * step <= u128::MAX,
        ensures
            r == self.around().holds(d as nat, x),
    {
        proof {
            lemma_room(self.low, finer_by);
            lemma_room(self.high, finer_by);
        }
        let low: u128 = self.low * finer_by;
        let high: u128 = self.high * finer_by;
        let v: u128 = d * step;
        if self.closed {
            low <= v && v <= high
        } else {
            low < v && v < high
        }
    }

    /// The nearest of the multiples of `10^x`, if there is one among the numbers, or if it is the
    /// last place.
    fn try_place(&self, x: i32) -> (r: Option<u128>)
        requires
            self.fits(),
            -17 <= x <= 17,
        ensures
            r is Some <==> x == -17 || exists|d: nat| #[trigger] self.around().holds(d, x as int),
            r matches Some(d) ==> d == self.around().digits(x as int),
    {
        let finer_by: u128 = if x < 0 {
            tens_of((-x) as u32)
        } else {
            1
        };
        let one: u128 = self.one;
        let step: u128 = if x > 0 {
            let t = tens_of(x as u32);
            proof {
                lemma_step_room(t, one);
            }
            t * one
        } else {
            one
        };
        proof {
            self.around().lemma_next(x as int);
            self.around().lemma_step(x as int);
            lemma_room(self.middle, finer_by);
            lemma_step_room(1, one);
        }
        let m: u128 = self.middle * finer_by;
        let f: u128 = m / step;
        proof {
            div_mod::lemma_fundamental_div_mod(m as int, step as int);
            assert(f * step <= m) by (nonlinear_arith)
                requires
                    m == step * f + m as int % step as int,
                    0 <= m as int % step as int,
            ;
            assert((f + 1) * step == f * step + step) by (nonlinear_arith);
            assert(f <= m) by (nonlinear_arith)
                requires
                    f * step <= m,
                    step >= 1,
            ;
        }
        let below = self.has(f, finer_by, step, Ghost(x as int));
        let above = self.has(f + 1, finer_by, step, Ghost(x as int));
        if x != -17 && !below && !above {
            return None;
        }
        if !below {
            Some(f + 1)
        } else if !above {
            Some(f)
        } else if 2 * (m - f * step) < step {
            Some(f)
        } else {
            Some(f + 1)
        }
    }

    /// The place, and the digits down to it.
    fn find(&self) -> (r: (u128, i32))
        requires
            self.fits(),
        ensures
            r.1 == self.around().place(17),
            r.0 == self.around().digits(r.1 as int),
            -17 <= r.1 <= 17,
    {
        let mut x: i32 = 17;
        while x > -17
            invariant
                self.fits(),
                -17 <= x <= 17,
                self.around().place(17) == self.around().place(x as int),
            decreases x + 17,
        {
            match self.try_place(x) {
                Some(d) => {
                    return (d, x);
                },
                None => {},
            }
            x -= 1;
        }
        match self.try_place(x) {
            Some(d) => (d, x),
            None => (0, x),
        }
    }
}

proof fn lemma_room(a: u128, c: u128)
    requires
        a < WIDE,
        c <= TOP,
    ensures
        0 <= a * c < 0x1000_0000_0000_0000_0000_0000_0000_0000,
{
    assert(0 <= a * c <= WIDE * TOP) by (nonlinear_arith)
        requires
            a < WIDE,
            c <= TOP,
    ;
}

proof fn lemma_step_room(t: u128, one: u128)
    requires
        t <= TOP,
        one <= ONE,
    ensures
        0 <= t * one < 0x1000_0000_0000_0000_0000_0000_0000_0000,
{
    assert(0 <= t * one <= TOP * ONE) by (nonlinear_arith)
        requires
            t <= TOP,
            one <= ONE,
    ;
}

proof fn lemma_powers()
    ensures
        power2::pow2(0) == 1,
        power2::pow2(1) == 2,
        power2::pow2(2) == 4,
        power2::pow2(3) == 8,
        power2::pow2(4) == 16,
        power2::pow2(5) == 32,
        power2::pow2(57) == ONE,
        power2::pow2(66) == 0x4_0000_0000_0000_0000,
        power2::pow2(75) == 37778931862957161709568,
{
    power2::lemma2_to64();
    power2::lemma2_to64_rest();
    power2::lemma_pow2_adds(64, 2);
    power2::lemma_pow2_adds(64, 11);
    let a = power2::pow2(64) as int;
    let b = power2::pow2(11) as int;
    let c = power2::pow2(2) as int;
    assert(a * b == 37778931862957161709568 && a * c == 0x4_0000_0000_0000_0000) by (
    nonlinear_arith)
        requires
            a == 0x1_0000_0000_0000_0000,
            b == 2048,
            c == 4,
    ;
}

proof fn lemma_powers_grow(a: nat, b: nat)
    requires
        a <= b,
    ensures
        1 <= power2::pow2(a) <= power2::pow2(b),
{
    power2::lemma_pow2_pos(a);
    if a < b {
        power2::lemma_pow2_strictly_increases(a, b);
    }
}

fn power(k: u32) -> (r: u128)
    requires
        k <= 75,
    ensures
        r == power2::pow2(k as nat),
{
    proof {
        lemma_powers();
    }
    let mut r: u128 = 1;
    let mut i: u32 = 0;
    while i < k
        invariant
            i <= k <= 75,
            r == power2::pow2(i as nat),
        decreases k - i,
    {
        proof {
            lemma_powers();
            lemma_powers_grow((i + 1) as nat, 75);
            power2::lemma_pow2_unfold((i + 1) as nat);
        }
        i += 1;
        r *= 2;
    }
    r
}

/// A number is a double.
pub open spec fn exact(n: nat) -> bool {
    n % spacing(n) == 0
}

/// A number between the two bounds of an exponent has that exponent.
proof fn lemma_excess(n: nat, k: nat)
    requires
        power2::pow2(k) * FULL <= n < power2::pow2(k) * DENSE,
        k > 0,
    ensures
        excess(n) == k,
    decreases k,
{
    lemma_powers();
    power2::lemma_pow2_unfold(k);
    let u = power2::pow2((k - 1) as nat) as int;
    power2::lemma_pow2_pos((k - 1) as nat);
    let h = n as int / 2;
    assert(n >= 2 * u * FULL && n < 2 * u * DENSE) by (nonlinear_arith)
        requires
            power2::pow2(k) == 2 * u,
            power2::pow2(k) * FULL <= n < power2::pow2(k) * DENSE,
    ;
    assert(n >= DENSE) by (nonlinear_arith)
        requires
            n >= 2 * u * FULL,
            u >= 1,
            2 * FULL == DENSE,
    ;
    assert(u * FULL <= h < u * DENSE) by (nonlinear_arith)
        requires
            n >= 2 * u * FULL,
            n < 2 * u * DENSE,
            h == n as int / 2,
    ;
    if k == 1 {
        assert(excess((n / 2) as nat) == 0);
    } else {
        lemma_excess((n / 2) as nat, (k - 1) as nat);
    }
}

/// The bounds of the exponent of a number.
proof fn lemma_spacing(n: nat)
    ensures
        spacing(n) >= 1,
        n < spacing(n) * DENSE,
        excess(n) > 0 ==> spacing(n) * FULL <= n,
    decreases n,
{
    lemma_powers();
    power2::lemma_pow2_pos(excess(n));
    if n >= DENSE {
        let h = n / 2;
        lemma_spacing(h);
        power2::lemma_pow2_unfold(excess(n));
        let v = spacing(h) as int;
        assert(n < 2 * v * DENSE) by (nonlinear_arith)
            requires
                n <= 2 * h + 1,
                h < v * DENSE,
                v >= 1,
                DENSE == 9007199254740992,
        ;
        assert(2 * v * FULL <= n) by (nonlinear_arith)
            requires
                2 * h <= n,
                excess(h) > 0 ==> v * FULL <= h,
                excess(h) == 0 ==> v == 1 && h >= FULL,
        ;
    }
}

/// The double nearest to a number is one, and lies no farther from it than half of the spacing.
proof fn lemma_nearest(n: nat)
    ensures
        exact(nearest(n)),
        n < DENSE ==> nearest(n) == n,
        n / spacing(n) * spacing(n) <= nearest(n),
        nearest(n) <= (n / spacing(n) + 1) * spacing(n),
        2 * nearest(n) <= 2 * n + spacing(n),
        2 * n <= 2 * nearest(n) + spacing(n),
{
    lemma_spacing(n);
    lemma_powers();
    let u = spacing(n) as int;
    let q = n as int / u;
    let r = n as int % u;
    let k = excess(n);
    div_mod::lemma_fundamental_div_mod(n as int, u);
    assert(n == q * u + r && (q + 1) * u == q * u + u) by (nonlinear_arith)
        requires
            n == u * q + r,
    ;
    if k == 0 {
        assert(u == 1 && r == 0);
        assert(nearest(n) == n);
        assert(n % 1 == 0);
    } else {
        assert(FULL <= q < DENSE) by (nonlinear_arith)
            requires
                u * FULL <= n < u * DENSE,
                n == u * q + r,
                0 <= r < u,
        ;
        let v = nearest(n) as int;
        let c = if v == q * u {
            q
        } else {
            q + 1
        };
        assert(v == c * u);
        if c < DENSE {
            assert(u * FULL <= v < u * DENSE) by (nonlinear_arith)
                requires
                    v == c * u,
                    FULL <= c < DENSE,
                    u >= 1,
            ;
            lemma_excess(v as nat, k);
            lemma_multiple(c, u);
        } else {
            power2::lemma_pow2_unfold((k + 1) as nat);
            let w = 2 * u;
            assert(w * FULL <= v < w * DENSE && v == FULL * w) by (nonlinear_arith)
                requires
                    v == c * u,
                    c == DENSE,
                    w == 2 * u,
                    u >= 1,
                    DENSE == 2 * FULL,
                    FULL == 4503599627370496,
            ;
            lemma_excess(v as nat, k + 1);
            lemma_multiple(FULL as int, w);
        }
    }
}

proof fn lemma_multiple(c: int, u: int)
    requires
        u > 0,
        c >= 0,
    ensures
        (c * u) % u == 0,
        (c * u) / u == c,
{
    div_mod::lemma_div_multiples_vanish(c, u);
    assert(c * u == u * c) by (nonlinear_arith);
    div_mod::lemma_fundamental_div_mod(c * u, u);
}

/// The double and its bounds, in the coarsest parts that count them all.
fn bounds_of(p: u128) -> (r: (Bounds, Ghost<nat>))
    requires
        exact(p as nat),
        ONE <= p < 0x40_0000_0000_0000_0000_0000_0000_0000,
    ensures
        r.0.fits(),
        r.1@ > 0,
        r.0.around().in_parts(r.1@) == around(p as nat),
{
    let (k, u) = spacing_of(p);
    let q: u128 = p / u;
    let ghost v = u as int;
    proof {
        lemma_powers();
        lemma_spacing(p as nat);
        if k < 5 {
            lemma_powers_grow(k as nat, 4);
            assert(p < 16 * DENSE) by (nonlinear_arith)
                requires
                    p < u * DENSE,
                    u <= 16,
            ;
        }
        if k > 65 {
            lemma_powers_grow(66, k as nat);
            assert(p >= 0x4_0000_0000_0000_0000 * FULL) by (nonlinear_arith)
                requires
                    p >= u * FULL,
                    u >= 0x4_0000_0000_0000_0000,
            ;
        }
    }
    let j: u32 = if k - 2 < 57 {
        k - 2
    } else {
        57
    };
    let one = power(57 - j);
    let w = power(k - 2 - j);
    let ghost g = power2::pow2(j as nat) as int;
    let ghost m = q as int;
    let ghost x = w as int;
    proof {
        power2::lemma_pow2_pos(j as nat);
        power2::lemma_pow2_adds(j as nat, (57 - j) as nat);
        power2::lemma_pow2_adds(j as nat, (k - 2 - j) as nat);
        power2::lemma_pow2_adds(2, (k - 2) as nat);
        lemma_powers_grow((k - 2 - j) as nat, 6);
        lemma_powers_grow((57 - j) as nat, 57);
        power2::lemma2_to64();
        div_mod::lemma_fundamental_div_mod(p as int, v);
        assert(v == 4 * (g * x));
        assert(p == v * m);
        assert(FULL <= m < DENSE) by (nonlinear_arith)
            requires
                v * FULL <= p < v * DENSE,
                p == v * m,
                v >= 1,
        ;
        assert(4 * m * x * g == p && (4 * m - 1) * x * g == p - g * x && (4 * m - 2) * x * g == p - 2
            * (g * x) && (4 * m + 2) * x * g == p + 2 * (g * x)) by (nonlinear_arith)
            requires
                p == v * m,
                v == 4 * (g * x),
        ;
        assert((4 * m + 2) * x < WIDE && (4 * m - 1) * x < 4 * m * x && (4 * m - 2) * x < 4 * m * x
            && 4 * m * x < (4 * m + 2) * x) by (nonlinear_arith)
            requires
                FULL <= m < DENSE,
                1 <= x <= 64,
                DENSE == 9007199254740992,
                WIDE == 0x4000_0000_0000_0000,
                FULL == 4503599627370496,
        ;
        assert((4 * m - 2) * x >= 0) by (nonlinear_arith)
            requires
                m >= 1,
                x >= 1,
        ;
        assert(one * g == ONE) by (nonlinear_arith)
            requires
                g * one == ONE,
        ;
        assert(v / 4 == g * x && v / 2 == 2 * (g * x));
    }
    let low: u128 = if q == FULL {
        (4 * q - 1) * w
    } else {
        (4 * q - 2) * w
    };
    let r = Bounds {
        low,
        middle: 4 * q * w,
        high: (4 * q + 2) * w,
        closed: q % 2 == 0,
        one,
    };
    (r, Ghost(g as nat))
}

fn push_number(out: &mut Vec<char>, n: u128)
    ensures
        final(out)@ == old(out)@ + number::decimal(n as nat),
    decreases n,
{
    if n < 10 {
        out.push(number::digit_of(n as u8));
    } else {
        push_number(out, n / 10);
        out.push(number::digit_of((n % 10) as u8));
    }
}

fn push_last_digits(out: &mut Vec<char>, n: u128, count: u32)
    ensures
        final(out)@ == old(out)@ + last_digits(n as nat, count as nat),
    decreases count,
{
    if count == 0 {
        assert(out@ =~= old(out)@ + last_digits(n as nat, 0));
    } else {
        push_last_digits(out, n / 10, count - 1);
        out.push(number::digit_of((n % 10) as u8));
    }
}

/// Writes a double, given in units, in the fewest decimal digits that are read as it.
pub fn shortest_text(p: u128) -> (r: Vec<char>)
    requires
        exact(p as nat),
        ONE <= p < 0x40_0000_0000_0000_0000_0000_0000_0000,
    ensures
        r@ == shortest(p as nat),
{
    proof {
        reveal_strlit(".");
    }
    let (bounds, Ghost(g)) = bounds_of(p);
    let (d, x) = bounds.find();
    proof {
        bounds.around().lemma_place_parts(g, 17);
        bounds.around().lemma_parts(g, x as int);
    }
    let mut out: Vec<char> = Vec::new();
    if x >= 0 {
        push_number(&mut out, d);
        push_last_digits(&mut out, 0, x as u32);
    } else {
        let t = tens_of((-x) as u32);
        push_number(&mut out, d / t);
        out.push('.');
        push_last_digits(&mut out, d % t, (-x) as u32);
        assert(seq!['.'] =~= "."@);
    }
    assert(out@ =~= shortest(p as nat));
    out
}

/// A twentieth of a number, in units.
pub fn twentieth(a: u64) -> (r: u128)
    ensures
        r == twentieth_of(a as nat),
        exact(r as nat),
        r < 0x40_0000_0000_0000_0000_0000_0000_0000,
{
    let x = round(a as u128);
    proof {
        lemma_nearest(a as nat);
        lemma_nearest((x * TWENTIETH) as nat);
        power2::lemma2_to64();
        lemma_at_most(a as nat, 64);
        assert(x * TWENTIETH <= 0x1_0000_0000_0000_0000 * TWENTIETH) by (nonlinear_arith)
            requires
                x <= 0x1_0000_0000_0000_0000,
        ;
    }
    round(x * TWENTIETH)
}

/// The distance of two numbers.
pub fn distance(a: u64, b: u64) -> (r: u128)
    ensures
        r == apart(a as nat, b as nat),
        r <= 0x1_0000_0000_0000_0000,
{
    proof {
        power2::lemma2_to64();
        lemma_at_most(a as nat, 64);
        lemma_at_most(b as nat, 64);
    }
    let x = round(a as u128);
    let y = round(b as u128);
    let d: u128 = if x < y {
        y - x
    } else {
        x - y
    };
    proof {
        lemma_at_most(d as nat, 64);
    }
    round(d)
}

/// A double that is at most a number is at most the double nearest to it.
pub proof fn law_double_below(r: nat, n: nat)
    requires
        exact(r),
        r <= n,
    ensures
        r <= nearest(n),
{
    lemma_spacing(n);
    lemma_nearest(n);
    lemma_powers();
    let u = spacing(n) as int;
    let q = n as int / u;
    let k = excess(n);
    div_mod::lemma_fundamental_div_mod(n as int, u);
    if k > 0 && r > q * u {
        assert(q >= FULL) by (nonlinear_arith)
            requires
                u * FULL <= n,
                n == u * q + n as int % u,
                0 <= n as int % u < u,
        ;
        assert(u * FULL <= r < u * DENSE) by (nonlinear_arith)
            requires
                q >= FULL,
                r > q * u,
                r <= n < u * DENSE,
                u >= 1,
        ;
        lemma_excess(r, k);
        div_mod::lemma_fundamental_div_mod(r as int, u);
        let c = r as int / u;
        assert(n < u * (q + 1)) by (nonlinear_arith)
            requires
                n == u * q + n as int % u,
                n as int % u < u,
        ;
        assert(c <= q) by (nonlinear_arith)
            requires
                r == u * c,
                r <= n,
                n < u * (q + 1),
                u >= 1,
        ;
        assert(c * u <= q * u) by (nonlinear_arith)
            requires
                c <= q,
                u >= 1,
        ;
        assert(c * u == u * c) by (nonlinear_arith);
    }
}

/// A double that is at least a number is at least the double nearest to it.
pub proof fn law_double_above(r: nat, n: nat)
    requires
        exact(r),
        n <= r,
    ensures
        nearest(n) <= r,
{
    lemma_spacing(n);
    lemma_spacing(r);
    lemma_nearest(n);
    lemma_powers();
    let u = spacing(n) as int;
    let q = n as int / u;
    let k = excess(n);
    div_mod::lemma_fundamental_div_mod(n as int, u);
    if k > 0 && r < (q + 1) * u {
        assert(q < DENSE) by (nonlinear_arith)
            requires
                n < u * DENSE,
                n == u * q + n as int % u,
                0 <= n as int % u,
                u >= 1,
        ;
        assert(u * FULL <= r < u * DENSE) by (nonlinear_arith)
            requires
                u * FULL <= n <= r,
                r < (q + 1) * u,
                q + 1 <= DENSE,
                u >= 1,
        ;
        lemma_excess(r, k);
        div_mod::lemma_fundamental_div_mod(r as int, u);
        let c = r as int / u;
        assert(c == q) by (nonlinear_arith)
            requires
                r == u * c,
                u * q <= n <= r,
                r < (q + 1) * u,
                u >= 1,
        ;
        assert(c * u == u * c) by (nonlinear_arith);
        assert(n == r);
        assert(n as int % u == 0);
    }
}

proof fn lemma_power_exact(k: nat)
    ensures
        exact(power2::pow2(k)),
{
    lemma_powers();
    let p = power2::pow2(k);
    power2::lemma_pow2_pos(k);
    power2::lemma2_to64();
    power2::lemma2_to64_rest();
    if k <= 52 {
        lemma_powers_grow(k, 52);
    } else {
        power2::lemma_pow2_adds((k - 52) as nat, 52);
        let u = power2::pow2((k - 52) as nat) as int;
        power2::lemma_pow2_pos((k - 52) as nat);
        assert(u * FULL <= p < u * DENSE) by (nonlinear_arith)
            requires
                p == u * FULL,
                u >= 1,
                FULL < DENSE,
        ;
        lemma_excess(p, (k - 52) as nat);
        assert(u * FULL == FULL * u) by (nonlinear_arith);
        lemma_multiple(FULL as int, u);
    }
}

proof fn lemma_at_most(n: nat, k: nat)
    requires
        n <= power2::pow2(k),
    ensures
        nearest(n) <= power2::pow2(k),
{
    lemma_power_exact(k);
    law_double_above(power2::pow2(k), n);
}

/// An integer with no more binary digits than a double has is a double in every unit.
proof fn lemma_units_exact(n: nat, k: nat)
    requires
        n < DENSE,
    ensures
        exact(n * power2::pow2(k)),
{
    let p = n * power2::pow2(k);
    lemma_powers();
    lemma_spacing(p);
    power2::lemma_pow2_pos(k);
    let e = excess(p);
    let u = spacing(p) as int;
    if e > k {
        lemma_powers_grow((k + 1) as nat, e);
        power2::lemma_pow2_unfold((k + 1) as nat);
        let v = power2::pow2(k) as int;
        assert(p < u * FULL) by (nonlinear_arith)
            requires
                p == n * v,
                n < DENSE,
                u >= 2 * v,
                v >= 1,
                DENSE == 2 * FULL,
        ;
    } else {
        power2::lemma_pow2_adds(e, (k - e) as nat);
        let w = power2::pow2((k - e) as nat) as int;
        let c = n * w;
        assert(p == c * u && c >= 0) by (nonlinear_arith)
            requires
                p == n * (u * w),
                c == n * w,
                n >= 0,
                w >= 0,
        ;
        lemma_multiple(c, u);
    }
}

/// Below one and a half times `FULL`, the double that is a twentieth of a number lies on the same
/// side of every integer as the exact twentieth, or on the integer where that does.
pub proof fn law_twentieth(a: nat, x: nat)
    requires
        a < DENSE,
        x < DENSE,
    ensures
        20 * x <= a ==> x * ONE <= twentieth_of(a),
        20 * x > a && 2 * a < 3 * FULL ==> x * ONE > twentieth_of(a),
{
    lemma_powers();
    let n = a * TWENTIETH as nat;
    let s = x * ONE as nat;
    lemma_nearest(a);
    lemma_nearest(n);
    lemma_units_exact(x, 57);
    assert(20 * n == a * ONE + 8 * a) by (nonlinear_arith)
        requires
            n == a * TWENTIETH,
            20 * TWENTIETH == ONE + 8,
    ;
    if 20 * x <= a {
        assert(20 * s <= a * ONE) by (nonlinear_arith)
            requires
                s == x * ONE,
                20 * x <= a,
        ;
        law_double_below(s, n);
    } else if 2 * a < 3 * FULL {
        assert(20 * s >= a * ONE + ONE) by (nonlinear_arith)
            requires
                s == x * ONE,
                20 * x >= a + 1,
        ;
        law_double_above(s, n);
        lemma_spacing(n);
        let e = excess(n);
        power2::lemma2_to64_rest();
        power2::lemma2_to64();
        if e > 53 {
            lemma_powers_grow(54, e);
            let u = spacing(n) as int;
            assert(n >= 18014398509481984 * FULL) by (nonlinear_arith)
                requires
                    u >= 18014398509481984,
                    u * FULL <= n,
            ;
            assert(n < 18014398509481984 * FULL) by (nonlinear_arith)
                requires
                    n == a * TWENTIETH,
                    2 * a < 3 * FULL,
                    TWENTIETH < DENSE,
                    DENSE == 9007199254740992,
                    FULL == 4503599627370496,
            ;
        } else {
            lemma_powers_grow(e, 53);
        }
    }
}

/// The distance of two numbers is exact where both lie below `DENSE`. From a number below one and a
/// half times `FULL` to one that does not lie below `DENSE`, it is at least half of `FULL`.
pub proof fn law_apart(a: nat, b: nat)
    requires
        a < DENSE,
    ensures
        b < DENSE ==> apart(a, b) == (if a < b {
            b - a
        } else {
            a - b
        }),
        b >= DENSE && 2 * a < 3 * FULL ==> 2 * apart(a, b) >= FULL,
{
    power2::lemma2_to64();
    power2::lemma2_to64_rest();
    lemma_nearest(a);
    if b < DENSE {
        lemma_nearest(b);
        lemma_nearest((b - a) as nat);
        lemma_nearest((a - b) as nat);
    } else {
        lemma_power_exact(53);
        law_double_below(power2::pow2(53), b);
        if 2 * a < 3 * FULL {
            lemma_power_exact(51);
            law_double_below(power2::pow2(51), (nearest(b) - a) as nat);
        }
    }
}

/// One is a double.
pub proof fn lemma_one_exact()
    ensures
        exact(ONE as nat),
{
    lemma_powers();
    lemma_power_exact(57);
}

/// The double nearest to a number: a multiple of the spacing, not farther away than half of that;
/// halfway between two, an even multiple. The spacing is one as long as doubles hold every integer,
/// and beyond, what leaves 53 binary digits.
pub proof fn law_nearest(n: nat)
    ensures
        exact(nearest(n)),
        n < 9007199254740992 ==> spacing(n) == 1 && nearest(n) == n,
        n >= 9007199254740992 ==> spacing(n) * 4503599627370496 <= n < spacing(n) * 9007199254740992,
        exists|k: nat| spacing(n) == #[trigger] power2::pow2(k),
        exists|c: nat| nearest(n) == #[trigger] (c * spacing(n)),
        2 * nearest(n) <= 2 * n + spacing(n),
        2 * n <= 2 * nearest(n) + spacing(n),
        2 * nearest(n) == 2 * n + spacing(n) || 2 * n == 2 * nearest(n) + spacing(n) ==> exists|
            c: nat,
        |
            nearest(n) == #[trigger] (c * spacing(n)) && c % 2 == 0,
{
    lemma_nearest(n);
    lemma_spacing(n);
    lemma_powers();
    let u = spacing(n);
    let q = n / u;
    let r = n % u;
    div_mod::lemma_fundamental_div_mod(n as int, u as int);
    assert(n == q * u + r && (q + 1) * u == q * u + u) by (nonlinear_arith)
        requires
            n == u * q + r,
    ;
    assert(spacing(n) == power2::pow2(excess(n)));
    if nearest(n) == q * u {
        assert(nearest(n) == q * u);
    } else {
        assert(nearest(n) == (q + 1) * u);
    }
    if 2 * nearest(n) == 2 * n + u {
        assert(2 * r == u || u == 0);
        assert(nearest(n) == (q + 1) * u);
        assert((q + 1) % 2 == 0);
    }
    if 2 * n == 2 * nearest(n) + u {
        assert(nearest(n) == q * u);
        assert(q % 2 == 0);
    }
}

/// A text in decimal digits, with or without a point, says `d * 10^x`: with as many digits behind
/// the point as `x` is below zero.
pub open spec fn says(t: Seq<char>, d: nat, x: int) -> bool {
    if x >= 0 {
        number::all_digits(t) && t.len() > 0 && number::decimal_value(t) == d * tens(x as nat)
    } else {
        exists|w: Seq<char>, f: Seq<char>|
            t == #[trigger] (w + seq!['.'] + f) && w.len() > 0 && f.len() == -x
                && number::all_digits(w + f) && number::decimal_value(w + f) == d
    }
}

proof fn lemma_last_digits(a: Seq<char>, n: nat, count: nat)
    requires
        number::all_digits(a),
        n < tens(count),
    ensures
        last_digits(n, count).len() == count,
        number::all_digits(a + last_digits(n, count)),
        number::decimal_value(a + last_digits(n, count)) == number::decimal_value(a) * tens(count)
            + n,
    decreases count,
{
    let s = last_digits(n, count);
    if count == 0 {
        assert(a + s =~= a);
        assert(number::decimal_value(a) * 1 == number::decimal_value(a));
    } else {
        let m = (count - 1) as nat;
        let h = last_digits(n / 10, m);
        lemma_last_digits(a, n / 10, m);
        assert((a + s).drop_last() =~= a + h);
        let c = number::digit_char(n % 10);
        assert((a + s).last() == c);
        assert(number::digit(c) && number::digit_value(c) == n % 10);
        assert forall|i: int| 0 <= i < (a + s).len() implies number::digit(#[trigger] (a + s)[i]) by {
            if i < (a + h).len() {
                assert((a + s)[i] == (a + h)[i]);
            }
        }
        let v = number::decimal_value(a);
        let t = tens(m);
        assert((v * t + n / 10) * 10 + n % 10 == v * (10 * t) + n) by (nonlinear_arith)
            requires
                n == 10 * (n / 10) + n % 10,
        ;
    }
}

proof fn lemma_positional(d: nat, x: int)
    ensures
        says(positional(d, x), d, x),
{
    reveal_strlit(".");
    assert("."@ =~= seq!['.']);
    if x >= 0 {
        number::law_decimal_reads_back(d);
        lemma_tens_grow(0, x as nat);
        lemma_last_digits(number::decimal(d), 0, x as nat);
    } else {
        let m = (-x) as nat;
        let t = tens(m);
        lemma_tens_grow(0, m);
        number::law_decimal_reads_back(d / t);
        lemma_last_digits(number::decimal(d / t), d % t, m);
        div_mod::lemma_fundamental_div_mod(d as int, t as int);
        assert(d / t * t + d % t == d) by (nonlinear_arith)
            requires
                d == t * (d / t) + d % t,
        ;
        let w = number::decimal(d / t);
        let f = last_digits(d % t, m);
        assert(positional(d, x) == w + seq!['.'] + f);
    }
}

impl Around {
    proof fn lemma_place(self, x: int)
        requires
            -17 <= x,
        ensures
            -17 <= self.place(x) <= x,
            self.place(x) > -17 ==> exists|d: nat| #[trigger] self.holds(d, self.place(x)),
            forall|e: nat, y: int| self.place(x) < y <= x ==> !#[trigger] self.holds(e, y),
        decreases x + 17,
    {
        if !(x <= -17 || exists|d: nat| #[trigger] self.holds(d, x)) {
            self.lemma_place(x - 1);
            assert forall|e: nat, y: int| self.place(x) < y <= x implies !#[trigger] self.holds(
                e,
                y,
            ) by {
                if y == x {
                    assert(!self.holds(e, x));
                }
            }
        }
    }
}

proof fn lemma_around_sound(p: nat)
    requires
        exact(p),
        ONE <= p,
    ensures
        around(p).sound(),
        spacing(p) >= 32,
        around(p).low + 8 <= p,
        around(p).low + spacing(p) / 2 >= p,
        around(p).high + 0 == p + spacing(p) / 2,
        spacing(p) % 2 == 0,
{
    lemma_powers();
    lemma_spacing(p);
    let k = excess(p);
    let u = spacing(p);
    if k < 5 {
        lemma_powers_grow(k, 4);
        assert(p < 16 * DENSE) by (nonlinear_arith)
            requires
                p < u * DENSE,
                u <= 16,
        ;
    }
    lemma_powers_grow(5, k);
    power2::lemma_pow2_unfold(k);
    assert(p >= u) by (nonlinear_arith)
        requires
            u * FULL <= p,
            FULL >= 1,
            u >= 0,
    ;
}

proof fn lemma_lowest_place(p: nat)
    requires
        exact(p),
        ONE <= p,
    ensures
        around(p).holds(around(p).floor(-17), -17),
{
    lemma_around_sound(p);
    let a = around(p);
    a.lemma_step(-17);
    let c = finer(-17);
    assert(c == 100000000000000000) by {
        reveal_with_fuel(tens, 18);
    }
    let s = a.step(-17);
    let m = p * c;
    let f = a.floor(-17);
    div_mod::lemma_fundamental_div_mod(m as int, s as int);
    let rest = m as int % (s as int);
    assert(f * s <= m && m < f * s + s) by (nonlinear_arith)
        requires
            m == s * f + rest,
            0 <= rest < s,
    ;
    let low = a.low;
    assert(low * c + 8 * c <= m) by (nonlinear_arith)
        requires
            low + 8 <= p,
            m == p * c,
            c > 0,
    ;
    let high = a.high;
    assert(m < high * c) by (nonlinear_arith)
        requires
            p < high,
            m == p * c,
            c > 0,
    ;
}

/// A double is written as the number nearest to it among those with the fewest decimal places that
/// are read as it: half of the spacing away from it at most, and no multiple of a higher power of
/// ten would do.
pub proof fn law_shortest(p: nat) -> (r: (nat, int))
    requires
        exact(p),
        ONE <= p,
    ensures
        says(shortest(p), r.0, r.1),
        r.1 >= 0 ==> 2 * (r.0 * tens(r.1 as nat) * ONE) <= 2 * p + spacing(p) && 2 * p <= 2 * (r.0
            * tens(r.1 as nat) * ONE) + spacing(p),
        r.1 < 0 ==> 2 * (r.0 * ONE) <= (2 * p + spacing(p)) * tens((-r.1) as nat) && 2 * p * tens(
            (-r.1) as nat,
        ) <= 2 * (r.0 * ONE) + spacing(p) * tens((-r.1) as nat),
        forall|e: nat, y: int| r.1 < y <= 17 ==> !#[trigger] around(p).holds(e, y),
        around(p).holds(r.0, r.1),
        shortest(p) == positional(r.0, r.1),
{
    let a = around(p);
    lemma_around_sound(p);
    lemma_lowest_place(p);
    a.lemma_place(17);
    let x = a.place(17);
    let d = a.digits(x);
    a.lemma_next(x);
    assert(exists|e: nat| #[trigger] a.holds(e, x));
    assert(a.holds(d, x));
    lemma_positional(d, x);
    let u = spacing(p);
    let low = a.low;
    let high = a.high;
    if x >= 0 {
        let t = tens(x as nat);
        let one = ONE as nat;
        assert(d * (t * one) == d * t * one) by (nonlinear_arith);
        assert(finer(x) == 1);
        assert(low * 1 == low && high * 1 == high);
        if x == 0 {
            assert(t == 1);
            assert(d * t == d);
        }
    } else {
        let t = tens((-x) as nat);
        let v = d * ONE;
        assert(2 * v <= (2 * p + u) * t && 2 * p * t <= 2 * v + u * t) by (nonlinear_arith)
            requires
                low * t <= v <= high * t,
                2 * high == 2 * p + u,
                2 * low + u >= 2 * p,
                t >= 0,
        ;
    }
    (d, x)
}

/// A double that is an integer is written as that integer, without a point.
pub proof fn law_integers_are_written(k: nat)
    requires
        0 < k < 9007199254740992,
    ensures
        shortest(k * ONE as nat) == number::decimal(k),
{
    let p = k * ONE as nat;
    lemma_powers();
    lemma_units_exact(k, 57);
    assert(p >= ONE) by (nonlinear_arith)
        requires
            p == k * ONE,
            k >= 1,
    ;
    let (d, x) = law_shortest(p);
    lemma_around_sound(p);
    let a = around(p);
    // The integer itself is among the numbers.
    assert(a.holds(k, 0)) by {
        assert(a.low * 1 == a.low && a.high * 1 == a.high);
        assert(finer(0) == 1);
    }
    assert(x >= 0) by {
        if x < 0 {
            assert(!a.holds(k, 0));
        }
    }
    let u = spacing(p);
    lemma_spacing(p);
    let e = excess(p);
    if e > 57 {
        lemma_powers_grow(58, e);
        power2::lemma_pow2_unfold(58);
        assert(p >= 2 * ONE * FULL) by (nonlinear_arith)
            requires
                u >= 2 * ONE,
                u * FULL <= p,
        ;
        assert(p < 2 * ONE * FULL) by (nonlinear_arith)
            requires
                p == k * ONE,
                k < 9007199254740992,
                FULL == 4503599627370496,
                ONE > 0,
        ;
    }
    lemma_powers_grow(e, 57);
    let v = d * tens(x as nat);
    let one = ONE as nat;
    assert(v == k) by (nonlinear_arith)
        requires
            2 * (v * one) <= 2 * p + u,
            2 * p <= 2 * (v * one) + u,
            p == k * one,
            u <= one,
            one > 0,
    ;
    let t = shortest(p);
    number::law_decimal_reads_back(d);
    assert(d > 0) by (nonlinear_arith)
        requires
            v == k,
            k > 0,
            v == d * tens(x as nat),
    ;
    number::lemma_decimal_first(d);
    assert(t[0] == number::decimal(d)[0]);
    number::law_decimal_is_unique(t);
}

/// Five per cent of a multiple of twenty are exact.
pub proof fn law_twentieth_exact(k: nat)
    requires
        20 * k < 9007199254740992,
    ensures
        twentieth_of(20 * k) == k * ONE,
{
    let a = 20 * k;
    let n = a * TWENTIETH as nat;
    lemma_nearest(a);
    assert(n == k * ONE + 8 * k) by (nonlinear_arith)
        requires
            n == (20 * k) * TWENTIETH,
            20 * TWENTIETH == ONE + 8,
    ;
    lemma_powers();
    lemma_spacing(n);
    let u = spacing(n) as int;
    let e = excess(n);
    if k == 0 {
        lemma_nearest(0);
    } else {
        assert(n >= DENSE) by (nonlinear_arith)
            requires
                n == k * ONE + 8 * k,
                k >= 1,
                ONE > DENSE,
        ;
        // The rest is below half of the spacing.
        assert(u > 16 * k) by (nonlinear_arith)
            requires
                n < u * DENSE,
                n >= k * ONE,
                ONE == 16 * DENSE,
        ;
        if e > 57 {
            lemma_powers_grow(58, e);
            power2::lemma_pow2_unfold(58);
            assert(n >= 2 * ONE * FULL) by (nonlinear_arith)
                requires
                    u >= 2 * ONE,
                    u * FULL <= n,
            ;
            assert(n < 2 * ONE * FULL) by (nonlinear_arith)
                requires
                    n == k * ONE + 8 * k,
                    20 * k < 9007199254740992,
                    FULL == 4503599627370496,
                    ONE == 144115188075855872,
            ;
        }
        power2::lemma_pow2_adds(e, (57 - e) as nat);
        let w = power2::pow2((57 - e) as nat) as int;
        let c = k * w;
        assert(k * ONE == c * u) by (nonlinear_arith)
            requires
                ONE == u * w,
                c == k * w,
        ;
        assert(c >= 0) by (nonlinear_arith)
            requires
                c == k * w,
                w >= 0,
                k >= 0,
        ;
        div_mod::lemma_fundamental_div_mod_converse(n as int, u, c, 8 * k as int);
        assert(n as int / u == c && n as int % u == 8 * k);
    }
}

} // verus!
