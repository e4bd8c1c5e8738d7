//! Saturating fixed-point scalars with 32 fractional bits.
//!
//! A scalar stores the integer `raw` and denotes the real number
//! `raw / 2^32`. Every operation rounds toward zero and saturates at
//! `MAX_RAW` in magnitude, so no operation overflows or fails.

use vstd::prelude::*;

verus! {

/// Raw value of the scalar one.
pub const ONE_RAW: i64 = 0x1_0000_0000;

/// Largest raw magnitude; it stands for an unbounded quantity.
pub const MAX_RAW: i64 = 0x7fff_ffff_ffff_ffff;

/// Smallest raw value that an operation produces; it stands for minus
/// infinity.
pub const MIN_RAW: i64 = -0x7fff_ffff_ffff_ffff;

/// Clamps an integer into the symmetric raw range.
pub open spec fn saturate(x: int) -> int {
    if x > MAX_RAW {
        MAX_RAW as int
    } else if x < -MAX_RAW {
        -(MAX_RAW as int)
    } else {
        x
    }
}

/// Magnitude of an integer.
pub open spec fn magnitude(x: int) -> int {
    if x < 0 {
        -x
    } else {
        x
    }
}

/// Quotient rounded toward zero; zero when the divisor is zero.
pub open spec fn quot(a: int, b: int) -> int {
    if b == 0 {
        0
    } else if (a < 0) == (b < 0) {
        magnitude(a) / magnitude(b)
    } else {
        -(magnitude(a) / magnitude(b))
    }
}

/// `r` is the integer square root of `n`, rounded down.
pub open spec fn is_floor_sqrt(n: int, r: int) -> bool {
    0 <= r && r * r <= n && n < (r + 1) * (r + 1)
}

/// The integer square root of `n`, rounded down; zero for negative `n`.
pub open spec fn floor_sqrt(n: int) -> int {
    if n < 0 {
        0
    } else {
        choose|r: int| is_floor_sqrt(n, r)
    }
}

/// A real number `raw / 2^32`.
#[derive(Clone, Copy, Debug, PartialEq, Eq, Structural)]
pub struct Fixed {
    pub raw: i64,
}

impl Fixed {
    /// The raw value lies in the symmetric range that every operation
    /// produces.
    pub open spec fn wf(self) -> bool {
        -MAX_RAW <= self.raw <= MAX_RAW
    }

    /// The scalar whose raw value is `saturate(x)`.
    pub open spec fn of(x: int) -> Fixed {
        Fixed { raw: saturate(x) as i64 }
    }

    /// The scalar that denotes the integer `n`.
    pub open spec fn int_spec(n: i32) -> Fixed {
        Fixed { raw: (n * ONE_RAW) as i64 }
    }

    /// The sum, saturated.
    pub open spec fn plus_spec(self, rhs: Fixed) -> Fixed {
        Fixed::of(self.raw + rhs.raw)
    }

    /// The difference, saturated.
    pub open spec fn minus_spec(self, rhs: Fixed) -> Fixed {
        Fixed::of(self.raw - rhs.raw)
    }

    /// The opposite scalar.
    pub open spec fn neg_spec(self) -> Fixed {
        Fixed::of(-self.raw)
    }

    /// The magnitude.
    pub open spec fn abs_spec(self) -> Fixed {
        Fixed::of(magnitude(self.raw as int))
    }

    /// The product, rounded toward zero and saturated.
    pub open spec fn times_spec(self, rhs: Fixed) -> Fixed {
        Fixed::of(quot(self.raw * rhs.raw, ONE_RAW as int))
    }

    /// The quotient; a zero divisor gives the saturated value of the
    /// dividend's sign.
    pub open spec fn over_spec(self, rhs: Fixed) -> Fixed {
        if rhs.raw == 0 {
            Fixed::of(self.raw * MAX_RAW)
        } else {
            Fixed::of(quot(self.raw * ONE_RAW, rhs.raw as int))
        }
    }

    /// Square root rounded down; zero for a negative argument.
    pub open spec fn sqrt_spec(self) -> Fixed {
        Fixed::of(floor_sqrt(self.raw * ONE_RAW))
    }

    /// The smaller of two scalars.
    pub open spec fn min_spec(self, rhs: Fixed) -> Fixed {
        if rhs.raw < self.raw {
            rhs
        } else {
            self
        }
    }

    /// The scalar zero.
    pub fn zero() -> (r: Fixed)
        ensures
            r.raw == 0,
    {
        Fixed { raw: 0 }
    }

    /// The scalar one.
    pub fn one() -> (r: Fixed)
        ensures
            r.raw == ONE_RAW,
    {
        Fixed { raw: ONE_RAW }
    }

    /// The largest scalar, which stands for plus infinity.
    pub fn max_value() -> (r: Fixed)
        ensures
            r.raw == MAX_RAW,
    {
        Fixed { raw: MAX_RAW }
    }

    /// The scalar with the given raw value, saturated.
    pub fn from_raw(raw: i64) -> (r: Fixed)
        ensures
            r == Fixed::of(raw as int),
    {
        if raw < -MAX_RAW {
            Fixed { raw: -MAX_RAW }
        } else {
            Fixed { raw }
        }
    }

    /// The scalar that denotes the integer `n`.
    #[verifier::when_used_as_spec(int_spec)]
    pub fn from_int(n: i32) -> (r: Fixed)
        ensures
            r == Fixed::int_spec(n),
    {
        Fixed { raw: (n as i64) * ONE_RAW }
    }

    /// Builds a scalar from a sign and a magnitude, saturating.
    fn from_parts(negative: bool, m: u128) -> (r: Fixed)
        ensures
            r == Fixed::of(if negative { -(m as int) } else { m as int }),
    {
        let bounded: i64 = if m > MAX_RAW as u128 {
            MAX_RAW
        } else {
            m as i64
        };
        if negative {
            Fixed { raw: -bounded }
        } else {
            Fixed { raw: bounded }
        }
    }

    /// The quotient `num / den` of two integers, rounded toward zero
    /// and saturated.
    pub fn from_ratio(num: i64, den: i64) -> (r: Fixed)
        ensures
            r == Fixed::of(num as int).over_spec(Fixed::of(den as int)),
    {
        Fixed::from_raw(num).over(Fixed::from_raw(den))
    }

    /// The sum, saturated.
    #[verifier::when_used_as_spec(plus_spec)]
    pub fn plus(self, rhs: Fixed) -> (r: Fixed)
        ensures
            r == self.plus_spec(rhs),
    {
        let s: i128 = self.raw as i128 + rhs.raw as i128;
        if s > MAX_RAW as i128 {
            Fixed { raw: MAX_RAW }
        } else if s < -(MAX_RAW as i128) {
            Fixed { raw: -MAX_RAW }
        } else {
            Fixed { raw: s as i64 }
        }
    }

    /// The difference, saturated.
    #[verifier::when_used_as_spec(minus_spec)]
    pub fn minus(self, rhs: Fixed) -> (r: Fixed)
        ensures
            r == self.minus_spec(rhs),
    {
        let s: i128 = self.raw as i128 - rhs.raw as i128;
        if s > MAX_RAW as i128 {
            Fixed { raw: MAX_RAW }
        } else if s < -(MAX_RAW as i128) {
            Fixed { raw: -MAX_RAW }
        } else {
            Fixed { raw: s as i64 }
        }
    }

    /// The opposite scalar.
    #[verifier::when_used_as_spec(neg_spec)]
    pub fn neg(self) -> (r: Fixed)
        ensures
            r == self.neg_spec(),
    {
        if self.raw == i64::MIN {
            Fixed { raw: MAX_RAW }
        } else {
            Fixed { raw: -self.raw }
        }
    }

    /// The magnitude.
    #[verifier::when_used_as_spec(abs_spec)]
    pub fn abs(self) -> (r: Fixed)
        ensures
            r == self.abs_spec(),
    {
        Fixed::from_parts(false, magnitude_of(self.raw) as u128)
    }

    /// The product, rounded toward zero and saturated.
    #[verifier::when_used_as_spec(times_spec)]
    pub fn times(self, rhs: Fixed) -> (r: Fixed)
        ensures
            r == self.times_spec(rhs),
    {
        let a: u128 = magnitude_of(self.raw) as u128;
        let b: u128 = magnitude_of(rhs.raw) as u128;
        assert(a * b <= 0x4000_0000_0000_0000_0000_0000_0000_0000u128) by (nonlinear_arith)
            requires
                a <= 0x8000_0000_0000_0000u128,
                b <= 0x8000_0000_0000_0000u128,
        ;
        let q: u128 = (a * b) / (ONE_RAW as u128);
        let negative: bool = (self.raw < 0) != (rhs.raw < 0);
        proof {
            lemma_product_sign(self.raw as int, rhs.raw as int);
        }
        Fixed::from_parts(negative && q != 0, q)
    }

    /// The quotient, rounded toward zero and saturated. Division by
    /// zero gives zero for a zero dividend and else the largest scalar
    /// of the dividend's sign.
    #[verifier::when_used_as_spec(over_spec)]
    pub fn over(self, rhs: Fixed) -> (r: Fixed)
        ensures
            r == self.over_spec(rhs),
    {
        if rhs.raw == 0 {
            proof {
                lemma_product_sign(self.raw as int, MAX_RAW as int);
                assert(self.raw > 0 ==> self.raw * MAX_RAW >= MAX_RAW) by (nonlinear_arith);
                assert(self.raw < 0 ==> self.raw * MAX_RAW <= -MAX_RAW) by (nonlinear_arith);
            }
            if self.raw > 0 {
                Fixed { raw: MAX_RAW }
            } else if self.raw < 0 {
                Fixed { raw: -MAX_RAW }
            } else {
                Fixed { raw: 0 }
            }
        } else {
            let a: u128 = magnitude_of(self.raw) as u128;
            let b: u128 = magnitude_of(rhs.raw) as u128;
            assert(a * (ONE_RAW as u128) <= 0x8000_0000_0000_0000_0000_0000u128) by (nonlinear_arith)
                requires
                    a <= 0x8000_0000_0000_0000u128,
                    ONE_RAW == 0x1_0000_0000,
            ;
            let q: u128 = (a * (ONE_RAW as u128)) / b;
            let negative: bool = (self.raw < 0) != (rhs.raw < 0);
            proof {
                lemma_product_sign(self.raw as int, ONE_RAW as int);
            }
            Fixed::from_parts(negative && q != 0, q)
        }
    }

    /// The square root, rounded down; zero for a negative scalar.
    #[verifier::when_used_as_spec(sqrt_spec)]
    pub fn sqrt(self) -> (r: Fixed)
        ensures
            r == self.sqrt_spec(),
    {
        if self.raw <= 0 {
            proof {
                assert(self.raw * ONE_RAW <= 0) by (nonlinear_arith)
                    requires
                        self.raw <= 0,
                ;
                if self.raw == 0 {
                    lemma_floor_sqrt_is(0, 0);
                }
            }
            Fixed { raw: 0 }
        } else {
            let n: u128 = (self.raw as u128) * (ONE_RAW as u128);
            assert(n < 0x8000_0000_0000_0000_0000_0000u128) by (nonlinear_arith)
                requires
                    n == (self.raw as u128) * (ONE_RAW as u128),
                    0 < self.raw <= MAX_RAW,
                    ONE_RAW == 0x1_0000_0000,
                    MAX_RAW == 0x7fff_ffff_ffff_ffff,
            ;
            let root: u64 = floor_sqrt_of(n);
            proof {
                lemma_floor_sqrt_below(n as int, 0x1_0000_0000_0000);
            }
            Fixed { raw: root as i64 }
        }
    }

    /// The smaller of two scalars.
    #[verifier::when_used_as_spec(min_spec)]
    pub fn min(self, rhs: Fixed) -> (r: Fixed)
        ensures
            r == self.min_spec(rhs),
    {
        if rhs.raw < self.raw {
            rhs
        } else {
            self
        }
    }

    /// The integer part, rounded toward zero.
    pub fn trunc(self) -> (n: i64)
        ensures
            n == quot(self.raw as int, ONE_RAW as int),
    {
        let m: u64 = magnitude_of(self.raw);
        let q: u64 = m / 0x1_0000_0000u64;
        assert(q <= 0x8000_0000u64) by {
            assert(m <= 0x8000_0000_0000_0000u64);
        }
        if self.raw < 0 {
            -(q as i64)
        } else {
            q as i64
        }
    }
}

/// Magnitude of a machine integer.
pub fn magnitude_of(x: i64) -> (m: u64)
    ensures
        m == magnitude(x as int),
{
    if x == i64::MIN {
        0x8000_0000_0000_0000u64
    } else if x < 0 {
        (-x) as u64
    } else {
        x as u64
    }
}

/// Rounded-down square root of a machine integer.
pub fn floor_sqrt_of(n: u128) -> (r: u64)
    ensures
        r == floor_sqrt(n as int),
{
    let mut lo: u128 = 0;
    let mut hi: u128 = 0x1_0000_0000_0000_0000u128;
    assert(hi * hi > n) by (nonlinear_arith)
        requires
            hi == 0x1_0000_0000_0000_0000u128,
            n <= 0xffff_ffff_ffff_ffff_ffff_ffff_ffff_ffffu128,
    ;
    while hi - lo > 1
        invariant
            lo < hi <= 0x1_0000_0000_0000_0000u128,
            lo * lo <= n,
            n < hi * hi,
        decreases hi - lo,
    {
        let mid: u128 = lo + (hi - lo) / 2;
        assert(mid * mid <= 0xffff_ffff_ffff_ffff_ffff_ffff_ffff_ffffu128) by (nonlinear_arith)
            requires
                mid <= 0xffff_ffff_ffff_ffffu128,
        ;
        if mid * mid <= n {
            lo = mid;
        } else {
            hi = mid;
        }
    }
    proof {
        lemma_floor_sqrt_is(n as int, lo as int);
    }
    lo as u64
}

/// At most one integer is the rounded-down square root of `n`.
pub proof fn lemma_floor_sqrt_unique(n: int, r: int, s: int)
    requires
        is_floor_sqrt(n, r),
        is_floor_sqrt(n, s),
    ensures
        r == s,
{
    if r < s {
        assert((r + 1) * (r + 1) <= s * s) by (nonlinear_arith)
            requires
                0 <= r,
                r + 1 <= s,
        ;
    } else if s < r {
        assert((s + 1) * (s + 1) <= r * r) by (nonlinear_arith)
            requires
                0 <= s,
                s + 1 <= r,
        ;
    }
}

/// Any witness of the rounded-down square root is the square root.
pub proof fn lemma_floor_sqrt_is(n: int, r: int)
    requires
        is_floor_sqrt(n, r),
    ensures
        floor_sqrt(n) == r,
{
    assert(r * r >= 0) by (nonlinear_arith);
    let s = choose|s: int| is_floor_sqrt(n, s);
    lemma_floor_sqrt_unique(n, r, s);
}

/// The square root of a number below `b * b` is below `b`.
pub proof fn lemma_floor_sqrt_below(n: int, b: int)
    requires
        0 <= n < b * b,
        0 <= b,
    ensures
        0 <= floor_sqrt(n) < b,
{
    lemma_floor_sqrt_exists(n);
    let r = floor_sqrt(n);
    if r >= b {
        assert(r * r >= b * b) by (nonlinear_arith)
            requires
                r >= b,
                b >= 0,
        ;
    }
}

/// Every natural number has a rounded-down square root.
pub proof fn lemma_floor_sqrt_exists(n: int)
    requires
        0 <= n,
    ensures
        is_floor_sqrt(n, floor_sqrt(n)),
    decreases n,
{
    if n == 0 {
        assert(is_floor_sqrt(0, 0));
    } else {
        lemma_floor_sqrt_exists(n - 1);
        let r = floor_sqrt(n - 1);
        if n < (r + 1) * (r + 1) {
            assert(is_floor_sqrt(n, r));
        } else {
            assert((r + 2) * (r + 2) > (r + 1) * (r + 1)) by (nonlinear_arith)
                requires
                    r >= 0,
            ;
            assert(is_floor_sqrt(n, r + 1));
        }
    }
}

/// The product's sign and magnitude follow from those of the factors.
pub proof fn lemma_product_sign(a: int, b: int)
    ensures
        magnitude(a * b) == magnitude(a) * magnitude(b),
        a != 0 && b != 0 ==> ((a * b < 0) == ((a < 0) != (b < 0))),
        a == 0 || b == 0 ==> a * b == 0,
{
    assert(magnitude(a * b) == magnitude(a) * magnitude(b)) by (nonlinear_arith)
        requires
            magnitude(a) == if a < 0 { -a } else { a },
            magnitude(b) == if b < 0 { -b } else { b },
            magnitude(a * b) == if a * b < 0 { -(a * b) } else { a * b },
    ;
    assert(a != 0 && b != 0 ==> ((a * b < 0) == ((a < 0) != (b < 0)))) by (nonlinear_arith);
    assert(a == 0 || b == 0 ==> a * b == 0) by (nonlinear_arith);
}

/// Negating a factor in range negates the product.
pub proof fn lemma_times_neg(a: Fixed, b: Fixed)
    requires
        b.wf(),
    ensures
        a.times(b.neg()) == a.times(b).neg(),
        a.times(b).wf(),
{
    let p = a.raw * b.raw;
    assert(a.raw * (-b.raw) == -p) by (nonlinear_arith)
        requires
            p == a.raw * b.raw,
    ;
    assert(b.neg().raw == -b.raw);
    assert(quot(-p, ONE_RAW as int) == -quot(p, ONE_RAW as int));
}

/// Negating both terms in range negates the sum.
pub proof fn lemma_plus_neg(a: Fixed, b: Fixed)
    requires
        a.wf(),
        b.wf(),
    ensures
        a.neg().plus(b.neg()) == a.plus(b).neg(),
        a.plus(b).wf(),
{
}

/// The quotient by a positive divisor grows with the dividend.
pub proof fn lemma_quot_monotone(x: int, y: int, d: int)
    requires
        x <= y,
        0 < d,
    ensures
        quot(x, d) <= quot(y, d),
{
    if x >= 0 {
        vstd::arithmetic::div_mod::lemma_div_is_ordered(x, y, d);
    } else if y < 0 {
        vstd::arithmetic::div_mod::lemma_div_is_ordered(-y, -x, d);
    } else {
        vstd::arithmetic::div_mod::lemma_div_pos_is_pos(-x, d);
        vstd::arithmetic::div_mod::lemma_div_pos_is_pos(y, d);
    }
}

/// Division by a divisor that is not negative grows with the dividend.
pub proof fn lemma_over_monotone(x: Fixed, y: Fixed, d: Fixed)
    requires
        x.raw <= y.raw,
        0 <= d.raw,
    ensures
        x.over(d).raw <= y.over(d).raw,
{
    if d.raw == 0 {
        assert(x.raw * MAX_RAW <= y.raw * MAX_RAW) by (nonlinear_arith)
            requires
                x.raw <= y.raw,
                MAX_RAW > 0,
        ;
    } else {
        assert(x.raw * ONE_RAW <= y.raw * ONE_RAW) by (nonlinear_arith)
            requires
                x.raw <= y.raw,
                ONE_RAW > 0,
        ;
        lemma_quot_monotone(x.raw * ONE_RAW, y.raw * ONE_RAW, d.raw as int);
    }
}

/// A square is not negative.
pub proof fn lemma_square_not_negative(x: Fixed)
    ensures
        x.times(x).raw >= 0,
{
    assert(x.raw * x.raw >= 0) by (nonlinear_arith);
    vstd::arithmetic::div_mod::lemma_div_pos_is_pos(x.raw * x.raw, ONE_RAW as int);
}

/// A square root is not negative.
pub proof fn lemma_sqrt_not_negative(x: Fixed)
    ensures
        x.sqrt().raw >= 0,
{
    if x.raw * ONE_RAW >= 0 {
        lemma_floor_sqrt_exists(x.raw * ONE_RAW);
    }
}

/// The product of two fractions of one is a fraction of each factor.
pub proof fn lemma_times_fraction(a: Fixed, b: Fixed)
    requires
        0 <= a.raw <= ONE_RAW,
        0 <= b.raw <= ONE_RAW,
    ensures
        0 <= a.times(b).raw <= a.raw,
        a.times(b).raw <= b.raw,
{
    let p = a.raw * b.raw;
    assert(0 <= p <= a.raw * ONE_RAW && p <= b.raw * ONE_RAW) by (nonlinear_arith)
        requires
            p == a.raw * b.raw,
            0 <= a.raw <= ONE_RAW,
            0 <= b.raw <= ONE_RAW,
    ;
    vstd::arithmetic::div_mod::lemma_div_pos_is_pos(p, ONE_RAW as int);
    vstd::arithmetic::div_mod::lemma_div_is_ordered(p, a.raw * ONE_RAW, ONE_RAW as int);
    vstd::arithmetic::div_mod::lemma_div_is_ordered(p, b.raw * ONE_RAW, ONE_RAW as int);
    vstd::arithmetic::div_mod::lemma_div_by_multiple(a.raw as int, ONE_RAW as int);
    vstd::arithmetic::div_mod::lemma_div_by_multiple(b.raw as int, ONE_RAW as int);
}

/// A scalar over another that is at least as large in magnitude is at
/// most one in magnitude.
pub proof fn lemma_over_larger(a: Fixed, b: Fixed)
    requires
        magnitude(a.raw as int) <= b.raw,
    ensures
        -ONE_RAW <= a.over(b).raw <= ONE_RAW,
{
    if b.raw == 0 {
        assert(a.raw * MAX_RAW == 0);
    } else {
        let m = magnitude(a.raw as int);
        lemma_product_sign(a.raw as int, ONE_RAW as int);
        assert(m * ONE_RAW <= b.raw * ONE_RAW) by (nonlinear_arith)
            requires
                m <= b.raw,
                ONE_RAW > 0,
        ;
        assert(0 <= m * ONE_RAW) by (nonlinear_arith)
            requires
                0 <= m,
                ONE_RAW > 0,
        ;
        vstd::arithmetic::div_mod::lemma_div_is_ordered(m * ONE_RAW, b.raw * ONE_RAW, b.raw as int);
        vstd::arithmetic::div_mod::lemma_div_by_multiple(ONE_RAW as int, b.raw as int);
        vstd::arithmetic::div_mod::lemma_div_pos_is_pos(m * ONE_RAW, b.raw as int);
        assert(b.raw * ONE_RAW == ONE_RAW * b.raw) by (nonlinear_arith);
    }
}

/// The square root of a number that is at least `r * r` is at least
/// `r`.
pub proof fn lemma_floor_sqrt_above(n: int, r: int)
    requires
        0 <= r,
        r * r <= n,
    ensures
        r <= floor_sqrt(n),
{
    assert(0 <= r * r) by (nonlinear_arith);
    lemma_floor_sqrt_exists(n);
    let s = floor_sqrt(n);
    if s < r {
        assert((s + 1) * (s + 1) <= r * r) by (nonlinear_arith)
            requires
                0 <= s,
                s + 1 <= r,
        ;
    }
}

/// A product of a factor of at most `k` in magnitude and one of at most
/// one is at most `k` in magnitude and differs from the exact product
/// by less than one unit in the last place.
pub proof fn lemma_times_error(a: Fixed, b: Fixed, k: int)
    requires
        0 <= k <= 16,
        magnitude(a.raw as int) <= k * ONE_RAW,
        magnitude(b.raw as int) <= ONE_RAW,
    ensures
        magnitude(a.times(b).raw as int) <= k * ONE_RAW,
        -ONE_RAW < ONE_RAW * a.times(b).raw - a.raw * b.raw < ONE_RAW,
{
    let s = ONE_RAW as int;
    let p = a.raw * b.raw;
    let m = magnitude(p);
    lemma_product_sign(a.raw as int, b.raw as int);
    assert(0 <= m <= (k * s) * s) by (nonlinear_arith)
        requires
            m == magnitude(a.raw as int) * magnitude(b.raw as int),
            0 <= magnitude(a.raw as int) <= k * s,
            0 <= magnitude(b.raw as int) <= s,
    ;
    vstd::arithmetic::div_mod::lemma_div_is_ordered(m, (k * s) * s, s);
    vstd::arithmetic::div_mod::lemma_div_by_multiple(k * s, s);
    vstd::arithmetic::div_mod::lemma_div_pos_is_pos(m, s);
    vstd::arithmetic::div_mod::lemma_fundamental_div_mod(m, s);
    vstd::arithmetic::div_mod::lemma_mod_bound(m, s);
    let q = m / s;
    assert(0 <= q <= k * s);
    assert(m - s < s * q <= m);
    assert(s * (-q) == -(s * q)) by (nonlinear_arith);
}

/// A quotient by a positive divisor that is at least as large as the
/// dividend in magnitude, times the divisor, differs from the dividend
/// by less than the divisor, in units of the last place.
pub proof fn lemma_over_error(a: Fixed, l: Fixed)
    requires
        0 < l.raw,
        magnitude(a.raw as int) <= l.raw,
    ensures
        -ONE_RAW <= a.over(l).raw <= ONE_RAW,
        -l.raw < l.raw * a.over(l).raw - 0x1_0000_0000 * a.raw < l.raw,
{
    lemma_over_larger(a, l);
    let m = magnitude(a.raw as int);
    let x = m * 0x1_0000_0000;
    let li = l.raw as int;
    lemma_product_sign(a.raw as int, ONE_RAW as int);
    assert(0 <= x) by (nonlinear_arith)
        requires
            x == m * 0x1_0000_0000,
            0 <= m,
    ;
    vstd::arithmetic::div_mod::lemma_fundamental_div_mod(x, li);
    vstd::arithmetic::div_mod::lemma_mod_bound(x, li);
    let q = x / li;
    assert(li * (-q) == -(li * q)) by (nonlinear_arith);
}

/// A scalar that is not negative, over a whole number that is
/// positive, is the raw value divided by the number.
pub proof fn lemma_over_whole(a: Fixed, k: i32)
    requires
        0 <= a.raw,
        0 < k,
    ensures
        a.over(Fixed::from_int(k)).raw == (a.raw as int) / (k as int),
{
    let s = ONE_RAW as int;
    assert(Fixed::from_int(k).raw == k * s);
    assert(a.raw * s >= 0) by (nonlinear_arith)
        requires
            a.raw >= 0,
            s > 0,
    ;
    assert(k * s > 0) by (nonlinear_arith)
        requires
            k > 0,
            s > 0,
    ;
    vstd::arithmetic::div_mod::lemma_div_multiples_vanish_quotient(s, a.raw as int, k as int);
    assert(a.raw * s == s * a.raw && k * s == s * k) by (nonlinear_arith);
    vstd::arithmetic::div_mod::lemma_div_pos_is_pos(a.raw as int, k as int);
    vstd::arithmetic::div_mod::lemma_div_is_ordered_by_denominator(a.raw as int, 1, k as int);
}

} // verus!
