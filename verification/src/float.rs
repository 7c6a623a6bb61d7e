//! IEEE 754 numbers as bit patterns: the two widths that can be passed, the
//! exact widening of the narrow one and the rounding of the wide one.

use vstd::prelude::*;
use vstd::arithmetic::div_mod::{lemma_div_is_ordered_by_denominator, lemma_fundamental_div_mod};
use vstd::arithmetic::power2::{
    lemma2_to64, lemma2_to64_rest, lemma_pow2_adds, lemma_pow2_pos, lemma_pow2_strictly_increases,
    pow2,
};

verus! {

/// A single-precision floating-point number, held as its IEEE 754 bit
/// pattern.
#[derive(Clone, Copy, Debug, PartialEq, Eq)]
pub struct Single {
    pub bits: u32,
}

/// A double-precision floating-point number, held as its IEEE 754 bit
/// pattern.
#[derive(Clone, Copy, Debug, PartialEq, Eq)]
pub struct Double {
    pub bits: u64,
}

/// How often a nonzero subnormal single-precision fraction has to be doubled
/// until its leading bit stands where a normal number's implicit bit does.
pub open spec fn doublings(fraction: int) -> nat
    decreases 0x100_0000 - fraction,
{
    if 0 < fraction < 0x80_0000 {
        1 + doublings(2 * fraction)
    } else {
        0
    }
}

/// The number that the single-precision magnitude pattern `n` (a pattern
/// with the sign bit clear) stands for, in units of `2^-149`. The pattern of
/// infinity counts as `2^128`, the number one step above the largest finite
/// one, which is what rounding takes it for.
pub open spec fn level(n: int) -> int {
    let e = n / 0x80_0000;
    let f = n % 0x80_0000;
    if e == 0 {
        f
    } else {
        (0x80_0000 + f) * pow2((e - 1) as nat)
    }
}

/// Whether the single-precision magnitude pattern `n` is the one nearest to
/// the magnitude `v`, given in units of `2^-1074`; of two equally near ones,
/// the even one. Infinity is nearest from halfway between the largest finite
/// number and `2^128` on.
pub open spec fn nearest(n: int, v: int) -> bool {
    &&& 0 <= n <= 0x7f80_0000
    &&& n > 0 ==> {
        let twice_midpoint = (level(n - 1) + level(n)) * pow2(925);
        2 * v > twice_midpoint || (2 * v == twice_midpoint && n % 2 == 0)
    }
    &&& n < 0x7f80_0000 ==> {
        let twice_midpoint = (level(n) + level(n + 1)) * pow2(925);
        2 * v < twice_midpoint || (2 * v == twice_midpoint && n % 2 == 0)
    }
}

impl Single {
    /// Whether the sign bit is set.
    pub open spec fn negative(self) -> bool {
        self.bits >= 0x8000_0000
    }

    /// The biased exponent: 8 bits.
    pub open spec fn exponent(self) -> int {
        (self.bits as int / 0x80_0000) % 0x100
    }

    /// The fraction: 23 bits.
    pub open spec fn fraction(self) -> int {
        self.bits as int % 0x80_0000
    }

    /// Whether the pattern is not a number.
    pub open spec fn is_nan(self) -> bool {
        self.exponent() == 0xff && self.fraction() != 0
    }

    /// Whether the pattern is a signalling NaN: one whose quiet bit, the
    /// top bit of the fraction, is clear.
    pub open spec fn is_signalling(self) -> bool {
        self.is_nan() && self.fraction() < 0x40_0000
    }

    /// Whether the pattern is an infinity.
    pub open spec fn is_infinite(self) -> bool {
        self.exponent() == 0xff && self.fraction() == 0
    }

    /// Whether the pattern is a number, zero and subnormals included.
    pub open spec fn is_finite(self) -> bool {
        self.exponent() < 0xff
    }

    /// The absolute value of a finite number, in units of `2^-149`.
    pub open spec fn magnitude(self) -> int {
        if self.exponent() == 0 {
            self.fraction()
        } else {
            (0x80_0000 + self.fraction()) * pow2((self.exponent() - 1) as nat)
        }
    }

    /// The double-precision pattern of the same number. A number keeps its
    /// value, a subnormal one becoming normal; an infinity stays one; a NaN
    /// becomes a quiet NaN that keeps the sign and the rest of the payload.
    pub open spec fn widened(self) -> Double {
        let sign: int = if self.negative() {
            0x8000_0000_0000_0000
        } else {
            0
        };
        let e = self.exponent();
        let f = self.fraction();
        let rest: int = if e == 0xff {
            if f == 0 {
                0x7ff0_0000_0000_0000
            } else {
                0x7ff8_0000_0000_0000 + (f % 0x40_0000) * 0x2000_0000
            }
        } else if e == 0 {
            if f == 0 {
                0
            } else {
                let j = doublings(f);
                (897 - j) * 0x10_0000_0000_0000 + (f * pow2(j) - 0x80_0000) * 0x2000_0000
            }
        } else {
            (e + 896) * 0x10_0000_0000_0000 + f * 0x2000_0000
        };
        Double { bits: (sign + rest) as u64 }
    }

    /// The number with the given bit pattern.
    pub fn from_bits(bits: u32) -> (s: Single)
        ensures
            s.bits == bits,
    {
        Single { bits }
    }

    /// The number's bit pattern.
    pub fn to_bits(self) -> (bits: u32)
        ensures
            bits == self.bits,
    {
        self.bits
    }

    /// Converts to double precision, which holds every single-precision
    /// number exactly.
    pub fn widen(self) -> (d: Double)
        ensures
            d == self.widened(),
            d.negative() == self.negative(),
            self.is_nan() ==> d.is_nan(),
            self.is_infinite() ==> d.is_infinite(),
            self.is_finite() ==> d.is_finite() && d.magnitude() == self.magnitude() * pow2(925),
    {
        let bits: u32 = self.bits;
        let sign: u64 = if bits >= 0x8000_0000 {
            0x8000_0000_0000_0000
        } else {
            0
        };
        let e: u64 = ((bits / 0x80_0000) % 0x100) as u64;
        let f: u64 = (bits % 0x80_0000) as u64;
        let mut exponent: u64 = 0;
        let mut fraction: u64 = 0;
        if e == 0xff {
            exponent = 0x7ff;
            if f != 0 {
                fraction = 0x8_0000_0000_0000 + (f % 0x40_0000) * 0x2000_0000;
            }
        } else if e == 0 {
            if f != 0 {
                let mut m: u64 = f;
                let mut j: u64 = 0;
                proof {
                    lemma2_to64();
                }
                while m < 0x80_0000
                    invariant
                        0 < m < 0x100_0000,
                        j <= 23,
                        m == f * pow2(j as nat),
                        0 < f < 0x80_0000,
                        doublings(f as int) == j + doublings(m as int),
                    decreases 0x100_0000 - m,
                {
                    proof {
                        lemma_doubling_step(f as int, m as int, j as nat);
                    }
                    m = m * 2;
                    j = j + 1;
                }
                exponent = 897 - j;
                fraction = (m - 0x80_0000) * 0x2000_0000;
            }
        } else {
            exponent = e + 896;
            fraction = f * 0x2000_0000;
        }
        let d = Double { bits: sign + exponent * 0x10_0000_0000_0000 + fraction };
        proof {
            lemma_widened_value(self);
        }
        d
    }
}

impl Double {
    /// Whether the sign bit is set.
    pub open spec fn negative(self) -> bool {
        self.bits >= 0x8000_0000_0000_0000
    }

    /// The biased exponent: 11 bits.
    pub open spec fn exponent(self) -> int {
        (self.bits as int / 0x10_0000_0000_0000) % 0x800
    }

    /// The fraction: 52 bits.
    pub open spec fn fraction(self) -> int {
        self.bits as int % 0x10_0000_0000_0000
    }

    /// Whether the pattern is not a number.
    pub open spec fn is_nan(self) -> bool {
        self.exponent() == 0x7ff && self.fraction() != 0
    }

    /// Whether the pattern is an infinity.
    pub open spec fn is_infinite(self) -> bool {
        self.exponent() == 0x7ff && self.fraction() == 0
    }

    /// Whether the pattern is a number, zero and subnormals included.
    pub open spec fn is_finite(self) -> bool {
        self.exponent() < 0x7ff
    }

    /// The absolute value of a finite number, in units of `2^-1074`. An
    /// infinity counts as `2^1024`.
    pub open spec fn magnitude(self) -> int {
        if self.exponent() == 0 {
            self.fraction()
        } else {
            (0x10_0000_0000_0000 + self.fraction()) * pow2((self.exponent() - 1) as nat)
        }
    }

    /// Whether `s` is this number in single precision: the nearest
    /// single-precision number with the same sign, ties going to the even
    /// pattern and what lies beyond the range to infinity. A NaN becomes the
    /// quiet NaN with the same sign and the upper bits of the payload.
    pub open spec fn narrows_to(self, s: Single) -> bool {
        let sign: int = if self.negative() {
            0x8000_0000
        } else {
            0
        };
        if self.is_nan() {
            s.bits == sign + 0x7fc0_0000 + (self.fraction() / 0x2000_0000) % 0x40_0000
        } else {
            &&& s.negative() == self.negative()
            &&& nearest(s.bits as int % 0x8000_0000, self.magnitude())
        }
    }

    /// Converts to single precision, rounding to the nearest number, ties to
    /// even.
    pub fn narrow(self) -> (s: Single)
        ensures
            self.narrows_to(s),
    {
        let bits: u64 = self.bits;
        let sign: u32 = if bits >= 0x8000_0000_0000_0000 {
            0x8000_0000
        } else {
            0
        };
        let e: u64 = (bits / 0x10_0000_0000_0000) % 0x800;
        let f: u64 = bits % 0x10_0000_0000_0000;
        let mut n: u32 = 0;
        if e == 0x7ff && f != 0 {
            n = 0x7fc0_0000 + ((f / 0x2000_0000) % 0x40_0000) as u32;
        } else if e >= 1151 {
            n = 0x7f80_0000;
            proof {
                lemma_beyond_range(e as int, f as int);
            }
        } else if e <= 872 {
            proof {
                lemma_below_range(e as int, f as int);
            }
        } else {
            let sig: u64 = 0x10_0000_0000_0000 + f;
            let mut unit: u64 = 0x2000_0000;
            let mut base: u64 = 0;
            proof {
                lemma2_to64();
            }
            if e >= 897 {
                base = (e - 897) * 0x80_0000;
            } else {
                let mut i: u64 = e;
                while i < 897
                    invariant
                        873 <= e <= i <= 897,
                        unit == pow2((29 + i - e) as nat),
                        0 < unit <= 0x20_0000_0000_0000,
                    decreases 897 - i,
                {
                    proof {
                        lemma2_to64();
                        lemma_pow2_adds((29 + i - e) as nat, 1);
                        lemma_unit_bound((29 + i - e) as nat);
                        assert((29 + i - e) as nat + 1 == (29 + (i + 1) - e) as nat);
                    }
                    unit = unit * 2;
                    i = i + 1;
                }
            }
            let q: u64 = sig / unit;
            let r: u64 = sig % unit;
            let half: u64 = unit / 2;
            proof {
                lemma_quotient(e as int, sig as int, unit as int);
            }
            let floor: u64 = base + q;
            let up: bool = r > half || (r == half && floor % 2 == 1);
            n = if up {
                (floor + 1) as u32
            } else {
                floor as u32
            };
            proof {
                lemma_rounded(e as int, f as int, unit as int, up);
            }
        }
        let s = Single { bits: sign + n };
        proof {
            lemma_sign(sign as int, n as int);
        }
        s
    }

    /// The number with the given bit pattern.
    pub fn from_bits(bits: u64) -> (d: Double)
        ensures
            d.bits == bits,
    {
        Double { bits }
    }

    /// The number's bit pattern.
    pub fn to_bits(self) -> (bits: u64)
        ensures
            bits == self.bits,
    {
        self.bits
    }
}

/// One doubling of a subnormal fraction `m`, reached from `f` by `j`
/// doublings: the product stays `f` times a power of two, and fewer than 24
/// doublings are ever needed.
proof fn lemma_doubling_step(f: int, m: int, j: nat)
    requires
        0 < f,
        0 < m < 0x80_0000,
        m == f * pow2(j),
    ensures
        2 * m == f * pow2(j + 1),
        j < 23,
{
    lemma2_to64();
    lemma_pow2_adds(j, 1);
    assert(2 * (f * pow2(j)) == f * (pow2(j) * 2)) by (nonlinear_arith);
    if j >= 23 {
        lemma_pow2_adds(23, (j - 23) as nat);
        lemma_pow2_pos((j - 23) as nat);
        assert(f * (pow2(23) * pow2((j - 23) as nat)) >= pow2(23)) by (nonlinear_arith)
            requires
                f >= 1,
                pow2((j - 23) as nat) >= 1,
                pow2(23) >= 0,
        ;
    }
}

/// Doubling a nonzero fraction as often as `doublings` says brings its
/// leading bit to bit 23, and takes at most 23 doublings.
pub proof fn lemma_doublings(m: int)
    requires
        0 < m < 0x100_0000,
    ensures
        0x80_0000 <= m * pow2(doublings(m)) < 0x100_0000,
        doublings(m) <= 23,
        m >= 0x80_0000 ==> doublings(m) == 0,
    decreases 0x100_0000 - m,
{
    lemma2_to64();
    if m < 0x80_0000 {
        lemma_doublings(2 * m);
        let j = doublings(2 * m);
        lemma_pow2_adds(j, 1);
        assert(m * (pow2(j) * 2) == (2 * m) * pow2(j)) by (nonlinear_arith);
        if j >= 23 {
            lemma_pow2_ordered(23, j);
            assert((2 * m) * pow2(j) >= 0x100_0000) by (nonlinear_arith)
                requires
                    m >= 1,
                    pow2(j) >= 0x80_0000,
            ;
        }
    } else {
        assert(m * 1 == m);
    }
}

/// Widening keeps the sign and the kind of a number, and the value of every
/// finite one: a magnitude of `m` units of `2^-149` becomes one of
/// `m * 2^925` units of `2^-1074`.
pub proof fn lemma_widened_value(s: Single)
    ensures
        s.widened().negative() == s.negative(),
        s.is_nan() ==> s.widened().is_nan(),
        s.is_infinite() ==> s.widened().is_infinite(),
        s.is_finite() ==> s.widened().is_finite() && s.widened().magnitude() == s.magnitude()
            * pow2(925),
{
    lemma2_to64();
    let sign: int = if s.negative() {
        0x8000_0000_0000_0000
    } else {
        0
    };
    let e = s.exponent();
    let f = s.fraction();
    if e == 0xff {
        if f == 0 {
            lemma_fields(sign, 0x7ff, 0);
        } else {
            lemma_fields(sign, 0x7ff, 0x8_0000_0000_0000 + (f % 0x40_0000) * 0x2000_0000);
        }
    } else if e == 0 {
        if f == 0 {
            lemma_fields(sign, 0, 0);
            assert(0 * pow2(925) == 0);
        } else {
            lemma_doublings(f);
            let j = doublings(f);
            let m = f * pow2(j);
            lemma_fields(sign, 897 - j, (m - 0x80_0000) * 0x2000_0000);
            lemma_subnormal_value(f, m, j);
        }
    } else {
        lemma_fields(sign, e + 896, f * 0x2000_0000);
        lemma_normal_value(e, f);
    }
}

/// The three fields of a double-precision pattern put together from a sign,
/// an exponent and a fraction.
proof fn lemma_fields(sign: int, exponent: int, fraction: int)
    requires
        sign == 0 || sign == 0x8000_0000_0000_0000,
        0 <= exponent < 0x800,
        0 <= fraction < 0x10_0000_0000_0000,
    ensures
        ({
            let bits = sign + exponent * 0x10_0000_0000_0000 + fraction;
            &&& 0 <= bits <= u64::MAX
            &&& (bits / 0x10_0000_0000_0000) % 0x800 == exponent
            &&& bits % 0x10_0000_0000_0000 == fraction
            &&& (bits >= 0x8000_0000_0000_0000) == (sign != 0)
        }),
{
}

/// A normal single-precision number keeps its value when its exponent is
/// rebiased and its fraction moved up.
proof fn lemma_normal_value(e: int, f: int)
    requires
        0 < e < 0xff,
        0 <= f < 0x80_0000,
    ensures
        (0x10_0000_0000_0000 + f * 0x2000_0000) * pow2((e + 896 - 1) as nat) == ((0x80_0000 + f)
            * pow2((e - 1) as nat)) * pow2(925),
{
    lemma2_to64();
    lemma_pow2_adds((e - 1) as nat, 896);
    lemma_pow2_adds(29, 896);
    let a = pow2((e - 1) as nat) as int;
    let b = pow2(896) as int;
    let c = 0x80_0000 + f;
    assert(pow2((e + 896 - 1) as nat) == a * b);
    assert(pow2(925) == 0x2000_0000 * b);
    assert((c * 0x2000_0000) * (a * b) == (c * a) * (0x2000_0000 * b)) by (nonlinear_arith);
}

/// A subnormal single-precision number keeps its value when it is
/// normalised.
proof fn lemma_subnormal_value(f: int, m: int, j: nat)
    requires
        0 < f,
        0x80_0000 <= m < 0x100_0000,
        m == f * pow2(j),
        j <= 23,
    ensures
        (0x10_0000_0000_0000 + (m - 0x80_0000) * 0x2000_0000) * pow2((897 - j - 1) as nat) == f
            * pow2(925),
{
    lemma2_to64();
    lemma_pow2_adds(j, (925 - j) as nat);
    lemma_pow2_adds(29, (896 - j) as nat);
    let a = pow2(j) as int;
    let b = pow2((896 - j) as nat) as int;
    assert(pow2(925) == a * (0x2000_0000 * b));
    assert((m * 0x2000_0000) * b == f * (a * (0x2000_0000 * b))) by (nonlinear_arith)
        requires
            m == f * a,
    ;
}

/// The exponent of the step from the magnitude pattern `n` to the next one:
/// the step is `2` to this power, in units of `2^-149`.
pub open spec fn step_exponent(n: int) -> nat {
    if n / 0x80_0000 == 0 {
        0
    } else {
        (n / 0x80_0000 - 1) as nat
    }
}

/// From one magnitude pattern to the next the number grows by one step of
/// the lower pattern's binade, also across the boundary of two binades and
/// up to infinity.
pub proof fn lemma_level_step(n: int)
    requires
        0 <= n < 0x7f80_0000,
    ensures
        level(n + 1) == level(n) + pow2(step_exponent(n)),
        level(n) < level(n + 1),
{
    lemma2_to64();
    let e = n / 0x80_0000;
    let f = n % 0x80_0000;
    lemma_pow2_pos(step_exponent(n));
    if f + 1 < 0x80_0000 {
        assert((n + 1) / 0x80_0000 == e && (n + 1) % 0x80_0000 == f + 1);
        if e > 0 {
            let w = pow2((e - 1) as nat) as int;
            assert((0x80_0000 + (f + 1)) * w == (0x80_0000 + f) * w + w) by (nonlinear_arith);
        }
    } else {
        assert((n + 1) / 0x80_0000 == e + 1 && (n + 1) % 0x80_0000 == 0);
        if e > 0 {
            let w = pow2((e - 1) as nat) as int;
            lemma_pow2_adds((e - 1) as nat, 1);
            assert(0x80_0000 * (w * 2) == (0x80_0000 + f) * w + w) by (nonlinear_arith)
                requires
                    f == 0x7f_ffff,
            ;
        }
    }
}

/// `2^k` is at most `2^n` when `k` is at most `n`.
proof fn lemma_pow2_ordered(k: nat, n: nat)
    requires
        k <= n,
    ensures
        pow2(k) <= pow2(n),
{
    if k < n {
        lemma_pow2_strictly_increases(k, n);
    }
}

/// Doubling a rounding unit of at most `2^52` stays within `2^53`.
proof fn lemma_unit_bound(k: nat)
    requires
        k <= 52,
    ensures
        pow2(k + 1) <= 0x20_0000_0000_0000,
{
    lemma2_to64_rest();
    lemma_pow2_ordered(k + 1, 53);
}

/// A pattern put together from a sign bit and a magnitude gives both back.
proof fn lemma_sign(sign: int, n: int)
    requires
        sign == 0 || sign == 0x8000_0000,
        0 <= n < 0x8000_0000,
    ensures
        sign + n <= u32::MAX,
        (sign + n) % 0x8000_0000 == n,
        (sign + n >= 0x8000_0000) == (sign != 0),
{
}

/// A double at or beyond `2^128` is nearest to infinity.
proof fn lemma_beyond_range(e: int, f: int)
    requires
        1151 <= e <= 0x7ff,
        0 <= f < 0x10_0000_0000_0000,
    ensures
        nearest(0x7f80_0000, (0x10_0000_0000_0000 + f) * pow2((e - 1) as nat)),
{
    lemma2_to64();
    lemma2_to64_rest();
    let top: int = 0x7f80_0000;
    lemma_level_step(top - 1);
    assert(top / 0x80_0000 == 0xff && top % 0x80_0000 == 0);
    let p = pow2(925) as int;
    let w = pow2((e - 1) as nat) as int;
    let w0 = pow2(1150) as int;
    lemma_pow2_ordered(1150, (e - 1) as nat);
    lemma_pow2_adds(23, 254);
    lemma_pow2_adds(277, 925);
    lemma_pow2_adds(52, 1150);
    lemma_pow2_pos(925);
    // level(top) * p == 2^1202 == 2^52 * 2^1150
    assert(level(top) * p == 0x10_0000_0000_0000 * w0);
    let v = (0x10_0000_0000_0000 + f) * w;
    assert(v >= 0x10_0000_0000_0000 * w0) by (nonlinear_arith)
        requires
            v == (0x10_0000_0000_0000 + f) * w,
            f >= 0,
            w >= w0,
            w0 >= 0,
    ;
    assert((level(top - 1) + level(top)) * p < 2 * (level(top) * p)) by (nonlinear_arith)
        requires
            level(top - 1) < level(top),
            p > 0,
    ;
}

/// A double below `2^-150` is nearest to zero.
proof fn lemma_below_range(e: int, f: int)
    requires
        0 <= e <= 872,
        0 <= f < 0x10_0000_0000_0000,
    ensures
        nearest(
            0,
            if e == 0 {
                f
            } else {
                (0x10_0000_0000_0000 + f) * pow2((e - 1) as nat)
            },
        ),
{
    lemma2_to64();
    lemma2_to64_rest();
    assert(level(0) == 0 && level(1) == 1);
    lemma_pow2_adds(53, 871);
    lemma_pow2_adds(1, 924);
    lemma_pow2_ordered(53, 924);
    if e > 0 {
        let w = pow2((e - 1) as nat) as int;
        let w1 = pow2(871) as int;
        lemma_pow2_ordered((e - 1) as nat, 871);
        lemma_pow2_pos((e - 1) as nat);
        assert((0x10_0000_0000_0000 + f) * w < 0x20_0000_0000_0000 * w1) by (nonlinear_arith)
            requires
                0 <= f < 0x10_0000_0000_0000,
                0 < w <= w1,
        ;
    }
}

/// The quotient of a double's significand by the rounding unit has as many
/// bits as a single-precision significand, or fewer where the result is
/// subnormal.
proof fn lemma_quotient(e: int, sig: int, unit: int)
    requires
        873 <= e <= 1150,
        0x10_0000_0000_0000 <= sig < 0x20_0000_0000_0000,
        unit == if e >= 897 {
            pow2(29)
        } else {
            pow2((926 - e) as nat)
        },
    ensures
        unit >= 0x2000_0000,
        unit % 2 == 0,
        sig / unit < 0x100_0000,
        e >= 897 ==> sig / unit >= 0x80_0000,
        e < 897 ==> sig / unit < 0x80_0000,
{
    lemma2_to64();
    if e < 897 {
        lemma_pow2_ordered(30, (926 - e) as nat);
        lemma_pow2_adds((925 - e) as nat, 1);
        lemma_div_is_ordered_by_denominator(sig, 0x4000_0000, unit);
    }
}

/// Rounding the quotient by the remainder gives the nearest pattern.
proof fn lemma_rounded(e: int, f: int, unit: int, up: bool)
    requires
        873 <= e <= 1150,
        0 <= f < 0x10_0000_0000_0000,
        unit == if e >= 897 {
            pow2(29)
        } else {
            pow2((926 - e) as nat)
        },
        ({
            let sig = 0x10_0000_0000_0000 + f;
            let base = if e >= 897 {
                (e - 897) * 0x80_0000
            } else {
                0
            };
            let floor = base + sig / unit;
            let r = sig % unit;
            up == (r > unit / 2 || (r == unit / 2 && floor % 2 == 1))
        }),
    ensures
        ({
            let sig = 0x10_0000_0000_0000 + f;
            let base = if e >= 897 {
                (e - 897) * 0x80_0000
            } else {
                0
            };
            let floor = base + sig / unit;
            nearest(
                if up {
                    floor + 1
                } else {
                    floor
                },
                sig * pow2((e - 1) as nat),
            )
        }),
{
    lemma2_to64();
    let sig = 0x10_0000_0000_0000 + f;
    lemma_quotient(e, sig, unit);
    let base = if e >= 897 {
        (e - 897) * 0x80_0000
    } else {
        0
    };
    let q = sig / unit;
    let r = sig % unit;
    let half = unit / 2;
    let floor = base + q;
    let g: nat = if e >= 897 {
        (e - 897) as nat
    } else {
        0
    };
    let p = pow2(925) as int;
    let w = pow2((e - 1) as nat) as int;
    let s = pow2(g) as int;
    let v = sig * w;
    lemma_pow2_pos(925);
    lemma_pow2_pos((e - 1) as nat);
    lemma_pow2_pos(g);
    lemma_fundamental_div_mod(sig, unit);
    assert(0 <= r < unit) by (nonlinear_arith)
        requires
            r == sig % unit,
            unit > 0,
    ;
    // The quotient's pattern stands for the quotient times the step.
    assert(level(floor) == q * s) by {
        if e >= 897 {
            assert(floor / 0x80_0000 == e - 896 && floor % 0x80_0000 == q - 0x80_0000);
        } else {
            assert(floor / 0x80_0000 == 0 && floor % 0x80_0000 == q);
            assert(q * 1 == q);
        }
    }
    assert(step_exponent(floor) == g);
    lemma_level_step(floor);
    // One unit of the significand is one step of the result.
    assert(unit * w == s * p) by {
        if e >= 897 {
            lemma_pow2_adds(29, (e - 1) as nat);
            lemma_pow2_adds((e - 897) as nat, 925);
        } else {
            lemma_pow2_adds((926 - e) as nat, (e - 1) as nat);
            assert(1 * p == p);
        }
    }
    let a = level(floor) * p;
    let step = unit * w;
    assert(v == a + r * w) by (nonlinear_arith)
        requires
            v == sig * w,
            sig == unit * q + r,
            a == (q * s) * p,
            unit * w == s * p,
    ;
    assert(level(floor + 1) * p == a + step) by (nonlinear_arith)
        requires
            level(floor + 1) == level(floor) + s,
            a == level(floor) * p,
            step == s * p,
    ;
    assert(unit == 2 * half);
    if up {
        assert(2 * (r * w) >= step) by (nonlinear_arith)
            requires
                2 * r >= unit,
                step == unit * w,
                w > 0,
        ;
        assert(2 * r == unit <==> 2 * (r * w) == step) by (nonlinear_arith)
            requires
                step == unit * w,
                w > 0,
        ;
        assert(r * w < step) by (nonlinear_arith)
            requires
                r < unit,
                step == unit * w,
                w > 0,
        ;
        assert((level(floor) + level(floor + 1)) * p == a + (a + step)) by (nonlinear_arith)
            requires
                a == level(floor) * p,
                level(floor + 1) * p == a + step,
        ;
        if floor + 1 < 0x7f80_0000 {
            lemma_level_step(floor + 1);
            assert((level(floor + 1) + level(floor + 2)) * p > 2 * (a + step)) by (nonlinear_arith)
                requires
                    level(floor + 1) * p == a + step,
                    level(floor + 2) > level(floor + 1),
                    p > 0,
            ;
        }
    } else {
        assert(2 * (r * w) <= step) by (nonlinear_arith)
            requires
                2 * r <= unit,
                step == unit * w,
                w > 0,
        ;
        assert(2 * r == unit <==> 2 * (r * w) == step) by (nonlinear_arith)
            requires
                step == unit * w,
                w > 0,
        ;
        assert(r * w >= 0) by (nonlinear_arith)
            requires
                r >= 0,
                w > 0,
        ;
        assert((level(floor) + level(floor + 1)) * p == a + (a + step)) by (nonlinear_arith)
            requires
                a == level(floor) * p,
                level(floor + 1) * p == a + step,
        ;
        if floor > 0 {
            lemma_level_step(floor - 1);
            assert((level(floor - 1) + level(floor)) * p < 2 * a) by (nonlinear_arith)
                requires
                    a == level(floor) * p,
                    level(floor - 1) < level(floor),
                    p > 0,
            ;
        }
    }
}

/// A larger magnitude pattern stands for a larger number.
pub proof fn lemma_level_increases(a: int, b: int)
    requires
        0 <= a < b <= 0x7f80_0000,
    ensures
        level(a) < level(b),
    decreases b - a,
{
    lemma_level_step(b - 1);
    if a < b - 1 {
        lemma_level_increases(a, b - 1);
    }
}

/// At most one magnitude pattern is nearest to a given magnitude.
pub proof fn lemma_nearest_unique(a: int, b: int, v: int)
    requires
        nearest(a, v),
        nearest(b, v),
    ensures
        a == b,
{
    if a < b {
        lemma_nearest_ordered(a, b, v);
    } else if b < a {
        lemma_nearest_ordered(b, a, v);
    }
}

/// Where a magnitude pattern is nearest, no larger one is.
proof fn lemma_nearest_ordered(a: int, b: int, v: int)
    requires
        a < b,
        nearest(a, v),
    ensures
        !nearest(b, v),
{
    let p = pow2(925) as int;
    lemma_pow2_pos(925);
    let above = (level(a) + level(a + 1)) * p;
    let below = (level(b - 1) + level(b)) * p;
    if a + 1 < b <= 0x7f80_0000 {
        lemma_level_increases(a, b - 1);
        lemma_level_increases(a + 1, b);
        assert(above < below) by (nonlinear_arith)
            requires
                above == (level(a) + level(a + 1)) * p,
                below == (level(b - 1) + level(b)) * p,
                level(a) < level(b - 1),
                level(a + 1) < level(b),
                p > 0,
        ;
    }
}

/// What one double narrows to is determined.
pub proof fn lemma_narrow_determined(d: Double, s: Single, t: Single)
    requires
        d.narrows_to(s),
        d.narrows_to(t),
    ensures
        s == t,
{
    if !d.is_nan() {
        lemma_nearest_unique(s.bits as int % 0x8000_0000, t.bits as int % 0x8000_0000, d.magnitude());
    }
}

/// Widening loses nothing: a single-precision pattern that is widened and
/// narrowed again is the pattern itself, a quiet NaN with its payload
/// included. Only a signalling NaN comes back changed: widening quiets it.
pub proof fn lemma_narrow_widened(s: Single)
    requires
        !s.is_signalling(),
    ensures
        s.widened().narrows_to(s),
{
    let d = s.widened();
    lemma_widened_value(s);
    let n = s.bits as int % 0x8000_0000;
    let p = pow2(925) as int;
    lemma_pow2_pos(925);
    assert(n / 0x80_0000 == s.exponent() && n % 0x80_0000 == s.fraction());
    if s.is_nan() {
        let sign: int = if s.negative() {
            0x8000_0000_0000_0000
        } else {
            0
        };
        let payload = s.fraction() % 0x40_0000;
        lemma_fields(sign, 0x7ff, 0x8_0000_0000_0000 + payload * 0x2000_0000);
        assert(d.fraction() / 0x2000_0000 == 0x40_0000 + payload);
    } else if s.is_infinite() {
        lemma_beyond_range(d.exponent(), d.fraction());
    } else {
        assert(level(n) * p == d.magnitude());
        if n > 0 {
            lemma_level_step(n - 1);
            assert((level(n - 1) + level(n)) * p < 2 * (level(n) * p)) by (nonlinear_arith)
                requires
                    level(n - 1) < level(n),
                    p > 0,
            ;
        }
        if n < 0x7f80_0000 {
            lemma_level_step(n);
            assert((level(n) + level(n + 1)) * p > 2 * (level(n) * p)) by (nonlinear_arith)
                requires
                    level(n) < level(n + 1),
                    p > 0,
            ;
        }
    }
}

} // verus!
