//! Exact decimal numbers and their fixed-point canonical form.

use vstd::arithmetic::div_mod::{lemma_div_is_ordered_by_denominator, lemma_div_pos_is_pos};
use vstd::arithmetic::mul::lemma_mul_inequality;
use vstd::prelude::*;

verus! {

/// Largest number of fractional digits that a `Decimal` carries.
pub const MAX_SCALE: u32 = 18;

/// The exact decimal number `mantissa / 10^scale`.
#[derive(Clone, Copy, Debug, PartialEq, Eq, Structural)]
pub struct Decimal {
    pub mantissa: i64,
    pub scale: u32,
}

pub open spec fn pow10(e: nat) -> nat
    decreases e,
{
    if e == 0 {
        1
    } else {
        10 * pow10((e - 1) as nat)
    }
}

pub open spec fn abs(x: int) -> int {
    if x < 0 {
        -x
    } else {
        x
    }
}

pub proof fn lemma_pow10_positive(e: nat)
    ensures
        pow10(e) >= 1,
    decreases e,
{
    if e > 0 {
        lemma_pow10_positive((e - 1) as nat);
    }
}

pub proof fn lemma_pow10_monotone(a: nat, b: nat)
    requires
        a <= b,
    ensures
        pow10(a) <= pow10(b),
    decreases b,
{
    if a < b {
        lemma_pow10_monotone(a, (b - 1) as nat);
    }
}

pub proof fn lemma_pow10_add(a: nat, b: nat)
    ensures
        pow10(a + b) == pow10(a) * pow10(b),
    decreases a,
{
    if a > 0 {
        lemma_pow10_add((a - 1) as nat, b);
        let x = pow10((a - 1 + b) as nat) as int;
        let y = pow10((a - 1) as nat) as int;
        let z = pow10(b) as int;
        assert(pow10(a) == 10 * y);
        assert(pow10(a + b) == 10 * x);
        assert(10 * x == (10 * y) * z) by (nonlinear_arith)
            requires
                x == y * z,
        ;
    } else {
        assert(pow10(0) == 1);
        assert(a + b == b);
    }
}

proof fn lemma_pow10_18()
    ensures
        pow10(18) == 1_000_000_000_000_000_000nat,
{
    reveal_with_fuel(pow10, 19);
}

/// `10^e` for the exponents that a `Decimal` can hold.
pub fn pow10_u64(e: u32) -> (r: u64)
    requires
        e <= MAX_SCALE,
    ensures
        r as nat == pow10(e as nat),
        r <= 1_000_000_000_000_000_000u64,
{
    let mut r: u64 = 1;
    let mut i: u32 = 0;
    while i < e
        invariant
            i <= e <= MAX_SCALE,
            r as nat == pow10(i as nat),
        decreases e - i,
    {
        proof {
            lemma_pow10_monotone((i + 1) as nat, 18);
            lemma_pow10_18();
        }
        r = r * 10;
        i = i + 1;
    }
    proof {
        lemma_pow10_monotone(e as nat, 18);
        lemma_pow10_18();
    }
    r
}

impl Decimal {
    pub open spec fn wf(self) -> bool {
        self.scale <= MAX_SCALE
    }

    pub fn wf_exec(&self) -> (r: bool)
        ensures
            r == self.wf(),
    {
        self.scale <= MAX_SCALE
    }

    /// Builds `mantissa / 10^scale`; `None` where `scale` exceeds `MAX_SCALE`.
    pub fn new(mantissa: i64, scale: u32) -> (r: Option<Decimal>)
        ensures
            r == (if scale <= MAX_SCALE {
                Some(Decimal { mantissa, scale })
            } else {
                None
            }),
    {
        if scale <= MAX_SCALE {
            Some(Decimal { mantissa, scale })
        } else {
            None
        }
    }
}

/// `a`'s mantissa brought to the scale `a.scale + b.scale`: comparing
/// `cross(a, b)` with `cross(b, a)` compares the values of `a` and `b`.
pub open spec fn cross(a: Decimal, b: Decimal) -> int {
    a.mantissa * pow10(b.scale as nat)
}

/// `a` and `b` stand for the same number.
pub open spec fn same_value(a: Decimal, b: Decimal) -> bool {
    cross(a, b) == cross(b, a)
}

/// The number `a` is at most the number `b`.
pub open spec fn value_le(a: Decimal, b: Decimal) -> bool {
    cross(a, b) <= cross(b, a)
}

fn cross_exec(a: Decimal, b: Decimal) -> (r: i128)
    requires
        b.wf(),
    ensures
        r == cross(a, b),
{
    let p = pow10_u64(b.scale);
    let m = a.mantissa as i128;
    let pi = p as i128;
    proof {
        assert(-0x8000_0000_0000_0000 * 1_000_000_000_000_000_000 <= m * pi <= 0x8000_0000_0000_0000 * 1_000_000_000_000_000_000)
            by (nonlinear_arith)
            requires
                -0x8000_0000_0000_0000 <= m <= 0x7fff_ffff_ffff_ffff,
                0 <= pi <= 1_000_000_000_000_000_000,
        ;
    }
    m * pi
}

impl Decimal {
    /// Whether the two numbers are equal, whatever their scales.
    pub fn same_value(&self, other: &Decimal) -> (r: bool)
        requires
            self.wf(),
            other.wf(),
        ensures
            r == same_value(*self, *other),
    {
        cross_exec(*self, *other) == cross_exec(*other, *self)
    }

    /// Whether this number is at most `other`.
    pub fn value_le(&self, other: &Decimal) -> (r: bool)
        requires
            self.wf(),
            other.wf(),
        ensures
            r == value_le(*self, *other),
    {
        cross_exec(*self, *other) <= cross_exec(*other, *self)
    }
}

/// `m / k` rounded to the nearest integer, halves away from zero.
pub open spec fn round_half_away(m: int, k: int) -> int {
    let q = (2 * abs(m) + k) / (2 * k);
    if m >= 0 {
        q
    } else {
        -q
    }
}

/// `d * 10^shift` rounded to the nearest integer, halves away from zero.
pub open spec fn scaled(d: Decimal, shift: nat) -> int {
    if shift >= d.scale {
        d.mantissa * pow10((shift - d.scale) as nat)
    } else {
        round_half_away(d.mantissa as int, pow10((d.scale - shift) as nat) as int)
    }
}

/// The rounding in `scaled(d, shift)` moved the product by less than
/// `10^-tolerance`.
pub open spec fn within_tolerance(d: Decimal, shift: nat, tolerance: nat) -> bool {
    shift >= d.scale || abs(
        d.mantissa - scaled(d, shift) * pow10((d.scale - shift) as nat),
    ) * pow10(tolerance) < pow10((d.scale - shift) as nat)
}

/// `d` has a canonical integer at `shift`: within tolerance, and in `i64`.
pub open spec fn canonical_ok(d: Decimal, shift: nat, tolerance: nat) -> bool {
    &&& within_tolerance(d, shift, tolerance)
    &&& i64::MIN <= scaled(d, shift) <= i64::MAX
}

/// The integer `round(d * 10^shift)`, or `None` where rounding moves the
/// product by `10^-tolerance` or more, or the integer does not fit in `i64`.
pub fn canonicalize(d: Decimal, shift: u32, tolerance: u32) -> (r: Option<i64>)
    requires
        d.wf(),
    ensures
        match r {
            Some(v) => canonical_ok(d, shift as nat, tolerance as nat) && v == scaled(
                d,
                shift as nat,
            ),
            None => !canonical_ok(d, shift as nat, tolerance as nat),
        },
{
    if shift >= d.scale {
        let e = shift - d.scale;
        if e > MAX_SCALE {
            if d.mantissa == 0 {
                assert(d.mantissa * pow10(e as nat) == 0) by (nonlinear_arith)
                    requires
                        d.mantissa == 0,
                ;
                Some(0)
            } else {
                proof {
                    lemma_pow10_monotone(18, (e - 1) as nat);
                    lemma_pow10_18();
                    let m = d.mantissa as int;
                    let p = pow10(e as nat) as int;
                    assert(p >= 10_000_000_000_000_000_000);
                    if m > 0 {
                        lemma_mul_inequality(1, m, p);
                    } else {
                        lemma_mul_inequality(1, -m, p);
                        assert((-m) * p == -(m * p)) by (nonlinear_arith);
                    }
                }
                None
            }
        } else {
            let p = pow10_u64(e) as i128;
            let m = d.mantissa as i128;
            proof {
                assert(-0x8000_0000_0000_0000 * 1_000_000_000_000_000_000 <= m * p <= 0x8000_0000_0000_0000 * 1_000_000_000_000_000_000)
                    by (nonlinear_arith)
                    requires
                        -0x8000_0000_0000_0000 <= m <= 0x7fff_ffff_ffff_ffff,
                        0 <= p <= 1_000_000_000_000_000_000,
                ;
            }
            let v = m * p;
            if v < i64::MIN as i128 || v > i64::MAX as i128 {
                None
            } else {
                Some(v as i64)
            }
        }
    } else {
        let e = d.scale - shift;
        let k = pow10_u64(e) as i128;
        let m = d.mantissa as i128;
        let am: i128 = if m < 0 {
            -m
        } else {
            m
        };
        proof {
            lemma_pow10_positive(e as nat);
            lemma_div_pos_is_pos(2 * am + k, 2 * k);
            lemma_div_is_ordered_by_denominator(2 * am + k, 1, 2 * k);
        }
        let q = (2 * am + k) / (2 * k);
        proof {
            assert(0 <= q * k <= (2 * am + k) * k) by (nonlinear_arith)
                requires
                    0 <= q <= 2 * am + k,
                    1 <= k,
            ;
            assert((2 * am + k) * k <= (0x1_0000_0000_0000_0000 + 1_000_000_000_000_000_000) * 1_000_000_000_000_000_000) by (nonlinear_arith)
                requires
                    0 <= am <= 0x8000_0000_0000_0000,
                    1 <= k <= 1_000_000_000_000_000_000,
            ;
        }
        let ar0 = am - q * k;
        let ar: i128 = if ar0 < 0 {
            -ar0
        } else {
            ar0
        };
        let ghost s = scaled(d, shift as nat);
        proof {
            if m < 0 {
                assert(s == -q);
                assert(m - s * k == -(am - q * k)) by (nonlinear_arith)
                    requires
                        m == -am,
                        s == -q,
                ;
            } else {
                assert(s == q);
            }
            assert(ar == abs(d.mantissa - s * pow10(e as nat)));
        }
        let close = if ar >= k {
            proof {
                lemma_pow10_positive(tolerance as nat);
                lemma_mul_inequality(k as int, ar as int, pow10(tolerance as nat) as int);
                lemma_mul_inequality(1, pow10(tolerance as nat) as int, k as int);
            }
            false
        } else if tolerance >= e {
            proof {
                lemma_pow10_monotone(e as nat, tolerance as nat);
                if ar > 0 {
                    lemma_mul_inequality(1, ar as int, pow10(tolerance as nat) as int);
                }
            }
            ar == 0
        } else {
            let t = pow10_u64(tolerance) as i128;
            proof {
                assert(ar * t <= 1_000_000_000_000_000_000 * 1_000_000_000_000_000_000)
                    by (nonlinear_arith)
                    requires
                        0 <= ar <= 1_000_000_000_000_000_000,
                        0 <= t <= 1_000_000_000_000_000_000,
                ;
            }
            ar * t < k
        };
        if !close {
            None
        } else {
            let v: i128 = if m < 0 {
                -q
            } else {
                q
            };
            assert(v == s);
            assert(within_tolerance(d, shift as nat, tolerance as nat));
            if v < i64::MIN as i128 || v > i64::MAX as i128 {
                None
            } else {
                Some(v as i64)
            }
        }
    }
}

/// Reading a canonical integer back at its shift gives the number it came
/// from, within the tolerance: `|c / 10^shift - d| < 10^-(shift + tolerance)`,
/// written here without division. Where `d` has no more fractional digits
/// than the shift and the integer fits in `i64`, the integer is canonical and
/// the round trip is exact.
pub proof fn lemma_round_trip(d: Decimal, shift: nat, tolerance: nat)
    requires
        d.wf(),
    ensures
        canonical_ok(d, shift, tolerance) ==> abs(
            scaled(d, shift) * pow10(d.scale as nat) - d.mantissa * pow10(shift),
        ) * pow10(tolerance) < pow10(d.scale as nat),
        d.scale <= shift && i64::MIN <= d.mantissa * pow10((shift - d.scale) as nat)
            <= i64::MAX ==> canonical_ok(d, shift, tolerance) && scaled(d, shift) * pow10(
            d.scale as nat,
        ) == d.mantissa * pow10(shift),
{
    let c = scaled(d, shift);
    let m = d.mantissa as int;
    let s = d.scale as nat;
    lemma_pow10_positive(s);
    lemma_pow10_positive(tolerance);
    if shift >= s {
        let e = (shift - s) as nat;
        lemma_pow10_add(e, s);
        assert(e + s == shift);
        assert(c * pow10(s) == m * pow10(shift)) by (nonlinear_arith)
            requires
                c == m * pow10(e),
                pow10(shift) == pow10(e) * pow10(s),
        ;
        let diff = c * pow10(s) - m * pow10(shift);
        assert(abs(diff) == 0);
        assert(abs(diff) * pow10(tolerance) == 0) by (nonlinear_arith)
            requires
                abs(diff) == 0,
        ;
    } else if canonical_ok(d, shift, tolerance) {
        let e = (s - shift) as nat;
        lemma_pow10_add(e, shift);
        assert(e + shift == s);
        let pe = pow10(e) as int;
        let ps = pow10(shift) as int;
        let pt = pow10(tolerance) as int;
        let dev = m - c * pe;
        assert(pow10(s) == pe * ps);
        assert(abs(dev) * pt < pe);
        lemma_pow10_positive(shift);
        assert(abs(c * (pe * ps) - m * ps) * pt < pe * ps) by (nonlinear_arith)
            requires
                abs(dev) * pt < pe,
                dev == m - c * pe,
                ps >= 1,
                pt >= 1,
        {
            assert(c * (pe * ps) - m * ps == -(dev * ps));
            assert(abs(dev * ps) == abs(dev) * ps);
            assert(abs(dev) * pt * ps < pe * ps);
        }
    }
}

} // verus!
