//! An exact rational scalar.
//!
//! A `Rat` is `num / den` with `den > 0`. Arithmetic is exact: products and
//! sums are computed in 128-bit intermediates and an operation whose result
//! does not fit back into `i64` components reports that instead of rounding.
//! Nothing is reduced to lowest terms; two `Rat`s are equal as numbers when
//! they cross-multiply equally (`rat_eq`).

use vstd::prelude::*;

verus! {

/// Magnitude bound for numerators and denominators: `i64::MAX`.
pub open spec fn rat_limit() -> int {
    0x7fff_ffff_ffff_ffff
}

/// A numerator is kept in `[-i64::MAX, i64::MAX]`, one above `i64::MIN`,
/// so that negation never leaves the type.
pub open spec fn in_num_range(n: int) -> bool {
    -rat_limit() <= n <= rat_limit()
}

/// A denominator is positive and at most `i64::MAX`.
pub open spec fn in_den_range(d: int) -> bool {
    0 < d <= rat_limit()
}

/// An exact rational number `num / den`. The derived equality is by fields;
/// equality as numbers is `rat_eq`.
#[derive(Clone, Copy, Debug, PartialEq, Eq)]
pub struct Rat {
    pub num: i64,
    pub den: i64,
}

/// `a` and `b` denote the same rational number.
pub open spec fn rat_eq(a: Rat, b: Rat) -> bool {
    a.num * b.den == b.num * a.den
}

/// Bound on a product of two well-formed components, used to justify the
/// 128-bit intermediate arithmetic.
proof fn lemma_mul_bound(a: int, b: int) by (nonlinear_arith)
    requires
        -0x7fff_ffff_ffff_ffff <= a <= 0x7fff_ffff_ffff_ffff,
        -0x7fff_ffff_ffff_ffff <= b <= 0x7fff_ffff_ffff_ffff,
    ensures
        -0x3fff_ffff_ffff_ffff_0000_0000_0000_0001 <= a * b
            <= 0x3fff_ffff_ffff_ffff_0000_0000_0000_0001,
{
}

/// A product of positive factors is positive.
proof fn lemma_mul_pos(a: int, b: int) by (nonlinear_arith)
    requires
        0 < a,
        0 < b,
    ensures
        0 < a * b,
{
}

impl Rat {
    /// Well-formed: positive denominator, numerator clear of `i64::MIN`.
    pub open spec fn wf(self) -> bool {
        in_den_range(self.den as int) && in_num_range(self.num as int)
    }

    /// The rational denotes zero exactly when its numerator is zero.
    pub open spec fn spec_is_zero(self) -> bool {
        self.num == 0
    }

    /// The exact sum `a + b` over common denominator `a.den * b.den`,
    /// or `None` where a component leaves the representable range.
    pub open spec fn spec_add(a: Rat, b: Rat) -> Option<Rat> {
        let n = a.num * b.den + b.num * a.den;
        let d = a.den * b.den;
        if in_num_range(n) && in_den_range(d) {
            Some(Rat { num: n as i64, den: d as i64 })
        } else {
            None
        }
    }

    /// The exact product `a * b`, or `None` where a component leaves the
    /// representable range.
    pub open spec fn spec_mul(a: Rat, b: Rat) -> Option<Rat> {
        let n = a.num * b.num;
        let d = a.den * b.den;
        if in_num_range(n) && in_den_range(d) {
            Some(Rat { num: n as i64, den: d as i64 })
        } else {
            None
        }
    }

    /// The exact negation; always representable for a well-formed value.
    pub open spec fn spec_neg(a: Rat) -> Rat {
        Rat { num: (-a.num) as i64, den: a.den }
    }

    /// The exact reciprocal of a nonzero value: swap numerator and
    /// denominator, keeping the denominator positive.
    pub open spec fn spec_recip(a: Rat) -> Rat {
        if a.num > 0 {
            Rat { num: a.den, den: a.num }
        } else {
            Rat { num: (-a.den) as i64, den: (-a.num) as i64 }
        }
    }

    /// Truncation toward zero of `num / den`.
    pub open spec fn spec_trunc(a: Rat) -> int {
        if a.num >= 0 {
            a.num as int / a.den as int
        } else {
            -((-a.num) / (a.den as int))
        }
    }

    /// The integer `n` as a rational.
    pub open spec fn spec_int(n: int) -> Rat {
        Rat { num: n as i64, den: 1 }
    }

    /// Embed an integer.
    pub fn from_i64(n: i64) -> (r: Rat)
        requires
            in_num_range(n as int),
        ensures
            r == Self::spec_int(n as int),
            r.wf(),
            r.num == n,
            r.den == 1,
    {
        Rat { num: n, den: 1 }
    }

    /// Whether this rational denotes zero.
    pub fn is_zero(&self) -> (r: bool)
        ensures
            r == self.spec_is_zero(),
    {
        self.num == 0
    }

    /// Exact addition; `None` reports that the result left the range.
    pub fn add(self, b: Rat) -> (r: Option<Rat>)
        requires
            self.wf(),
            b.wf(),
        ensures
            r == Self::spec_add(self, b),
            r matches Some(c) ==> c.wf(),
    {
        proof {
            lemma_mul_bound(self.num as int, b.den as int);
            lemma_mul_bound(b.num as int, self.den as int);
            lemma_mul_bound(self.den as int, b.den as int);
            lemma_mul_pos(self.den as int, b.den as int);
        }
        let n: i128 = (self.num as i128) * (b.den as i128) + (b.num as i128) * (self.den as i128);
        let d: i128 = (self.den as i128) * (b.den as i128);
        if -0x7fff_ffff_ffff_ffffi128 <= n && n <= 0x7fff_ffff_ffff_ffffi128
            && d <= 0x7fff_ffff_ffff_ffffi128 {
            Some(Rat { num: n as i64, den: d as i64 })
        } else {
            None
        }
    }

    /// Exact multiplication; `None` reports that the result left the range.
    pub fn mul(self, b: Rat) -> (r: Option<Rat>)
        requires
            self.wf(),
            b.wf(),
        ensures
            r == Self::spec_mul(self, b),
            r matches Some(c) ==> c.wf(),
    {
        proof {
            lemma_mul_bound(self.num as int, b.num as int);
            lemma_mul_bound(self.den as int, b.den as int);
            lemma_mul_pos(self.den as int, b.den as int);
        }
        let n: i128 = (self.num as i128) * (b.num as i128);
        let d: i128 = (self.den as i128) * (b.den as i128);
        if -0x7fff_ffff_ffff_ffffi128 <= n && n <= 0x7fff_ffff_ffff_ffffi128
            && d <= 0x7fff_ffff_ffff_ffffi128 {
            Some(Rat { num: n as i64, den: d as i64 })
        } else {
            None
        }
    }

    /// Exact negation.
    pub fn neg(self) -> (r: Rat)
        requires
            self.wf(),
        ensures
            r == Self::spec_neg(self),
            r.wf(),
    {
        Rat { num: -self.num, den: self.den }
    }

    /// Exact reciprocal of a nonzero value.
    pub fn recip(self) -> (r: Rat)
        requires
            self.wf(),
            self.num != 0,
        ensures
            r == Self::spec_recip(self),
            r.wf(),
            r.num != 0,
    {
        if self.num > 0 {
            Rat { num: self.den, den: self.num }
        } else {
            Rat { num: -self.den, den: -self.num }
        }
    }

    /// Truncation toward zero.
    pub fn trunc(self) -> (r: i64)
        requires
            self.wf(),
        ensures
            r == Self::spec_trunc(self),
    {
        if self.num >= 0 {
            let q: u64 = (self.num as u64) / (self.den as u64);
            assert(self.num as int / self.den as int <= self.num as int
                && 0 <= self.num as int / self.den as int) by (nonlinear_arith)
                requires
                    0 <= self.num as int,
                    1 <= self.den as int,
            ;
            q as i64
        } else {
            let m: u64 = (-self.num) as u64;
            let q: u64 = m / (self.den as u64);
            assert(m as int / self.den as int <= m as int
                && 0 <= m as int / self.den as int) by (nonlinear_arith)
                requires
                    0 <= m as int,
                    1 <= self.den as int,
            ;
            -(q as i64)
        }
    }
}

} // verus!

