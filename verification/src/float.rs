//! Single-precision numbers held by their bit pattern.
use vstd::arithmetic::power2::pow2;
use vstd::prelude::*;

verus! {

/// A number in the IEEE 754 binary32 format: one sign bit, eight bits of exponent, 23 bits of
/// fraction.
#[derive(Clone, Copy, Debug)]
pub struct Float32 {
    /// The 32 bits, the sign first.
    pub bits: u32,
}

impl Float32 {
    /// The bits after the sign.
    pub open spec fn magnitude(self) -> int {
        if self.bits < 0x8000_0000 {
            self.bits as int
        } else {
            self.bits - 0x8000_0000
        }
    }

    /// An exponent of all ones with a fraction other than zero: not a number.
    pub open spec fn nan(self) -> bool {
        self.magnitude() > 0x7f80_0000
    }

    /// The place of the number in the order of all numbers that are not NaN. The two zeros share
    /// a place.
    pub open spec fn rank(self) -> int {
        if self.bits < 0x8000_0000 {
            self.magnitude()
        } else {
            -self.magnitude()
        }
    }

    /// `self < other`. Nothing is less than NaN, and NaN is less than nothing.
    pub open spec fn lt(self, other: Float32) -> bool {
        !self.nan() && !other.nan() && self.rank() < other.rank()
    }

    /// `self <= other`, which holds of no NaN.
    pub open spec fn le(self, other: Float32) -> bool {
        !self.nan() && !other.nan() && self.rank() <= other.rank()
    }

    /// `self == other` as numbers: the two zeros are equal, and NaN equals nothing.
    pub open spec fn same(self, other: Float32) -> bool {
        !self.nan() && !other.nan() && self.rank() == other.rank()
    }

    /// The place of the number in the order of all numbers.
    pub fn place(self) -> (r: i64)
        ensures
            r == self.rank(),
            -0x8000_0000 < r < 0x8000_0000,
    {
        if self.bits < 0x8000_0000 {
            self.bits as i64
        } else {
            -((self.bits - 0x8000_0000) as i64)
        }
    }

    /// Whether this is not a number.
    pub fn is_nan(self) -> (r: bool)
        ensures
            r == self.nan(),
    {
        let rank: i64 = self.place();
        rank > 0x7f80_0000 || rank < -0x7f80_0000
    }

    /// Whether `self < other`.
    pub fn less(self, other: Float32) -> (r: bool)
        ensures
            r == self.lt(other),
    {
        !self.is_nan() && !other.is_nan() && self.place() < other.place()
    }

    /// Whether `self <= other`.
    pub fn at_most(self, other: Float32) -> (r: bool)
        ensures
            r == self.le(other),
    {
        !self.is_nan() && !other.is_nan() && self.place() <= other.place()
    }

    /// Whether `self == other` as numbers.
    pub fn equals(self, other: Float32) -> (r: bool)
        ensures
            r == self.same(other),
    {
        !self.is_nan() && !other.is_nan() && self.place() == other.place()
    }
}

/// The bits of 0.
pub const ZERO_BITS: u32 = 0;

/// The bits of 1.
pub const ONE_BITS: u32 = 0x3f80_0000;

/// The bits of negative infinity, which is below every other number.
pub const NEG_INFINITY_BITS: u32 = 0xff80_0000;

/// Of two numbers exactly one of less, equal and greater holds, unless one of them is NaN: then
/// none does.
pub proof fn law_order_is_total(a: Float32, b: Float32)
    ensures
        !a.nan() && !b.nan() ==> {
            &&& a.lt(b) || a.same(b) || b.lt(a)
            &&& !(a.lt(b) && a.same(b))
            &&& !(a.lt(b) && b.lt(a))
            &&& !(a.same(b) && b.lt(a))
        },
        a.nan() || b.nan() ==> !a.lt(b) && !a.le(b) && !a.same(b),
        a.le(b) <==> a.lt(b) || a.same(b),
{
}

/// A larger exponent, or the same exponent with a larger fraction, makes a larger number.
proof fn lemma_size_grows(e: int, m: int, k: int, n: int)
    requires
        0 <= e <= 255,
        0 <= k <= 255,
        0 <= m < 0x80_0000,
        0 <= n < 0x80_0000,
        e * 0x80_0000 + m < k * 0x80_0000 + n,
    ensures
        (if e == 0 {
            m
        } else {
            (0x80_0000 + m) * pow2((e - 1) as nat)
        }) < (if k == 0 {
            n
        } else {
            (0x80_0000 + n) * pow2((k - 1) as nat)
        }),
{
    if k > 0 {
        let q = pow2((k - 1) as nat) as int;
        vstd::arithmetic::power2::lemma_pow2_pos((k - 1) as nat);
        assert(0x80_0000 <= 0x80_0000 * q && 0x80_0000 * q <= (0x80_0000 + n) * q)
            by (nonlinear_arith)
            requires
                q >= 1,
                0 <= n,
        ;
        if e > 0 {
            let p = pow2((e - 1) as nat) as int;
            vstd::arithmetic::power2::lemma_pow2_pos((e - 1) as nat);
            if e == k {
                assert((0x80_0000 + m) * p < (0x80_0000 + n) * p) by (nonlinear_arith)
                    requires
                        p >= 1,
                        m < n,
                ;
            } else {
                vstd::arithmetic::power2::lemma_pow2_unfold(e as nat);
                if e < k - 1 {
                    vstd::arithmetic::power2::lemma_pow2_strictly_increases(
                        e as nat,
                        (k - 1) as nat,
                    );
                }
                assert(2 * p <= q);
                assert((0x80_0000 + m) * p < 0x80_0000 * q) by (nonlinear_arith)
                    requires
                        p >= 1,
                        2 * p <= q,
                        m < 0x80_0000,
                ;
            }
        }
    }
}

/// The order is that of the numbers that the bits stand for. With the sign `s`, the exponent `e`
/// and the fraction `m`, a number is `m` units where the exponent is zero and `2^23 + m` times
/// `2^(e - 1)` units where it is not, of `2^-149` each. An exponent of 255 with a fraction other
/// than zero is no number, and with a fraction of zero lies beyond all numbers.
pub proof fn law_order_is_that_of_the_numbers(
    a: Float32,
    s: int,
    e: int,
    m: int,
    b: Float32,
    t: int,
    k: int,
    n: int,
)
    requires
        0 <= s <= 1,
        0 <= t <= 1,
        0 <= e <= 255,
        0 <= k <= 255,
        0 <= m < 0x80_0000,
        0 <= n < 0x80_0000,
        a.bits == s * 0x8000_0000 + e * 0x80_0000 + m,
        b.bits == t * 0x8000_0000 + k * 0x80_0000 + n,
    ensures
        a.nan() <==> e == 255 && m != 0,
        !a.nan() && !b.nan() ==> {
            let x = (if e == 0 {
                m
            } else {
                (0x80_0000 + m) * pow2((e - 1) as nat)
            }) * (1 - 2 * s);
            let y = (if k == 0 {
                n
            } else {
                (0x80_0000 + n) * pow2((k - 1) as nat)
            }) * (1 - 2 * t);
            &&& a.lt(b) <==> x < y
            &&& a.le(b) <==> x <= y
            &&& a.same(b) <==> x == y
        },
{
    let x = if e == 0 {
        m
    } else {
        (0x80_0000 + m) * pow2((e - 1) as nat)
    };
    let y = if k == 0 {
        n
    } else {
        (0x80_0000 + n) * pow2((k - 1) as nat)
    };
    let p = e * 0x80_0000 + m;
    let q = k * 0x80_0000 + n;
    assert(a.magnitude() == p && b.magnitude() == q);
    if p < q {
        lemma_size_grows(e, m, k, n);
    } else if q < p {
        lemma_size_grows(k, n, e, m);
    }
    if p > 0 {
        lemma_size_grows(0, 0, e, m);
    }
    if q > 0 {
        lemma_size_grows(0, 0, k, n);
    }
    assert(x * (1 - 2 * s) == if s == 0 {
        x
    } else {
        -x
    }) by (nonlinear_arith)
        requires
            s == 0 || s == 1,
    ;
    assert(y * (1 - 2 * t) == if t == 0 {
        y
    } else {
        -y
    }) by (nonlinear_arith)
        requires
            t == 0 || t == 1,
    ;
    if p == q {
        assert(e == k && m == n);
    }
}

} // verus!
