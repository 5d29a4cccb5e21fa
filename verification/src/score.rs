//! Relevance scores: IEEE 754 single-precision numbers, held by their bits.
//!
//! The bits are all that ranking needs. Read as sign and magnitude they order
//! the numbers, and halving a number is arithmetic on its magnitude.
use vstd::arithmetic::power2::{lemma2_to64, lemma_pow2_pos, lemma_pow2_unfold, pow2};
use vstd::prelude::*;

verus! {

/// The first magnitude that is not a number: above it lie only NaNs.
pub const INFINITY: u32 = 0x7f80_0000;

/// The sign bit.
pub const SIGN: u32 = 0x8000_0000;

/// What the exponent adds to the magnitude when a number doubles.
pub const DOUBLED: u32 = 0x0080_0000;

/// The bits without the sign.
pub open spec fn magnitude(bits: u32) -> int {
    if bits < SIGN {
        bits as int
    } else {
        bits - SIGN
    }
}

/// Whether the bits stand for a number, infinities among them.
pub open spec fn is_number(bits: u32) -> bool {
    magnitude(bits) <= INFINITY
}

/// Where the number stands in the order of all numbers. Both zeros stand at 0.
pub open spec fn order_of(bits: u32) -> int {
    if bits < SIGN {
        magnitude(bits)
    } else {
        -magnitude(bits)
    }
}

/// The magnitude of half the number of magnitude `m`, rounded to even where the
/// half needs one more bit than a number has.
pub open spec fn half_magnitude(m: int) -> int {
    if m < 2 * DOUBLED {
        if m % 2 == 1 && (m / 2) % 2 == 1 {
            m / 2 + 1
        } else {
            m / 2
        }
    } else if m < INFINITY {
        m - DOUBLED
    } else {
        m
    }
}

/// The bits of half the number with the bits `bits`.
pub open spec fn half_bits(bits: u32) -> int {
    if bits < SIGN {
        half_magnitude(magnitude(bits))
    } else {
        SIGN + half_magnitude(magnitude(bits))
    }
}

/// A score: a number, never a NaN.
#[derive(Clone, Copy, Debug, PartialEq, Eq, Structural)]
pub struct Score {
    bits: u32,
}

impl Score {
    /// A score is a number.
    #[verifier::type_invariant]
    pub closed spec fn wf(self) -> bool {
        is_number(self.bits)
    }

    /// The bits of the score.
    pub closed spec fn spec_bits(self) -> u32 {
        self.bits
    }

    /// Where the score stands in the order of all scores.
    pub open spec fn order(self) -> int {
        order_of(self.spec_bits())
    }

    /// Half the score.
    pub closed spec fn halved(self) -> Score {
        Score { bits: half_bits(self.bits) as u32 }
    }

    /// The score with the given bits; a NaN is no score.
    pub fn from_bits(bits: u32) -> (r: Option<Score>)
        ensures
            is_number(bits) ==> r is Some && r->0.spec_bits() == bits,
            !is_number(bits) ==> r is None,
    {
        let m: u32 = if bits < SIGN {
            bits
        } else {
            bits - SIGN
        };
        if m <= INFINITY {
            Some(Score { bits })
        } else {
            None
        }
    }

    /// The bits of the score.
    pub fn to_bits(self) -> (r: u32)
        ensures
            r == self.spec_bits(),
            is_number(r),
    {
        proof {
            use_type_invariant(&self);
        }
        self.bits
    }

    /// The score zero.
    pub fn zero() -> (r: Score)
        ensures
            r.spec_bits() == 0,
    {
        Score { bits: 0 }
    }

    /// Whether the score is above `other`.
    pub fn above(self, other: Score) -> (r: bool)
        ensures
            r == (self.order() > other.order()),
    {
        let a = self.bits;
        let b = other.bits;
        if a < SIGN {
            if b < SIGN {
                a > b
            } else {
                a > 0 || b > SIGN
            }
        } else if b < SIGN {
            false
        } else {
            a < b
        }
    }

    /// Half the score.
    pub fn half(self) -> (r: Score)
        ensures
            r == self.halved(),
            r.spec_bits() == half_bits(self.spec_bits()),
    {
        proof {
            use_type_invariant(&self);
        }
        let sign: u32 = if self.bits < SIGN {
            0
        } else {
            SIGN
        };
        let m: u32 = self.bits - sign;
        let h: u32 = if m < 2 * DOUBLED {
            if m % 2 == 1 && (m / 2) % 2 == 1 {
                m / 2 + 1
            } else {
                m / 2
            }
        } else if m < INFINITY {
            m - DOUBLED
        } else {
            m
        };
        Score { bits: sign + h }
    }
}

/// The bits say all of a score.
pub proof fn lemma_bits_decide(a: Score, b: Score)
    requires
        a.spec_bits() == b.spec_bits(),
    ensures
        a == b,
{
}

/// The bits of half a score.
pub proof fn law_half_bits(a: Score)
    ensures
        a.halved().spec_bits() == half_bits(a.spec_bits()),
{
}

/// Halving keeps the order of two scores.
pub proof fn lemma_half_keeps_order(a: Score, b: Score)
    requires
        a.order() <= b.order(),
    ensures
        a.halved().order() <= b.halved().order(),
{
}

/// Halving brings a score no further from zero, and leaves it on its side.
pub proof fn lemma_half_toward_zero(a: Score)
    ensures
        a.order() >= 0 ==> 0 <= a.halved().order() <= a.order(),
        a.order() <= 0 ==> a.order() <= a.halved().order() <= 0,
{
}

// ---------------------------------------------------------------------------
// Laws

/// The value of a magnitude below that of infinity, in units of the smallest positive
/// number: 23 bits of fraction, and an exponent that is the same for the two lowest ones.
pub open spec fn value_of(m: int) -> int {
    let fraction = m % 0x80_0000;
    let exponent = m / 0x80_0000;
    if exponent == 0 {
        fraction
    } else {
        (0x80_0000 + fraction) * pow2((exponent - 1) as nat)
    }
}

/// The value of a finite number with the given bits.
pub open spec fn signed_value(bits: u32) -> int {
    if bits < 0x8000_0000 {
        value_of(bits as int)
    } else {
        -value_of(bits - 0x8000_0000)
    }
}

/// The bits of the numbers lie up to those of the two infinities.
pub proof fn law_numbers(bits: u32)
    ensures
        is_number(bits) <==> bits <= 0x7f80_0000 || (0x8000_0000 <= bits && bits <= 0xff80_0000),
{
}

proof fn lemma_low_value(m: int)
    requires
        0 <= m < 0x100_0000,
    ensures
        value_of(m) == m,
{
    lemma2_to64();
    if m >= 0x80_0000 {
        assert(m / 0x80_0000 == 1);
        assert(m % 0x80_0000 == m - 0x80_0000);
        let p = pow2(0);
        assert(p == 1);
        assert(m * p == m) by (nonlinear_arith)
            requires
                p == 1,
        ;
        assert(value_of(m) == m * p);
    } else {
        assert(m / 0x80_0000 == 0);
        assert(m % 0x80_0000 == m);
    }
}

proof fn lemma_value_step(m: int)
    requires
        0 <= m,
    ensures
        value_of(m) < value_of(m + 1),
{
    let e = m / 0x80_0000;
    let f = m % 0x80_0000;
    if m < 0xff_ffff {
        lemma_low_value(m);
        lemma_low_value(m + 1);
    } else if f < 0x7f_ffff {
        assert((m + 1) / 0x80_0000 == e);
        assert((m + 1) % 0x80_0000 == f + 1);
        let p = pow2((e - 1) as nat);
        lemma_pow2_pos((e - 1) as nat);
        assert((0x80_0000 + f) * p < (0x80_0000 + (f + 1)) * p) by (nonlinear_arith)
            requires
                p > 0,
        ;
    } else {
        assert((m + 1) / 0x80_0000 == e + 1);
        assert((m + 1) % 0x80_0000 == 0);
        let p = pow2((e - 1) as nat);
        lemma_pow2_pos((e - 1) as nat);
        lemma_pow2_unfold(e as nat);
        assert(pow2(e as nat) == 2 * p);
        assert((0x80_0000 + 0x7f_ffff) * p < 0x80_0000 * (2 * p)) by (nonlinear_arith)
            requires
                p > 0,
        ;
    }
}

proof fn lemma_value_grows(a: int, b: int)
    requires
        0 <= a < b,
    ensures
        value_of(a) < value_of(b),
    decreases b - a,
{
    lemma_value_step(b - 1);
    if a < b - 1 {
        lemma_value_grows(a, b - 1);
    }
}

proof fn lemma_value_not_negative(a: int)
    requires
        0 <= a,
    ensures
        value_of(a) >= 0,
        value_of(a) == 0 <==> a == 0,
{
    lemma_low_value(0);
    if a > 0 {
        lemma_value_grows(0, a);
    }
}

/// Scores are ordered as the numbers that they stand for.
pub proof fn law_order_is_that_of_the_numbers(a: Score, b: Score)
    ensures
        a.order() < b.order() <==> signed_value(a.spec_bits()) < signed_value(b.spec_bits()),
        a.order() == b.order() <==> signed_value(a.spec_bits()) == signed_value(b.spec_bits()),
        a.order() > 0 <==> signed_value(a.spec_bits()) > 0,
{
    let m = magnitude(a.spec_bits());
    let n = magnitude(b.spec_bits());
    lemma_value_not_negative(m);
    lemma_value_not_negative(n);
    if m < n {
        lemma_value_grows(m, n);
    } else if n < m {
        lemma_value_grows(n, m);
    }
}

/// Half a finite score has half its value, but where that lies between two numbers: it
/// is then the one of them with an even last bit. Half an infinity is the infinity. The
/// sign stays.
pub proof fn law_half_is_half_the_number(a: Score)
    requires
        is_number(a.spec_bits()),
    ensures
        ({
            let bits = a.spec_bits();
            let half = a.halved().spec_bits();
            let v = signed_value(bits);
            let h = signed_value(half);
            &&& half < 0x8000_0000 <==> bits < 0x8000_0000
            &&& bits == 0x7f80_0000 || bits == 0xff80_0000 ==> half == bits
            &&& bits != 0x7f80_0000 && bits != 0xff80_0000 ==> {
                ||| 2 * h == v
                ||| (2 * h == v + 1 || 2 * h == v - 1) && half % 2 == 0
            }
        }),
{
    let m = magnitude(a.spec_bits());
    let h = half_magnitude(m);
    if m < 0x100_0000 {
        lemma_low_value(m);
        lemma_low_value(h);
    } else if m < 0x7f80_0000 {
        let e = m / 0x80_0000;
        assert(h / 0x80_0000 == e - 1);
        assert(h % 0x80_0000 == m % 0x80_0000);
        let f = m % 0x80_0000;
        let p = pow2((e - 2) as nat);
        lemma_pow2_unfold((e - 1) as nat);
        assert(pow2((e - 1) as nat) == 2 * p);
        assert((0x80_0000 + f) * (2 * p) == 2 * ((0x80_0000 + f) * p)) by (nonlinear_arith);
    }
}

} // verus!
