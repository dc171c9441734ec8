//! Unsigned 256-bit integers held as four little-endian 64-bit limbs.
//!
//! The arithmetic itself is done by `alloy_primitives::U256` (ruint); the
//! library only converts to and from limbs and states each operation over
//! the mathematical value of the limbs.
use vstd::prelude::*;

verus! {

/// 2^64, the weight of one limb.
pub open spec fn limb_base() -> nat {
    0x1_0000_0000_0000_0000
}

/// 2^256, one past the largest value a `Uint256` can hold.
pub open spec fn word_limit() -> nat {
    limb_base() * limb_base() * limb_base() * limb_base()
}

/// An unsigned 256-bit integer; `limbs[0]` is the least significant limb.
#[derive(Clone, Copy, Debug, PartialEq, Eq)]
pub struct Uint256 {
    pub limbs: [u64; 4],
}

impl Uint256 {
    /// The number that the limbs denote.
    pub open spec fn value(self) -> nat {
        self.limbs@[0] as nat + limb_base() * (self.limbs@[1] as nat + limb_base() * (
        self.limbs@[2] as nat + limb_base() * (self.limbs@[3] as nat)))
    }

    pub fn zero() -> (r: Uint256)
        ensures
            r.value() == 0,
    {
        Uint256 { limbs: [0, 0, 0, 0] }
    }

    pub fn from_u64(x: u64) -> (r: Uint256)
        ensures
            r.value() == x as nat,
    {
        Uint256 { limbs: [x, 0, 0, 0] }
    }

    pub fn from_u128(x: u128) -> (r: Uint256)
        ensures
            r.value() == x as nat,
    {
        let lo = x as u64;
        let hi = (x >> 64u32) as u64;
        assert(x as nat == lo as nat + limb_base() * (hi as nat)) by (bit_vector)
            requires
                lo == x as u64,
                hi == (x >> 64u32) as u64,
        ;
        Uint256 { limbs: [lo, hi, 0, 0] }
    }

    pub fn is_zero(&self) -> (r: bool)
        ensures
            r == (self.value() == 0),
    {
        self.limbs[0] == 0 && self.limbs[1] == 0 && self.limbs[2] == 0 && self.limbs[3] == 0
    }
}

/// Every `Uint256` lies below 2^256.
pub proof fn lemma_value_bound(x: Uint256)
    ensures
        x.value() < word_limit(),
{
    let a = x.limbs@[0] as nat;
    let b = x.limbs@[1] as nat;
    let c = x.limbs@[2] as nat;
    let d = x.limbs@[3] as nat;
    let base = limb_base();
    lemma_digit_step(c, d, base, base);
    lemma_digit_step(b, c + base * d, base, base * base);
    lemma_digit_step(a, b + base * (c + base * d), base, base * base * base);
}

/// Appending one more digit below a number under `m` gives a number under `base * m`.
proof fn lemma_digit_step(lo: nat, hi: nat, base: nat, m: nat)
    requires
        lo < base,
        hi < m,
    ensures
        lo + base * hi < base * m,
{
    assert(base * hi <= base * (m - 1)) by (nonlinear_arith)
        requires
            hi <= m - 1,
    ;
    assert(base * (m - 1) == base * m - base) by (nonlinear_arith)
        requires
            m >= 1,
    ;
}

/// Relies on ruint's `Uint::checked_add`: the sum, or `None` when it does not fit in 256 bits.
#[verifier::external_body]
pub(crate) fn checked_add(a: Uint256, b: Uint256) -> (r: Option<Uint256>)
    ensures
        a.value() + b.value() < word_limit() ==> r.is_some() && r.unwrap().value() == a.value()
            + b.value(),
        a.value() + b.value() >= word_limit() ==> r.is_none(),
{
    let x = alloy_primitives::U256::from_limbs(a.limbs);
    let y = alloy_primitives::U256::from_limbs(b.limbs);
    Some(Uint256 { limbs: x.checked_add(y)?.into_limbs() })
}

/// Relies on ruint's `Uint::checked_sub`: the difference, or `None` when `b > a`.
#[verifier::external_body]
pub(crate) fn checked_sub(a: Uint256, b: Uint256) -> (r: Option<Uint256>)
    ensures
        b.value() <= a.value() ==> r.is_some() && r.unwrap().value() == a.value() - b.value(),
        b.value() > a.value() ==> r.is_none(),
{
    let x = alloy_primitives::U256::from_limbs(a.limbs);
    let y = alloy_primitives::U256::from_limbs(b.limbs);
    Some(Uint256 { limbs: x.checked_sub(y)?.into_limbs() })
}

/// Relies on ruint's `Uint::checked_mul`: the product, or `None` when it does not fit in 256 bits.
#[verifier::external_body]
pub(crate) fn checked_mul(a: Uint256, b: Uint256) -> (r: Option<Uint256>)
    ensures
        a.value() * b.value() < word_limit() ==> r.is_some() && r.unwrap().value() == a.value()
            * b.value(),
        a.value() * b.value() >= word_limit() ==> r.is_none(),
{
    let x = alloy_primitives::U256::from_limbs(a.limbs);
    let y = alloy_primitives::U256::from_limbs(b.limbs);
    Some(Uint256 { limbs: x.checked_mul(y)?.into_limbs() })
}

/// Relies on ruint's `Uint::checked_div`: the quotient rounded down, or `None` when `b` is zero.
#[verifier::external_body]
pub(crate) fn checked_div(a: Uint256, b: Uint256) -> (r: Option<Uint256>)
    ensures
        b.value() != 0 ==> r.is_some() && r.unwrap().value() == a.value() / b.value(),
        b.value() == 0 ==> r.is_none(),
{
    let x = alloy_primitives::U256::from_limbs(a.limbs);
    let y = alloy_primitives::U256::from_limbs(b.limbs);
    Some(Uint256 { limbs: x.checked_div(y)?.into_limbs() })
}

/// Relies on ruint's `PartialOrd for Uint`: numeric comparison.
#[verifier::external_body]
pub(crate) fn lt(a: Uint256, b: Uint256) -> (r: bool)
    ensures
        r == (a.value() < b.value()),
{
    alloy_primitives::U256::from_limbs(a.limbs) < alloy_primitives::U256::from_limbs(b.limbs)
}

/// The smaller of two values.
pub fn min(x: Uint256, y: Uint256) -> (r: Uint256)
    ensures
        r.value() == if x.value() < y.value() {
            x.value()
        } else {
            y.value()
        },
{
    if lt(x, y) {
        x
    } else {
        y
    }
}

/// `r` is the integer square root of `x`: the largest number whose square is at most `x`.
pub open spec fn is_isqrt(x: nat, r: nat) -> bool {
    r * r <= x && x < (r + 1) * (r + 1)
}

/// One Newton step never falls below the integer square root.
proof fn lemma_newton_step_stays_above(x: nat, z: nat)
    requires
        z > 0,
    ensures
        x < ((x / z + z) / 2 + 1) * ((x / z + z) / 2 + 1),
{
    let q = x / z;
    let w = (q + z) / 2;
    vstd::arithmetic::div_mod::lemma_fundamental_div_mod(x as int, z as int);
    vstd::arithmetic::div_mod::lemma_mod_pos_bound(x as int, z as int);
    let m = x % z;
    assert((q + 1) * z == z * q + z) by (nonlinear_arith);
    assert(x < (q + 1) * z);
    assert(4 * ((q + 1) * z) <= (q + 1 + z) * (q + 1 + z)) by (nonlinear_arith);
    assert(q + 1 + z <= 2 * (w + 1));
    assert((q + 1 + z) * (q + 1 + z) <= (2 * (w + 1)) * (2 * (w + 1))) by (nonlinear_arith)
        requires
            q + 1 + z <= 2 * (w + 1),
    ;
    assert((2 * (w + 1)) * (2 * (w + 1)) == 4 * ((w + 1) * (w + 1))) by (nonlinear_arith);
}

/// A positive `y` whose Newton step does not decrease has `y * y <= x`.
proof fn lemma_newton_fixpoint(x: nat, y: nat)
    requires
        y > 0,
        (x / y + y) / 2 >= y,
    ensures
        y * y <= x,
{
    assert(x / y >= y);
    assert(y * y <= x) by (nonlinear_arith)
        requires
            x / y >= y,
            y > 0,
    {
        assert((x / y) * y <= x);
        assert(y * y <= (x / y) * y);
    }
}

/// Integer square root by Newton's iteration, started from `x` and `ceil(x / 2)`.
pub fn integer_sqrt(x: Uint256) -> (r: Uint256)
    ensures
        is_isqrt(x.value(), r.value()),
{
    let xv = Ghost(x.value());
    proof {
        lemma_value_bound(x);
    }
    let two = Uint256::from_u64(2);
    let half = checked_div(x, two).unwrap();
    // ceil(x / 2), which is (x + 1) >> 1 without the risk of x + 1 overflowing
    let mut z = checked_sub(x, half).unwrap();
    let mut y = x;
    if x.is_zero() {
        assert(is_isqrt(0, 0)) by (nonlinear_arith);
        return y;
    }
    proof {
        assert(xv@ / xv@ == 1) by (nonlinear_arith)
            requires
                xv@ > 0,
        ;
        assert(xv@ < (xv@ + 1) * (xv@ + 1)) by (nonlinear_arith);
        lemma_newton_step_stays_above(xv@, xv@);
    }
    while lt(z, y)
        invariant
            xv@ == x.value(),
            two.value() == 2,
            xv@ > 0,
            xv@ < word_limit(),
            y.value() > 0,
            z.value() <= xv@ - xv@ / 2,
            z.value() == (xv@ / y.value() + y.value()) / 2,
            xv@ < (y.value() + 1) * (y.value() + 1),
            xv@ < (z.value() + 1) * (z.value() + 1),
        decreases y.value(),
    {
        y = z;
        let yv = Ghost(y.value());
        proof {
            // y is positive: (y + 1)^2 > x >= 1
            if yv@ == 0 {
                assert((yv@ + 1) * (yv@ + 1) == 1) by (nonlinear_arith)
                    requires
                        yv@ == 0,
                ;
            }
            // the sum x / y + y fits in 256 bits
            if yv@ >= 2 {
                assert(xv@ / yv@ <= xv@ / 2) by (nonlinear_arith)
                    requires
                        yv@ >= 2,
                {
                    vstd::arithmetic::div_mod::lemma_div_is_ordered_by_denominator(
                        xv@ as int,
                        2,
                        yv@ as int,
                    );
                }
            } else {
                assert((yv@ + 1) * (yv@ + 1) == 4) by (nonlinear_arith)
                    requires
                        yv@ == 1,
                ;
                vstd::arithmetic::div_mod::lemma_div_basics(xv@ as int);
            }
        }
        let q = checked_div(x, y).unwrap();
        let s = checked_add(q, y).unwrap();
        z = checked_div(s, two).unwrap();
        proof {
            lemma_newton_step_stays_above(xv@, yv@);
            assert(z.value() <= xv@ - xv@ / 2) by {
                if yv@ >= 2 {
                    assert(z.value() <= (xv@ / 2 + (xv@ - xv@ / 2)) / 2);
                } else {
                    assert(z.value() <= (xv@ + 1) / 2);
                }
            }
        }
    }
    proof {
        lemma_newton_fixpoint(xv@, y.value());
    }
    y
}

} // verus!
