//! The pricing rules of a pool: how much a deposit takes and mints, what a
//! withdrawal pays out, and what a swap returns on the constant-product curve.
//!
//! Each rule is stated once over natural numbers (`*_outcome`) and computed
//! once over `Uint256` (`plan_*`, `liquidity_amounts`, `swap_output`).
use crate::error::StylusSwapError;
use crate::uint256::{
    checked_add, checked_div, checked_mul, checked_sub, integer_sqrt, is_isqrt,
    lt, min, word_limit, Uint256,
};
use vstd::prelude::*;

verus! {

/// Shares locked for good on a pool's first deposit.
pub const MINIMUM_LIQUIDITY: u64 = 1000;

/// Fees are given in hundredths of a percent.
pub const FEE_DENOMINATOR: u64 = 10_000;

/// The integer square root of `x`.
pub open spec fn isqrt(x: nat) -> nat {
    choose|r: nat| is_isqrt(x, r)
}

pub open spec fn min_nat(a: nat, b: nat) -> nat {
    if a < b {
        a
    } else {
        b
    }
}

proof fn lemma_is_isqrt_unique(x: nat, r1: nat, r2: nat)
    requires
        is_isqrt(x, r1),
        is_isqrt(x, r2),
    ensures
        r1 == r2,
{
    if r1 < r2 {
        assert((r1 + 1) * (r1 + 1) <= r2 * r2) by (nonlinear_arith)
            requires
                r1 + 1 <= r2,
        ;
    } else if r2 < r1 {
        assert((r2 + 1) * (r2 + 1) <= r1 * r1) by (nonlinear_arith)
            requires
                r2 + 1 <= r1,
        ;
    }
}

/// Any integer square root of `x` is `isqrt(x)`.
pub proof fn lemma_isqrt_is(x: nat, r: nat)
    requires
        is_isqrt(x, r),
    ensures
        isqrt(x) == r,
{
    let s = isqrt(x);
    assert(is_isqrt(x, s));
    lemma_is_isqrt_unique(x, r, s);
}

/// The amounts that a deposit into a pool with reserves `b0`, `b1` takes, from
/// the desired amounts `d0`, `d1` and the minimums `m0`, `m1`: the largest pair
/// at the pool's ratio that takes no more than desired of either asset.
/// A pool holding only the second asset has no ratio to price a deposit by.
pub open spec fn liquidity_amounts_outcome(d0: nat, d1: nat, m0: nat, m1: nat, b0: nat, b1: nat) -> Result<
    (nat, nat),
    StylusSwapError,
> {
    if b0 == 0 && b1 == 0 {
        Ok((d0, d1))
    } else if b0 == 0 {
        Err(StylusSwapError::InsufficientAmount)
    } else if d0 * b1 >= word_limit() {
        Err(StylusSwapError::ArithmeticOverflow)
    } else if d0 * b1 / b0 <= d1 {
        if d0 * b1 / b0 < m1 {
            Err(StylusSwapError::InsufficientAmount)
        } else {
            Ok((d0, d0 * b1 / b0))
        }
    } else if d1 * b0 >= word_limit() {
        Err(StylusSwapError::ArithmeticOverflow)
    } else if d1 * b0 / b1 < m0 {
        Err(StylusSwapError::InsufficientAmount)
    } else {
        Ok((d1 * b0 / b1, d1))
    }
}

/// The shares that depositing `a0`, `a1` mints into a pool with `total` shares
/// and reserves `b0`, `b1`: the depositor's shares, and the increase of the
/// pool's total (which on the first deposit includes the locked minimum).
pub open spec fn mint_outcome(total: nat, a0: nat, a1: nat, b0: nat, b1: nat) -> Result<
    (nat, nat),
    StylusSwapError,
> {
    if total == 0 {
        if a0 * a1 >= word_limit() {
            Err(StylusSwapError::ArithmeticOverflow)
        } else if isqrt(a0 * a1) < MINIMUM_LIQUIDITY {
            Err(StylusSwapError::InsufficientLiquidityMinted)
        } else {
            Ok(((isqrt(a0 * a1) - MINIMUM_LIQUIDITY) as nat, isqrt(a0 * a1)))
        }
    } else if a0 * total >= word_limit() || a1 * total >= word_limit() {
        Err(StylusSwapError::ArithmeticOverflow)
    } else if b0 == 0 || b1 == 0 {
        Err(StylusSwapError::InsufficientLiquidityMinted)
    } else if min_nat(a0 * total / b0, a1 * total / b1) == 0 {
        Err(StylusSwapError::InsufficientLiquidityMinted)
    } else {
        Ok((min_nat(a0 * total / b0, a1 * total / b1), min_nat(a0 * total / b0, a1 * total / b1)))
    }
}

/// A whole deposit: the amounts taken, the shares minted to the depositor, and
/// the increase of the pool's total shares.
pub open spec fn deposit_outcome(total: nat, b0: nat, b1: nat, d0: nat, d1: nat, m0: nat, m1: nat) -> Result<
    (nat, nat, nat, nat),
    StylusSwapError,
> {
    let amounts = if total == 0 {
        Ok((d0, d1))
    } else {
        liquidity_amounts_outcome(d0, d1, m0, m1, b0, b1)
    };
    match amounts {
        Err(e) => Err(e),
        Ok((a0, a1)) => match mint_outcome(total, a0, a1, b0, b1) {
            Err(e) => Err(e),
            Ok((minted, increase)) => if total + increase >= word_limit() || b0 + a0
                >= word_limit() || b1 + a1 >= word_limit() {
                Err(StylusSwapError::ArithmeticOverflow)
            } else {
                Ok((a0, a1, minted, increase))
            },
        },
    }
}

/// A successful deposit mints to the depositor all of the increase of the
/// pool's shares, except the locked minimum on the first deposit; and the
/// new totals fit in 256 bits.
pub proof fn lemma_deposit_shares(total: nat, b0: nat, b1: nat, d0: nat, d1: nat, m0: nat, m1: nat)
    requires
        deposit_outcome(total, b0, b1, d0, d1, m0, m1) is Ok,
    ensures
        ({
            let (a0, a1, minted, increase) = deposit_outcome(total, b0, b1, d0, d1, m0, m1)->Ok_0;
            &&& total == 0 ==> increase == minted + MINIMUM_LIQUIDITY && a0 > 0 && a1 > 0
            &&& total > 0 ==> increase == minted
            &&& total + increase < word_limit()
            &&& b0 + a0 < word_limit()
            &&& b1 + a1 < word_limit()
        }),
{
    if total == 0 {
        assert(is_isqrt(0, 0)) by (nonlinear_arith);
        lemma_isqrt_is(0, 0);
        if d0 == 0 || d1 == 0 {
            assert(d0 * d1 == 0) by (nonlinear_arith)
                requires
                    d0 == 0 || d1 == 0,
            ;
        }
    }
}

/// Less than all the shares takes less than all of a nonempty reserve.
proof fn lemma_share_of_reserve_below(b: nat, shares: nat, total: nat)
    requires
        shares < total,
    ensures
        b > 0 ==> b * shares / total < b,
{
    if b > 0 {
        let q = b * shares / total;
        vstd::arithmetic::div_mod::lemma_fundamental_div_mod((b * shares) as int, total as int);
        vstd::arithmetic::div_mod::lemma_mod_pos_bound((b * shares) as int, total as int);
        assert(b * shares < b * total) by (nonlinear_arith)
            requires
                b > 0,
                shares < total,
        ;
        assert(q < b) by (nonlinear_arith)
            requires
                b * shares == total * q + (b * shares) % total,
                (b * shares) % total >= 0,
                b * shares < b * total,
                total > 0,
        ;
    }
}

/// A successful withdrawal pays out no more than either reserve holds.
pub proof fn lemma_withdrawal_bounded(total: nat, b0: nat, b1: nat, owned: nat, shares: nat)
    requires
        withdrawal_outcome(total, b0, b1, owned, shares) is Ok,
        shares <= total,
    ensures
        withdrawal_outcome(total, b0, b1, owned, shares)->Ok_0.0 <= b0,
        withdrawal_outcome(total, b0, b1, owned, shares)->Ok_0.1 <= b1,
        shares < total && b0 > 0 ==> withdrawal_outcome(total, b0, b1, owned, shares)->Ok_0.0 < b0,
        shares < total && b1 > 0 ==> withdrawal_outcome(total, b0, b1, owned, shares)->Ok_0.1 < b1,
        shares > 0,
{
    if shares < total {
        lemma_share_of_reserve_below(b0, shares, total);
        lemma_share_of_reserve_below(b1, shares, total);
    }
    assert(b0 * shares <= b0 * total) by (nonlinear_arith)
        requires
            shares <= total,
    ;
    assert(b1 * shares <= b1 * total) by (nonlinear_arith)
        requires
            shares <= total,
    ;
    vstd::arithmetic::div_mod::lemma_div_is_ordered((b0 * shares) as int, (b0 * total) as int, total as int);
    vstd::arithmetic::div_mod::lemma_div_is_ordered((b1 * shares) as int, (b1 * total) as int, total as int);
    assert(b0 * total / total == b0) by {
        vstd::arithmetic::div_mod::lemma_div_multiples_vanish(b0 as int, total as int);
        assert(total * b0 == b0 * total) by (nonlinear_arith);
    }
    assert(b1 * total / total == b1) by {
        vstd::arithmetic::div_mod::lemma_div_multiples_vanish(b1 as int, total as int);
        assert(total * b1 == b1 * total) by (nonlinear_arith);
    }
    if shares == 0 {
        assert(b0 * shares == 0) by (nonlinear_arith)
            requires
                shares == 0,
        ;
    }
}

/// A successful swap pays out no more than the output reserve holds, and the
/// input reserve can take the amount sold.
pub proof fn lemma_swap_bounded(rin: nat, rout: nat, amount: nat, fee: nat, min_output: nat)
    requires
        swap_outcome(rin, rout, amount, fee, min_output) is Ok,
    ensures
        swap_outcome(rin, rout, amount, fee, min_output)->Ok_0.2 <= rout,
        rin + amount < word_limit(),
{
    lemma_curve_quotient_bounded(rin, rout, amount);
}

/// What redeeming `shares` of `owned` pays out of a pool with `total` shares and
/// reserves `b0`, `b1`: each reserve's proportional part, rounded down.
pub open spec fn withdrawal_outcome(total: nat, b0: nat, b1: nat, owned: nat, shares: nat) -> Result<
    (nat, nat),
    StylusSwapError,
> {
    if shares > owned {
        Err(StylusSwapError::InsufficientLiquidityOwned)
    } else if b0 * shares >= word_limit() || b1 * shares >= word_limit() {
        Err(StylusSwapError::ArithmeticOverflow)
    } else if total == 0 || b0 * shares / total == 0 || b1 * shares / total == 0 {
        Err(StylusSwapError::InsufficientLiquidityOwned)
    } else {
        Ok((b0 * shares / total, b1 * shares / total))
    }
}

/// What selling `amount` into a pool with reserves `rin` (of the asset sold) and
/// `rout` (of the asset bought) returns, at `fee` hundredths of a percent:
/// the output on the curve, the fee kept by the pool, and the output paid.
pub open spec fn swap_outcome(rin: nat, rout: nat, amount: nat, fee: nat, min_output: nat) -> Result<
    (nat, nat, nat),
    StylusSwapError,
> {
    if amount == 0 {
        Err(StylusSwapError::InsufficientAmount)
    } else if rin * rout >= word_limit() || rin + amount >= word_limit() {
        Err(StylusSwapError::ArithmeticOverflow)
    } else {
        let gross = (rout - rin * rout / (rin + amount)) as nat;
        if gross * fee >= word_limit() || gross * fee / FEE_DENOMINATOR as nat > gross {
            Err(StylusSwapError::ArithmeticOverflow)
        } else if ((gross - gross * fee / FEE_DENOMINATOR as nat) as nat) < min_output {
            Err(StylusSwapError::TooMuchSlippage)
        } else {
            Ok((gross, gross * fee / FEE_DENOMINATOR as nat, (gross - gross * fee / FEE_DENOMINATOR as nat) as nat))
        }
    }
}

/// Multiplies, or fails with `ArithmeticOverflow`.
fn mul_or_overflow(a: Uint256, b: Uint256) -> (r: Result<Uint256, StylusSwapError>)
    ensures
        a.value() * b.value() < word_limit() ==> r.is_ok() && r.unwrap().value() == a.value()
            * b.value(),
        a.value() * b.value() >= word_limit() ==> r == Err::<Uint256, StylusSwapError>(
            StylusSwapError::ArithmeticOverflow,
        ),
{
    match checked_mul(a, b) {
        Some(p) => Ok(p),
        None => Err(StylusSwapError::ArithmeticOverflow),
    }
}

/// Adds, or fails with `ArithmeticOverflow`.
fn add_or_overflow(a: Uint256, b: Uint256) -> (r: Result<Uint256, StylusSwapError>)
    ensures
        a.value() + b.value() < word_limit() ==> r.is_ok() && r.unwrap().value() == a.value()
            + b.value(),
        a.value() + b.value() >= word_limit() ==> r == Err::<Uint256, StylusSwapError>(
            StylusSwapError::ArithmeticOverflow,
        ),
{
    match checked_add(a, b) {
        Some(p) => Ok(p),
        None => Err(StylusSwapError::ArithmeticOverflow),
    }
}

/// The amounts a deposit takes; see `liquidity_amounts_outcome`.
pub fn liquidity_amounts(
    d0: Uint256,
    d1: Uint256,
    m0: Uint256,
    m1: Uint256,
    b0: Uint256,
    b1: Uint256,
) -> (r: Result<(Uint256, Uint256), StylusSwapError>)
    ensures
        match liquidity_amounts_outcome(
            d0.value(),
            d1.value(),
            m0.value(),
            m1.value(),
            b0.value(),
            b1.value(),
        ) {
            Ok((a0, a1)) => r.is_ok() && r.unwrap().0.value() == a0 && r.unwrap().1.value() == a1,
            Err(e) => r == Err::<(Uint256, Uint256), StylusSwapError>(e),
        },
{
    if b0.is_zero() && b1.is_zero() {
        return Ok((d0, d1));
    }
    if b0.is_zero() {
        return Err(StylusSwapError::InsufficientAmount);
    }
    let p1 = match mul_or_overflow(d0, b1) {
        Ok(p) => p,
        Err(e) => return Err(e),
    };
    let optimal1 = checked_div(p1, b0).unwrap();
    if !lt(d1, optimal1) {
        if lt(optimal1, m1) {
            return Err(StylusSwapError::InsufficientAmount);
        }
        return Ok((d0, optimal1));
    }
    proof {
        if b1.value() == 0 {
            assert(d0.value() * b1.value() == 0);
        }
    }
    let p0 = match mul_or_overflow(d1, b0) {
        Ok(p) => p,
        Err(e) => return Err(e),
    };
    let optimal0 = checked_div(p0, b1).unwrap();
    if lt(optimal0, m0) {
        return Err(StylusSwapError::InsufficientAmount);
    }
    Ok((optimal0, d1))
}

/// The shares a deposit mints; see `mint_outcome`.
pub fn mint_amount(total: Uint256, a0: Uint256, a1: Uint256, b0: Uint256, b1: Uint256) -> (r: Result<
    (Uint256, Uint256),
    StylusSwapError,
>)
    ensures
        match mint_outcome(total.value(), a0.value(), a1.value(), b0.value(), b1.value()) {
            Ok((minted, increase)) => r.is_ok() && r.unwrap().0.value() == minted
                && r.unwrap().1.value() == increase,
            Err(e) => r == Err::<(Uint256, Uint256), StylusSwapError>(e),
        },
{
    if total.is_zero() {
        let product = match mul_or_overflow(a0, a1) {
            Ok(p) => p,
            Err(e) => return Err(e),
        };
        let root = integer_sqrt(product);
        proof {
            lemma_isqrt_is(product.value(), root.value());
        }
        let minted = match checked_sub(root, Uint256::from_u64(MINIMUM_LIQUIDITY)) {
            Some(m) => m,
            None => return Err(StylusSwapError::InsufficientLiquidityMinted),
        };
        return Ok((minted, root));
    }
    let p0 = match mul_or_overflow(a0, total) {
        Ok(p) => p,
        Err(e) => return Err(e),
    };
    let p1 = match mul_or_overflow(a1, total) {
        Ok(p) => p,
        Err(e) => return Err(e),
    };
    let l0 = match checked_div(p0, b0) {
        Some(l) => l,
        None => return Err(StylusSwapError::InsufficientLiquidityMinted),
    };
    let l1 = match checked_div(p1, b1) {
        Some(l) => l,
        None => return Err(StylusSwapError::InsufficientLiquidityMinted),
    };
    let minted = min(l0, l1);
    if minted.is_zero() {
        return Err(StylusSwapError::InsufficientLiquidityMinted);
    }
    Ok((minted, minted))
}

/// A whole deposit; see `deposit_outcome`. Returns the amounts taken, the
/// shares minted to the depositor and the increase of the pool's total.
pub fn plan_deposit(
    total: Uint256,
    b0: Uint256,
    b1: Uint256,
    d0: Uint256,
    d1: Uint256,
    m0: Uint256,
    m1: Uint256,
) -> (r: Result<(Uint256, Uint256, Uint256, Uint256), StylusSwapError>)
    ensures
        match deposit_outcome(
            total.value(),
            b0.value(),
            b1.value(),
            d0.value(),
            d1.value(),
            m0.value(),
            m1.value(),
        ) {
            Ok((a0, a1, minted, increase)) => r.is_ok() && r.unwrap().0.value() == a0
                && r.unwrap().1.value() == a1 && r.unwrap().2.value() == minted
                && r.unwrap().3.value() == increase,
            Err(e) => r == Err::<(Uint256, Uint256, Uint256, Uint256), StylusSwapError>(e),
        },
{
    let (a0, a1) = if total.is_zero() {
        (d0, d1)
    } else {
        match liquidity_amounts(d0, d1, m0, m1, b0, b1) {
            Ok(amounts) => amounts,
            Err(e) => return Err(e),
        }
    };
    let (minted, increase) = match mint_amount(total, a0, a1, b0, b1) {
        Ok(m) => m,
        Err(e) => return Err(e),
    };
    let t = add_or_overflow(total, increase);
    let n0 = add_or_overflow(b0, a0);
    let n1 = add_or_overflow(b1, a1);
    if t.is_err() || n0.is_err() || n1.is_err() {
        return Err(StylusSwapError::ArithmeticOverflow);
    }
    Ok((a0, a1, minted, increase))
}

/// What a withdrawal pays out; see `withdrawal_outcome`.
pub fn plan_withdrawal(total: Uint256, b0: Uint256, b1: Uint256, owned: Uint256, shares: Uint256) -> (r:
    Result<(Uint256, Uint256), StylusSwapError>)
    ensures
        match withdrawal_outcome(total.value(), b0.value(), b1.value(), owned.value(), shares.value()) {
            Ok((a0, a1)) => r.is_ok() && r.unwrap().0.value() == a0 && r.unwrap().1.value() == a1,
            Err(e) => r == Err::<(Uint256, Uint256), StylusSwapError>(e),
        },
{
    if lt(owned, shares) {
        return Err(StylusSwapError::InsufficientLiquidityOwned);
    }
    let p0 = match mul_or_overflow(b0, shares) {
        Ok(p) => p,
        Err(e) => return Err(e),
    };
    let p1 = match mul_or_overflow(b1, shares) {
        Ok(p) => p,
        Err(e) => return Err(e),
    };
    if total.is_zero() {
        return Err(StylusSwapError::InsufficientLiquidityOwned);
    }
    let a0 = checked_div(p0, total).unwrap();
    let a1 = checked_div(p1, total).unwrap();
    if a0.is_zero() || a1.is_zero() {
        return Err(StylusSwapError::InsufficientLiquidityOwned);
    }
    Ok((a0, a1))
}

/// What remains of `rout` after the curve's output: at most `rout`.
proof fn lemma_curve_quotient_bounded(rin: nat, rout: nat, amount: nat)
    requires
        amount > 0,
    ensures
        rin * rout / (rin + amount) <= rout,
{
    let d = rin + amount;
    let k = rin * rout;
    let q = k / d;
    vstd::arithmetic::div_mod::lemma_fundamental_div_mod(k as int, d as int);
    vstd::arithmetic::div_mod::lemma_mod_pos_bound(k as int, d as int);
    assert(q <= rout) by (nonlinear_arith)
        requires
            k == d * q + k % d,
            k % d >= 0,
            k == rin * rout,
            d == rin + amount,
            amount > 0,
    ;
}

/// What a swap returns; see `swap_outcome`. `fee` is in hundredths of a percent.
pub fn swap_output(rin: Uint256, rout: Uint256, amount: Uint256, fee: u32, min_output: Uint256) -> (r:
    Result<(Uint256, Uint256, Uint256), StylusSwapError>)
    ensures
        match swap_outcome(rin.value(), rout.value(), amount.value(), fee as nat, min_output.value()) {
            Ok((gross, fee_amount, net)) => r.is_ok() && r.unwrap().0.value() == gross
                && r.unwrap().1.value() == fee_amount && r.unwrap().2.value() == net,
            Err(e) => r == Err::<(Uint256, Uint256, Uint256), StylusSwapError>(e),
        },
{
    if amount.is_zero() {
        return Err(StylusSwapError::InsufficientAmount);
    }
    let k = match mul_or_overflow(rin, rout) {
        Ok(k) => k,
        Err(e) => return Err(e),
    };
    let new_in = match add_or_overflow(rin, amount) {
        Ok(n) => n,
        Err(e) => return Err(e),
    };
    let remaining = checked_div(k, new_in).unwrap();
    proof {
        lemma_curve_quotient_bounded(rin.value(), rout.value(), amount.value());
    }
    let gross = checked_sub(rout, remaining).unwrap();
    let scaled = match mul_or_overflow(gross, Uint256::from_u64(fee as u64)) {
        Ok(s) => s,
        Err(e) => return Err(e),
    };
    let fee_amount = checked_div(scaled, Uint256::from_u64(FEE_DENOMINATOR)).unwrap();
    let net = match checked_sub(gross, fee_amount) {
        Some(n) => n,
        None => return Err(StylusSwapError::ArithmeticOverflow),
    };
    if lt(net, min_output) {
        return Err(StylusSwapError::TooMuchSlippage);
    }
    Ok((gross, fee_amount, net))
}

/// A swap whose output after the fee falls below the caller's minimum fails
/// with `TooMuchSlippage` (and so changes no reserve).
pub proof fn lemma_swap_below_minimum_fails(rin: nat, rout: nat, amount: nat, fee: nat, min_output: nat)
    requires
        amount > 0,
        rin * rout < word_limit(),
        rin + amount < word_limit(),
        ({
            let gross = (rout - rin * rout / (rin + amount)) as nat;
            &&& gross * fee < word_limit()
            &&& gross * fee / (FEE_DENOMINATOR as nat) <= gross
            &&& gross - gross * fee / (FEE_DENOMINATOR as nat) < min_output
        }),
    ensures
        swap_outcome(rin, rout, amount, fee, min_output) == Err::<(nat, nat, nat), StylusSwapError>(
            StylusSwapError::TooMuchSlippage,
        ),
{
}

/// Without a fee, a swap whose new input reserve divides the old reserve
/// product leaves the product of the reserves at least where it was.
pub proof fn lemma_swap_keeps_product(rin: nat, rout: nat, amount: nat, min_output: nat)
    requires
        swap_outcome(rin, rout, amount, 0, min_output) is Ok,
        (rin * rout) % (rin + amount) == 0,
    ensures
        (rin + amount) * (rout - swap_outcome(rin, rout, amount, 0, min_output)->Ok_0.2)
            >= rin * rout,
{
    let d = rin + amount;
    let k = rin * rout;
    lemma_curve_quotient_bounded(rin, rout, amount);
    assert(swap_outcome(rin, rout, amount, 0, min_output)->Ok_0.2 == rout - k / d);
    vstd::arithmetic::div_mod::lemma_fundamental_div_mod(k as int, d as int);
    assert(d * (k / d) == k);
}

/// Without a fee, a swap lowers the product of the reserves by less than the
/// new input reserve: rounding never costs the pool a whole unit of output.
pub proof fn lemma_swap_product_loss_bounded(rin: nat, rout: nat, amount: nat, min_output: nat)
    requires
        swap_outcome(rin, rout, amount, 0, min_output) is Ok,
    ensures
        (rin + amount) * (rout - swap_outcome(rin, rout, amount, 0, min_output)->Ok_0.2) + (rin
            + amount) > rin * rout,
{
    let d = rin + amount;
    let k = rin * rout;
    lemma_curve_quotient_bounded(rin, rout, amount);
    assert(swap_outcome(rin, rout, amount, 0, min_output)->Ok_0.2 == rout - k / d);
    vstd::arithmetic::div_mod::lemma_fundamental_div_mod(k as int, d as int);
    vstd::arithmetic::div_mod::lemma_mod_pos_bound(k as int, d as int);
    assert(d * (k / d) + d > k);
}

} // verus!
