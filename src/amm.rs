//! The exchange's state: its pools, each with reserves, total shares and the
//! positions of its liquidity providers; and the operations on it.
//!
//! Every operation validates and computes first and changes the state only
//! when it succeeds. It then hands back the asset movements that the caller
//! must carry out through the ledger, in order; should one of them fail, the
//! caller discards the whole call (the host reverts it).
use crate::curve::{
    deposit_outcome, lemma_deposit_shares, lemma_swap_bounded, lemma_withdrawal_bounded, liquidity_amounts, liquidity_amounts_outcome, plan_deposit, plan_withdrawal,
    swap_outcome, swap_output, withdrawal_outcome, MINIMUM_LIQUIDITY,
};
use crate::error::StylusSwapError;
use crate::ids::{
    address_eq, bytes32_eq, lex_le, pool_id, pool_id_of, position_id, position_id_of, sorted_pair, Address,
    Bytes32,
};
use crate::lookup::{last_index_of, lemma_last_index_of_bounds, lemma_last_index_of_push};
use crate::transfer::{transfer_is, Transfer};
use crate::uint256::{checked_add, checked_sub, word_limit, Uint256};
use vstd::prelude::*;

verus! {

/// One account's shares in one pool.
#[derive(Clone, Copy, Debug, PartialEq, Eq)]
pub struct Position {
    pub id: Bytes32,
    pub owner: Address,
    pub liquidity: Uint256,
}

/// A pool of two assets: its reserves, its total shares and its positions.
#[derive(Clone, Debug)]
pub struct Pool {
    pub id: Bytes32,
    pub token0: Address,
    pub token1: Address,
    pub fee: u32,
    pub liquidity: Uint256,
    pub balance0: Uint256,
    pub balance1: Uint256,
    pub positions: Vec<Position>,
}

/// The shares held by all positions together.
pub open spec fn sum_shares(s: Seq<Position>) -> nat
    decreases s.len(),
{
    if s.len() == 0 {
        0
    } else {
        sum_shares(s.drop_last()) + s.last().liquidity.value()
    }
}

/// The shares of the pool held by no position: the minimum locked on the
/// first deposit.
pub open spec fn locked_shares(total: nat) -> nat {
    if total == 0 {
        0
    } else {
        MINIMUM_LIQUIDITY as nat
    }
}

pub open spec fn position_keys(s: Seq<Position>) -> Seq<Seq<u8>> {
    s.map_values(|p: Position| p.id.bytes@)
}

pub open spec fn pool_keys(s: Seq<Pool>) -> Seq<Seq<u8>> {
    s.map_values(|p: Pool| p.id.bytes@)
}

/// The shares of the position `pos` among `s` (zero for one never opened).
pub open spec fn position_shares(s: Seq<Position>, pos: Seq<u8>) -> nat {
    if last_index_of(position_keys(s), pos) >= 0 {
        s[last_index_of(position_keys(s), pos)].liquidity.value()
    } else {
        0
    }
}

/// The owner recorded for the position `pos` among `s`.
pub open spec fn position_owner(s: Seq<Position>, pos: Seq<u8>) -> Address {
    s[last_index_of(position_keys(s), pos)].owner
}

impl Pool {
    pub open spec fn position_index(self, pos: Seq<u8>) -> int {
        last_index_of(position_keys(self.positions@), pos)
    }

    /// The shares of the position `pos` (zero for one never opened).
    pub open spec fn shares_of(self, pos: Seq<u8>) -> nat {
        position_shares(self.positions@, pos)
    }

    /// The two assets differ and are in canonical order, the id is the one
    /// derived from them and the fee, the total
    /// shares are those of the positions plus the locked minimum, and a pool
    /// has no shares exactly when it has no reserves.
    pub open spec fn wf(self) -> bool {
        &&& lex_le(self.token0.bytes@, self.token1.bytes@)
        &&& self.token0.bytes@ != self.token1.bytes@
        &&& self.id.bytes@ == pool_id_of(self.token0.bytes@, self.token1.bytes@, self.fee as nat)
        &&& (self.liquidity.value() == 0 <==> (self.balance0.value() == 0
            && self.balance1.value() == 0))
        &&& self.liquidity.value() == sum_shares(self.positions@) + locked_shares(
            self.liquidity.value(),
        )
    }

    /// `self` is `old` with the same identity and assets.
    pub open spec fn same_pair(self, old: Pool) -> bool {
        self.id == old.id && self.token0 == old.token0 && self.token1 == old.token1 && self.fee
            == old.fee
    }

    /// The positions other than `pos` are as in `old`.
    pub open spec fn others_unchanged(self, old: Pool, pos: Seq<u8>) -> bool {
        forall|q: Seq<u8>| q != pos ==> #[trigger] self.shares_of(q) == old.shares_of(q)
    }
}

/// The exchange: every pool created so far.
#[derive(Clone, Debug)]
pub struct StylusSwap {
    pub pools: Vec<Pool>,
}

impl StylusSwap {
    pub open spec fn has_pool(self, id: Seq<u8>) -> bool {
        last_index_of(pool_keys(self.pools@), id) >= 0
    }

    pub open spec fn pool(self, id: Seq<u8>) -> Pool {
        self.pools@[last_index_of(pool_keys(self.pools@), id)]
    }

    pub open spec fn wf(self) -> bool {
        forall|i: int| 0 <= i < self.pools@.len() ==> (#[trigger] self.pools@[i]).wf()
    }

    /// Every pool but `id` is as in `old`.
    pub open spec fn others_unchanged(self, old: StylusSwap, id: Seq<u8>) -> bool {
        forall|q: Seq<u8>|
            q != id ==> (#[trigger] self.has_pool(q) == old.has_pool(q)) && (old.has_pool(q)
                ==> self.pool(q) == old.pool(q))
    }
}

/// What `create_pool(a, b, fee)` does to the exchange `old`, giving `new` and `r`.
pub open spec fn create_pool_post(
    old: StylusSwap,
    new: StylusSwap,
    a: Address,
    b: Address,
    fee: u32,
    r: Result<Bytes32, StylusSwapError>,
) -> bool {
    let id = pool_id_of(a.bytes@, b.bytes@, fee as nat);
    if a.bytes@ == b.bytes@ {
        new == old && r == Err::<Bytes32, StylusSwapError>(StylusSwapError::IdenticalAssets)
    } else if old.has_pool(id) {
        new == old && (match r {
            Err(StylusSwapError::PoolAlreadyExists(x)) => x.bytes@ == id,
            _ => false,
        })
    } else {
        new.has_pool(id) && new.others_unchanged(old, id) && (match r {
            Ok(x) => x.bytes@ == id,
            Err(_) => false,
        }) && new.pool(id).id.bytes@ == id && (new.pool(id).token0.bytes@, new.pool(
            id,
        ).token1.bytes@) == sorted_pair(a.bytes@, b.bytes@) && new.pool(id).fee == fee
            && new.pool(id).liquidity.value() == 0 && new.pool(id).balance0.value() == 0
            && new.pool(id).balance1.value() == 0 && new.pool(id).positions@.len() == 0
    }
}

/// What `add_liquidity` does when the pool `pool_id` exists in `old`.
pub open spec fn add_liquidity_post(
    old: StylusSwap,
    new: StylusSwap,
    sender: Address,
    this: Address,
    pool_id: Seq<u8>,
    d0: nat,
    d1: nat,
    m0: nat,
    m1: nat,
    r: Result<(Uint256, Vec<Transfer>), StylusSwapError>,
) -> bool {
    let p = old.pool(pool_id);
    let pos = position_id_of(pool_id, sender.bytes@);
    match deposit_outcome(
        p.liquidity.value(),
        p.balance0.value(),
        p.balance1.value(),
        d0,
        d1,
        m0,
        m1,
    ) {
        Err(e) => r == Err::<(Uint256, Vec<Transfer>), StylusSwapError>(e),
        Ok((a0, a1, minted, increase)) => {
            &&& r is Ok
            &&& r->Ok_0.0.value() == minted
            &&& r->Ok_0.1@.len() == 2
            &&& transfer_is(r->Ok_0.1@[0], p.token0, sender, this, a0)
            &&& transfer_is(r->Ok_0.1@[1], p.token1, sender, this, a1)
            &&& new.has_pool(pool_id)
            &&& new.others_unchanged(old, pool_id)
            &&& new.pool(pool_id).same_pair(p)
            &&& new.pool(pool_id).liquidity.value() == p.liquidity.value() + increase
            &&& new.pool(pool_id).balance0.value() == p.balance0.value() + a0
            &&& new.pool(pool_id).balance1.value() == p.balance1.value() + a1
            &&& new.pool(pool_id).shares_of(pos) == p.shares_of(pos) + minted
            &&& position_owner(new.pool(pool_id).positions@, pos) == sender
            &&& new.pool(pool_id).others_unchanged(p, pos)
        },
    }
}

/// What `remove_liquidity` does when the pool `pool_id` exists in `old`.
pub open spec fn remove_liquidity_post(
    old: StylusSwap,
    new: StylusSwap,
    sender: Address,
    this: Address,
    pool_id: Seq<u8>,
    shares: nat,
    r: Result<(Uint256, Uint256, Vec<Transfer>), StylusSwapError>,
) -> bool {
    let p = old.pool(pool_id);
    let pos = position_id_of(pool_id, sender.bytes@);
    match withdrawal_outcome(
        p.liquidity.value(),
        p.balance0.value(),
        p.balance1.value(),
        p.shares_of(pos),
        shares,
    ) {
        Err(e) => r == Err::<(Uint256, Uint256, Vec<Transfer>), StylusSwapError>(e),
        Ok((a0, a1)) => {
            &&& r is Ok
            &&& r->Ok_0.0.value() == a0
            &&& r->Ok_0.1.value() == a1
            &&& r->Ok_0.2@.len() == 2
            &&& transfer_is(r->Ok_0.2@[0], p.token0, this, sender, a0)
            &&& transfer_is(r->Ok_0.2@[1], p.token1, this, sender, a1)
            &&& new.has_pool(pool_id)
            &&& new.others_unchanged(old, pool_id)
            &&& new.pool(pool_id).same_pair(p)
            &&& new.pool(pool_id).liquidity.value() == p.liquidity.value() - shares
            &&& new.pool(pool_id).balance0.value() == p.balance0.value() - a0
            &&& new.pool(pool_id).balance1.value() == p.balance1.value() - a1
            &&& new.pool(pool_id).shares_of(pos) == p.shares_of(pos) - shares
            &&& new.pool(pool_id).others_unchanged(p, pos)
        },
    }
}

/// The reserves of the asset sold and of the asset bought.
pub open spec fn swap_reserves(p: Pool, zero_for_one: bool) -> (nat, nat) {
    if zero_for_one {
        (p.balance0.value(), p.balance1.value())
    } else {
        (p.balance1.value(), p.balance0.value())
    }
}

/// What `swap` does when the pool `pool_id` exists in `old` and the input is not zero.
pub open spec fn swap_post(
    old: StylusSwap,
    new: StylusSwap,
    sender: Address,
    this: Address,
    pool_id: Seq<u8>,
    amount: nat,
    min_output: nat,
    zero_for_one: bool,
    r: Result<(Uint256, Vec<Transfer>), StylusSwapError>,
) -> bool {
    let p = old.pool(pool_id);
    let (rin, rout) = swap_reserves(p, zero_for_one);
    let (token_in, token_out) = if zero_for_one {
        (p.token0, p.token1)
    } else {
        (p.token1, p.token0)
    };
    match swap_outcome(rin, rout, amount, p.fee as nat, min_output) {
        Err(e) => r == Err::<(Uint256, Vec<Transfer>), StylusSwapError>(e),
        Ok((gross, fee_amount, net)) => if p.liquidity.value() == 0 {
            r == Err::<(Uint256, Vec<Transfer>), StylusSwapError>(
                StylusSwapError::InsufficientAmount,
            )
        } else {
            &&& r is Ok
            &&& r->Ok_0.0.value() == net
            &&& r->Ok_0.1@.len() == 2
            &&& transfer_is(r->Ok_0.1@[0], token_in, sender, this, amount)
            &&& transfer_is(r->Ok_0.1@[1], token_out, this, sender, net)
            &&& new.has_pool(pool_id)
            &&& new.others_unchanged(old, pool_id)
            &&& new.pool(pool_id).same_pair(p)
            &&& new.pool(pool_id).liquidity == p.liquidity
            &&& new.pool(pool_id).positions@ == p.positions@
            &&& swap_reserves(new.pool(pool_id), zero_for_one) == (rin + amount, (rout - net) as nat)
        },
    }
}

/// Creating the pool of two different assets and a fee succeeds on an exchange that lacks it; creating it again, with the two assets in either order, then
/// fails with `PoolAlreadyExists` and changes nothing.
pub proof fn lemma_create_pool_once(
    s0: StylusSwap,
    s1: StylusSwap,
    s2: StylusSwap,
    a: Address,
    b: Address,
    fee: u32,
    swapped: bool,
    r1: Result<Bytes32, StylusSwapError>,
    r2: Result<Bytes32, StylusSwapError>,
)
    requires
        a.bytes@ != b.bytes@,
        !s0.has_pool(pool_id_of(a.bytes@, b.bytes@, fee as nat)),
        create_pool_post(s0, s1, a, b, fee, r1),
        create_pool_post(
            s1,
            s2,
            if swapped {
                b
            } else {
                a
            },
            if swapped {
                a
            } else {
                b
            },
            fee,
            r2,
        ),
    ensures
        r1 is Ok,
        s2 == s1,
        match r2 {
            Err(StylusSwapError::PoolAlreadyExists(x)) => x.bytes@ == r1->Ok_0.bytes@,
            _ => false,
        },
{
    crate::ids::lemma_pool_id_order_independent(a.bytes@, b.bytes@, fee as nat);
}

/// Redeeming all of a position's shares pays out each reserve's proportional
/// part, rounded down, and leaves the position with no shares.
pub proof fn lemma_full_withdrawal(
    old: StylusSwap,
    new: StylusSwap,
    sender: Address,
    this: Address,
    pool_id: Seq<u8>,
    r: Result<(Uint256, Uint256, Vec<Transfer>), StylusSwapError>,
)
    requires
        old.has_pool(pool_id),
        remove_liquidity_post(
            old,
            new,
            sender,
            this,
            pool_id,
            old.pool(pool_id).shares_of(position_id_of(pool_id, sender.bytes@)),
            r,
        ),
        r is Ok,
    ensures
        ({
            let p = old.pool(pool_id);
            let shares = p.shares_of(position_id_of(pool_id, sender.bytes@));
            &&& r->Ok_0.0.value() == p.balance0.value() * shares / p.liquidity.value()
            &&& r->Ok_0.1.value() == p.balance1.value() * shares / p.liquidity.value()
            &&& new.pool(pool_id).shares_of(position_id_of(pool_id, sender.bytes@)) == 0
        }),
{
}

/// Redeeming more shares than the position holds fails with
/// `InsufficientLiquidityOwned`.
pub proof fn lemma_withdrawal_beyond_position_fails(
    old: StylusSwap,
    new: StylusSwap,
    sender: Address,
    this: Address,
    pool_id: Seq<u8>,
    shares: nat,
    r: Result<(Uint256, Uint256, Vec<Transfer>), StylusSwapError>,
)
    requires
        old.has_pool(pool_id),
        remove_liquidity_post(old, new, sender, this, pool_id, shares, r),
        shares > old.pool(pool_id).shares_of(position_id_of(pool_id, sender.bytes@)),
    ensures
        r == Err::<(Uint256, Uint256, Vec<Transfer>), StylusSwapError>(
            StylusSwapError::InsufficientLiquidityOwned,
        ),
{
}

proof fn lemma_sum_update(s: Seq<Position>, i: int, p: Position)
    requires
        0 <= i < s.len(),
    ensures
        sum_shares(s.update(i, p)) + s[i].liquidity.value() == sum_shares(s) + p.liquidity.value(),
    decreases s.len(),
{
    if i == s.len() - 1 {
        assert(s.update(i, p).drop_last() =~= s.drop_last());
    } else {
        lemma_sum_update(s.drop_last(), i, p);
        assert(s.update(i, p).drop_last() =~= s.drop_last().update(i, p));
    }
}

proof fn lemma_elem_le_sum(s: Seq<Position>, i: int)
    requires
        0 <= i < s.len(),
    ensures
        s[i].liquidity.value() <= sum_shares(s),
    decreases s.len(),
{
    if i < s.len() - 1 {
        lemma_elem_le_sum(s.drop_last(), i);
    }
}

/// An owner's shares never exceed those of all positions.
proof fn lemma_shares_le_sum(pool: Pool, pos: Seq<u8>)
    ensures
        pool.shares_of(pos) <= sum_shares(pool.positions@),
{
    lemma_last_index_of_bounds(position_keys(pool.positions@), pos);
    if pool.position_index(pos) >= 0 {
        lemma_elem_le_sum(pool.positions@, pool.position_index(pos));
    }
}

/// Finds the pool with id `id`.
fn find_pool(pools: &Vec<Pool>, id: &Bytes32) -> (r: Option<usize>)
    ensures
        r.is_some() <==> last_index_of(pool_keys(pools@), id.bytes@) >= 0,
        r.is_some() ==> r.unwrap() as int == last_index_of(pool_keys(pools@), id.bytes@),
        r.is_some() ==> r.unwrap() < pools@.len(),
{
    let ghost keys = pool_keys(pools@);
    proof {
        lemma_last_index_of_bounds(keys, id.bytes@);
        assert(keys.take(keys.len() as int) =~= keys);
    }
    let mut i: usize = pools.len();
    while i > 0
        invariant
            i <= pools@.len(),
            keys == pool_keys(pools@),
            last_index_of(keys, id.bytes@) == last_index_of(keys.take(i as int), id.bytes@),
        decreases i,
    {
        assert(keys.take(i as int).drop_last() =~= keys.take(i - 1));
        assert(keys.take(i as int).last() == pools@[i - 1].id.bytes@);
        if bytes32_eq(&pools[i - 1].id, id) {
            return Some(i - 1);
        }
        i = i - 1;
    }
    assert(keys.take(0) =~= Seq::<Seq<u8>>::empty());
    None
}

/// Finds the position with id `id`.
fn find_position(positions: &Vec<Position>, id: &Bytes32) -> (r: Option<usize>)
    ensures
        r.is_some() <==> last_index_of(position_keys(positions@), id.bytes@) >= 0,
        r.is_some() ==> r.unwrap() as int == last_index_of(position_keys(positions@), id.bytes@),
        r.is_some() ==> r.unwrap() < positions@.len(),
{
    let ghost keys = position_keys(positions@);
    proof {
        lemma_last_index_of_bounds(keys, id.bytes@);
        assert(keys.take(keys.len() as int) =~= keys);
    }
    let mut i: usize = positions.len();
    while i > 0
        invariant
            i <= positions@.len(),
            keys == position_keys(positions@),
            last_index_of(keys, id.bytes@) == last_index_of(keys.take(i as int), id.bytes@),
        decreases i,
    {
        assert(keys.take(i as int).drop_last() =~= keys.take(i - 1));
        assert(keys.take(i as int).last() == positions@[i - 1].id.bytes@);
        if bytes32_eq(&positions[i - 1].id, id) {
            return Some(i - 1);
        }
        i = i - 1;
    }
    assert(keys.take(0) =~= Seq::<Seq<u8>>::empty());
    None
}

/// Credits `minted` shares to the position `pos`, opening it for `owner` if
/// it does not exist; the owner is recorded either way.
fn credit_position(positions: &mut Vec<Position>, pos: Bytes32, owner: Address, minted: Uint256)
    requires
        sum_shares(old(positions)@) + minted.value() < word_limit(),
    ensures
        sum_shares(final(positions)@) == sum_shares(old(positions)@) + minted.value(),
        position_shares(final(positions)@, pos.bytes@) == position_shares(old(positions)@, pos.bytes@)
            + minted.value(),
        position_owner(final(positions)@, pos.bytes@) == owner,
        last_index_of(position_keys(final(positions)@), pos.bytes@) >= 0,
        forall|q: Seq<u8>|
            q != pos.bytes@ ==> #[trigger] position_shares(final(positions)@, q) == position_shares(
                old(positions)@,
                q,
            ),
{
    let ghost old_s = positions@;
    let ghost keys = position_keys(old_s);
    proof {
        lemma_last_index_of_bounds(keys, pos.bytes@);
    }
    match find_position(positions, &pos) {
        Some(j) => {
            let current = positions[j];
            proof {
                lemma_elem_le_sum(old_s, j as int);
            }
            let shares = checked_add(current.liquidity, minted).unwrap();
            let updated = Position { id: current.id, owner, liquidity: shares };
            positions.set(j, updated);
            proof {
                lemma_sum_update(old_s, j as int, updated);
                assert(position_keys(positions@) =~= keys);
                assert forall|q: Seq<u8>| q != pos.bytes@ implies #[trigger] position_shares(
                    positions@,
                    q,
                ) == position_shares(old_s, q) by {
                    lemma_last_index_of_bounds(keys, q);
                }
            }
        },
        None => {
            let opened = Position { id: pos, owner, liquidity: minted };
            positions.push(opened);
            proof {
                assert(positions@.drop_last() =~= old_s);
                assert(position_keys(positions@) =~= keys.push(pos.bytes@));
                lemma_last_index_of_push(keys, pos.bytes@, pos.bytes@);
                assert forall|q: Seq<u8>| q != pos.bytes@ implies #[trigger] position_shares(
                    positions@,
                    q,
                ) == position_shares(old_s, q) by {
                    lemma_last_index_of_push(keys, pos.bytes@, q);
                    lemma_last_index_of_bounds(keys, q);
                }
            }
        },
    }
}

/// Takes `amount` shares from the position at index `j`, the one found for `pos`.
fn debit_position(positions: &mut Vec<Position>, j: usize, amount: Uint256, Ghost(pos): Ghost<Seq<u8>>)
    requires
        0 <= j < old(positions)@.len(),
        j as int == last_index_of(position_keys(old(positions)@), pos),
        amount.value() <= old(positions)@[j as int].liquidity.value(),
    ensures
        sum_shares(final(positions)@) + amount.value() == sum_shares(old(positions)@),
        position_shares(final(positions)@, pos) + amount.value() == position_shares(old(positions)@, pos),
        forall|q: Seq<u8>|
            q != pos ==> #[trigger] position_shares(final(positions)@, q) == position_shares(
                old(positions)@,
                q,
            ),
{
    let ghost old_s = positions@;
    let ghost keys = position_keys(old_s);
    let current = positions[j];
    let shares = checked_sub(current.liquidity, amount).unwrap();
    let updated = Position { id: current.id, owner: current.owner, liquidity: shares };
    positions.set(j, updated);
    proof {
        lemma_last_index_of_bounds(keys, pos);
        lemma_sum_update(old_s, j as int, updated);
        assert(position_keys(positions@) =~= keys);
        assert forall|q: Seq<u8>| q != pos implies #[trigger] position_shares(positions@, q)
            == position_shares(old_s, q) by {
            lemma_last_index_of_bounds(keys, q);
        }
    }
}

/// Adds a deposit to `pool`: the amounts to the reserves, `increase` to the
/// total shares and `minted` to the position `pos` of `owner`.
fn apply_deposit(
    pool: &mut Pool,
    pos: Bytes32,
    owner: Address,
    amount0: Uint256,
    amount1: Uint256,
    minted: Uint256,
    increase: Uint256,
)
    requires
        old(pool).wf(),
        old(pool).liquidity.value() == 0 ==> increase.value() == minted.value() + MINIMUM_LIQUIDITY,
        old(pool).liquidity.value() > 0 ==> increase.value() == minted.value(),
        old(pool).liquidity.value() == 0 ==> amount0.value() > 0 && amount1.value() > 0,
        old(pool).liquidity.value() + increase.value() < word_limit(),
        old(pool).balance0.value() + amount0.value() < word_limit(),
        old(pool).balance1.value() + amount1.value() < word_limit(),
    ensures
        final(pool).wf(),
        final(pool).same_pair(*old(pool)),
        final(pool).liquidity.value() == old(pool).liquidity.value() + increase.value(),
        final(pool).balance0.value() == old(pool).balance0.value() + amount0.value(),
        final(pool).balance1.value() == old(pool).balance1.value() + amount1.value(),
        final(pool).shares_of(pos.bytes@) == old(pool).shares_of(pos.bytes@) + minted.value(),
        position_owner(final(pool).positions@, pos.bytes@) == owner,
        final(pool).others_unchanged(*old(pool), pos.bytes@),
{
    pool.liquidity = checked_add(pool.liquidity, increase).unwrap();
    pool.balance0 = checked_add(pool.balance0, amount0).unwrap();
    pool.balance1 = checked_add(pool.balance1, amount1).unwrap();
    credit_position(&mut pool.positions, pos, owner, minted);
}

/// Takes a withdrawal out of `pool`: the amounts from the reserves, and
/// `shares` from the total and from the position at index `j`, found for `pos`.
fn apply_withdrawal(
    pool: &mut Pool,
    j: usize,
    amount0: Uint256,
    amount1: Uint256,
    shares: Uint256,
    Ghost(pos): Ghost<Seq<u8>>,
)
    requires
        old(pool).wf(),
        0 <= j < old(pool).positions@.len(),
        j as int == old(pool).position_index(pos),
        shares.value() <= old(pool).shares_of(pos),
        shares.value() > 0,
        amount0.value() <= old(pool).balance0.value(),
        amount1.value() <= old(pool).balance1.value(),
        old(pool).balance0.value() > 0 ==> amount0.value() < old(pool).balance0.value(),
        old(pool).balance1.value() > 0 ==> amount1.value() < old(pool).balance1.value(),
    ensures
        final(pool).wf(),
        final(pool).same_pair(*old(pool)),
        final(pool).liquidity.value() == old(pool).liquidity.value() - shares.value(),
        final(pool).balance0.value() == old(pool).balance0.value() - amount0.value(),
        final(pool).balance1.value() == old(pool).balance1.value() - amount1.value(),
        final(pool).shares_of(pos) == old(pool).shares_of(pos) - shares.value(),
        final(pool).others_unchanged(*old(pool), pos),
{
    proof {
        lemma_shares_le_sum(*pool, pos);
    }
    pool.liquidity = checked_sub(pool.liquidity, shares).unwrap();
    pool.balance0 = checked_sub(pool.balance0, amount0).unwrap();
    pool.balance1 = checked_sub(pool.balance1, amount1).unwrap();
    debit_position(&mut pool.positions, j, shares, Ghost(pos));
}

impl StylusSwap {
    /// An exchange with no pools.
    pub fn new() -> (r: StylusSwap)
        ensures
            r.wf(),
            forall|id: Seq<u8>| !r.has_pool(id),
    {
        let r = StylusSwap { pools: Vec::new() };
        assert(pool_keys(r.pools@) =~= Seq::<Seq<u8>>::empty());
        r
    }

    /// The pool id of an asset pair and fee, and the two assets in canonical order.
    pub fn get_pool_id(&self, token_a: Address, token_b: Address, fee: u32) -> (r: (
        Bytes32,
        Address,
        Address,
    ))
        requires
            fee < 0x100_0000,
        ensures
            (r.1.bytes@, r.2.bytes@) == sorted_pair(token_a.bytes@, token_b.bytes@),
            lex_le(r.1.bytes@, r.2.bytes@),
            r.0.bytes@ == pool_id_of(token_a.bytes@, token_b.bytes@, fee as nat),
    {
        pool_id(token_a, token_b, fee)
    }

    /// The id of `owner`'s position in the pool `pool_id`.
    pub fn get_position_id(&self, pool_id: Bytes32, owner: Address) -> (r: Bytes32)
        ensures
            r.bytes@ == position_id_of(pool_id.bytes@, owner.bytes@),
    {
        position_id(pool_id, owner)
    }

    /// The amounts a deposit takes from the desired and minimum amounts, given
    /// the pool's reserves.
    pub fn get_liquidity_amounts(
        &self,
        amount_0_desired: Uint256,
        amount_1_desired: Uint256,
        amount_0_min: Uint256,
        amount_1_min: Uint256,
        balance0: Uint256,
        balance1: Uint256,
    ) -> (r: Result<(Uint256, Uint256), StylusSwapError>)
        ensures
            match liquidity_amounts_outcome(
                amount_0_desired.value(),
                amount_1_desired.value(),
                amount_0_min.value(),
                amount_1_min.value(),
                balance0.value(),
                balance1.value(),
            ) {
                Ok((a0, a1)) => r.is_ok() && r.unwrap().0.value() == a0 && r.unwrap().1.value()
                    == a1,
                Err(e) => r == Err::<(Uint256, Uint256), StylusSwapError>(e),
            },
    {
        liquidity_amounts(
            amount_0_desired,
            amount_1_desired,
            amount_0_min,
            amount_1_min,
            balance0,
            balance1,
        )
    }

    /// The shares that `owner` holds in the pool `pool_id` (zero where there is
    /// no such pool or position).
    pub fn get_position_liquidity(&self, pool_id: Bytes32, owner: Address) -> (r: Uint256)
        ensures
            self.has_pool(pool_id.bytes@) ==> r.value() == self.pool(pool_id.bytes@).shares_of(
                position_id_of(pool_id.bytes@, owner.bytes@),
            ),
            !self.has_pool(pool_id.bytes@) ==> r.value() == 0,
    {
        let position = position_id(pool_id, owner);
        match find_pool(&self.pools, &pool_id) {
            None => Uint256::zero(),
            Some(i) => match find_position(&self.pools[i].positions, &position) {
                None => Uint256::zero(),
                Some(j) => self.pools[i].positions[j].liquidity,
            },
        }
    }

    /// The total shares and the two reserves of the pool `pool_id`.
    pub fn get_pool_state(&self, pool_id: Bytes32) -> (r: Option<(Uint256, Uint256, Uint256)>)
        ensures
            self.has_pool(pool_id.bytes@) ==> r.is_some() && r.unwrap().0 == self.pool(
                pool_id.bytes@,
            ).liquidity && r.unwrap().1 == self.pool(pool_id.bytes@).balance0 && r.unwrap().2
                == self.pool(pool_id.bytes@).balance1,
            !self.has_pool(pool_id.bytes@) ==> r.is_none(),
    {
        match find_pool(&self.pools, &pool_id) {
            None => None,
            Some(i) => Some((self.pools[i].liquidity, self.pools[i].balance0, self.pools[i].balance1)),
        }
    }

    /// Creates the pool of an asset pair and fee, empty; fails where it exists.
    pub fn create_pool(&mut self, token_a: Address, token_b: Address, fee: u32) -> (r: Result<
        Bytes32,
        StylusSwapError,
    >)
        requires
            old(self).wf(),
            fee < 0x100_0000,
        ensures
            final(self).wf(),
            create_pool_post(*old(self), *final(self), token_a, token_b, fee, r),
    {
        if address_eq(&token_a, &token_b) {
            return Err(StylusSwapError::IdenticalAssets);
        }
        let (id, token0, token1) = pool_id(token_a, token_b, fee);
        if find_pool(&self.pools, &id).is_some() {
            return Err(StylusSwapError::PoolAlreadyExists(id));
        }
        let pool = Pool {
            id,
            token0,
            token1,
            fee,
            liquidity: Uint256::zero(),
            balance0: Uint256::zero(),
            balance1: Uint256::zero(),
            positions: Vec::new(),
        };
        let ghost old_pools = self.pools@;
        self.pools.push(pool);
        proof {
            assert(pool_keys(self.pools@) =~= pool_keys(old_pools).push(id.bytes@));
            assert forall|q: Seq<u8>| q != id.bytes@ implies #[trigger] self.has_pool(q)
                == old(self).has_pool(q) && (old(self).has_pool(q) ==> self.pool(q) == old(
                self,
            ).pool(q)) by {
                lemma_last_index_of_push(pool_keys(old_pools), id.bytes@, q);
                lemma_last_index_of_bounds(pool_keys(old_pools), q);
            }
            lemma_last_index_of_push(pool_keys(old_pools), id.bytes@, id.bytes@);
            crate::ids::lemma_pool_id_order_independent(token_a.bytes@, token_b.bytes@, fee as nat);
            assert(self.pools@[self.pools@.len() - 1].positions@ =~= Seq::<Position>::empty());
            assert(sum_shares(Seq::<Position>::empty()) == 0);
        }
        Ok(id)
    }

    /// Puts `pool` back at index `idx`, from which `take_out` took the pool
    /// with its id out of `before`.
    fn put_back(&mut self, idx: usize, pool: Pool, Ghost(before): Ghost<StylusSwap>)
        requires
            idx < old(self).pools@.len(),
            idx as int == last_index_of(pool_keys(old(self).pools@), pool.id.bytes@),
            pool.wf(),
            before.wf(),
            before.pools@.len() == old(self).pools@.len(),
            forall|i: int|
                0 <= i < before.pools@.len() && i != idx ==> (#[trigger] old(self).pools@[i])
                    == before.pools@[i],
            pool_keys(old(self).pools@) == pool_keys(before.pools@),
        ensures
            final(self).wf(),
            final(self).has_pool(pool.id.bytes@),
            final(self).pool(pool.id.bytes@) == pool,
            final(self).others_unchanged(before, pool.id.bytes@),
    {
        let ghost old_pools = self.pools@;
        let ghost id = pool.id.bytes@;
        self.pools.set(idx, pool);
        proof {
            lemma_last_index_of_bounds(pool_keys(old_pools), id);
            assert(pool_keys(self.pools@) =~= pool_keys(old_pools));
            assert forall|q: Seq<u8>| q != id implies #[trigger] self.has_pool(q)
                == before.has_pool(q) && (before.has_pool(q) ==> self.pool(q) == before.pool(q)) by {
                lemma_last_index_of_bounds(pool_keys(old_pools), q);
            }
            assert forall|i: int| 0 <= i < self.pools@.len() implies (#[trigger] self.pools@[i]).wf() by {
                if i != idx {
                    assert(before.pools@[i].wf());
                }
            }
        }
    }

    /// Takes the pool at index `idx` out, leaving an empty pool with the same id.
    fn take_out(&mut self, idx: usize, Ghost(id): Ghost<Seq<u8>>) -> (r: Pool)
        requires
            idx < old(self).pools@.len(),
            idx as int == last_index_of(pool_keys(old(self).pools@), id),
            old(self).wf(),
        ensures
            r == old(self).pools@[idx as int],
            r == old(self).pool(id),
            r.wf(),
            final(self).pools@.len() == old(self).pools@.len(),
            forall|i: int|
                0 <= i < old(self).pools@.len() && i != idx ==> (#[trigger] final(self).pools@[i])
                    == old(self).pools@[i],
            pool_keys(final(self).pools@) == pool_keys(old(self).pools@),
            final(self).others_unchanged(*old(self), id),
    {
        let mut pool = Pool {
            id: self.pools[idx].id,
            token0: self.pools[idx].token0,
            token1: self.pools[idx].token1,
            fee: 0,
            liquidity: Uint256::zero(),
            balance0: Uint256::zero(),
            balance1: Uint256::zero(),
            positions: Vec::new(),
        };
        self.pools.set_and_swap(idx, &mut pool);
        proof {
            let keys = pool_keys(old(self).pools@);
            assert(pool_keys(self.pools@) =~= keys);
            lemma_last_index_of_bounds(keys, id);
            assert(old(self).pools@[idx as int].wf());
            assert forall|q: Seq<u8>| q != id implies #[trigger] self.has_pool(q) == old(
                self,
            ).has_pool(q) && (old(self).has_pool(q) ==> self.pool(q) == old(self).pool(q)) by {
                lemma_last_index_of_bounds(keys, q);
                let iq = last_index_of(keys, q);
                if iq >= 0 {
                    assert(keys[iq] == q);
                    assert(keys[idx as int] == id);
                    assert(iq != idx);
                    assert(self.pools@[iq] == old(self).pools@[iq]);
                }
            }
        }
        pool
    }

    /// Deposits into the pool `pool_id` for `sender`, at the pool's ratio (or
    /// as desired on the first deposit), minting shares to `sender`'s position.
    /// Returns the shares minted and the two transfers from `sender` to the
    /// exchange at `this` that pay for them.
    pub fn add_liquidity(
        &mut self,
        sender: Address,
        this: Address,
        pool_id: Bytes32,
        amount_0_desired: Uint256,
        amount_1_desired: Uint256,
        amount_0_min: Uint256,
        amount_1_min: Uint256,
    ) -> (r: Result<(Uint256, Vec<Transfer>), StylusSwapError>)
        requires
            old(self).wf(),
        ensures
            final(self).wf(),
            r.is_err() ==> *final(self) == *old(self),
            !old(self).has_pool(pool_id.bytes@) ==> r == Err::<(Uint256, Vec<Transfer>), StylusSwapError>(
                StylusSwapError::PoolDoesNotExist(pool_id),
            ),
            old(self).has_pool(pool_id.bytes@) ==> add_liquidity_post(
                *old(self),
                *final(self),
                sender,
                this,
                pool_id.bytes@,
                amount_0_desired.value(),
                amount_1_desired.value(),
                amount_0_min.value(),
                amount_1_min.value(),
                r,
            ),
    {
        let idx = match find_pool(&self.pools, &pool_id) {
            Some(i) => i,
            None => return Err(StylusSwapError::PoolDoesNotExist(pool_id)),
        };
        let liquidity = self.pools[idx].liquidity;
        let balance0 = self.pools[idx].balance0;
        let balance1 = self.pools[idx].balance1;
        let (amount0, amount1, minted, increase) = match plan_deposit(
            liquidity,
            balance0,
            balance1,
            amount_0_desired,
            amount_1_desired,
            amount_0_min,
            amount_1_min,
        ) {
            Ok(plan) => plan,
            Err(e) => return Err(e),
        };
        proof {
            lemma_deposit_shares(
                liquidity.value(),
                balance0.value(),
                balance1.value(),
                amount_0_desired.value(),
                amount_1_desired.value(),
                amount_0_min.value(),
                amount_1_min.value(),
            );
            lemma_last_index_of_bounds(pool_keys(self.pools@), pool_id.bytes@);
        }
        let position = position_id(pool_id, sender);
        let token0 = self.pools[idx].token0;
        let token1 = self.pools[idx].token1;
        proof {
            assert(self.pools@[idx as int].wf());
        }
        let ghost before = *self;
        let mut pool = self.take_out(idx, Ghost(pool_id.bytes@));
        apply_deposit(&mut pool, position, sender, amount0, amount1, minted, increase);
        self.put_back(idx, pool, Ghost(before));
        let transfers = vec![
            Transfer { token: token0, from: sender, to: this, amount: amount0 },
            Transfer { token: token1, from: sender, to: this, amount: amount1 },
        ];
        Ok((minted, transfers))
    }

    /// Redeems `liquidity_to_remove` of `sender`'s shares in the pool `pool_id`
    /// for the proportional part of each reserve, rounded down. Returns the two
    /// amounts and the transfers that pay them from the exchange at `this`.
    pub fn remove_liquidity(
        &mut self,
        sender: Address,
        this: Address,
        pool_id: Bytes32,
        liquidity_to_remove: Uint256,
    ) -> (r: Result<(Uint256, Uint256, Vec<Transfer>), StylusSwapError>)
        requires
            old(self).wf(),
        ensures
            final(self).wf(),
            r.is_err() ==> *final(self) == *old(self),
            !old(self).has_pool(pool_id.bytes@) ==> r == Err::<
                (Uint256, Uint256, Vec<Transfer>),
                StylusSwapError,
            >(StylusSwapError::PoolDoesNotExist(pool_id)),
            old(self).has_pool(pool_id.bytes@) ==> remove_liquidity_post(
                *old(self),
                *final(self),
                sender,
                this,
                pool_id.bytes@,
                liquidity_to_remove.value(),
                r,
            ),
    {
        let idx = match find_pool(&self.pools, &pool_id) {
            Some(i) => i,
            None => return Err(StylusSwapError::PoolDoesNotExist(pool_id)),
        };
        let position = position_id(pool_id, sender);
        let liquidity = self.pools[idx].liquidity;
        let balance0 = self.pools[idx].balance0;
        let balance1 = self.pools[idx].balance1;
        let found = find_position(&self.pools[idx].positions, &position);
        let owned = match found {
            Some(j) => self.pools[idx].positions[j].liquidity,
            None => Uint256::zero(),
        };
        let (amount0, amount1) = match plan_withdrawal(
            liquidity,
            balance0,
            balance1,
            owned,
            liquidity_to_remove,
        ) {
            Ok(amounts) => amounts,
            Err(e) => return Err(e),
        };
        proof {
            lemma_last_index_of_bounds(pool_keys(self.pools@), pool_id.bytes@);
            assert(self.pools@[idx as int].wf());
            lemma_shares_le_sum(self.pools@[idx as int], position.bytes@);
            lemma_withdrawal_bounded(
                liquidity.value(),
                balance0.value(),
                balance1.value(),
                owned.value(),
                liquidity_to_remove.value(),
            );
        }
        let j = found.unwrap();
        let token0 = self.pools[idx].token0;
        let token1 = self.pools[idx].token1;
        let ghost before = *self;
        let mut pool = self.take_out(idx, Ghost(pool_id.bytes@));
        apply_withdrawal(&mut pool, j, amount0, amount1, liquidity_to_remove, Ghost(position.bytes@));
        self.put_back(idx, pool, Ghost(before));
        let transfers = vec![
            Transfer { token: token0, from: this, to: sender, amount: amount0 },
            Transfer { token: token1, from: this, to: sender, amount: amount1 },
        ];
        Ok((amount0, amount1, transfers))
    }

    /// Sells `input_amount` of one asset of the pool `pool_id` (the first when
    /// `zero_for_one`) for the other, on the constant-product curve less the
    /// pool's fee. A swap that passes every check of the curve still fails on a
    /// pool without shares, which holds no reserves to trade against. Returns the output paid and the two transfers: the input from
    /// `sender` to the exchange at `this`, then the output back to `sender`.
    pub fn swap(
        &mut self,
        sender: Address,
        this: Address,
        pool_id: Bytes32,
        input_amount: Uint256,
        min_output_amount: Uint256,
        zero_for_one: bool,
    ) -> (r: Result<(Uint256, Vec<Transfer>), StylusSwapError>)
        requires
            old(self).wf(),
        ensures
            final(self).wf(),
            r.is_err() ==> *final(self) == *old(self),
            input_amount.value() == 0 ==> r == Err::<(Uint256, Vec<Transfer>), StylusSwapError>(
                StylusSwapError::InsufficientAmount,
            ),
            input_amount.value() > 0 && !old(self).has_pool(pool_id.bytes@) ==> r == Err::<
                (Uint256, Vec<Transfer>),
                StylusSwapError,
            >(StylusSwapError::PoolDoesNotExist(pool_id)),
            input_amount.value() > 0 && old(self).has_pool(pool_id.bytes@) ==> swap_post(
                *old(self),
                *final(self),
                sender,
                this,
                pool_id.bytes@,
                input_amount.value(),
                min_output_amount.value(),
                zero_for_one,
                r,
            ),
    {
        if input_amount.is_zero() {
            return Err(StylusSwapError::InsufficientAmount);
        }
        let idx = match find_pool(&self.pools, &pool_id) {
            Some(i) => i,
            None => return Err(StylusSwapError::PoolDoesNotExist(pool_id)),
        };
        let balance0 = self.pools[idx].balance0;
        let balance1 = self.pools[idx].balance1;
        let (input_balance, output_balance, input_token, output_token) = if zero_for_one {
            (balance0, balance1, self.pools[idx].token0, self.pools[idx].token1)
        } else {
            (balance1, balance0, self.pools[idx].token1, self.pools[idx].token0)
        };
        let (_gross, _fee_amount, output) = match swap_output(
            input_balance,
            output_balance,
            input_amount,
            self.pools[idx].fee,
            min_output_amount,
        ) {
            Ok(out) => out,
            Err(e) => return Err(e),
        };
        if self.pools[idx].liquidity.is_zero() {
            return Err(StylusSwapError::InsufficientAmount);
        }
        proof {
            lemma_last_index_of_bounds(pool_keys(self.pools@), pool_id.bytes@);
            assert(self.pools@[idx as int].wf());
            lemma_swap_bounded(
                input_balance.value(),
                output_balance.value(),
                input_amount.value(),
                self.pools@[idx as int].fee as nat,
                min_output_amount.value(),
            );
        }
        let new_input_balance = checked_add(input_balance, input_amount).unwrap();
        let new_output_balance = checked_sub(output_balance, output).unwrap();
        let ghost before = *self;
        let mut pool = self.take_out(idx, Ghost(pool_id.bytes@));
        if zero_for_one {
            pool.balance0 = new_input_balance;
            pool.balance1 = new_output_balance;
        } else {
            pool.balance1 = new_input_balance;
            pool.balance0 = new_output_balance;
        }
        self.put_back(idx, pool, Ghost(before));
        let transfers = vec![
            Transfer { token: input_token, from: sender, to: this, amount: input_amount },
            Transfer { token: output_token, from: this, to: sender, amount: output },
        ];
        Ok((output, transfers))
    }
}

} // verus!
