//! The ways an operation of the exchange can fail.
use crate::ids::Bytes32;
use crate::transfer::Transfer;
use vstd::prelude::*;

verus! {

#[derive(Clone, Copy, Debug, PartialEq, Eq)]
pub enum StylusSwapError {
    /// A pool with this id has already been created.
    PoolAlreadyExists(Bytes32),
    /// A pool must hold two different assets.
    IdenticalAssets,
    /// No pool has this id.
    PoolDoesNotExist(Bytes32),
    /// A zero swap input, a swap into a pool without shares, or a deposit that
    /// misses its minimum amounts.
    InsufficientAmount,
    /// A deposit that would mint no shares.
    InsufficientLiquidityMinted,
    /// A withdrawal of more shares than owned, or one that would pay out nothing.
    InsufficientLiquidityOwned,
    /// An asset movement that the ledger refused or that was not covered.
    FailedOrInsufficientTokenTransfer(Transfer),
    /// A swap whose output falls below the caller's minimum.
    TooMuchSlippage,
    /// An intermediate amount that does not fit in 256 bits.
    ArithmeticOverflow,
}

} // verus!
