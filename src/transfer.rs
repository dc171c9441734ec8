//! Asset movements between an account and the exchange, and the decision of
//! how the ledger carries each one out.
use crate::error::StylusSwapError;
use crate::ids::{address_eq, address_is_zero, Address};
use crate::uint256::{checked_sub, lt, Uint256};
use vstd::prelude::*;

verus! {

/// Move `amount` of the asset `token` from `from` to `to`.
/// The all-zero token address stands for the native asset.
#[derive(Clone, Copy, Debug, PartialEq, Eq)]
pub struct Transfer {
    pub token: Address,
    pub from: Address,
    pub to: Address,
    pub amount: Uint256,
}

/// `t` moves `amount` of `token` from `from` to `to`.
pub open spec fn transfer_is(t: Transfer, token: Address, from: Address, to: Address, amount: nat) -> bool {
    t.token == token && t.from == from && t.to == to && t.amount.value() == amount
}

/// The all-zero address.
pub open spec fn zero_address() -> Seq<u8> {
    Seq::new(20, |i: int| 0u8)
}

/// What the ledger must be asked to do for one transfer.
#[derive(Clone, Copy, Debug, PartialEq, Eq)]
pub enum LedgerAction {
    /// Send `amount` of the native asset from the exchange to `to`.
    SendNative { to: Address, amount: Uint256 },
    /// The native asset attached to the call covers the transfer exactly.
    KeepNative,
    /// The native asset attached to the call covers the transfer; send the
    /// excess `refund` (more than zero) back to `to`.
    RefundNative { to: Address, refund: Uint256 },
    /// Ask the token contract to send `amount` from the exchange to `to`.
    TokenTransfer { token: Address, to: Address, amount: Uint256 },
    /// Ask the token contract to move `amount` from `from` to the exchange.
    TokenTransferFrom { token: Address, from: Address, amount: Uint256 },
}

/// The error reported for a transfer that did not go through.
pub open spec fn transfer_failed(t: Transfer) -> StylusSwapError {
    StylusSwapError::FailedOrInsufficientTokenTransfer(t)
}

/// Decides how the ledger moves `t` for the exchange at `this`, in a call that
/// came with `msg_value` of the native asset attached.
///
/// A transfer in which the exchange is neither sender nor receiver is refused,
/// and so is an incoming native transfer that the attached value does not cover.
pub fn plan_transfer(t: Transfer, this: Address, msg_value: Uint256) -> (r: Result<
    LedgerAction,
    StylusSwapError,
>)
    ensures
        t.from.bytes@ != this.bytes@ && t.to.bytes@ != this.bytes@ ==> r == Err::<LedgerAction, StylusSwapError>(
            transfer_failed(t),
        ),
        t.from.bytes@ == this.bytes@ && t.token.bytes@ == zero_address() ==> r == Ok::<
            LedgerAction,
            StylusSwapError,
        >(LedgerAction::SendNative { to: t.to, amount: t.amount }),
        t.from.bytes@ != this.bytes@ && t.to.bytes@ == this.bytes@ && t.token.bytes@ == zero_address() ==> (
        msg_value.value() < t.amount.value() ==> r == Err::<LedgerAction, StylusSwapError>(
            transfer_failed(t),
        )) && (msg_value.value() == t.amount.value() ==> r == Ok::<LedgerAction, StylusSwapError>(
            LedgerAction::KeepNative,
        )) && (msg_value.value() > t.amount.value() ==> r.is_ok() && (match r.unwrap() {
            LedgerAction::RefundNative { to, refund } => to == t.from && refund.value()
                == msg_value.value() - t.amount.value(),
            _ => false,
        })),
        t.from.bytes@ == this.bytes@ && t.token.bytes@ != zero_address() ==> r == Ok::<
            LedgerAction,
            StylusSwapError,
        >(LedgerAction::TokenTransfer { token: t.token, to: t.to, amount: t.amount }),
        t.from.bytes@ != this.bytes@ && t.to.bytes@ == this.bytes@ && t.token.bytes@ != zero_address() ==> r == Ok::<
            LedgerAction,
            StylusSwapError,
        >(LedgerAction::TokenTransferFrom { token: t.token, from: t.from, amount: t.amount }),
{
    let from_this = address_eq(&t.from, &this);
    let to_this = address_eq(&t.to, &this);
    if !from_this && !to_this {
        return Err(StylusSwapError::FailedOrInsufficientTokenTransfer(t));
    }
    if address_is_zero(&t.token) {
        if from_this {
            Ok(LedgerAction::SendNative { to: t.to, amount: t.amount })
        } else if lt(msg_value, t.amount) {
            Err(StylusSwapError::FailedOrInsufficientTokenTransfer(t))
        } else {
            let refund = checked_sub(msg_value, t.amount).unwrap();
            if refund.is_zero() {
                Ok(LedgerAction::KeepNative)
            } else {
                Ok(LedgerAction::RefundNative { to: t.from, refund })
            }
        }
    } else if from_this {
        Ok(LedgerAction::TokenTransfer { token: t.token, to: t.to, amount: t.amount })
    } else {
        Ok(LedgerAction::TokenTransferFrom { token: t.token, from: t.from, amount: t.amount })
    }
}

} // verus!
