//! Settling a record's storage deposit against the minimum for its size.

use vstd::prelude::*;

verus! {

/// What settling a record's storage deposit against its minimum requires.
#[derive(Debug, Clone, Copy, PartialEq, Eq, Structural)]
pub enum FeeAction {
    /// The balance already equals the minimum.
    Settled,
    /// Transfer this much from the payer to the record.
    TopUp(u64),
    /// Move this much from the record back to the recipient.
    Refund(u64),
}

/// The action that brings `balance` to exactly `minimum`.
pub open spec fn fee_action_spec(balance: u64, minimum: u64) -> FeeAction {
    if minimum > balance {
        FeeAction::TopUp((minimum - balance) as u64)
    } else if balance > minimum {
        FeeAction::Refund((balance - minimum) as u64)
    } else {
        FeeAction::Settled
    }
}

/// The record's balance once `action` has been carried out.
pub open spec fn balance_after(balance: u64, action: FeeAction) -> int {
    match action {
        FeeAction::Settled => balance as int,
        FeeAction::TopUp(n) => balance + n,
        FeeAction::Refund(n) => balance - n,
    }
}

/// Compares the record's balance with the minimum for its new size. A zero
/// difference needs no transfer.
pub fn reconcile_fee(balance: u64, minimum: u64) -> (r: FeeAction)
    ensures
        r == fee_action_spec(balance, minimum),
        balance_after(balance, r) == minimum,
{
    if minimum > balance {
        FeeAction::TopUp(minimum - balance)
    } else if balance > minimum {
        FeeAction::Refund(balance - minimum)
    } else {
        FeeAction::Settled
    }
}

/// The balance after carrying out `action`.
pub fn apply_fee_action(balance: u64, action: FeeAction) -> (r: Option<u64>)
    ensures
        match r {
            Some(b) => b == balance_after(balance, action),
            None => balance_after(balance, action) < 0 || balance_after(balance, action) > u64::MAX,
        },
{
    match action {
        FeeAction::Settled => Some(balance),
        FeeAction::TopUp(n) => balance.checked_add(n),
        FeeAction::Refund(n) => balance.checked_sub(n),
    }
}

/// Growing a record and then shrinking it back leaves a balance that started
/// at the minimum for its size where it was.
pub proof fn lemma_fee_round_trip(balance: u64, min_grown: u64, min_back: u64)
    requires
        balance == min_back,
    ensures
        balance_after(
            min_grown,
            fee_action_spec(
                balance_after(balance, fee_action_spec(balance, min_grown)) as u64,
                min_back,
            ),
        ) == balance,
{
}

} // verus!
