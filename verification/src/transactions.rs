//! The decisions inside bank transactions run under transactional memory:
//! given the balances a transaction has read, what it writes, or
//! `None` when it must retry (wait until a balance it read changes).
//!
//! Every sum and difference here would panic on overflow in a debug build;
//! the contracts ask that the balances written fit in `i64`.
use vstd::prelude::*;

verus! {

/// The balance after withdrawing `amount` from `bal`, or `None` (retry) when
/// the balance is short.
pub open spec fn withdraw_spec(bal: i64, amount: i64) -> Option<int> {
    if bal < amount {
        None
    } else {
        Some(bal - amount)
    }
}

/// A withdrawal waits exactly when the balance is short of the amount, and
/// otherwise leaves a balance that a deposit of the same amount restores.
pub proof fn lemma_withdraw_undone_by_deposit(bal: i64, amount: i64)
    ensures
        (withdraw_spec(bal, amount) is None) == (bal < amount),
        withdraw_spec(bal, amount) matches Some(b) ==> b + amount == bal,
{
}

/// Withdraws `amount` from an account holding `bal`: the new balance, or
/// `None` to retry when the balance is short.
pub fn withdraw(bal: i64, amount: i64) -> (r: Option<i64>)
    requires
        bal < amount || bal - amount <= i64::MAX,
    ensures
        r matches Some(b) ==> withdraw_spec(bal, amount) == Some(b as int),
        r is None <==> withdraw_spec(bal, amount) is None,
{
    if bal < amount {
        None
    } else {
        Some(bal - amount)
    }
}

/// Deposits `amount` into an account holding `bal`.
pub fn deposit(bal: i64, amount: i64) -> (r: i64)
    requires
        i64::MIN <= bal + amount <= i64::MAX,
    ensures
        r == bal + amount,
{
    bal + amount
}

/// Moves `amount` from an account holding `from` to one holding `to`: the
/// two new balances, or `None` to retry when `from` is short.
pub fn transfer(from: i64, to: i64, amount: i64) -> (r: Option<(i64, i64)>)
    requires
        from < amount || (from - amount <= i64::MAX && i64::MIN <= to + amount <= i64::MAX),
    ensures
        from < amount ==> r is None,
        from >= amount ==> r == Some(((from - amount) as i64, (to + amount) as i64)),
{
    match withdraw(from, amount) {
        None => None,
        Some(f) => Some((f, deposit(to, amount))),
    }
}

/// Pays `amount` from the checking account if it covers it, else from the
/// credit account if that covers it, else not at all: the two new balances
/// and whether the payment went through.
pub fn try_pay(checking: i64, credit: i64, amount: i64) -> (r: (i64, i64, bool))
    requires
        checking < amount || checking - amount <= i64::MAX,
        credit < amount || credit - amount <= i64::MAX,
    ensures
        checking >= amount ==> r == ((checking - amount) as i64, credit, true),
        checking < amount && credit >= amount ==> r == (checking, (credit - amount) as i64, true),
        checking < amount && credit < amount ==> r == (checking, credit, false),
{
    match withdraw(checking, amount) {
        Some(c) => (c, credit, true),
        None => match withdraw(credit, amount) {
            Some(c) => (checking, c, true),
            None => (checking, credit, false),
        },
    }
}

/// A transfer that goes through keeps the total of the two balances and
/// never overdraws the paying account: it goes through only when the
/// account covers the amount, so the new balance is not negative.
pub proof fn lemma_transfer_conserves(from: i64, to: i64, amount: i64)
    requires
        from >= amount,
    ensures
        (from - amount) + (to + amount) == from + to,
        from - amount >= 0,
{
}

} // verus!
