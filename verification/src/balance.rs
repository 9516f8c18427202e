//! The balance of an account: what its unspent outputs add up to.

use crate::account::Account;
use crate::types::{AccountBalance, OutputData, SyncError};
use iota_client::bee_message::output::OutputId;
use vstd::prelude::*;

verus! {

/// The sum of the amounts of the entries.
pub open spec fn total_amount(entries: Seq<(OutputId, OutputData)>) -> nat
    decreases entries.len(),
{
    if entries.len() == 0 {
        0
    } else {
        total_amount(entries.drop_last()) + entries.last().1.amount as nat
    }
}

/// The sum of the amounts of the entries whose output is locked.
pub open spec fn locked_amount(entries: Seq<(OutputId, OutputData)>, locked: Set<OutputId>) -> nat
    decreases entries.len(),
{
    if entries.len() == 0 {
        0
    } else if locked.contains(entries.last().0) {
        locked_amount(entries.drop_last(), locked) + entries.last().1.amount as nat
    } else {
        locked_amount(entries.drop_last(), locked)
    }
}

/// The locked part of a sum is at most the sum.
pub proof fn lemma_locked_at_most_total(entries: Seq<(OutputId, OutputData)>, locked: Set<OutputId>)
    ensures
        locked_amount(entries, locked) <= total_amount(entries),
    decreases entries.len(),
{
    if entries.len() > 0 {
        lemma_locked_at_most_total(entries.drop_last(), locked);
    }
}

/// A sum grows with the entries.
pub proof fn lemma_total_monotone(entries: Seq<(OutputId, OutputData)>, count: int)
    requires
        0 <= count <= entries.len(),
    ensures
        total_amount(entries.take(count)) <= total_amount(entries),
    decreases entries.len() - count,
{
    if count < entries.len() {
        assert(entries.take(count + 1).drop_last() =~= entries.take(count));
        lemma_total_monotone(entries, count + 1);
    } else {
        assert(entries.take(count) =~= entries);
    }
}

impl Account {
    /// The balance of the account: `total` is the sum of the unspent outputs,
    /// each counted once, and `available` is the total without the unspent
    /// outputs that are locked; an error where the total does not fit in
    /// 64 bits.
    pub open spec fn balance_of(&self) -> Result<AccountBalance, SyncError> {
        let total = total_amount(self.unspent_outputs.entries());
        let locked = locked_amount(self.unspent_outputs.entries(), self.locked_outputs@);
        if total > u64::MAX {
            Err(SyncError::AmountOverflow)
        } else {
            Ok(AccountBalance { total: total as u64, available: (total - locked) as u64 })
        }
    }

    /// Computes the balance: `total` is the sum of the unspent outputs, each counted
    /// once, and `available` is the total without the unspent outputs that
    /// are locked. Fails where the total does not fit in 64 bits.
    pub fn balance(&self) -> (result: Result<AccountBalance, SyncError>)
        ensures
            result == self.balance_of(),
            match result {
                Ok(balance) => {
                    &&& balance.total == total_amount(self.unspent_outputs.entries())
                    &&& balance.available == total_amount(self.unspent_outputs.entries())
                        - locked_amount(self.unspent_outputs.entries(), self.locked_outputs@)
                },
                Err(e) => e == SyncError::AmountOverflow && total_amount(
                    self.unspent_outputs.entries(),
                ) > u64::MAX,
            },
    {
        let ghost entries = self.unspent_outputs.entries();
        let mut total: u64 = 0;
        let mut locked: u64 = 0;
        let mut i: usize = 0;
        proof {
            assert(entries.take(0) =~= Seq::empty());
        }
        while i < self.unspent_outputs.len()
            invariant
                i <= entries.len(),
                entries == self.unspent_outputs.entries(),
                total == total_amount(entries.take(i as int)),
                locked == locked_amount(entries.take(i as int), self.locked_outputs@),
            decreases entries.len() - i,
        {
            let amount = self.unspent_outputs.value_at(i).amount;
            let id = self.unspent_outputs.key_at(i);
            proof {
                assert(entries.take(i + 1).drop_last() =~= entries.take(i as int));
                assert(entries.take(i + 1).last() == entries[i as int]);
                lemma_locked_at_most_total(entries.take(i as int), self.locked_outputs@);
            }
            match total.checked_add(amount) {
                Some(sum) => {
                    total = sum;
                },
                None => {
                    proof {
                        lemma_total_monotone(entries, i + 1);
                    }
                    return Err(SyncError::AmountOverflow);
                },
            }
            if self.locked_outputs.contains(&id) {
                locked = locked + amount;
            }
            i += 1;
        }
        proof {
            assert(entries.take(i as int) =~= entries);
            lemma_locked_at_most_total(entries, self.locked_outputs@);
        }
        Ok(AccountBalance { total, available: total - locked })
    }
}

} // verus!
