//! The transaction reconciler's decisions: what the node's verdicts on the
//! pending transactions mean for the account.

use crate::account::{Account, AccountView};
use crate::ids::{input_at, input_count, payload_inputs};
use crate::types::{InclusionState, Transaction, TransactionSyncResult, TransactionSyncView};
use iota_client::bee_message::output::OutputId;
use iota_client::bee_message::payload::transaction::TransactionId;
use vstd::prelude::*;

verus! {

/// The node's verdict on one transaction.
#[derive(Clone, Copy, Debug, PartialEq, Eq)]
pub struct InclusionReport {
    pub transaction_id: TransactionId,
    pub inclusion_state: InclusionState,
}

/// The outputs among the inputs, in order.
pub open spec fn utxo_inputs(inputs: Seq<Option<OutputId>>) -> Seq<OutputId>
    decreases inputs.len(),
{
    if inputs.len() == 0 {
        Seq::empty()
    } else {
        match inputs.last() {
            Some(id) => utxo_inputs(inputs.drop_last()).push(id),
            None => utxo_inputs(inputs.drop_last()),
        }
    }
}

/// The outputs that a transaction consumes.
pub open spec fn consumed_outputs(transaction: Transaction) -> Seq<OutputId> {
    utxo_inputs(payload_inputs(transaction.payload))
}

/// Whether the report is about a recorded transaction and gives another
/// verdict than the recorded one.
pub open spec fn changed(account: AccountView, report: InclusionReport) -> bool {
    account.transactions.contains_key(report.transaction_id)
        && account.transactions[report.transaction_id].inclusion_state != report.inclusion_state
}

/// What one report adds to the result so far. A report that changes
/// nothing adds nothing. Otherwise the transaction is listed with its new
/// verdict; the outputs it consumes are spent if it is now confirmed, and
/// are to be unlocked if it is now conflicting.
pub open spec fn with_report(
    result: TransactionSyncView,
    account: AccountView,
    report: InclusionReport,
) -> TransactionSyncView {
    if !changed(account, report) {
        result
    } else {
        let recorded = account.transactions[report.transaction_id];
        TransactionSyncView {
            updated_transactions: result.updated_transactions.push(
                Transaction { inclusion_state: report.inclusion_state, ..recorded },
            ),
            spent_output_ids: if report.inclusion_state == InclusionState::Confirmed {
                result.spent_output_ids + consumed_outputs(recorded)
            } else {
                result.spent_output_ids
            },
            output_ids_to_unlock: if report.inclusion_state == InclusionState::Conflicting {
                result.output_ids_to_unlock + consumed_outputs(recorded)
            } else {
                result.output_ids_to_unlock
            },
        }
    }
}

/// What the reports, taken in order, mean for the account.
pub open spec fn reconciled(account: AccountView, reports: Seq<InclusionReport>) -> TransactionSyncView
    decreases reports.len(),
{
    if reports.len() == 0 {
        TransactionSyncView {
            updated_transactions: Seq::empty(),
            spent_output_ids: Seq::empty(),
            output_ids_to_unlock: Seq::empty(),
        }
    } else {
        with_report(reconciled(account, reports.drop_last()), account, reports.last())
    }
}

/// Appends the outputs that the transaction consumes.
fn collect_consumed(transaction: &Transaction, ids: &mut Vec<OutputId>)
    ensures
        final(ids)@ == old(ids)@ + consumed_outputs(*transaction),
{
    let ghost inputs = payload_inputs(transaction.payload);
    let count = input_count(&transaction.payload);
    let mut i: usize = 0;
    proof {
        assert(inputs.take(0) =~= Seq::empty());
        assert(ids@ =~= old(ids)@ + utxo_inputs(inputs.take(0)));
    }
    while i < count
        invariant
            i <= count,
            count == inputs.len(),
            inputs == payload_inputs(transaction.payload),
            ids@ == old(ids)@ + utxo_inputs(inputs.take(i as int)),
        decreases count - i,
    {
        proof {
            assert(inputs.take(i + 1).drop_last() =~= inputs.take(i as int));
            assert(inputs.take(i + 1).last() == inputs[i as int]);
        }
        if let Some(id) = input_at(&transaction.payload, i) {
            ids.push(id);
            proof {
                assert(ids@ =~= old(ids)@ + utxo_inputs(inputs.take(i + 1)));
            }
        }
        i += 1;
    }
    proof {
        assert(inputs.take(i as int) =~= inputs);
    }
}

impl Account {
    /// The transactions to ask the node about: the pending ones, in the
    /// order in which they became pending.
    pub fn pending_transaction_ids(&self) -> (ids: Vec<TransactionId>)
        ensures
            ids@ == self.pending_transactions.items(),
    {
        let mut ids: Vec<TransactionId> = Vec::new();
        let mut i: usize = 0;
        while i < self.pending_transactions.len()
            invariant
                i <= self.pending_transactions.items().len(),
                ids@ == self.pending_transactions.items().take(i as int),
            decreases self.pending_transactions.items().len() - i,
        {
            ids.push(self.pending_transactions.item_at(i));
            proof {
                assert(ids@ =~= self.pending_transactions.items().take(i + 1));
            }
            i += 1;
        }
        proof {
            assert(self.pending_transactions.items().take(i as int)
                =~= self.pending_transactions.items());
        }
        ids
    }

    /// Works out what the node's verdicts mean: which transactions changed
    /// their inclusion state, which outputs confirmed transactions spent,
    /// and which outputs conflicting transactions no longer hold locked.
    pub fn reconcile_pending_transactions(&self, reports: &Vec<InclusionReport>) -> (result:
        TransactionSyncResult)
        ensures
            result@ == reconciled(self@, reports@),
    {
        let mut result = TransactionSyncResult {
            updated_transactions: Vec::new(),
            spent_output_ids: Vec::new(),
            output_ids_to_unlock: Vec::new(),
        };
        let mut i: usize = 0;
        proof {
            assert(reports@.take(0) =~= Seq::empty());
        }
        while i < reports.len()
            invariant
                i <= reports.len(),
                result@ == reconciled(self@, reports@.take(i as int)),
            decreases reports.len() - i,
        {
            let report = reports[i];
            proof {
                assert(reports@.take(i + 1).drop_last() =~= reports@.take(i as int));
                assert(reports@.take(i + 1).last() == report);
            }
            if let Some(recorded) = self.transactions.get(&report.transaction_id) {
                if recorded.inclusion_state != report.inclusion_state {
                    result.updated_transactions.push(
                        Transaction {
                            payload: recorded.payload.clone(),
                            inclusion_state: report.inclusion_state,
                        },
                    );
                    if report.inclusion_state == InclusionState::Confirmed {
                        collect_consumed(recorded, &mut result.spent_output_ids);
                    }
                    if report.inclusion_state == InclusionState::Conflicting {
                        collect_consumed(recorded, &mut result.output_ids_to_unlock);
                    }
                }
            }
            i += 1;
        }
        proof {
            assert(reports@.take(i as int) =~= reports@);
        }
        result
    }
}

} // verus!
