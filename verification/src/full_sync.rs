//! A full sync taken as a whole.
//!
//! The node is a set of answers here: which outputs it lists for an address,
//! what it reports of an output, and its verdict on a transaction. Against
//! such a node a cycle that is not throttled comes to the merge with inputs
//! that depend on the account and the answers alone, and a second sync
//! leaves the account as the first one left it.

use crate::account::{Account, AccountView};
use crate::cycle::{Phase, SyncActionView, SyncCycleView, SyncEventView};
use crate::throttle::throttled;
use crate::addresses::{addresses_to_sync, first_record, known_ids, selected, sync_record};
use crate::invariants::{
    lemma_balances_after_merge, lemma_merge_again, lemma_merge_keeps_well_formed,
    lemma_selected_from_start,
};
use crate::merge::{
    mark_used, merged, rebuilt_balances, settled_ids, with_outputs, with_transactions,
};
use crate::seqs::{
    lemma_filter_keeps_none, lemma_filter_map_alike, lemma_flatten_empties, lemma_flatten_member,
    lemma_part_in_flatten,
};
use crate::outputs::{
    addresses_with_outputs, amount_of, known_amount, lost_outputs, missing_ids, output_data,
    unknown_ids, with_reported, AddressOutputsView,
};
use crate::transactions::{changed, reconciled, with_report, InclusionReport};
use crate::types::{
    AccountAddress, AddressBalanceView, InclusionState, OutputData, OutputResponse, SignerKind,
    SyncOptions, Transaction, TransactionSyncView,
};
use iota_client::bee_message::address::Address;
use iota_client::bee_message::output::OutputId;
use iota_client::bee_message::payload::transaction::TransactionId;
use vstd::prelude::*;

verus! {

/// What a node answers.
pub struct NodeView {
    /// The outputs that it lists for an address.
    pub listed: spec_fn(Address) -> Seq<OutputId>,
    /// What it reports of an output.
    pub output: spec_fn(OutputId) -> OutputResponse,
    /// Its verdict on a transaction.
    pub verdict: spec_fn(TransactionId) -> InclusionState,
}

impl NodeView {
    /// The node reports of each output under the identifier asked for.
    pub open spec fn wf(self) -> bool {
        forall|id: OutputId| (#[trigger] (self.output)(id)).output_id == id
    }

    /// The node's verdicts on the transactions.
    pub open spec fn inclusion_reports(self, ids: Seq<TransactionId>) -> Seq<InclusionReport> {
        ids.map_values(
            |t: TransactionId|
                InclusionReport { transaction_id: t, inclusion_state: (self.verdict)(t) },
        )
    }

    /// What the node lists for the selected addresses.
    pub open spec fn output_reports(self, selection: Seq<AddressBalanceView>) -> Seq<
        AddressOutputsView,
    > {
        selection.map_values(
            |a: AddressBalanceView|
                AddressOutputsView { address: a, output_ids: (self.listed)(a.address) },
        )
    }

    /// The records of the outputs of an address that have to be fetched.
    pub open spec fn fetched(
        self,
        known: Map<OutputId, OutputData>,
        address: AddressBalanceView,
    ) -> Seq<OutputData> {
        unknown_ids(known, address.output_ids).map_values(
            |id: OutputId| output_data((self.output)(id), address.address),
        )
    }

    /// What the outputs of an address add up to.
    pub open spec fn amount(
        self,
        known: Map<OutputId, OutputData>,
        address: AddressBalanceView,
    ) -> nat {
        amount_of(self.fetched(known, address)) + known_amount(known, address.output_ids)
    }

    /// The address with its amount.
    pub open spec fn completed(
        self,
        known: Map<OutputId, OutputData>,
        address: AddressBalanceView,
    ) -> AddressBalanceView {
        AddressBalanceView { amount: self.amount(known, address) as u64, ..address }
    }
}

/// The addresses that hold outputs at the node, of those that a sync of
/// the account selects.
pub open spec fn held_addresses(account: AccountView, options: SyncOptions, node: NodeView) -> Seq<
    AddressBalanceView,
> {
    addresses_with_outputs(node.output_reports(addresses_to_sync(account, options)))
}

/// What the reconciler finds, if the options let it run, when it asks
/// about the transactions in `pending`.
pub open spec fn reconciliation(
    account: AccountView,
    pending: Seq<TransactionId>,
    options: SyncOptions,
    node: NodeView,
) -> Option<TransactionSyncView> {
    if options.sync_pending_transactions {
        Some(reconciled(account, node.inclusion_reports(pending)))
    } else {
        None
    }
}

/// The account after a full sync against the node: the merge of what the
/// reconciler finds for the transactions in `pending`, of the addresses
/// that hold outputs, each with its amount, of the outputs that had to be
/// fetched and of the outputs that the addresses lost.
pub open spec fn synced(
    account: AccountView,
    pending: Seq<TransactionId>,
    options: SyncOptions,
    node: NodeView,
) -> AccountView {
    let held = held_addresses(account, options, node);
    merged(
        account,
        held.map_values(|a: AddressBalanceView| node.completed(account.outputs, a)),
        held.map_values(|a: AddressBalanceView| node.fetched(account.outputs, a)).flatten(),
        reconciliation(account, pending, options, node),
        lost_outputs(node.output_reports(addresses_to_sync(account, options))),
        options,
    )
}

/// Every transaction that the reconciler lists is a recorded one with the
/// node's verdict, which differs from the recorded one.
proof fn lemma_updates_carry_verdicts(
    account: AccountView,
    node: NodeView,
    ids: Seq<TransactionId>,
    k: int,
)
    requires
        0 <= k < reconciled(account, node.inclusion_reports(ids)).updated_transactions.len(),
    ensures
        ({
            let update = reconciled(account, node.inclusion_reports(ids)).updated_transactions[k];
            exists|t: TransactionId|
                #![trigger account.transactions.contains_key(t)]
                account.transactions.contains_key(t) && update == (Transaction {
                    inclusion_state: (node.verdict)(t),
                    ..account.transactions[t]
                })
        }),
    decreases ids.len(),
{
    let reports = node.inclusion_reports(ids);
    if ids.len() > 0 {
        assert(reports.drop_last() =~= node.inclusion_reports(ids.drop_last()));
        let rest = reconciled(account, reports.drop_last());
        let report = reports.last();
        if changed(account, report) && k == rest.updated_transactions.len() {
            assert(account.transactions.contains_key(report.transaction_id));
        } else {
            lemma_updates_carry_verdicts(account, node, ids.drop_last(), k);
        }
    }
}

/// A transaction whose recorded verdict differs from the node's is listed
/// by the reconciler.
proof fn lemma_changed_is_listed(
    account: AccountView,
    node: NodeView,
    ids: Seq<TransactionId>,
    j: int,
)
    requires
        0 <= j < ids.len(),
        account.transactions.contains_key(ids[j]),
        account.transactions[ids[j]].inclusion_state != (node.verdict)(ids[j]),
    ensures
        exists|k: int|
            0 <= k < reconciled(account, node.inclusion_reports(ids)).updated_transactions.len()
                && #[trigger] reconciled(
                account,
                node.inclusion_reports(ids),
            ).updated_transactions[k] == (Transaction {
                inclusion_state: (node.verdict)(ids[j]),
                ..account.transactions[ids[j]]
            }),
    decreases ids.len(),
{
    let reports = node.inclusion_reports(ids);
    assert(reports.drop_last() =~= node.inclusion_reports(ids.drop_last()));
    let rest = reconciled(account, reports.drop_last());
    let all = reconciled(account, reports);
    if j == ids.len() - 1 {
        assert(changed(account, reports.last()));
        let k = rest.updated_transactions.len() as int;
        assert(all.updated_transactions[k] == (Transaction {
            inclusion_state: (node.verdict)(ids[j]),
            ..account.transactions[ids[j]]
        }));
    } else {
        assert(ids.drop_last()[j] == ids[j]);
        lemma_changed_is_listed(account, node, ids.drop_last(), j);
        let k = choose|k: int|
            0 <= k < rest.updated_transactions.len() && #[trigger] rest.updated_transactions[k] == (
            Transaction {
                inclusion_state: (node.verdict)(ids[j]),
                ..account.transactions[ids[j]]
            });
        assert(all.updated_transactions[k] == rest.updated_transactions[k]);
    }
}

/// Where every update for a transaction carries one verdict, and the
/// transaction was recorded with that verdict unless there is an update
/// for it, it is recorded with that verdict afterwards.
proof fn lemma_recorded_verdict(
    map: Map<TransactionId, Transaction>,
    updates: Seq<Transaction>,
    id: TransactionId,
    verdict: InclusionState,
)
    requires
        forall|k: int|
            0 <= k < updates.len() && (#[trigger] updates[k]).id() == id
                ==> updates[k].inclusion_state == verdict,
        (exists|k: int| 0 <= k < updates.len() && (#[trigger] updates[k]).id() == id) || (
        map.contains_key(id) && map[id].inclusion_state == verdict),
    ensures
        with_transactions(map, updates).contains_key(id),
        with_transactions(map, updates)[id].inclusion_state == verdict,
    decreases updates.len(),
{
    if updates.len() > 0 {
        let rest = updates.drop_last();
        let last = updates.last();
        assert(last == updates[updates.len() - 1]);
        if last.id() != id {
            assert forall|k: int| 0 <= k < rest.len() && (#[trigger] rest[k]).id() == id implies 
                rest[k].inclusion_state == verdict by {
                assert(rest[k] == updates[k]);
            }
            if exists|k: int| 0 <= k < updates.len() && (#[trigger] updates[k]).id() == id {
                let k = choose|k: int| 0 <= k < updates.len() && (#[trigger] updates[k]).id() == id;
                assert(rest[k] == updates[k]);
            }
            lemma_recorded_verdict(map, rest, id, verdict);
        }
    }
}

/// Reports that agree with the account give the reconciler nothing to list.
proof fn lemma_nothing_to_reconcile(account: AccountView, reports: Seq<InclusionReport>)
    requires
        forall|i: int| 0 <= i < reports.len() ==> !changed(account, #[trigger] reports[i]),
    ensures
        reconciled(account, reports) == (TransactionSyncView {
            updated_transactions: Seq::empty(),
            spent_output_ids: Seq::empty(),
            output_ids_to_unlock: Seq::empty(),
        }),
    decreases reports.len(),
{
    if reports.len() > 0 {
        let rest = reports.drop_last();
        assert forall|i: int| 0 <= i < rest.len() implies !changed(account, #[trigger] rest[i]) by {
            assert(rest[i] == reports[i]);
        }
        lemma_nothing_to_reconcile(account, rest);
        assert(!changed(account, reports[reports.len() - 1]));
    }
}

/// After a sync in which the reconciler asked about every pending
/// transaction, every transaction that is still pending is recorded with
/// the node's verdict.
proof fn lemma_pending_agree(
    account: AccountView,
    pending: Seq<TransactionId>,
    node: NodeView,
    id: TransactionId,
)
    requires
        account.wf(),
        pending.to_set() == account.pending_transactions,
        account.pending_transactions.contains(id),
    ensures
        ({
            let updates = reconciled(account, node.inclusion_reports(pending)).updated_transactions;
            let after = with_transactions(account.transactions, updates);
            after.contains_key(id) && after[id].inclusion_state == (node.verdict)(id)
        }),
{
    let updates = reconciled(account, node.inclusion_reports(pending)).updated_transactions;
    assert forall|k: int| 0 <= k < updates.len() && (#[trigger] updates[k]).id() == id implies 
        updates[k].inclusion_state == (node.verdict)(id) by {
        lemma_updates_carry_verdicts(account, node, pending, k);
        let t = choose|t: TransactionId|
            #![trigger account.transactions.contains_key(t)]
            account.transactions.contains_key(t) && updates[k] == (Transaction {
                inclusion_state: (node.verdict)(t),
                ..account.transactions[t]
            });
        assert(account.transactions[t].id() == t);
        assert(updates[k].id() == t);
    }
    assert(account.transactions.contains_key(id));
    if account.transactions[id].inclusion_state != (node.verdict)(id) {
        assert(pending.to_set().contains(id));
        let j = pending.index_of(id);
        assert(pending[j] == id);
        lemma_changed_is_listed(account, node, pending, j);
        let k = choose|k: int|
            0 <= k < updates.len() && #[trigger] updates[k] == (Transaction {
                inclusion_state: (node.verdict)(id),
                ..account.transactions[id]
            });
        assert(account.transactions[id].id() == id);
        assert(updates[k].id() == id);
    }
    lemma_recorded_verdict(account.transactions, updates, id, (node.verdict)(id));
}

/// The transactions of an account after a sync, and which of them are
/// pending.
proof fn lemma_synced_transactions(
    account: AccountView,
    pending: Seq<TransactionId>,
    options: SyncOptions,
    node: NodeView,
)
    ensures
        ({
            let after = synced(account, pending, options, node);
            let updates = reconciled(account, node.inclusion_reports(pending)).updated_transactions;
            if options.sync_pending_transactions {
                &&& after.transactions == with_transactions(account.transactions, updates)
                &&& after.pending_transactions == account.pending_transactions.difference(
                    settled_ids(updates),
                )
            } else {
                &&& after.transactions == account.transactions
                &&& after.pending_transactions == account.pending_transactions
            }
        }),
{
}

/// After a sync the reconciler finds nothing when it runs again.
proof fn lemma_reconciled_again(
    account: AccountView,
    pending: Seq<TransactionId>,
    pending_after: Seq<TransactionId>,
    options: SyncOptions,
    node: NodeView,
)
    requires
        account.wf(),
        pending.to_set() == account.pending_transactions,
        pending_after.to_set() == synced(account, pending, options, node).pending_transactions,
    ensures
        reconciliation(synced(account, pending, options, node), pending_after, options, node)
            matches Some(result) ==> result.updated_transactions.len() == 0
            && result.spent_output_ids.len() == 0 && result.output_ids_to_unlock.len() == 0,
{
    let after = synced(account, pending, options, node);
    if options.sync_pending_transactions {
        lemma_synced_transactions(account, pending, options, node);
        let reports = node.inclusion_reports(pending_after);
        assert forall|i: int| 0 <= i < reports.len() implies !changed(
            after,
            #[trigger] reports[i],
        ) by {
            let id = pending_after[i];
            assert(pending_after.to_set().contains(id));
            assert(account.pending_transactions.contains(id));
            lemma_pending_agree(account, pending, node, id);
        }
        lemma_nothing_to_reconcile(after, reports);
    }
}

/// A record that is the first of its key is one of the records.
proof fn lemma_first_record_is_member(
    balances: Seq<AddressBalanceView>,
    key_index: u32,
    internal: bool,
)
    ensures
        first_record(balances, key_index, internal) matches Some(record) ==> balances.contains(
            record,
        ) && record.key_index == key_index && record.internal == internal,
    decreases balances.len(),
{
    if balances.len() > 0 {
        if balances[0].key_index == key_index && balances[0].internal == internal {
        } else {
            let rest = balances.drop_first();
            lemma_first_record_is_member(rest, key_index, internal);
            if let Some(record) = first_record(rest, key_index, internal) {
                let i = rest.index_of(record);
                assert(rest[i] == record);
                assert(balances[i + 1] == record);
            }
        }
    }
}

/// The sync record of an address without the outputs that the account
/// knew it to hold.
pub open spec fn blank_record(address: AccountAddress) -> AddressBalanceView {
    AddressBalanceView {
        address: address.address,
        key_index: address.key_index,
        internal: address.internal,
        amount: 0,
        output_ids: Seq::empty(),
    }
}

/// A record without its outputs.
pub open spec fn blank(record: AddressBalanceView) -> AddressBalanceView {
    AddressBalanceView { output_ids: Seq::empty(), ..record }
}

/// Every address that a sync selects is an address of the account, of the
/// kind and with the key index of the selected record, at or above the
/// start index.
proof fn lemma_selected_is_address(account: AccountView, options: SyncOptions, j: int)
    requires
        account.wf(),
        0 <= j < addresses_to_sync(account, options).len(),
    ensures
        ({
            let record = addresses_to_sync(account, options)[j];
            exists|i: int|
                0 <= i < account.addresses_of(record.internal).len() && blank_record(
                    #[trigger] account.addresses_of(record.internal)[i],
                ) == blank(record) && record.key_index >= options.address_start_index
        }),
{
    let start = options.address_start_index;
    let wanted = |a: AccountAddress| a.key_index >= start;
    let public = account.public_addresses.filter(wanted);
    let internal = account.internal_addresses.filter(wanted);
    let record = addresses_to_sync(account, options)[j];
    if j < public.len() {
        let x = public[j];
        assert(public.contains(x));
        account.public_addresses.lemma_filter_contains_rev(wanted, x);
        account.public_addresses.lemma_filter_pred(wanted, j);
        let i = account.public_addresses.index_of(x);
        assert(account.public_addresses[i] == x);
        assert(!x.internal);
        assert(account.addresses_of(record.internal)[i] == x);
    } else {
        let x = internal[j - public.len()];
        assert(internal.contains(x));
        account.internal_addresses.lemma_filter_contains_rev(wanted, x);
        account.internal_addresses.lemma_filter_pred(wanted, j - public.len());
        let i = account.internal_addresses.index_of(x);
        assert(account.internal_addresses[i] == x);
        assert(x.internal);
        assert(account.addresses_of(record.internal)[i] == x);
    }
}

/// Two selected records with one key index and kind are of one address.
proof fn lemma_selected_same_address(account: AccountView, options: SyncOptions, j: int, k: int)
    requires
        account.wf(),
        0 <= j < addresses_to_sync(account, options).len(),
        0 <= k < addresses_to_sync(account, options).len(),
        addresses_to_sync(account, options)[j].key_index == addresses_to_sync(
            account,
            options,
        )[k].key_index,
        addresses_to_sync(account, options)[j].internal == addresses_to_sync(
            account,
            options,
        )[k].internal,
    ensures
        addresses_to_sync(account, options)[j].address == addresses_to_sync(
            account,
            options,
        )[k].address,
{
    let first = addresses_to_sync(account, options)[j];
    let second = addresses_to_sync(account, options)[k];
    let list = account.addresses_of(first.internal);
    lemma_selected_is_address(account, options, j);
    lemma_selected_is_address(account, options, k);
    let a = choose|i: int|
        0 <= i < list.len() && blank_record(#[trigger] list[i]) == blank(first)
            && first.key_index >= options.address_start_index;
    let b = choose|i: int|
        0 <= i < list.len() && blank_record(#[trigger] list[i]) == blank(second)
            && second.key_index >= options.address_start_index;
    assert(list[a].key_index == list[b].key_index);
    if a < b {
        assert(list[a].key_index < list[b].key_index);
    }
    if b < a {
        assert(list[b].key_index < list[a].key_index);
    }
}

/// The selected records of a list of addresses, without their outputs,
/// are the blank records of the addresses at or above the start index.
proof fn lemma_selected_blank(
    addresses: Seq<AccountAddress>,
    balances: Seq<AddressBalanceView>,
    start_index: u32,
)
    ensures
        selected(addresses, balances, start_index).map_values(|r: AddressBalanceView| blank(r))
            == addresses.filter(|a: AccountAddress| a.key_index >= start_index).map_values(
            |a: AccountAddress| blank_record(a),
        ),
{
    assert(selected(addresses, balances, start_index).map_values(|r: AddressBalanceView| blank(r))
        =~= addresses.filter(|a: AccountAddress| a.key_index >= start_index).map_values(
        |a: AccountAddress| blank_record(a),
    ));
}

/// Marking addresses used does not alter what a sync selects, apart from
/// the outputs that the account knows the addresses to hold.
proof fn lemma_selection_alike(
    account: AccountView,
    after: AccountView,
    marked: Seq<AddressBalanceView>,
    options: SyncOptions,
)
    requires
        after.public_addresses == mark_used(account.public_addresses, marked),
        after.internal_addresses == mark_used(account.internal_addresses, marked),
    ensures
        addresses_to_sync(after, options).map_values(|r: AddressBalanceView| blank(r))
            == addresses_to_sync(account, options).map_values(|r: AddressBalanceView| blank(r)),
{
    let start = options.address_start_index;
    let wanted = |a: AccountAddress| a.key_index >= start;
    let blanked = |a: AccountAddress| blank_record(a);
    let strip = |r: AddressBalanceView| blank(r);
    lemma_selected_blank(account.public_addresses, account.addresses_with_balance, start);
    lemma_selected_blank(account.internal_addresses, account.addresses_with_balance, start);
    lemma_selected_blank(after.public_addresses, after.addresses_with_balance, start);
    lemma_selected_blank(after.internal_addresses, after.addresses_with_balance, start);
    lemma_filter_map_alike(
        account.public_addresses,
        after.public_addresses,
        wanted,
        wanted,
        blanked,
        blanked,
    );
    lemma_filter_map_alike(
        account.internal_addresses,
        after.internal_addresses,
        wanted,
        wanted,
        blanked,
        blanked,
    );
    let p1 = selected(account.public_addresses, account.addresses_with_balance, start);
    let i1 = selected(account.internal_addresses, account.addresses_with_balance, start);
    let p2 = selected(after.public_addresses, after.addresses_with_balance, start);
    let i2 = selected(after.internal_addresses, after.addresses_with_balance, start);
    assert((p1 + i1).map_values(strip) =~= p1.map_values(strip) + i1.map_values(strip));
    assert((p2 + i2).map_values(strip) =~= p2.map_values(strip) + i2.map_values(strip));
}

/// Where two selections differ only in the outputs that the account knows
/// the addresses to hold, the node lists outputs for the same addresses.
proof fn lemma_held_alike(
    first: Seq<AddressBalanceView>,
    second: Seq<AddressBalanceView>,
    node: NodeView,
)
    requires
        first.map_values(|r: AddressBalanceView| blank(r)) == second.map_values(
            |r: AddressBalanceView| blank(r),
        ),
    ensures
        addresses_with_outputs(node.output_reports(second)) == addresses_with_outputs(
            node.output_reports(first),
        ),
{
    let strip = |r: AddressBalanceView| blank(r);
    let holds = |r: AddressOutputsView| r.output_ids.len() > 0;
    let listed = |r: AddressOutputsView| with_reported(r);
    let r1 = node.output_reports(first);
    let r2 = node.output_reports(second);
    assert(first.len() == first.map_values(strip).len());
    assert(second.len() == second.map_values(strip).len());
    assert forall|i: int| 0 <= i < r1.len() implies holds(#[trigger] r1[i]) == holds(r2[i])
        && listed(r1[i]) == listed(r2[i]) by {
        assert(first.map_values(strip)[i] == second.map_values(strip)[i]);
        assert(blank(first[i]) == blank(second[i]));
    }
    lemma_filter_map_alike(r1, r2, holds, holds, listed, listed);
}

/// An address that holds outputs at the node is one of the selected
/// addresses, with the outputs that the node lists for it.
proof fn lemma_held_is_selected(selection: Seq<AddressBalanceView>, node: NodeView, m: int)
    requires
        0 <= m < addresses_with_outputs(node.output_reports(selection)).len(),
    ensures
        exists|j: int|
            0 <= j < selection.len() && addresses_with_outputs(
                node.output_reports(selection),
            )[m] == (AddressBalanceView {
                output_ids: (node.listed)(selection[j].address),
                ..#[trigger] selection[j]
            }),
{
    let reports = node.output_reports(selection);
    let holds = |r: AddressOutputsView| r.output_ids.len() > 0;
    let report = reports.filter(holds)[m];
    assert(reports.filter(holds).contains(report));
    reports.lemma_filter_contains_rev(holds, report);
    let j = reports.index_of(report);
    assert(reports[j] == report);
    assert(addresses_with_outputs(reports)[m] == with_reported(report));
    assert(with_reported(report) == (AddressBalanceView {
        output_ids: (node.listed)(selection[j].address),
        ..selection[j]
    }));
}

/// The addresses of an account after a sync, and its address records.
proof fn lemma_synced_addresses(
    account: AccountView,
    pending: Seq<TransactionId>,
    options: SyncOptions,
    node: NodeView,
)
    ensures
        ({
            let after = synced(account, pending, options, node);
            let held = held_addresses(account, options, node).map_values(
                |a: AddressBalanceView| node.completed(account.outputs, a),
            );
            &&& after.public_addresses == mark_used(account.public_addresses, held)
            &&& after.internal_addresses == mark_used(account.internal_addresses, held)
            &&& after.addresses_with_balance == rebuilt_balances(
                account.addresses_with_balance,
                held,
                options.address_start_index,
            )
        }),
{
}

/// A selected record holds the outputs that the account knew its address
/// to hold.
proof fn lemma_selected_outputs(account: AccountView, options: SyncOptions, j: int)
    requires
        0 <= j < addresses_to_sync(account, options).len(),
    ensures
        ({
            let record = addresses_to_sync(account, options)[j];
            record.output_ids == known_ids(
                account.addresses_with_balance,
                record.key_index,
                record.internal,
            )
        }),
{
    let start = options.address_start_index;
    let wanted = |a: AccountAddress| a.key_index >= start;
    let public = account.public_addresses.filter(wanted);
    let internal = account.internal_addresses.filter(wanted);
    if j < public.len() {
        assert(addresses_to_sync(account, options)[j] == sync_record(
            public[j],
            account.addresses_with_balance,
        ));
    } else {
        assert(addresses_to_sync(account, options)[j] == sync_record(
            internal[j - public.len()],
            account.addresses_with_balance,
        ));
    }
}

/// After a sync the account knows every selected address to hold what
/// the node lists for it, or nothing where the node lists nothing.
proof fn lemma_known_are_listed(
    account: AccountView,
    pending: Seq<TransactionId>,
    options: SyncOptions,
    node: NodeView,
    j: int,
)
    requires
        account.wf(),
        0 <= j < addresses_to_sync(synced(account, pending, options, node), options).len(),
    ensures
        ({
            let record = addresses_to_sync(synced(account, pending, options, node), options)[j];
            record.output_ids.len() == 0 || record.output_ids == (node.listed)(record.address)
        }),
{
    let after = synced(account, pending, options, node);
    let start = options.address_start_index;
    let first = addresses_to_sync(account, options);
    let second = addresses_to_sync(after, options);
    let record = second[j];
    let held = held_addresses(account, options, node);
    let done = held.map_values(|a: AddressBalanceView| node.completed(account.outputs, a));
    let below = |a: AddressBalanceView| a.key_index < start;
    let kept = account.addresses_with_balance.filter(below);
    let strip = |r: AddressBalanceView| blank(r);
    lemma_synced_addresses(account, pending, options, node);
    lemma_selection_alike(account, after, done, options);
    assert(first.len() == first.map_values(strip).len());
    assert(second.len() == second.map_values(strip).len());
    assert(first.map_values(strip)[j] == second.map_values(strip)[j]);
    assert(blank(first[j]) == blank(record));
    lemma_selected_outputs(after, options, j);
    lemma_selected_from_start(after, options);
    lemma_first_record_is_member(after.addresses_with_balance, record.key_index, record.internal);
    if let Some(found) = first_record(
        after.addresses_with_balance,
        record.key_index,
        record.internal,
    ) {
        let at = after.addresses_with_balance.index_of(found);
        assert(after.addresses_with_balance[at] == found);
        assert(after.addresses_with_balance == kept + done);
        if at < kept.len() {
            account.addresses_with_balance.lemma_filter_pred(below, at);
            assert(below(kept[at]));
        } else {
            let m = at - kept.len();
            assert(found == node.completed(account.outputs, held[m]));
            lemma_held_is_selected(first, node, m);
            let k = choose|k: int|
                0 <= k < first.len() && held[m] == (AddressBalanceView {
                    output_ids: (node.listed)(first[k].address),
                    ..#[trigger] first[k]
                });
            lemma_selected_same_address(account, options, j, k);
        }
    }
}

/// After a sync no address has lost an output when the node is asked again.
proof fn lemma_nothing_lost(
    account: AccountView,
    pending: Seq<TransactionId>,
    options: SyncOptions,
    node: NodeView,
)
    requires
        account.wf(),
    ensures
        lost_outputs(
            node.output_reports(
                addresses_to_sync(synced(account, pending, options, node), options),
            ),
        ) == Seq::<OutputId>::empty(),
{
    let after = synced(account, pending, options, node);
    let second = addresses_to_sync(after, options);
    let reports = node.output_reports(second);
    let parts = reports.map_values(
        |r: AddressOutputsView| missing_ids(r.address.output_ids, r.output_ids),
    );
    assert forall|j: int| 0 <= j < parts.len() implies (#[trigger] parts[j]).len() == 0 by {
        lemma_known_are_listed(account, pending, options, node, j);
        let known = second[j].output_ids;
        let listed = (node.listed)(second[j].address);
        let gone = |id: OutputId| !listed.contains(id);
        assert(parts[j] == known.filter(gone));
        assert forall|i: int| 0 <= i < known.len() implies !gone(#[trigger] known[i]) by {
            assert(listed[i] == known[i]);
        }
        lemma_filter_keeps_none(known, gone);
    }
    lemma_flatten_empties(parts);
}

/// The outputs that a sync fetches.
pub open spec fn all_fetched(account: AccountView, options: SyncOptions, node: NodeView) -> Seq<
    OutputData,
> {
    held_addresses(account, options, node).map_values(
        |a: AddressBalanceView| node.fetched(account.outputs, a),
    ).flatten()
}

/// A fetched record is of an output that the account had no record of, and
/// carries the amount that the node reports of that output.
proof fn lemma_fetched_record(
    account: AccountView,
    options: SyncOptions,
    node: NodeView,
    i: int,
)
    requires
        node.wf(),
        0 <= i < all_fetched(account, options, node).len(),
    ensures
        ({
            let record = all_fetched(account, options, node)[i];
            !account.outputs.contains_key(record.output_id) && record.amount == (node.output)(
                record.output_id,
            ).amount
        }),
{
    let held = held_addresses(account, options, node);
    let parts = held.map_values(|a: AddressBalanceView| node.fetched(account.outputs, a));
    lemma_flatten_member(parts, i);
    let (m, n) = choose|m: int, n: int|
        0 <= m < parts.len() && 0 <= n < parts[m].len() && #[trigger] parts[m][n]
            == parts.flatten()[i];
    let fresh = |id: OutputId| !account.outputs.contains_key(id);
    let ids = held[m].output_ids;
    assert(parts[m] == node.fetched(account.outputs, held[m]));
    ids.lemma_filter_pred(fresh, n);
    let id = ids.filter(fresh)[n];
    assert(parts[m][n] == output_data((node.output)(id), held[m].address));
    assert((node.output)(id).output_id == id);
}

/// An output that the node lists for an address and that the account had
/// no record of is among the fetched ones.
proof fn lemma_unknown_is_fetched(
    account: AccountView,
    options: SyncOptions,
    node: NodeView,
    m: int,
    n: int,
)
    requires
        node.wf(),
        0 <= m < held_addresses(account, options, node).len(),
        0 <= n < held_addresses(account, options, node)[m].output_ids.len(),
        !account.outputs.contains_key(held_addresses(account, options, node)[m].output_ids[n]),
    ensures
        exists|i: int|
            0 <= i < all_fetched(account, options, node).len() && (#[trigger] all_fetched(
                account,
                options,
                node,
            )[i]).output_id == held_addresses(account, options, node)[m].output_ids[n],
{
    let held = held_addresses(account, options, node);
    let parts = held.map_values(|a: AddressBalanceView| node.fetched(account.outputs, a));
    let fresh = |id: OutputId| !account.outputs.contains_key(id);
    let ids = held[m].output_ids;
    let id = ids[n];
    ids.lemma_filter_contains(fresh, n);
    let at = ids.filter(fresh).index_of(id);
    assert(ids.filter(fresh)[at] == id);
    assert(parts[m] == node.fetched(account.outputs, held[m]));
    assert(parts[m][at] == output_data((node.output)(id), held[m].address));
    assert((node.output)(id).output_id == id);
    lemma_part_in_flatten(parts, m, at);
    let i = parts.flatten().index_of(parts[m][at]);
    assert(parts.flatten()[i] == parts[m][at]);
    assert(all_fetched(account, options, node)[i].output_id == id);
}

/// The record of an output after records were taken in is the one that the
/// map held if none of them is of that output, and one of them otherwise.
proof fn lemma_with_outputs_value(
    map: Map<OutputId, OutputData>,
    outputs: Seq<OutputData>,
    id: OutputId,
)
    ensures
        (forall|i: int| 0 <= i < outputs.len() ==> (#[trigger] outputs[i]).output_id != id)
            ==> with_outputs(map, outputs).contains_key(id) == map.contains_key(id)
            && with_outputs(map, outputs)[id] == map[id],
        (exists|i: int| 0 <= i < outputs.len() && (#[trigger] outputs[i]).output_id == id)
            ==> with_outputs(map, outputs).contains_key(id) && exists|i: int|
            0 <= i < outputs.len() && (#[trigger] outputs[i]).output_id == id && with_outputs(
                map,
                outputs,
            )[id] == outputs[i],
    decreases outputs.len(),
{
    if outputs.len() > 0 {
        let rest = outputs.drop_last();
        let last = outputs.last();
        assert(last == outputs[outputs.len() - 1]);
        lemma_with_outputs_value(map, rest, id);
        if forall|i: int| 0 <= i < outputs.len() ==> (#[trigger] outputs[i]).output_id != id {
            assert forall|i: int| 0 <= i < rest.len() implies (#[trigger] rest[i]).output_id
                != id by {
                assert(rest[i] == outputs[i]);
            }
        }
        if exists|i: int| 0 <= i < outputs.len() && (#[trigger] outputs[i]).output_id == id {
            if last.output_id != id {
                let i = choose|i: int|
                    0 <= i < outputs.len() && (#[trigger] outputs[i]).output_id == id;
                assert(rest[i] == outputs[i]);
                let k = choose|k: int|
                    0 <= k < rest.len() && (#[trigger] rest[k]).output_id == id && with_outputs(
                        map,
                        rest,
                    )[id] == rest[k];
                assert(outputs[k] == rest[k]);
            }
        }
    }
}

/// After a sync the account has a record of every output that the node
/// lists for an address that holds outputs. The record carries the amount
/// that the account had recorded before, or the amount that the node
/// reports where the account had no record.
proof fn lemma_recorded_after(
    account: AccountView,
    pending: Seq<TransactionId>,
    options: SyncOptions,
    node: NodeView,
    m: int,
    n: int,
)
    requires
        node.wf(),
        0 <= m < held_addresses(account, options, node).len(),
        0 <= n < held_addresses(account, options, node)[m].output_ids.len(),
    ensures
        ({
            let id = held_addresses(account, options, node)[m].output_ids[n];
            let after = synced(account, pending, options, node).outputs;
            &&& after.contains_key(id)
            &&& after[id].amount == if account.outputs.contains_key(id) {
                account.outputs[id].amount
            } else {
                (node.output)(id).amount
            }
        }),
{
    let id = held_addresses(account, options, node)[m].output_ids[n];
    let fetched = all_fetched(account, options, node);
    let recorded = with_outputs(account.outputs, fetched);
    lemma_with_outputs_value(account.outputs, fetched, id);
    if account.outputs.contains_key(id) {
        assert forall|i: int| 0 <= i < fetched.len() implies (#[trigger] fetched[i]).output_id
            != id by {
            lemma_fetched_record(account, options, node, i);
        }
    } else {
        lemma_unknown_is_fetched(account, options, node, m, n);
        let i = choose|i: int|
            0 <= i < fetched.len() && (#[trigger] fetched[i]).output_id == id && recorded[id]
                == fetched[i];
        lemma_fetched_record(account, options, node, i);
    }
    assert(recorded.contains_key(id));
    let after = synced(account, pending, options, node).outputs;
    assert(after.contains_key(id) && after[id].amount == recorded[id].amount);
}

/// Where the account has a record of every listed output, none is left
/// to fetch, and the recorded amounts add up to what the outputs that were
/// unknown before carry at the node plus what was known before.
proof fn lemma_all_known(
    before: Map<OutputId, OutputData>,
    after: Map<OutputId, OutputData>,
    ids: Seq<OutputId>,
    node: NodeView,
    address: Address,
)
    requires
        forall|n: int|
            0 <= n < ids.len() ==> after.contains_key(#[trigger] ids[n]) && after[ids[n]].amount
                == if before.contains_key(ids[n]) {
                before[ids[n]].amount
            } else {
                (node.output)(ids[n]).amount
            },
    ensures
        unknown_ids(after, ids) == Seq::<OutputId>::empty(),
        known_amount(after, ids) == amount_of(
            unknown_ids(before, ids).map_values(
                |id: OutputId| output_data((node.output)(id), address),
            ),
        ) + known_amount(before, ids),
    decreases ids.len(),
{
    let fresh_after = |id: OutputId| !after.contains_key(id);
    let fresh = |id: OutputId| !before.contains_key(id);
    let record = |id: OutputId| output_data((node.output)(id), address);
    lemma_filter_keeps_none(ids, fresh_after);
    if ids.len() > 0 {
        let rest = ids.drop_last();
        let last = ids.last();
        assert(last == ids[ids.len() - 1]);
        assert forall|n: int| 0 <= n < rest.len() implies after.contains_key(#[trigger] rest[n])
            && after[rest[n]].amount == if before.contains_key(rest[n]) {
            before[rest[n]].amount
        } else {
            (node.output)(rest[n]).amount
        } by {
            assert(rest[n] == ids[n]);
        }
        lemma_all_known(before, after, rest, node, address);
        assert(rest.push(last) =~= ids);
        rest.lemma_filter_push(last, fresh);
        if !before.contains_key(last) {
            assert(rest.filter(fresh).push(last).map_values(record) =~= rest.filter(
                fresh,
            ).map_values(record).push(record(last)));
            assert(rest.filter(fresh).map_values(record).push(record(last)).drop_last()
                =~= rest.filter(fresh).map_values(record));
        }
    } else {
        assert(unknown_ids(before, ids).map_values(record) =~= Seq::<OutputData>::empty());
    }
}

/// After a sync the node lists outputs for the same addresses as before.
proof fn lemma_held_again(
    account: AccountView,
    pending: Seq<TransactionId>,
    options: SyncOptions,
    node: NodeView,
)
    ensures
        held_addresses(synced(account, pending, options, node), options, node) == held_addresses(
            account,
            options,
            node,
        ),
{
    let after = synced(account, pending, options, node);
    let done = held_addresses(account, options, node).map_values(
        |a: AddressBalanceView| node.completed(account.outputs, a),
    );
    lemma_synced_addresses(account, pending, options, node);
    lemma_selection_alike(account, after, done, options);
    lemma_held_alike(
        addresses_to_sync(account, options),
        addresses_to_sync(after, options),
        node,
    );
}

/// After a sync nothing is left to fetch for an address that holds
/// outputs, and its amount is what it was.
proof fn lemma_address_again(
    account: AccountView,
    pending: Seq<TransactionId>,
    options: SyncOptions,
    node: NodeView,
    m: int,
)
    requires
        node.wf(),
        0 <= m < held_addresses(account, options, node).len(),
    ensures
        ({
            let after = synced(account, pending, options, node);
            let address = held_addresses(account, options, node)[m];
            &&& node.fetched(after.outputs, address) == Seq::<OutputData>::empty()
            &&& node.amount(after.outputs, address) == node.amount(account.outputs, address)
            &&& node.completed(after.outputs, address) == node.completed(
                account.outputs,
                address,
            )
        }),
{
    let after = synced(account, pending, options, node);
    let address = held_addresses(account, options, node)[m];
    let ids = address.output_ids;
    assert forall|n: int| 0 <= n < ids.len() implies after.outputs.contains_key(#[trigger] ids[n])
        && after.outputs[ids[n]].amount == if account.outputs.contains_key(ids[n]) {
        account.outputs[ids[n]].amount
    } else {
        (node.output)(ids[n]).amount
    } by {
        lemma_recorded_after(account, pending, options, node, m, n);
    }
    lemma_all_known(account.outputs, after.outputs, ids, node, address.address);
    assert(node.fetched(after.outputs, address) =~= Seq::<OutputData>::empty());
    assert(amount_of(Seq::<OutputData>::empty()) == 0);
}

/// Every address that holds outputs at the node lies at or above the
/// start index.
proof fn lemma_held_from_start(account: AccountView, options: SyncOptions, node: NodeView)
    ensures
        forall|m: int|
            0 <= m < held_addresses(account, options, node).len() ==> (#[trigger] held_addresses(
                account,
                options,
                node,
            )[m]).key_index >= options.address_start_index,
{
    let held = held_addresses(account, options, node);
    let selection = addresses_to_sync(account, options);
    lemma_selected_from_start(account, options);
    assert forall|m: int| 0 <= m < held.len() implies (#[trigger] held[m]).key_index
        >= options.address_start_index by {
        lemma_held_is_selected(selection, node, m);
        let j = choose|j: int|
            0 <= j < selection.len() && held[m] == (AddressBalanceView {
                output_ids: (node.listed)(selection[j].address),
                ..#[trigger] selection[j]
            });
        assert(selection[j].key_index >= options.address_start_index);
    }
}

/// A second sync against a node that answers as it did for the first one
/// leaves the account as the first one left it. Each sync asks the
/// reconciler about the transactions that are pending when it starts.
pub proof fn lemma_sync_twice(
    account: AccountView,
    pending: Seq<TransactionId>,
    pending_after: Seq<TransactionId>,
    options: SyncOptions,
    node: NodeView,
)
    requires
        account.wf(),
        node.wf(),
        pending.to_set() == account.pending_transactions,
        pending_after.to_set() == synced(account, pending, options, node).pending_transactions,
    ensures
        synced(synced(account, pending, options, node), pending_after, options, node) == synced(
            account,
            pending,
            options,
            node,
        ),
{
    let once = synced(account, pending, options, node);
    let held = held_addresses(account, options, node);
    let done = held.map_values(|a: AddressBalanceView| node.completed(account.outputs, a));
    let done_again = held.map_values(|a: AddressBalanceView| node.completed(once.outputs, a));
    let parts_again = held.map_values(|a: AddressBalanceView| node.fetched(once.outputs, a));
    lemma_held_again(account, pending, options, node);
    assert forall|m: int| 0 <= m < held.len() implies #[trigger] done_again[m] == done[m] by {
        lemma_address_again(account, pending, options, node, m);
    }
    assert forall|m: int| 0 <= m < held.len() implies (#[trigger] parts_again[m]).len() == 0 by {
        lemma_address_again(account, pending, options, node, m);
    }
    assert(done_again =~= done);
    lemma_flatten_empties(parts_again);
    lemma_nothing_lost(account, pending, options, node);
    lemma_reconciled_again(account, pending, pending_after, options, node);
    lemma_held_from_start(account, options, node);
    assert forall|j: int| 0 <= j < done.len() implies (#[trigger] done[j]).key_index
        >= options.address_start_index by {
        assert(done[j].key_index == held[j].key_index);
    }
    lemma_merge_again(
        account,
        done,
        all_fetched(account, options, node),
        reconciliation(account, pending, options, node),
        lost_outputs(node.output_reports(addresses_to_sync(account, options))),
        options,
        reconciliation(once, pending_after, options, node),
    );
}

impl NodeView {
    /// What comes back when the action is carried out: the node's answer,
    /// or the end of the consolidation.
    pub open spec fn answer(self, action: SyncActionView) -> SyncEventView {
        match action {
            SyncActionView::QueryInclusionStates(ids) => SyncEventView::InclusionStates(
                self.inclusion_reports(ids),
            ),
            SyncActionView::QueryOutputIds(selection) => SyncEventView::OutputIds(
                self.output_reports(selection),
            ),
            SyncActionView::FetchOutputs(ids) => SyncEventView::Outputs(
                ids.map_values(|id: OutputId| (self.output)(id)),
            ),
            _ => SyncEventView::Consolidated,
        }
    }
}

/// Whether the action is a question to the node or the call of the
/// consolidation routine.
pub open spec fn asks_outside(action: SyncActionView) -> bool {
    action.calls_node() || action is Consolidate
}

/// The cycle after at most `steps` actions were carried out against the
/// node, up to the first action that is neither a question to the node
/// nor the consolidation.
pub open spec fn run(
    cycle: SyncCycleView,
    action: SyncActionView,
    account: Account,
    node: NodeView,
    steps: nat,
) -> (SyncCycleView, SyncActionView)
    decreases steps,
{
    if steps == 0 || !asks_outside(action) {
        (cycle, action)
    } else {
        let next = cycle.advanced(account, node.answer(action));
        run(next.0, next.1, account, node, (steps - 1) as nat)
    }
}

/// Whether the amount of every address that holds outputs fits in 64 bits.
pub open spec fn amounts_fit(account: AccountView, options: SyncOptions, node: NodeView) -> bool {
    forall|m: int|
        0 <= m < held_addresses(account, options, node).len() ==> node.amount(
            account.outputs,
            #[trigger] held_addresses(account, options, node)[m],
        ) <= u64::MAX
}

/// What is known of an address adds up to at most its amount.
proof fn lemma_known_at_most_amount(
    node: NodeView,
    known: Map<OutputId, OutputData>,
    address: AddressBalanceView,
)
    ensures
        known_amount(known, address.output_ids) <= node.amount(known, address),
{
}

/// From the fetch of one address on, a cycle whose amounts fit takes in
/// the remaining addresses and their outputs, and then asks for the merge.
proof fn lemma_fetch_run(cycle: SyncCycleView, account: Account, node: NodeView, steps: nat)
    requires
        cycle.phase == Phase::Outputs,
        cycle.position < cycle.addresses.len(),
        cycle.known_balance == known_amount(
            account@.outputs,
            cycle.addresses[cycle.position as int].output_ids,
        ),
        forall|m: int|
            0 <= m < cycle.addresses.len() ==> node.amount(
                account@.outputs,
                #[trigger] cycle.addresses[m],
            ) <= u64::MAX,
        cycle.addresses_with_balance == cycle.addresses.take(cycle.position as int).map_values(
            |a: AddressBalanceView| node.completed(account@.outputs, a),
        ),
        cycle.all_outputs == cycle.addresses.take(cycle.position as int).map_values(
            |a: AddressBalanceView| node.fetched(account@.outputs, a),
        ).flatten(),
        steps >= cycle.addresses.len() - cycle.position + 1,
    ensures
        ({
            let (end, action) = run(
                cycle,
                SyncActionView::FetchOutputs(
                    unknown_ids(
                        account@.outputs,
                        cycle.addresses[cycle.position as int].output_ids,
                    ),
                ),
                account,
                node,
                steps,
            );
            &&& action == SyncActionView::Merge
            &&& end.phase == Phase::Merge
            &&& end.options == cycle.options
            &&& end.transaction_sync_result == cycle.transaction_sync_result
            &&& end.spent_outputs == cycle.spent_outputs
            &&& end.addresses_with_balance == cycle.addresses.map_values(
                |a: AddressBalanceView| node.completed(account@.outputs, a),
            )
            &&& end.all_outputs == cycle.addresses.map_values(
                |a: AddressBalanceView| node.fetched(account@.outputs, a),
            ).flatten()
        }),
    decreases cycle.addresses.len() - cycle.position,
{
    let held = cycle.addresses;
    let p = cycle.position as int;
    let address = held[p];
    let known = account@.outputs;
    let complete = |a: AddressBalanceView| node.completed(known, a);
    let fetch = |a: AddressBalanceView| node.fetched(known, a);
    let ids = unknown_ids(known, address.output_ids);
    let action = SyncActionView::FetchOutputs(ids);
    let responses = ids.map_values(|id: OutputId| (node.output)(id));
    let outputs = responses.map_values(|r: OutputResponse| output_data(r, address.address));
    assert(node.answer(action) == SyncEventView::Outputs(responses));
    assert(outputs =~= node.fetched(known, address));
    assert(node.amount(known, address) <= u64::MAX);
    let taken = SyncCycleView {
        position: cycle.position + 1,
        addresses_with_balance: cycle.addresses_with_balance.push(complete(address)),
        all_outputs: cycle.all_outputs + outputs,
        ..cycle
    };
    let next = cycle.advanced(account, node.answer(action));
    assert(next == cycle.complete(account, responses));
    assert(next == taken.fetch_next(account));
    assert(held.take(p + 1) =~= held.take(p).push(address));
    assert(taken.addresses_with_balance =~= held.take(p + 1).map_values(complete));
    assert(taken.all_outputs == held.take(p + 1).map_values(fetch).flatten()) by {
        assert(held.take(p + 1).map_values(fetch) =~= held.take(p).map_values(fetch).push(
            fetch(address),
        ));
        held.take(p).map_values(fetch).lemma_flatten_push(fetch(address));
    }
    assert(asks_outside(action));
    assert(run(cycle, action, account, node, steps) == run(
        next.0,
        next.1,
        account,
        node,
        (steps - 1) as nat,
    ));
    if p + 1 < held.len() {
        lemma_known_at_most_amount(node, known, held[p + 1]);
        assert(node.amount(known, held[p + 1]) <= u64::MAX);
        lemma_fetch_run(next.0, account, node, (steps - 1) as nat);
    } else {
        assert(held.take(p + 1) =~= held);
        assert(next == taken.before_merge());
        if asks_outside(next.1) {
            let last = next.0.advanced(account, node.answer(next.1));
            assert(run(next.0, next.1, account, node, (steps - 1) as nat) == run(
                last.0,
                last.1,
                account,
                node,
                (steps - 2) as nat,
            ));
            assert(!asks_outside(last.1));
        }
    }
}

/// A sync that is not throttled, against a node whose amounts fit, comes
/// to the merge, and what it merges into the account is what `synced` says.
pub proof fn lemma_cycle_syncs(
    options: SyncOptions,
    signer: SignerKind,
    last_synced: u128,
    now: u128,
    account: Account,
    node: NodeView,
)
    requires
        account.wf(),
        !throttled(now, last_synced, options.force_syncing),
        amounts_fit(account@, options, node),
    ensures
        ({
            let start = SyncCycleView::fresh(Some(options), signer, last_synced).advanced(
                account,
                SyncEventView::Started { now },
            );
            let (end, action) = run(
                start.0,
                start.1,
                account,
                node,
                held_addresses(account@, options, node).len() + 3,
            );
            &&& action == SyncActionView::Merge
            &&& end.merge_into(account@) == synced(
                account@,
                account.pending_transactions.items(),
                options,
                node,
            )
            &&& end.merge_done(account@).1 == SyncActionView::Persist
        }),
{
    let view = account@;
    let held = held_addresses(view, options, node);
    let steps = held.len() + 3;
    let known = view.outputs;
    let start = SyncCycleView::fresh(Some(options), signer, last_synced).advanced(
        account,
        SyncEventView::Started { now },
    );
    let selection = addresses_to_sync(view, options);
    let pending = account.pending_transactions.items();
    // up to the question about the addresses
    let asked = SyncCycleView {
        phase: Phase::OutputIds,
        transaction_sync_result: reconciliation(view, pending, options, node),
        ..SyncCycleView::fresh(Some(options), signer, last_synced)
    };
    let ask = SyncActionView::QueryOutputIds(selection);
    let left: nat = if options.sync_pending_transactions {
        (steps - 1) as nat
    } else {
        steps
    };
    assert(run(start.0, start.1, account, node, steps) == run(asked, ask, account, node, left)) by {
        if options.sync_pending_transactions {
            assert(asks_outside(start.1));
            let next = start.0.advanced(account, node.answer(start.1));
            assert(next == (asked, ask));
        } else {
            assert(start == (asked, ask));
        }
    }
    // the answer about the addresses
    let filled = SyncCycleView {
        addresses: held,
        spent_outputs: lost_outputs(node.output_reports(selection)),
        position: 0,
        ..asked
    };
    let next = asked.advanced(account, node.answer(ask));
    assert(next == filled.fetch_next(account));
    assert(asks_outside(ask));
    assert(run(asked, ask, account, node, left) == run(
        next.0,
        next.1,
        account,
        node,
        (left - 1) as nat,
    ));
    let done = held.map_values(|a: AddressBalanceView| node.completed(known, a));
    let fetched = held.map_values(|a: AddressBalanceView| node.fetched(known, a)).flatten();
    let end = run(next.0, next.1, account, node, (left - 1) as nat);
    if held.len() > 0 {
        lemma_known_at_most_amount(node, known, held[0]);
        assert(node.amount(known, held[0]) <= u64::MAX);
        assert(held.take(0) =~= Seq::empty());
        assert(next.0.addresses_with_balance =~= held.take(0).map_values(
            |a: AddressBalanceView| node.completed(known, a),
        ));
        assert(held.take(0).map_values(|a: AddressBalanceView| node.fetched(known, a))
            =~= Seq::empty());
        lemma_fetch_run(next.0, account, node, (left - 1) as nat);
    } else {
        assert(next == filled.before_merge());
        assert(done =~= Seq::empty());
        assert(held.map_values(|a: AddressBalanceView| node.fetched(known, a)) =~= Seq::empty());
        if asks_outside(next.1) {
            let last = next.0.advanced(account, node.answer(next.1));
            assert(run(next.0, next.1, account, node, (left - 1) as nat) == run(
                last.0,
                last.1,
                account,
                node,
                (left - 2) as nat,
            ));
            assert(!asks_outside(last.1));
        }
    }
    assert(end.0.addresses_with_balance == done);
    assert(end.0.all_outputs == fetched);
    // every address that holds outputs is an address of the account
    assert forall|m: int| 0 <= m < done.len() implies view.has_address(
        (#[trigger] done[m]).key_index,
        done[m].internal,
    ) by {
        lemma_held_is_selected(selection, node, m);
        let j = choose|j: int|
            0 <= j < selection.len() && held[m] == (AddressBalanceView {
                output_ids: (node.listed)(selection[j].address),
                ..#[trigger] selection[j]
            });
        lemma_selected_is_address(view, options, j);
        let list = view.addresses_of(selection[j].internal);
        let i = choose|i: int|
            0 <= i < list.len() && blank_record(#[trigger] list[i]) == blank(selection[j])
                && selection[j].key_index >= options.address_start_index;
        assert(list[i].key_index == done[m].key_index && list[i].internal == done[m].internal);
    }
}

/// Idempotence: a second sync, of the account as a first sync left it and
/// against a node that answers as before, comes to the merge and merges
/// nothing that alters the account.
pub proof fn lemma_second_cycle_alters_nothing(
    options: SyncOptions,
    signer: SignerKind,
    last_synced: u128,
    now: u128,
    before: Account,
    after: Account,
    node: NodeView,
)
    requires
        before.wf(),
        node.wf(),
        amounts_fit(before@, options, node),
        after@ == synced(before@, before.pending_transactions.items(), options, node),
        !throttled(now, last_synced, options.force_syncing),
    ensures
        ({
            let start = SyncCycleView::fresh(Some(options), signer, last_synced).advanced(
                after,
                SyncEventView::Started { now },
            );
            let (end, action) = run(
                start.0,
                start.1,
                after,
                node,
                held_addresses(after@, options, node).len() + 3,
            );
            &&& action == SyncActionView::Merge
            &&& end.merge_into(after@) == after@
            &&& end.merge_done(after@).1 == SyncActionView::Persist
        }),
{
    let pending = before.pending_transactions.items();
    let held = held_addresses(before@, options, node);
    lemma_merge_keeps_well_formed(
        before@,
        held.map_values(|a: AddressBalanceView| node.completed(before@.outputs, a)),
        all_fetched(before@, options, node),
        reconciliation(before@, pending, options, node),
        lost_outputs(node.output_reports(addresses_to_sync(before@, options))),
        options,
    );
    lemma_held_again(before@, pending, options, node);
    assert forall|m: int| 0 <= m < held.len() implies node.amount(
        after@.outputs,
        #[trigger] held[m],
    ) <= u64::MAX by {
        lemma_address_again(before@, pending, options, node, m);
    }
    lemma_cycle_syncs(options, signer, last_synced, now, after, node);
    lemma_sync_twice(before@, pending, after.pending_transactions.items(), options, node);
}

/// A full sync keeps an account well formed.
pub proof fn lemma_sync_keeps_well_formed(
    account: AccountView,
    pending: Seq<TransactionId>,
    options: SyncOptions,
    node: NodeView,
)
    requires
        account.wf(),
    ensures
        synced(account, pending, options, node).wf(),
{
    lemma_merge_keeps_well_formed(
        account,
        held_addresses(account, options, node).map_values(
            |a: AddressBalanceView| node.completed(account.outputs, a),
        ),
        all_fetched(account, options, node),
        reconciliation(account, pending, options, node),
        lost_outputs(node.output_reports(addresses_to_sync(account, options))),
        options,
    );
}

/// After a full sync every address record lies at or above the start
/// index, or was a record before.
pub proof fn lemma_balances_after_sync(
    account: AccountView,
    pending: Seq<TransactionId>,
    options: SyncOptions,
    node: NodeView,
)
    ensures
        forall|i: int|
            0 <= i < synced(account, pending, options, node).addresses_with_balance.len() ==> {
                let record = #[trigger] synced(
                    account,
                    pending,
                    options,
                    node,
                ).addresses_with_balance[i];
                record.key_index >= options.address_start_index
                    || account.addresses_with_balance.contains(record)
            },
{
    let held = held_addresses(account, options, node);
    let done = held.map_values(|a: AddressBalanceView| node.completed(account.outputs, a));
    lemma_held_from_start(account, options, node);
    assert forall|j: int| 0 <= j < done.len() implies (#[trigger] done[j]).key_index
        >= options.address_start_index by {
        assert(done[j].key_index == held[j].key_index);
    }
    lemma_balances_after_merge(
        account,
        done,
        all_fetched(account, options, node),
        reconciliation(account, pending, options, node),
        lost_outputs(node.output_reports(addresses_to_sync(account, options))),
        options,
    );
}

} // verus!
