//! What holds of every merge and of every step of a sync cycle.

use crate::account::{ascending, Account, AccountView};
use crate::addresses::{addresses_to_sync, selected};
use crate::cycle::{Phase, SyncActionView, SyncCycleView, SyncEventView};
use crate::merge::{
    mark_spent, mark_used, merged, rebuilt_balances, settled_ids, with_outputs,
    with_transactions, with_unspent,
};
use crate::seqs::{lemma_filter_keeps_none, lemma_filter_twice};
use crate::throttle::{throttled, MIN_SYNC_INTERVAL};
use crate::types::{
    AccountAddress, AddressBalanceView, OutputData, SyncOptions, Transaction,
    TransactionSyncView,
};
use iota_client::bee_message::output::OutputId;
use iota_client::bee_message::payload::transaction::TransactionId;
use vstd::prelude::*;

verus! {

/// Whether `a` comes before `b` when addresses are ordered by
/// `(key_index, internal)`.
pub open spec fn key_less(a: AccountAddress, b: AccountAddress) -> bool {
    a.key_index < b.key_index || (a.key_index == b.key_index && !a.internal && b.internal)
}

/// A list of ascending addresses is strictly sorted by `(key_index,
/// internal)`, so no address occurs twice.
pub proof fn lemma_ascending_is_sorted(addresses: Seq<AccountAddress>, internal: bool)
    requires
        ascending(addresses, internal),
    ensures
        forall|i: int, j: int|
            0 <= i < j < addresses.len() ==> key_less(
                #[trigger] addresses[i],
                #[trigger] addresses[j],
            ),
        forall|i: int, j: int|
            0 <= i < addresses.len() && 0 <= j < addresses.len() && i != j ==> !(
            (#[trigger] addresses[i]).key_index == (#[trigger] addresses[j]).key_index
                && addresses[i].internal == addresses[j].internal),
{
    assert forall|i: int, j: int|
        0 <= i < addresses.len() && 0 <= j < addresses.len() && i != j implies !(
    (#[trigger] addresses[i]).key_index == (#[trigger] addresses[j]).key_index
        && addresses[i].internal == addresses[j].internal) by {
        if i < j {
            assert(addresses[i].key_index < addresses[j].key_index);
        } else {
            assert(addresses[j].key_index < addresses[i].key_index);
        }
    }
}

/// Marking addresses used keeps their order.
pub proof fn lemma_mark_used_keeps_order(
    addresses: Seq<AccountAddress>,
    internal: bool,
    synced: Seq<AddressBalanceView>,
)
    requires
        ascending(addresses, internal),
    ensures
        ascending(mark_used(addresses, synced), internal),
{
    let marked = mark_used(addresses, synced);
    assert forall|i: int| 0 <= i < marked.len() implies (#[trigger] marked[i]).key_index
        == addresses[i].key_index && marked[i].internal == addresses[i].internal by {}
}

/// Recording outputs keeps the outputs that the map held and adds those of
/// the records.
proof fn lemma_with_outputs_domain(
    map: Map<OutputId, OutputData>,
    outputs: Seq<OutputData>,
    id: OutputId,
)
    ensures
        with_outputs(map, outputs).contains_key(id) <==> (map.contains_key(id) || exists|i: int|
            0 <= i < outputs.len() && (#[trigger] outputs[i]).output_id == id),
    decreases outputs.len(),
{
    if outputs.len() > 0 {
        let rest = outputs.drop_last();
        lemma_with_outputs_domain(map, rest, id);
        if exists|i: int| 0 <= i < rest.len() && (#[trigger] rest[i]).output_id == id {
            let i = choose|i: int| 0 <= i < rest.len() && (#[trigger] rest[i]).output_id == id;
            assert(outputs[i] == rest[i]);
        }
        if exists|i: int| 0 <= i < outputs.len() && (#[trigger] outputs[i]).output_id == id {
            let i = choose|i: int|
                0 <= i < outputs.len() && (#[trigger] outputs[i]).output_id == id;
            if i < rest.len() {
                assert(rest[i] == outputs[i]);
            }
        }
        if outputs.last().output_id == id {
            assert(outputs[outputs.len() - 1].output_id == id);
        }
    }
}

/// An output that is unspent after the records were taken in was unspent
/// before, or one of the records has it.
proof fn lemma_with_unspent_domain(
    map: Map<OutputId, OutputData>,
    outputs: Seq<OutputData>,
    id: OutputId,
)
    requires
        with_unspent(map, outputs).contains_key(id),
    ensures
        map.contains_key(id) || exists|i: int|
            0 <= i < outputs.len() && (#[trigger] outputs[i]).output_id == id,
    decreases outputs.len(),
{
    if outputs.len() > 0 {
        let rest = outputs.drop_last();
        if outputs.last().output_id == id {
            assert(outputs[outputs.len() - 1].output_id == id);
        } else {
            lemma_with_unspent_domain(map, rest, id);
            if exists|i: int| 0 <= i < rest.len() && (#[trigger] rest[i]).output_id == id {
                let i = choose|i: int|
                    0 <= i < rest.len() && (#[trigger] rest[i]).output_id == id;
                assert(outputs[i] == rest[i]);
            }
        }
    }
}

/// After the merge an output is still unspent although the record that
/// the merge took in for it says that it is spent.
pub open spec fn keeps_spent_record(
    account: AccountView,
    synced: Seq<AddressBalanceView>,
    outputs: Seq<OutputData>,
    transactions: Option<TransactionSyncView>,
    spent_outputs: Seq<OutputId>,
    options: SyncOptions,
) -> bool {
    let after = merged(account, synced, outputs, transactions, spent_outputs, options);
    let recorded = with_outputs(account.outputs, outputs);
    exists|id: OutputId| #[trigger]
        after.unspent_outputs.contains_key(id) && recorded.contains_key(id)
            && recorded[id].is_spent
}

/// After the merge an output is still unspent although it was unlocked,
/// and thereby marked spent, for a conflicting transaction.
pub open spec fn keeps_unlocked_output(
    account: AccountView,
    synced: Seq<AddressBalanceView>,
    outputs: Seq<OutputData>,
    transactions: Option<TransactionSyncView>,
    spent_outputs: Seq<OutputId>,
    options: SyncOptions,
) -> bool {
    let after = merged(account, synced, outputs, transactions, spent_outputs, options);
    match transactions {
        Some(result) => exists|id: OutputId| #[trigger]
            after.unspent_outputs.contains_key(id) && result.output_ids_to_unlock.contains(id),
        None => false,
    }
}

/// In an account whose unspent outputs were recorded and not marked spent,
/// they are so again after a merge, with two exceptions and no other: the
/// node reports an output spent that stays in the unspent set, or an output
/// that stays in the unspent set is unlocked for a conflicting transaction.
pub proof fn lemma_unspent_stay_consistent(
    account: AccountView,
    synced: Seq<AddressBalanceView>,
    outputs: Seq<OutputData>,
    transactions: Option<TransactionSyncView>,
    spent_outputs: Seq<OutputId>,
    options: SyncOptions,
)
    requires
        account.unspent_consistent(),
    ensures
        merged(
            account,
            synced,
            outputs,
            transactions,
            spent_outputs,
            options,
        ).unspent_consistent() <==> !keeps_spent_record(
            account,
            synced,
            outputs,
            transactions,
            spent_outputs,
            options,
        ) && !keeps_unlocked_output(
            account,
            synced,
            outputs,
            transactions,
            spent_outputs,
            options,
        ),
{
    let after = merged(account, synced, outputs, transactions, spent_outputs, options);
    let recorded = with_outputs(account.outputs, outputs);
    let unspent = with_unspent(
        account.unspent_outputs.remove_keys(spent_outputs.to_set()),
        outputs,
    );
    let kept_spent = keeps_spent_record(
        account,
        synced,
        outputs,
        transactions,
        spent_outputs,
        options,
    );
    let kept_unlocked = keeps_unlocked_output(
        account,
        synced,
        outputs,
        transactions,
        spent_outputs,
        options,
    );
    if !kept_spent && !kept_unlocked {
        assert forall|id: OutputId| #[trigger]
            after.unspent_outputs.contains_key(id) implies after.outputs.contains_key(id)
            && !after.outputs[id].is_spent by {
            assert(unspent.contains_key(id));
            lemma_with_unspent_domain(
                account.unspent_outputs.remove_keys(spent_outputs.to_set()),
                outputs,
                id,
            );
            lemma_with_outputs_domain(account.outputs, outputs, id);
            assert(recorded.contains_key(id));
            assert(!recorded[id].is_spent);
            match transactions {
                Some(result) => {
                    assert(!result.output_ids_to_unlock.contains(id));
                    assert(!result.spent_output_ids.to_set().contains(id));
                },
                None => {},
            }
        }
    }
    if kept_spent {
        let id = choose|id: OutputId| #[trigger]
            after.unspent_outputs.contains_key(id) && recorded.contains_key(id)
                && recorded[id].is_spent;
        assert(after.outputs.contains_key(id) ==> after.outputs[id].is_spent);
        assert(!after.unspent_consistent());
    }
    if kept_unlocked {
        let result = transactions->0;
        let id = choose|id: OutputId| #[trigger]
            after.unspent_outputs.contains_key(id) && result.output_ids_to_unlock.contains(id);
        assert(after.outputs.contains_key(id) ==> after.outputs[id].is_spent);
        assert(!after.unspent_consistent());
    }
}

/// A merge keeps an account well formed: the address lists stay sorted by
/// `(key_index, internal)` without duplicates, every transaction stays
/// recorded under its identifier, and every transaction that is still
/// pending is recorded with an open verdict.
pub proof fn lemma_merge_keeps_well_formed(
    account: AccountView,
    synced: Seq<AddressBalanceView>,
    outputs: Seq<OutputData>,
    transactions: Option<TransactionSyncView>,
    spent_outputs: Seq<OutputId>,
    options: SyncOptions,
)
    requires
        account.wf(),
    ensures
        merged(account, synced, outputs, transactions, spent_outputs, options).wf(),
{
    let after = merged(account, synced, outputs, transactions, spent_outputs, options);
    lemma_mark_used_keeps_order(account.public_addresses, false, synced);
    lemma_mark_used_keeps_order(account.internal_addresses, true, synced);
    match transactions {
        Some(result) => {
            crate::merge::lemma_filed_under_id(account.transactions, result.updated_transactions);
            assert forall|t| #[trigger] after.pending_transactions.contains(t) implies 
                after.transactions.contains_key(t)
                && !after.transactions[t].inclusion_state.settled() by {
                crate::merge::lemma_open_verdict_kept(
                    account.transactions,
                    result.updated_transactions,
                    t,
                );
            }
        },
        None => {},
    }
}

/// Every address that a sync selects lies at or above the start index.
pub proof fn lemma_selected_from_start(account: AccountView, options: SyncOptions)
    ensures
        forall|i: int|
            0 <= i < addresses_to_sync(account, options).len() ==> (#[trigger] addresses_to_sync(
                account,
                options,
            )[i]).key_index >= options.address_start_index,
{
    let start = options.address_start_index;
    let wanted = |a: AccountAddress| a.key_index >= start;
    let public = account.public_addresses.filter(wanted);
    let internal = account.internal_addresses.filter(wanted);
    let all = addresses_to_sync(account, options);
    assert forall|i: int| 0 <= i < all.len() implies (#[trigger] all[i]).key_index >= start by {
        if i < public.len() {
            account.public_addresses.lemma_filter_pred(wanted, i);
        } else {
            account.internal_addresses.lemma_filter_pred(wanted, i - public.len());
        }
    }
}

/// After a merge every address record is one of the synced ones, or lies
/// below the start index and was a record before. So where the synced
/// addresses lie at or above the start index, as those that a sync selects
/// do, every record lies there or was a record before.
pub proof fn lemma_balances_after_merge(
    account: AccountView,
    synced: Seq<AddressBalanceView>,
    outputs: Seq<OutputData>,
    transactions: Option<TransactionSyncView>,
    spent_outputs: Seq<OutputId>,
    options: SyncOptions,
)
    ensures
        forall|i: int|
            #![trigger merged(account, synced, outputs, transactions, spent_outputs, options).addresses_with_balance[i]]
            0 <= i < merged(
                account,
                synced,
                outputs,
                transactions,
                spent_outputs,
                options,
            ).addresses_with_balance.len() ==> {
                let record = merged(
                    account,
                    synced,
                    outputs,
                    transactions,
                    spent_outputs,
                    options,
                ).addresses_with_balance[i];
                synced.contains(record) || (record.key_index < options.address_start_index
                    && account.addresses_with_balance.contains(record))
            },
        (forall|j: int|
            0 <= j < synced.len() ==> (#[trigger] synced[j]).key_index
                >= options.address_start_index) ==> forall|i: int|
            #![trigger merged(account, synced, outputs, transactions, spent_outputs, options).addresses_with_balance[i]]
            0 <= i < merged(
                account,
                synced,
                outputs,
                transactions,
                spent_outputs,
                options,
            ).addresses_with_balance.len() ==> {
                let record = merged(
                    account,
                    synced,
                    outputs,
                    transactions,
                    spent_outputs,
                    options,
                ).addresses_with_balance[i];
                record.key_index >= options.address_start_index
                    || account.addresses_with_balance.contains(record)
            },
{
    let after = merged(account, synced, outputs, transactions, spent_outputs, options);
    let start = options.address_start_index;
    let below = |a: AddressBalanceView| a.key_index < start;
    let kept = account.addresses_with_balance.filter(below);
    assert(after.addresses_with_balance == rebuilt_balances(
        account.addresses_with_balance,
        synced,
        start,
    ));
    assert forall|i: int| 0 <= i < after.addresses_with_balance.len() implies {
        let record = #[trigger] after.addresses_with_balance[i];
        synced.contains(record) || (record.key_index < start
            && account.addresses_with_balance.contains(record))
    } by {
        let record = after.addresses_with_balance[i];
        if i < kept.len() {
            assert(kept[i] == record);
            assert(kept.contains(record));
            account.addresses_with_balance.lemma_filter_pred(below, i);
            account.addresses_with_balance.lemma_filter_contains_rev(below, record);
        } else {
            assert(synced[i - kept.len()] == record);
        }
    }
}

/// A cycle never moves `last_synced` back, unless the clock does: only
/// the second reading of the clock sets it, to what was read.
pub proof fn lemma_last_synced(cycle: SyncCycleView, account: Account, event: SyncEventView)
    ensures
        cycle.advanced(account, event).0.last_synced == if cycle.phase == Phase::Clock
            && event is Clock && cycle.balance is Some {
            event->Clock_now
        } else {
            cycle.last_synced
        },
        cycle.merge_done(account@).0.last_synced == cycle.last_synced,
        !(cycle.phase == Phase::Clock && event is Clock && event->Clock_now < cycle.last_synced)
            ==> cycle.advanced(account, event).0.last_synced >= cycle.last_synced,
{
}

/// A sync that starts within the interval after the last one, and is not
/// forced, sends nothing to the node: the cycle ends at once with the
/// balance, and `last_synced` stays.
pub proof fn lemma_throttle(cycle: SyncCycleView, account: Account, now: u128)
    requires
        cycle.phase == Phase::Start,
        !cycle.options.force_syncing,
        cycle.last_synced <= now < cycle.last_synced + MIN_SYNC_INTERVAL,
    ensures
        ({
            let (next, action) = cycle.advanced(account, SyncEventView::Started { now });
            &&& !action.calls_node()
            &&& next.phase == Phase::Finished
            &&& next.last_synced == cycle.last_synced
            &&& match account.balance_of() {
                Ok(balance) => action == SyncActionView::Return(balance),
                Err(e) => action == SyncActionView::Fail(e),
            }
        }),
{
}

/// A forced sync is never throttled: it starts with a question to the
/// node, whatever the clock reads.
pub proof fn lemma_force(cycle: SyncCycleView, account: Account, now: u128)
    requires
        cycle.phase == Phase::Start,
        cycle.options.force_syncing,
    ensures
        !throttled(now, cycle.last_synced, cycle.options.force_syncing),
        cycle.advanced(account, SyncEventView::Started { now }).1.calls_node(),
        cycle.advanced(account, SyncEventView::Started { now }).0.phase != Phase::Finished,
{
}

/// Marking the same addresses used once more alters nothing.
proof fn lemma_mark_used_twice(addresses: Seq<AccountAddress>, synced: Seq<AddressBalanceView>)
    ensures
        mark_used(mark_used(addresses, synced), synced) == mark_used(addresses, synced),
{
    let once = mark_used(addresses, synced);
    let twice = mark_used(once, synced);
    assert forall|i: int| 0 <= i < once.len() implies #[trigger] twice[i] == once[i] by {
        assert(once[i].key_index == addresses[i].key_index);
        assert(once[i].internal == addresses[i].internal);
    }
    assert(twice =~= once);
}

/// Rebuilding the address records once more from the same synced
/// addresses, none of which lies below the start index, alters nothing.
proof fn lemma_rebuilt_twice(
    before: Seq<AddressBalanceView>,
    synced: Seq<AddressBalanceView>,
    start_index: u32,
)
    requires
        forall|j: int| 0 <= j < synced.len() ==> (#[trigger] synced[j]).key_index >= start_index,
    ensures
        rebuilt_balances(rebuilt_balances(before, synced, start_index), synced, start_index)
            == rebuilt_balances(before, synced, start_index),
{
    let below = |a: AddressBalanceView| a.key_index < start_index;
    let kept = before.filter(below);
    Seq::filter_distributes_over_add(kept, synced, below);
    lemma_filter_twice(before, below);
    lemma_filter_keeps_none(synced, below);
    assert((kept + synced).filter(below) =~= kept);
}

/// Taking in no outputs, dropping none and marking none spent alters nothing.
proof fn lemma_no_outputs(map: Map<OutputId, OutputData>)
    ensures
        with_outputs(map, Seq::empty()) == map,
        with_unspent(map, Seq::empty()) == map,
        map.remove_keys(Seq::<OutputId>::empty().to_set()) == map,
        mark_spent(map, Seq::empty()) == map,
{
    assert(Seq::<OutputId>::empty().to_set() =~= Set::<OutputId>::empty());
    assert(map.remove_keys(Set::<OutputId>::empty()) =~= map);
    assert(mark_spent(map, Seq::empty()) =~= map);
}

/// Merging once more what a second sync fetches when nothing has changed
/// at the node alters nothing: the synced addresses are the same, no
/// output is new or lost, and the reconciler, if it ran, found nothing.
pub proof fn lemma_merge_again(
    account: AccountView,
    synced: Seq<AddressBalanceView>,
    outputs: Seq<OutputData>,
    transactions: Option<TransactionSyncView>,
    spent_outputs: Seq<OutputId>,
    options: SyncOptions,
    again: Option<TransactionSyncView>,
)
    requires
        forall|j: int|
            0 <= j < synced.len() ==> (#[trigger] synced[j]).key_index
                >= options.address_start_index,
        again matches Some(result) ==> result.updated_transactions.len() == 0
            && result.spent_output_ids.len() == 0 && result.output_ids_to_unlock.len() == 0,
    ensures
        merged(
            merged(account, synced, outputs, transactions, spent_outputs, options),
            synced,
            Seq::empty(),
            again,
            Seq::empty(),
            options,
        ) == merged(account, synced, outputs, transactions, spent_outputs, options),
{
    let once = merged(account, synced, outputs, transactions, spent_outputs, options);
    lemma_mark_used_twice(account.public_addresses, synced);
    lemma_mark_used_twice(account.internal_addresses, synced);
    match again {
        Some(result) => {
            assert(result.updated_transactions =~= Seq::<Transaction>::empty());
            assert(result.spent_output_ids =~= Seq::<OutputId>::empty());
            assert(result.output_ids_to_unlock =~= Seq::<OutputId>::empty());
        },
        None => {},
    }
    lemma_unchanged_by_empty_merge(once, account.addresses_with_balance, synced, options, again);
}

/// Recording no transactions alters neither the transactions nor which
/// of them are pending.
proof fn lemma_no_transactions(
    map: Map<TransactionId, Transaction>,
    pending: Set<TransactionId>,
)
    ensures
        with_transactions(map, Seq::empty()) == map,
        pending.difference(settled_ids(Seq::empty())) == pending,
{
    assert(settled_ids(Seq::empty()) =~= Set::<TransactionId>::empty());
    assert(pending.difference(Set::<TransactionId>::empty()) =~= pending);
}

/// Unlocking no outputs alters nothing.
proof fn lemma_no_unlock(locked: Set<OutputId>)
    ensures
        locked.difference(Seq::<OutputId>::empty().to_set()) == locked,
{
    assert(Seq::<OutputId>::empty().to_set() =~= Set::<OutputId>::empty());
    assert(locked.difference(Set::<OutputId>::empty()) =~= locked);
}

/// An account whose addresses are marked and whose records are rebuilt for
/// the synced addresses stays as it is when those addresses are merged in
/// again with nothing else.
proof fn lemma_unchanged_by_empty_merge(
    once: AccountView,
    before: Seq<AddressBalanceView>,
    synced: Seq<AddressBalanceView>,
    options: SyncOptions,
    again: Option<TransactionSyncView>,
)
    requires
        forall|j: int|
            0 <= j < synced.len() ==> (#[trigger] synced[j]).key_index
                >= options.address_start_index,
        again matches Some(result) ==> result.updated_transactions == Seq::<Transaction>::empty()
            && result.spent_output_ids == Seq::<OutputId>::empty()
            && result.output_ids_to_unlock == Seq::<OutputId>::empty(),
        mark_used(once.public_addresses, synced) == once.public_addresses,
        mark_used(once.internal_addresses, synced) == once.internal_addresses,
        once.addresses_with_balance == rebuilt_balances(
            before,
            synced,
            options.address_start_index,
        ),
    ensures
        merged(once, synced, Seq::empty(), again, Seq::empty(), options) == once,
{
    let twice = merged(once, synced, Seq::empty(), again, Seq::empty(), options);
    lemma_rebuilt_twice(before, synced, options.address_start_index);
    lemma_no_outputs(once.outputs);
    lemma_no_outputs(once.unspent_outputs);
    lemma_no_transactions(once.transactions, once.pending_transactions);
    lemma_no_unlock(once.locked_outputs);
    assert(twice.public_addresses == once.public_addresses);
    assert(twice.internal_addresses == once.internal_addresses);
    assert(twice.addresses_with_balance == once.addresses_with_balance);
    assert(twice.index == once.index);
    assert(twice.outputs == once.outputs);
    assert(twice.unspent_outputs == once.unspent_outputs);
    assert(twice.transactions == once.transactions);
    assert(twice.pending_transactions == once.pending_transactions);
    assert(twice.locked_outputs == once.locked_outputs);
}

} // verus!
