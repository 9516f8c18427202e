//! The account merger: folds what one sync cycle fetched into the account.

use crate::account::{ascending, Account, AccountView};
use crate::ids::transaction_id_of;
use crate::store::{IdMap, IdSet};
use crate::types::{
    balance_views, AccountAddress, AddressBalanceView, AddressWithBalance, OutputData,
    SyncError, SyncOptions, Transaction, TransactionSyncResult, TransactionSyncView,
};
use iota_client::bee_message::output::OutputId;
use iota_client::bee_message::payload::transaction::TransactionId;
use vstd::prelude::*;

verus! {

/// Whether one of the synced addresses has this key index and kind.
pub open spec fn is_synced(synced: Seq<AddressBalanceView>, key_index: u32, internal: bool) -> bool {
    exists|j: int|
        0 <= j < synced.len() && (#[trigger] synced[j]).key_index == key_index && synced[j].internal
            == internal
}

/// The addresses with `used` set on each one that was synced.
pub open spec fn mark_used(addresses: Seq<AccountAddress>, synced: Seq<AddressBalanceView>) -> Seq<
    AccountAddress,
> {
    Seq::new(
        addresses.len(),
        |i: int|
            if is_synced(synced, addresses[i].key_index, addresses[i].internal) {
                AccountAddress { used: true, ..addresses[i] }
            } else {
                addresses[i]
            },
    )
}

/// How many of the synced addresses, from the first on, the account has
/// before one is missing.
pub open spec fn found_prefix_len(account: AccountView, synced: Seq<AddressBalanceView>) -> nat
    decreases synced.len(),
{
    if synced.len() == 0 || !account.has_address(synced[0].key_index, synced[0].internal) {
        0
    } else {
        1 + found_prefix_len(account, synced.drop_first())
    }
}

/// Whether the account has every synced address.
pub open spec fn found_all(account: AccountView, synced: Seq<AddressBalanceView>) -> bool {
    forall|j: int|
        0 <= j < synced.len() ==> account.has_address(
            (#[trigger] synced[j]).key_index,
            synced[j].internal,
        )
}

/// The account with `used` set on the first `count` synced addresses.
pub open spec fn with_used(account: AccountView, synced: Seq<AddressBalanceView>, count: int) -> AccountView {
    AccountView {
        public_addresses: mark_used(account.public_addresses, synced.take(count)),
        internal_addresses: mark_used(account.internal_addresses, synced.take(count)),
        ..account
    }
}

/// The address records that a sync keeps: those below the start index,
/// which it did not look at, followed by the synced ones.
pub open spec fn rebuilt_balances(
    before: Seq<AddressBalanceView>,
    synced: Seq<AddressBalanceView>,
    start_index: u32,
) -> Seq<AddressBalanceView> {
    before.filter(|a: AddressBalanceView| a.key_index < start_index) + synced
}

/// The map with each output recorded under its identifier, in order; a
/// later record replaces an earlier one.
pub open spec fn with_outputs(map: Map<OutputId, OutputData>, outputs: Seq<OutputData>) -> Map<
    OutputId,
    OutputData,
>
    decreases outputs.len(),
{
    if outputs.len() == 0 {
        map
    } else {
        with_outputs(map, outputs.drop_last()).insert(outputs.last().output_id, outputs.last())
    }
}

/// The map with each output that is not spent recorded under its
/// identifier, in order.
pub open spec fn with_unspent(map: Map<OutputId, OutputData>, outputs: Seq<OutputData>) -> Map<
    OutputId,
    OutputData,
>
    decreases outputs.len(),
{
    if outputs.len() == 0 {
        map
    } else if outputs.last().is_spent {
        with_unspent(map, outputs.drop_last())
    } else {
        with_unspent(map, outputs.drop_last()).insert(outputs.last().output_id, outputs.last())
    }
}

/// The map with each of the listed outputs that it holds marked spent.
pub open spec fn mark_spent(map: Map<OutputId, OutputData>, ids: Seq<OutputId>) -> Map<
    OutputId,
    OutputData,
> {
    Map::new(
        |id: OutputId| map.contains_key(id),
        |id: OutputId|
            if ids.contains(id) {
                map[id].spent()
            } else {
                map[id]
            },
    )
}

/// The map with each transaction recorded under its identifier, in order.
pub open spec fn with_transactions(
    map: Map<TransactionId, Transaction>,
    updates: Seq<Transaction>,
) -> Map<TransactionId, Transaction>
    decreases updates.len(),
{
    if updates.len() == 0 {
        map
    } else {
        with_transactions(map, updates.drop_last()).insert(updates.last().id(), updates.last())
    }
}

/// The identifiers of the updated transactions whose verdict is settled.
pub open spec fn settled_ids(updates: Seq<Transaction>) -> Set<TransactionId> {
    Set::new(
        |id: TransactionId|
            exists|i: int|
                0 <= i < updates.len() && (#[trigger] updates[i]).id() == id
                    && updates[i].inclusion_state.settled(),
    )
}

/// The account after a merge in which every synced address was found.
pub open spec fn merged(
    account: AccountView,
    synced: Seq<AddressBalanceView>,
    outputs: Seq<OutputData>,
    transactions: Option<TransactionSyncView>,
    spent_outputs: Seq<OutputId>,
    options: SyncOptions,
) -> AccountView {
    let recorded = with_outputs(account.outputs, outputs);
    let unspent = with_unspent(
        account.unspent_outputs.remove_keys(spent_outputs.to_set()),
        outputs,
    );
    let fetched = AccountView {
        public_addresses: mark_used(account.public_addresses, synced),
        internal_addresses: mark_used(account.internal_addresses, synced),
        addresses_with_balance: rebuilt_balances(
            account.addresses_with_balance,
            synced,
            options.address_start_index,
        ),
        outputs: recorded,
        unspent_outputs: unspent,
        ..account
    };
    match transactions {
        None => fetched,
        Some(result) => AccountView {
            transactions: with_transactions(account.transactions, result.updated_transactions),
            pending_transactions: account.pending_transactions.difference(
                settled_ids(result.updated_transactions),
            ),
            outputs: mark_spent(
                mark_spent(recorded, result.spent_output_ids),
                result.output_ids_to_unlock,
            ),
            unspent_outputs: unspent.remove_keys(result.spent_output_ids.to_set()),
            locked_outputs: account.locked_outputs.difference(
                result.spent_output_ids.to_set(),
            ).difference(result.output_ids_to_unlock.to_set()),
            ..fetched
        },
    }
}

proof fn lemma_take_contains<A>(s: Seq<A>, i: int, x: A)
    requires
        0 <= i < s.len(),
    ensures
        s.take(i + 1).contains(x) <==> (s.take(i).contains(x) || x == s[i]),
{
    if s.take(i + 1).contains(x) {
        let j = s.take(i + 1).index_of(x);
        assert(s.take(i + 1)[j] == x);
        if j < i {
            assert(s.take(i)[j] == x);
        }
    }
    if s.take(i).contains(x) {
        let j = s.take(i).index_of(x);
        assert(s.take(i)[j] == x);
        assert(s.take(i + 1)[j] == x);
    }
    if x == s[i] {
        assert(s.take(i + 1)[i] == x);
    }
}

proof fn lemma_take_to_set<A>(s: Seq<A>, i: int)
    requires
        0 <= i < s.len(),
    ensures
        s.take(i + 1).to_set() == s.take(i).to_set().insert(s[i]),
{
    assert forall|x: A|
        s.take(i + 1).to_set().contains(x) <==> s.take(i).to_set().insert(s[i]).contains(x) by {
        lemma_take_contains(s, i, x);
    }
    assert(s.take(i + 1).to_set() =~= s.take(i).to_set().insert(s[i]));
}

proof fn lemma_found_prefix(account: AccountView, synced: Seq<AddressBalanceView>, count: int)
    requires
        0 <= count <= synced.len(),
        forall|j: int|
            0 <= j < count ==> account.has_address(
                (#[trigger] synced[j]).key_index,
                synced[j].internal,
            ),
        count == synced.len() || !account.has_address(
            synced[count].key_index,
            synced[count].internal,
        ),
    ensures
        found_prefix_len(account, synced) == count,
    decreases count,
{
    if count > 0 {
        let rest = synced.drop_first();
        assert forall|j: int| 0 <= j < count - 1 implies account.has_address(
            (#[trigger] rest[j]).key_index,
            rest[j].internal,
        ) by {
            assert(rest[j] == synced[j + 1]);
        }
        if count < synced.len() {
            assert(rest[count - 1] == synced[count]);
        }
        lemma_found_prefix(account, rest, count - 1);
    }
}

/// Finds the address with this key index by binary search in a list of
/// one kind that is sorted by key index.
pub fn find_address(addresses: &Vec<AccountAddress>, key_index: u32, internal: bool) -> (position:
    Option<usize>)
    requires
        ascending(addresses@, internal),
    ensures
        match position {
            Some(i) => i < addresses.len() && addresses[i as int].key_index == key_index
                && addresses[i as int].internal == internal,
            None => forall|i: int|
                0 <= i < addresses.len() ==> (#[trigger] addresses[i]).key_index != key_index,
        },
{
    let mut low: usize = 0;
    let mut high: usize = addresses.len();
    while low < high
        invariant
            low <= high <= addresses.len(),
            ascending(addresses@, internal),
            forall|i: int| 0 <= i < low ==> (#[trigger] addresses[i]).key_index < key_index,
            forall|i: int|
                high <= i < addresses.len() ==> (#[trigger] addresses[i]).key_index > key_index,
        decreases high - low,
    {
        let middle = low + (high - low) / 2;
        let found = addresses[middle].key_index;
        if found == key_index {
            return Some(middle);
        } else if found < key_index {
            low = middle + 1;
        } else {
            high = middle;
        }
    }
    None
}

/// Sets `used` on the address at `position`.
fn set_used(addresses: &mut Vec<AccountAddress>, position: usize)
    requires
        position < old(addresses).len(),
    ensures
        final(addresses)@ == old(addresses)@.update(
            position as int,
            AccountAddress { used: true, ..old(addresses)[position as int] },
        ),
{
    let address = addresses[position];
    addresses.set(position, AccountAddress { used: true, ..address });
}

proof fn lemma_synced_step(synced: Seq<AddressBalanceView>, i: int, key_index: u32, internal: bool)
    requires
        0 <= i < synced.len(),
    ensures
        is_synced(synced.take(i + 1), key_index, internal) <==> (is_synced(
            synced.take(i),
            key_index,
            internal,
        ) || (synced[i].key_index == key_index && synced[i].internal == internal)),
{
    let longer = synced.take(i + 1);
    let shorter = synced.take(i);
    if is_synced(longer, key_index, internal) {
        let j = choose|j: int|
            0 <= j < longer.len() && (#[trigger] longer[j]).key_index == key_index
                && longer[j].internal == internal;
        if j < i {
            assert(shorter[j] == longer[j]);
        }
    }
    if is_synced(shorter, key_index, internal) {
        let j = choose|j: int|
            0 <= j < shorter.len() && (#[trigger] shorter[j]).key_index == key_index
                && shorter[j].internal == internal;
        assert(longer[j] == shorter[j]);
    }
    if synced[i].key_index == key_index && synced[i].internal == internal {
        assert(longer[i] == synced[i]);
    }
}

proof fn lemma_mark_used_step(
    addresses: Seq<AccountAddress>,
    kind: bool,
    synced: Seq<AddressBalanceView>,
    i: int,
    p: int,
)
    requires
        0 <= i < synced.len(),
        ascending(addresses, kind),
    ensures
        ascending(mark_used(addresses, synced.take(i)), kind),
        synced[i].internal != kind ==> mark_used(addresses, synced.take(i + 1)) == mark_used(
            addresses,
            synced.take(i),
        ),
        0 <= p < addresses.len() && addresses[p].key_index == synced[i].key_index
            && synced[i].internal == kind ==> mark_used(addresses, synced.take(i + 1))
            == mark_used(addresses, synced.take(i)).update(
            p,
            AccountAddress { used: true, ..mark_used(addresses, synced.take(i))[p] },
        ),
{
    let before = mark_used(addresses, synced.take(i));
    let after = mark_used(addresses, synced.take(i + 1));
    assert forall|q: int| 0 <= q < addresses.len() implies (is_synced(
        synced.take(i + 1),
        addresses[q].key_index,
        addresses[q].internal,
    ) <==> (is_synced(synced.take(i), addresses[q].key_index, addresses[q].internal) || (
    synced[i].key_index == addresses[q].key_index && synced[i].internal
        == addresses[q].internal))) by {
        lemma_synced_step(synced, i, addresses[q].key_index, addresses[q].internal);
    }
    if synced[i].internal != kind {
        assert(after =~= before);
    }
    if 0 <= p < addresses.len() && addresses[p].key_index == synced[i].key_index
        && synced[i].internal == kind {
        assert(after =~= before.update(p, AccountAddress { used: true, ..before[p] }));
    }
}

/// Sets `used` on the account's address for each synced address, in order,
/// and stops at the first one that the account does not have.
fn mark_synced_used(account: &mut Account, synced: &Vec<AddressWithBalance>) -> (result: Result<
    (),
    SyncError,
>)
    requires
        old(account).wf(),
    ensures
        final(account).wf(),
        result.is_ok() <==> found_all(old(account)@, balance_views(synced@)),
        result matches Err(e) ==> e == SyncError::AddressNotFoundInAccount,
        final(account)@ == with_used(
            old(account)@,
            balance_views(synced@),
            found_prefix_len(old(account)@, balance_views(synced@)) as int,
        ),
        final(account).addresses_with_balance == old(account).addresses_with_balance,
        final(account).outputs == old(account).outputs,
        final(account).unspent_outputs == old(account).unspent_outputs,
        final(account).locked_outputs == old(account).locked_outputs,
        final(account).transactions == old(account).transactions,
        final(account).pending_transactions == old(account).pending_transactions,
{
    let ghost before = account@;
    let ghost views = balance_views(synced@);
    let mut i: usize = 0;
    proof {
        assert(views.take(0) =~= Seq::empty());
        assert(mark_used(before.public_addresses, views.take(0)) =~= before.public_addresses);
        assert(mark_used(before.internal_addresses, views.take(0)) =~= before.internal_addresses);
    }
    while i < synced.len()
        invariant
            i <= synced.len(),
            views == balance_views(synced@),
            before == old(account)@,
            old(account).wf(),
            account.public_addresses@ == mark_used(before.public_addresses, views.take(i as int)),
            account.internal_addresses@ == mark_used(
                before.internal_addresses,
                views.take(i as int),
            ),
            forall|j: int|
                0 <= j < i ==> before.has_address((#[trigger] views[j]).key_index, views[j].internal),
            account.index == old(account).index,
            account.addresses_with_balance == old(account).addresses_with_balance,
            account.outputs == old(account).outputs,
            account.unspent_outputs == old(account).unspent_outputs,
            account.locked_outputs == old(account).locked_outputs,
            account.transactions == old(account).transactions,
            account.pending_transactions == old(account).pending_transactions,
        decreases synced.len() - i,
    {
        let key_index = synced[i].key_index;
        let internal = synced[i].internal;
        proof {
            assert(views[i as int] == synced@[i as int]@);
            lemma_mark_used_step(before.public_addresses, false, views, i as int, 0);
            lemma_mark_used_step(before.internal_addresses, true, views, i as int, 0);
        }
        let position = if internal {
            find_address(&account.internal_addresses, key_index, internal)
        } else {
            find_address(&account.public_addresses, key_index, internal)
        };
        match position {
            Some(p) => {
                proof {
                    if internal {
                        assert(before.internal_addresses[p as int].key_index == key_index);
                    } else {
                        assert(before.public_addresses[p as int].key_index == key_index);
                    }
                    if internal {
                        assert(before.internal_addresses[p as int].internal == internal);
                    } else {
                        assert(before.public_addresses[p as int].internal == internal);
                    }
                    assert(before.has_address(key_index, internal));
                }
                if internal {
                    proof {
                        lemma_mark_used_step(
                            before.internal_addresses,
                            true,
                            views,
                            i as int,
                            p as int,
                        );
                    }
                    set_used(&mut account.internal_addresses, p);
                } else {
                    proof {
                        lemma_mark_used_step(
                            before.public_addresses,
                            false,
                            views,
                            i as int,
                            p as int,
                        );
                    }
                    set_used(&mut account.public_addresses, p);
                }
            },
            None => {
                proof {
                    let list = if internal {
                        before.internal_addresses
                    } else {
                        before.public_addresses
                    };
                    assert forall|q: int| 0 <= q < list.len() implies (#[trigger] list[q]).key_index
                        != key_index by {
                        if internal {
                            assert(account.internal_addresses@[q].key_index == list[q].key_index);
                        } else {
                            assert(account.public_addresses@[q].key_index == list[q].key_index);
                        }
                    }
                    assert(!before.has_address(key_index, internal));
                    lemma_found_prefix(before, views, i as int);
                    assert(ascending(account.public_addresses@, false));
                    assert(ascending(account.internal_addresses@, true));
                    assert(account@.pending_transactions == before.pending_transactions);
                    assert(account@.transactions == before.transactions);
                    assert(account@.wf());
                }
                return Err(SyncError::AddressNotFoundInAccount);
            },
        }
        i += 1;
    }
    proof {
        assert(views.take(i as int) =~= views);
        lemma_found_prefix(before, views, i as int);
        assert(ascending(account.public_addresses@, false));
        assert(ascending(account.internal_addresses@, true));
        assert(account@.pending_transactions == before.pending_transactions);
        assert(account@.transactions == before.transactions);
    }
    Ok(())
}

/// Keeps the records below the start index and appends the synced ones.
fn rebuild_balances(
    balances: &mut Vec<AddressWithBalance>,
    synced: Vec<AddressWithBalance>,
    start_index: u32,
)
    ensures
        balance_views(final(balances)@) == rebuilt_balances(
            balance_views(old(balances)@),
            balance_views(synced@),
            start_index,
        ),
{
    let ghost before = balance_views(balances@);
    let ghost kept = |a: AddressBalanceView| a.key_index < start_index;
    let ghost mut seen: int = 0;
    let mut i: usize = 0;
    proof {
        assert(before.take(0) =~= Seq::empty());
        assert(before.take(0).filter(kept) =~= Seq::empty()) by {
            reveal(Seq::filter);
        }
        assert(before.skip(0) =~= before);
    }
    while i < balances.len()
        invariant
            0 <= seen <= before.len(),
            i <= balances.len(),
            kept == |a: AddressBalanceView| a.key_index < start_index,
            i == before.take(seen).filter(kept).len(),
            balances.len() - i == before.len() - seen,
            balance_views(balances@) == before.take(seen).filter(kept) + before.skip(seen),
        decreases balances.len() - i,
    {
        proof {
            assert(balance_views(balances@)[i as int] == before.skip(seen)[0]);
            assert(before.take(seen + 1) =~= before.take(seen).push(before[seen]));
            before.take(seen).lemma_filter_push(before[seen], kept);
        }
        let ghost current = balance_views(balances@);
        if balances[i].key_index < start_index {
            proof {
                assert(current =~= before.take(seen + 1).filter(kept) + before.skip(seen + 1));
                seen = seen + 1;
            }
            i += 1;
        } else {
            balances.remove(i);
            proof {
                assert(balance_views(balances@) =~= current.remove(i as int));
                assert(current.remove(i as int) =~= before.take(seen + 1).filter(kept)
                    + before.skip(seen + 1));
                seen = seen + 1;
            }
        }
    }
    proof {
        assert(before.take(seen) =~= before);
        assert(before.skip(seen) =~= Seq::empty());
    }
    let ghost filtered = balance_views(balances@);
    let mut synced = synced;
    let ghost added = balance_views(synced@);
    balances.append(&mut synced);
    proof {
        assert(balance_views(balances@) =~= filtered + added);
        assert(filtered =~= before.filter(kept));
    }
}

/// Removes each of the listed outputs from the map.
fn drop_outputs(map: &mut IdMap<OutputId, OutputData>, ids: &Vec<OutputId>)
    ensures
        final(map)@ == old(map)@.remove_keys(ids@.to_set()),
{
    let ghost before = map@;
    let mut i: usize = 0;
    proof {
        assert(before.remove_keys(ids@.take(0).to_set()) =~= before);
    }
    while i < ids.len()
        invariant
            i <= ids.len(),
            map@ == before.remove_keys(ids@.take(i as int).to_set()),
        decreases ids.len() - i,
    {
        let id = ids[i];
        let ghost current = map@;
        map.remove(&id);
        proof {
            let shorter = ids@.take(i as int).to_set();
            lemma_take_to_set(ids@, i as int);
            assert(before.remove_keys(shorter).remove(id) =~= before.remove_keys(
                shorter.insert(id),
            ));
        }
        i += 1;
    }
    proof {
        assert(ids@.take(i as int) =~= ids@);
    }
}

/// Removes each of the listed outputs from the set.
fn unlock_outputs(set: &mut IdSet<OutputId>, ids: &Vec<OutputId>)
    ensures
        final(set)@ == old(set)@.difference(ids@.to_set()),
{
    let ghost before = set@;
    let mut i: usize = 0;
    proof {
        assert(before.difference(ids@.take(0).to_set()) =~= before);
    }
    while i < ids.len()
        invariant
            i <= ids.len(),
            set@ == before.difference(ids@.take(i as int).to_set()),
        decreases ids.len() - i,
    {
        let id = ids[i];
        let ghost current = set@;
        set.remove(&id);
        proof {
            lemma_take_to_set(ids@, i as int);
            assert(current.remove(id) =~= before.difference(ids@.take(i + 1).to_set()));
        }
        i += 1;
    }
    proof {
        assert(ids@.take(i as int) =~= ids@);
    }
}

/// Marks each of the listed outputs spent, where the map holds it.
fn spend_outputs(map: &mut IdMap<OutputId, OutputData>, ids: &Vec<OutputId>)
    ensures
        final(map)@ == mark_spent(old(map)@, ids@),
{
    let ghost before = map@;
    let mut i: usize = 0;
    proof {
        assert(mark_spent(before, ids@.take(0)) =~= before);
    }
    while i < ids.len()
        invariant
            i <= ids.len(),
            map@ == mark_spent(before, ids@.take(i as int)),
        decreases ids.len() - i,
    {
        let id = ids[i];
        let ghost current = map@;
        let found = match map.get(&id) {
            Some(output) => Some(*output),
            None => None,
        };
        if let Some(output) = found {
            map.insert(id, OutputData { is_spent: true, ..output });
        }
        proof {
            assert forall|k: OutputId|
                ids@.take(i + 1).contains(k) <==> (ids@.take(i as int).contains(k) || k == id) by {
                lemma_take_contains(ids@, i as int, k);
            }
            assert(map@ =~= mark_spent(before, ids@.take(i + 1)));
        }
        i += 1;
    }
    proof {
        assert(ids@.take(i as int) =~= ids@);
    }
}

/// Records each output, and each one that is not spent as unspent too.
fn record_outputs(
    recorded: &mut IdMap<OutputId, OutputData>,
    unspent: &mut IdMap<OutputId, OutputData>,
    outputs: &Vec<OutputData>,
)
    ensures
        final(recorded)@ == with_outputs(old(recorded)@, outputs@),
        final(unspent)@ == with_unspent(old(unspent)@, outputs@),
{
    let mut i: usize = 0;
    proof {
        assert(outputs@.take(0) =~= Seq::empty());
    }
    while i < outputs.len()
        invariant
            i <= outputs.len(),
            recorded@ == with_outputs(old(recorded)@, outputs@.take(i as int)),
            unspent@ == with_unspent(old(unspent)@, outputs@.take(i as int)),
        decreases outputs.len() - i,
    {
        let output = outputs[i];
        proof {
            assert(outputs@.take(i + 1).drop_last() =~= outputs@.take(i as int));
            assert(outputs@.take(i + 1).last() == output);
        }
        recorded.insert(output.output_id, output);
        if !output.is_spent {
            unspent.insert(output.output_id, output);
        }
        i += 1;
    }
    proof {
        assert(outputs@.take(i as int) =~= outputs@);
    }
}

/// A copy of the transaction.
pub fn copy_transaction(transaction: &Transaction) -> (copy: Transaction)
    ensures
        copy == *transaction,
{
    Transaction {
        payload: transaction.payload.clone(),
        inclusion_state: transaction.inclusion_state,
    }
}

proof fn lemma_settled_step(updates: Seq<Transaction>, i: int)
    requires
        0 <= i < updates.len(),
    ensures
        settled_ids(updates.take(i + 1)) == if updates[i].inclusion_state.settled() {
            settled_ids(updates.take(i)).insert(updates[i].id())
        } else {
            settled_ids(updates.take(i))
        },
{
    let longer = updates.take(i + 1);
    let shorter = updates.take(i);
    let expected = if updates[i].inclusion_state.settled() {
        settled_ids(shorter).insert(updates[i].id())
    } else {
        settled_ids(shorter)
    };
    assert forall|id: TransactionId| settled_ids(longer).contains(id) implies expected.contains(
        id,
    ) by {
        let j = choose|j: int|
            0 <= j < longer.len() && (#[trigger] longer[j]).id() == id
                && longer[j].inclusion_state.settled();
        if j < i {
            assert(shorter[j] == longer[j]);
        }
    }
    assert forall|id: TransactionId| expected.contains(id) implies settled_ids(longer).contains(
        id,
    ) by {
        if settled_ids(shorter).contains(id) {
            let j = choose|j: int|
                0 <= j < shorter.len() && (#[trigger] shorter[j]).id() == id
                    && shorter[j].inclusion_state.settled();
            assert(longer[j] == shorter[j]);
        } else {
            assert(longer[i] == updates[i]);
        }
    }
    assert(settled_ids(longer) =~= expected);
}

/// Records each updated transaction and takes the settled ones out of the
/// pending set.
fn record_transactions(
    transactions: &mut IdMap<TransactionId, Transaction>,
    pending: &mut IdSet<TransactionId>,
    updates: &Vec<Transaction>,
)
    ensures
        final(transactions)@ == with_transactions(old(transactions)@, updates@),
        final(pending)@ == old(pending)@.difference(settled_ids(updates@)),
{
    let mut i: usize = 0;
    proof {
        assert(updates@.take(0) =~= Seq::empty());
        assert(old(pending)@.difference(settled_ids(updates@.take(0))) =~= old(pending)@);
    }
    while i < updates.len()
        invariant
            i <= updates.len(),
            transactions@ == with_transactions(old(transactions)@, updates@.take(i as int)),
            pending@ == old(pending)@.difference(settled_ids(updates@.take(i as int))),
        decreases updates.len() - i,
    {
        let transaction = copy_transaction(&updates[i]);
        let id = transaction_id_of(&transaction.payload);
        proof {
            assert(updates@.take(i + 1).drop_last() =~= updates@.take(i as int));
            assert(updates@.take(i + 1).last() == transaction);
            lemma_settled_step(updates@, i as int);
        }
        let ghost current = pending@;
        if transaction.inclusion_state.is_settled() {
            pending.remove(&id);
            assert(current.remove(id) =~= old(pending)@.difference(
                settled_ids(updates@.take(i + 1)),
            ));
        }
        transactions.insert(id, transaction);
        i += 1;
    }
    proof {
        assert(updates@.take(i as int) =~= updates@);
    }
}

/// A transaction whose verdict was open stays recorded with an open verdict
/// unless one of the updates settles it.
pub proof fn lemma_open_verdict_kept(
    map: Map<TransactionId, Transaction>,
    updates: Seq<Transaction>,
    id: TransactionId,
)
    requires
        map.contains_key(id),
        !map[id].inclusion_state.settled(),
        !settled_ids(updates).contains(id),
    ensures
        with_transactions(map, updates).contains_key(id),
        !with_transactions(map, updates)[id].inclusion_state.settled(),
    decreases updates.len(),
{
    if updates.len() > 0 {
        let rest = updates.drop_last();
        if settled_ids(rest).contains(id) {
            let j = choose|j: int|
                0 <= j < rest.len() && (#[trigger] rest[j]).id() == id
                    && rest[j].inclusion_state.settled();
            assert(updates[j] == rest[j]);
        }
        lemma_open_verdict_kept(map, rest, id);
        if updates.last().id() == id {
            assert(updates[updates.len() - 1] == updates.last());
        }
    }
}

/// Recording transactions keeps every transaction under its identifier.
pub proof fn lemma_filed_under_id(map: Map<TransactionId, Transaction>, updates: Seq<Transaction>)
    requires
        forall|t: TransactionId| #[trigger] map.contains_key(t) ==> map[t].id() == t,
    ensures
        forall|t: TransactionId| #[trigger]
            with_transactions(map, updates).contains_key(t) ==> with_transactions(
                map,
                updates,
            )[t].id() == t,
    decreases updates.len(),
{
    if updates.len() > 0 {
        let rest = with_transactions(map, updates.drop_last());
        lemma_filed_under_id(map, updates.drop_last());
        assert forall|t: TransactionId| #[trigger]
            with_transactions(map, updates).contains_key(t) implies with_transactions(
            map,
            updates,
        )[t].id() == t by {
            if t != updates.last().id() {
                assert(rest.contains_key(t));
            }
        }
    }
}

impl Account {
    /// Folds what a sync cycle fetched into the account.
    ///
    /// First `used` is set on the account's address for each synced address,
    /// in order; if the account does not have one of them, the merge stops
    /// there with `AddressNotFoundInAccount` and the marks set so far stay.
    /// Otherwise the address records, outputs and transactions are brought
    /// up to date as `merged` says.
    pub fn update_account(
        &mut self,
        addresses_with_balance: Vec<AddressWithBalance>,
        outputs: Vec<OutputData>,
        transaction_sync_result: Option<TransactionSyncResult>,
        spent_outputs: Vec<OutputId>,
        options: &SyncOptions,
    ) -> (result: Result<(), SyncError>)
        requires
            old(self).wf(),
        ensures
            final(self).wf(),
            result.is_ok() <==> found_all(old(self)@, balance_views(addresses_with_balance@)),
            result.is_ok() ==> final(self)@ == merged(
                old(self)@,
                balance_views(addresses_with_balance@),
                outputs@,
                match transaction_sync_result {
                    Some(r) => Some(r@),
                    None => None,
                },
                spent_outputs@,
                *options,
            ),
            result matches Err(e) ==> e == SyncError::AddressNotFoundInAccount && final(self)@
                == with_used(
                old(self)@,
                balance_views(addresses_with_balance@),
                found_prefix_len(old(self)@, balance_views(addresses_with_balance@)) as int,
            ),
    {
        let ghost before = self@;
        let ghost synced = balance_views(addresses_with_balance@);
        match mark_synced_used(self, &addresses_with_balance) {
            Ok(()) => {},
            Err(e) => {
                return Err(e);
            },
        }
        proof {
            lemma_found_prefix(before, synced, synced.len() as int);
            assert(synced.take(synced.len() as int) =~= synced);
        }
        rebuild_balances(
            &mut self.addresses_with_balance,
            addresses_with_balance,
            options.address_start_index,
        );
        drop_outputs(&mut self.unspent_outputs, &spent_outputs);
        record_outputs(&mut self.outputs, &mut self.unspent_outputs, &outputs);
        if let Some(result) = &transaction_sync_result {
            record_transactions(
                &mut self.transactions,
                &mut self.pending_transactions,
                &result.updated_transactions,
            );
            spend_outputs(&mut self.outputs, &result.spent_output_ids);
            unlock_outputs(&mut self.locked_outputs, &result.spent_output_ids);
            drop_outputs(&mut self.unspent_outputs, &result.spent_output_ids);
            spend_outputs(&mut self.outputs, &result.output_ids_to_unlock);
            unlock_outputs(&mut self.locked_outputs, &result.output_ids_to_unlock);
            proof {
                lemma_filed_under_id(before.transactions, result@.updated_transactions);
                assert forall|t: TransactionId| #[trigger]
                    self@.pending_transactions.contains(t) implies self@.transactions.contains_key(
                    t,
                ) && !self@.transactions[t].inclusion_state.settled() by {
                    assert(before.pending_transactions.contains(t));
                    lemma_open_verdict_kept(
                        before.transactions,
                        result@.updated_transactions,
                        t,
                    );
                }
            }
        }
        Ok(())
    }
}

} // verus!
