//! The address selector: which addresses one sync cycle refreshes.

use crate::account::{Account, AccountView};
use crate::types::{
    balance_views, AccountAddress, AddressBalanceView, AddressWithBalance, SyncOptions,
};
use iota_client::bee_message::output::OutputId;
use vstd::prelude::*;

verus! {

/// The first record with this key index and kind.
pub open spec fn first_record(
    balances: Seq<AddressBalanceView>,
    key_index: u32,
    internal: bool,
) -> Option<AddressBalanceView>
    decreases balances.len(),
{
    if balances.len() == 0 {
        None
    } else if balances[0].key_index == key_index && balances[0].internal == internal {
        Some(balances[0])
    } else {
        first_record(balances.drop_first(), key_index, internal)
    }
}

/// The outputs that the account knew the address to hold: those of its
/// first record, none where it has no record.
pub open spec fn known_ids(balances: Seq<AddressBalanceView>, key_index: u32, internal: bool) -> Seq<
    OutputId,
> {
    match first_record(balances, key_index, internal) {
        Some(record) => record.output_ids,
        None => Seq::empty(),
    }
}

/// The record with which the sync of an address starts: no amount yet, and
/// the outputs that the account knew the address to hold.
pub open spec fn sync_record(
    address: AccountAddress,
    balances: Seq<AddressBalanceView>,
) -> AddressBalanceView {
    AddressBalanceView {
        address: address.address,
        key_index: address.key_index,
        internal: address.internal,
        amount: 0,
        output_ids: known_ids(balances, address.key_index, address.internal),
    }
}

/// The sync records of the addresses at or above the start index, in order.
pub open spec fn selected(
    addresses: Seq<AccountAddress>,
    balances: Seq<AddressBalanceView>,
    start_index: u32,
) -> Seq<AddressBalanceView> {
    addresses.filter(|a: AccountAddress| a.key_index >= start_index).map_values(
        |a: AccountAddress| sync_record(a, balances),
    )
}

/// The addresses that a sync refreshes: the public ones, then the internal
/// ones, without those below the start index.
pub open spec fn addresses_to_sync(account: AccountView, options: SyncOptions) -> Seq<
    AddressBalanceView,
> {
    selected(
        account.public_addresses,
        account.addresses_with_balance,
        options.address_start_index,
    ) + selected(
        account.internal_addresses,
        account.addresses_with_balance,
        options.address_start_index,
    )
}

proof fn lemma_first_record(
    balances: Seq<AddressBalanceView>,
    key_index: u32,
    internal: bool,
    count: int,
)
    requires
        0 <= count <= balances.len(),
        forall|j: int|
            0 <= j < count ==> !((#[trigger] balances[j]).key_index == key_index
                && balances[j].internal == internal),
    ensures
        count == balances.len() ==> first_record(balances, key_index, internal).is_none(),
        count < balances.len() && balances[count].key_index == key_index
            && balances[count].internal == internal ==> first_record(
            balances,
            key_index,
            internal,
        ) == Some(balances[count]),
    decreases count,
{
    if count > 0 {
        let rest = balances.drop_first();
        assert forall|j: int| 0 <= j < count - 1 implies !((#[trigger] rest[j]).key_index
            == key_index && rest[j].internal == internal) by {
            assert(rest[j] == balances[j + 1]);
        }
        if count < balances.len() {
            assert(rest[count - 1] == balances[count]);
        }
        assert(!(balances[0].key_index == key_index && balances[0].internal == internal));
        lemma_first_record(rest, key_index, internal, count - 1);
    }
}

/// A copy of the identifiers.
pub fn copy_ids(ids: &Vec<OutputId>) -> (copy: Vec<OutputId>)
    ensures
        copy@ == ids@,
{
    let mut copy: Vec<OutputId> = Vec::new();
    let mut i: usize = 0;
    while i < ids.len()
        invariant
            i <= ids.len(),
            copy@ == ids@.take(i as int),
        decreases ids.len() - i,
    {
        copy.push(ids[i]);
        proof {
            assert(ids@.take(i + 1) =~= ids@.take(i as int).push(ids@[i as int]));
        }
        i += 1;
    }
    proof {
        assert(ids@.take(i as int) =~= ids@);
    }
    copy
}

/// A copy of the address record.
pub fn copy_address(address: &AddressWithBalance) -> (copy: AddressWithBalance)
    ensures
        copy@ == address@,
{
    AddressWithBalance {
        address: address.address,
        key_index: address.key_index,
        internal: address.internal,
        amount: address.amount,
        output_ids: copy_ids(&address.output_ids),
    }
}

/// The outputs that the account knew an address to hold.
pub fn known_output_ids(balances: &Vec<AddressWithBalance>, key_index: u32, internal: bool) -> (ids:
    Vec<OutputId>)
    ensures
        ids@ == known_ids(balance_views(balances@), key_index, internal),
{
    let ghost views = balance_views(balances@);
    let mut i: usize = 0;
    while i < balances.len()
        invariant
            i <= balances.len(),
            views == balance_views(balances@),
            forall|j: int|
                0 <= j < i ==> !((#[trigger] views[j]).key_index == key_index && views[j].internal
                    == internal),
        decreases balances.len() - i,
    {
        if balances[i].key_index == key_index && balances[i].internal == internal {
            proof {
                assert(views[i as int] == balances@[i as int]@);
                lemma_first_record(views, key_index, internal, i as int);
            }
            return copy_ids(&balances[i].output_ids);
        }
        proof {
            assert(views[i as int] == balances@[i as int]@);
        }
        i += 1;
    }
    proof {
        lemma_first_record(views, key_index, internal, i as int);
    }
    Vec::new()
}

/// Appends the sync records of the addresses at or above the start index.
fn select_from(
    addresses: &Vec<AccountAddress>,
    balances: &Vec<AddressWithBalance>,
    start_index: u32,
    selection: &mut Vec<AddressWithBalance>,
)
    ensures
        balance_views(final(selection)@) == balance_views(old(selection)@) + selected(
            addresses@,
            balance_views(balances@),
            start_index,
        ),
{
    let ghost views = balance_views(balances@);
    let ghost before = balance_views(selection@);
    let ghost wanted = |a: AccountAddress| a.key_index >= start_index;
    let ghost record = |a: AccountAddress| sync_record(a, views);
    let mut i: usize = 0;
    proof {
        assert(addresses@.take(0) =~= Seq::empty());
        assert(addresses@.take(0).filter(wanted) =~= Seq::empty()) by {
            reveal(Seq::filter);
        }
        assert(balance_views(selection@) =~= before + addresses@.take(0).filter(
            wanted,
        ).map_values(record));
    }
    while i < addresses.len()
        invariant
            i <= addresses.len(),
            views == balance_views(balances@),
            wanted == |a: AccountAddress| a.key_index >= start_index,
            record == |a: AccountAddress| sync_record(a, views),
            balance_views(selection@) == before + addresses@.take(i as int).filter(
                wanted,
            ).map_values(record),
        decreases addresses.len() - i,
    {
        let address = addresses[i];
        let ghost current = balance_views(selection@);
        proof {
            assert(addresses@.take(i + 1) =~= addresses@.take(i as int).push(address));
            addresses@.take(i as int).lemma_filter_push(address, wanted);
        }
        if address.key_index >= start_index {
            let output_ids = known_output_ids(balances, address.key_index, address.internal);
            selection.push(
                AddressWithBalance {
                    address: address.address,
                    key_index: address.key_index,
                    internal: address.internal,
                    amount: 0,
                    output_ids,
                },
            );
            proof {
                assert(balance_views(selection@) =~= current.push(sync_record(address, views)));
                assert(addresses@.take(i as int).filter(wanted).push(address).map_values(record)
                    =~= addresses@.take(i as int).filter(wanted).map_values(record).push(
                    sync_record(address, views),
                ));
                assert(balance_views(selection@) =~= before + addresses@.take(i + 1).filter(
                    wanted,
                ).map_values(record));
            }
        }
        i += 1;
    }
    proof {
        assert(addresses@.take(i as int) =~= addresses@);
    }
}

impl Account {
    /// Selects the addresses that this cycle refreshes.
    pub fn get_addresses_to_sync(&self, options: &SyncOptions) -> (addresses: Vec<
        AddressWithBalance,
    >)
        ensures
            balance_views(addresses@) == addresses_to_sync(self@, *options),
    {
        let mut addresses: Vec<AddressWithBalance> = Vec::new();
        select_from(
            &self.public_addresses,
            &self.addresses_with_balance,
            options.address_start_index,
            &mut addresses,
        );
        select_from(
            &self.internal_addresses,
            &self.addresses_with_balance,
            options.address_start_index,
            &mut addresses,
        );
        addresses
    }
}

} // verus!
