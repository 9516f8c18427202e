//! The account that a sync cycle reconciles, and what makes it well formed.

use crate::ids::{same_transaction, transaction_id_of};
use crate::store::{IdMap, IdSet};
use crate::types::{
    balance_views, AccountAddress, AddressBalanceView, AddressWithBalance, OutputData,
    Transaction,
};
use iota_client::bee_message::output::OutputId;
use iota_client::bee_message::payload::transaction::TransactionId;
use vstd::prelude::*;

verus! {

/// The locally cached state of one account.
pub struct Account {
    /// The number of the account in the wallet.
    pub index: u32,
    /// The addresses that receive funds from others, by ascending key index.
    pub public_addresses: Vec<AccountAddress>,
    /// The change addresses, by ascending key index.
    pub internal_addresses: Vec<AccountAddress>,
    /// The synced addresses that hold funds.
    pub addresses_with_balance: Vec<AddressWithBalance>,
    /// Every output ever observed for the account.
    pub outputs: IdMap<OutputId, OutputData>,
    /// The outputs that can still be spent.
    pub unspent_outputs: IdMap<OutputId, OutputData>,
    /// The outputs that transactions in flight have reserved.
    pub locked_outputs: IdSet<OutputId>,
    /// Every transaction that the wallet submitted.
    pub transactions: IdMap<TransactionId, Transaction>,
    /// The transactions that wait for the ledger's verdict.
    pub pending_transactions: IdSet<TransactionId>,
}

/// What an account holds, as mathematical values.
pub struct AccountView {
    pub index: u32,
    pub public_addresses: Seq<AccountAddress>,
    pub internal_addresses: Seq<AccountAddress>,
    pub addresses_with_balance: Seq<AddressBalanceView>,
    pub outputs: Map<OutputId, OutputData>,
    pub unspent_outputs: Map<OutputId, OutputData>,
    pub locked_outputs: Set<OutputId>,
    pub transactions: Map<TransactionId, Transaction>,
    pub pending_transactions: Set<TransactionId>,
}

/// All addresses are of one kind and their key indexes ascend strictly, so
/// the sequence is sorted by `(key_index, internal)` and holds no address twice.
pub open spec fn ascending(addresses: Seq<AccountAddress>, internal: bool) -> bool {
    &&& forall|i: int| 0 <= i < addresses.len() ==> (#[trigger] addresses[i]).internal == internal
    &&& forall|i: int, j: int|
        0 <= i < j < addresses.len() ==> (#[trigger] addresses[i]).key_index < (
        #[trigger] addresses[j]).key_index
}

/// Whether one of the addresses has this key index and kind.
pub open spec fn holds_address(addresses: Seq<AccountAddress>, key_index: u32, internal: bool) -> bool {
    exists|i: int|
        0 <= i < addresses.len() && (#[trigger] addresses[i]).key_index == key_index
            && addresses[i].internal == internal
}

/// Checks that the addresses are of one kind and ascend.
pub fn is_ascending(addresses: &Vec<AccountAddress>, internal: bool) -> (valid: bool)
    ensures
        valid == ascending(addresses@, internal),
{
    let mut i: usize = 0;
    while i < addresses.len()
        invariant
            i <= addresses.len(),
            ascending(addresses@.take(i as int), internal),
        decreases addresses.len() - i,
    {
        if addresses[i].internal != internal {
            return false;
        }
        if i > 0 && addresses[i - 1].key_index >= addresses[i].key_index {
            return false;
        }
        proof {
            let shorter = addresses@.take(i as int);
            let longer = addresses@.take(i + 1);
            assert forall|a: int, b: int| 0 <= a < b < longer.len() implies (
            #[trigger] longer[a]).key_index < (#[trigger] longer[b]).key_index by {
                if b < i {
                    assert(shorter[a].key_index < shorter[b].key_index);
                } else if a < i - 1 {
                    assert(shorter[a].key_index < shorter[i - 1].key_index);
                }
            }
            assert forall|a: int| 0 <= a < longer.len() implies (#[trigger] longer[a]).internal
                == internal by {
                if a < i {
                    assert(shorter[a].internal == internal);
                }
            }
        }
        i += 1;
    }
    proof {
        assert(addresses@.take(i as int) =~= addresses@);
    }
    true
}

impl AccountView {
    /// The address lists are sorted, every transaction is recorded under
    /// its identifier, and every pending transaction is recorded with a
    /// verdict that is still open.
    pub open spec fn wf(self) -> bool {
        &&& ascending(self.public_addresses, false)
        &&& ascending(self.internal_addresses, true)
        &&& forall|t: TransactionId| #[trigger]
            self.transactions.contains_key(t) ==> self.transactions[t].id() == t
        &&& forall|t: TransactionId| #[trigger]
            self.pending_transactions.contains(t) ==> self.transactions.contains_key(t)
                && !self.transactions[t].inclusion_state.settled()
    }

    /// Every unspent output is a recorded output that is not marked spent.
    pub open spec fn unspent_consistent(self) -> bool {
        forall|id: OutputId| #[trigger]
            self.unspent_outputs.contains_key(id) ==> self.outputs.contains_key(id)
                && !self.outputs[id].is_spent
    }

    /// The addresses of one kind.
    pub open spec fn addresses_of(self, internal: bool) -> Seq<AccountAddress> {
        if internal {
            self.internal_addresses
        } else {
            self.public_addresses
        }
    }

    /// Whether the account has an address with this key index and kind.
    pub open spec fn has_address(self, key_index: u32, internal: bool) -> bool {
        holds_address(self.addresses_of(internal), key_index, internal)
    }
}

impl View for Account {
    type V = AccountView;

    open spec fn view(&self) -> AccountView {
        AccountView {
            index: self.index,
            public_addresses: self.public_addresses@,
            internal_addresses: self.internal_addresses@,
            addresses_with_balance: balance_views(self.addresses_with_balance@),
            outputs: self.outputs@,
            unspent_outputs: self.unspent_outputs@,
            locked_outputs: self.locked_outputs@,
            transactions: self.transactions@,
            pending_transactions: self.pending_transactions@,
        }
    }
}

impl Account {
    /// What the account holds is well formed.
    pub open spec fn wf(&self) -> bool {
        self@.wf()
    }

    /// Checks that the account is well formed, as one that was put together
    /// from stored parts has to be before it is synced.
    pub fn is_well_formed(&self) -> (valid: bool)
        ensures
            valid == self.wf(),
    {
        if !is_ascending(&self.public_addresses, false) {
            return false;
        }
        if !is_ascending(&self.internal_addresses, true) {
            return false;
        }
        self.transactions.distinct_keys();
        let mut k: usize = 0;
        while k < self.transactions.len()
            invariant
                k <= self.transactions.entries().len(),
                self.transactions.keys().no_duplicates(),
                forall|j: int|
                    0 <= j < k ==> (#[trigger] self.transactions.entries()[j]).1.id()
                        == self.transactions.entries()[j].0,
            decreases self.transactions.entries().len() - k,
        {
            let id = transaction_id_of(&self.transactions.value_at(k).payload);
            if !same_transaction(&id, &self.transactions.key_at(k)) {
                proof {
                    self.transactions.lemma_entry(k as int);
                }
                return false;
            }
            k += 1;
        }
        proof {
            assert forall|t: TransactionId| #[trigger]
                self@.transactions.contains_key(t) implies self@.transactions[t].id() == t by {
                let j = self.transactions.keys().index_of(t);
                assert(self.transactions.keys()[j] == t);
                self.transactions.lemma_entry(j);
            }
        }
        let mut i: usize = 0;
        while i < self.pending_transactions.len()
            invariant
                i <= self.pending_transactions.items().len(),
                forall|j: int|
                    0 <= j < i ==> self@.transactions.contains_key(
                        #[trigger] self.pending_transactions.items()[j],
                    ) && !self@.transactions[self.pending_transactions.items()[j]].inclusion_state.settled(),
            decreases self.pending_transactions.items().len() - i,
        {
            let id = self.pending_transactions.item_at(i);
            let open = match self.transactions.get(&id) {
                Some(transaction) => !transaction.inclusion_state.is_settled(),
                None => false,
            };
            if !open {
                proof {
                    assert(self.pending_transactions.items().contains(id));
                    assert(self@.pending_transactions.contains(id));
                }
                return false;
            }
            i += 1;
        }
        proof {
            assert forall|t: TransactionId| #[trigger]
                self@.pending_transactions.contains(t) implies self@.transactions.contains_key(t)
                && !self@.transactions[t].inclusion_state.settled() by {
                let j = self.pending_transactions.items().index_of(t);
                assert(self.pending_transactions.items()[j] == t);
            }
        }
        true
    }

    /// An account without addresses, outputs or transactions.
    pub fn new(index: u32) -> (account: Self)
        ensures
            account.wf(),
            account@ == (AccountView {
                index,
                public_addresses: Seq::empty(),
                internal_addresses: Seq::empty(),
                addresses_with_balance: Seq::empty(),
                outputs: Map::empty(),
                unspent_outputs: Map::empty(),
                locked_outputs: Set::empty(),
                transactions: Map::empty(),
                pending_transactions: Set::empty(),
            }),
    {
        let account = Account {
            index,
            public_addresses: Vec::new(),
            internal_addresses: Vec::new(),
            addresses_with_balance: Vec::new(),
            outputs: IdMap::new(),
            unspent_outputs: IdMap::new(),
            locked_outputs: IdSet::new(),
            transactions: IdMap::new(),
            pending_transactions: IdSet::new(),
        };
        assert(account@.addresses_with_balance =~= Seq::empty());
        account
    }

    /// Appends a freshly derived address to the list of its kind. Addresses
    /// are derived by ascending key index: one whose key index does not
    /// exceed the last of its kind is refused and the account stays as it is.
    pub fn push_address(&mut self, address: AccountAddress) -> (added: bool)
        requires
            old(self).wf(),
        ensures
            final(self).wf(),
            added == ({
                let list = if address.internal {
                    old(self)@.internal_addresses
                } else {
                    old(self)@.public_addresses
                };
                list.len() == 0 || list.last().key_index < address.key_index
            }),
            added && address.internal ==> final(self)@ == (AccountView {
                internal_addresses: old(self)@.internal_addresses.push(address),
                ..old(self)@
            }),
            added && !address.internal ==> final(self)@ == (AccountView {
                public_addresses: old(self)@.public_addresses.push(address),
                ..old(self)@
            }),
            !added ==> final(self)@ == old(self)@,
    {
        if address.internal {
            let n = self.internal_addresses.len();
            if n == 0 || self.internal_addresses[n - 1].key_index < address.key_index {
                self.internal_addresses.push(address);
                true
            } else {
                false
            }
        } else {
            let n = self.public_addresses.len();
            if n == 0 || self.public_addresses[n - 1].key_index < address.key_index {
                self.public_addresses.push(address);
                true
            } else {
                false
            }
        }
    }

    /// Records a submitted transaction as pending. One whose verdict is
    /// already settled is refused and the account stays as it is.
    pub fn add_pending_transaction(&mut self, transaction: Transaction) -> (added: bool)
        requires
            old(self).wf(),
        ensures
            final(self).wf(),
            added == !transaction.inclusion_state.settled(),
            added ==> final(self)@ == (AccountView {
                transactions: old(self)@.transactions.insert(transaction.id(), transaction),
                pending_transactions: old(self)@.pending_transactions.insert(transaction.id()),
                ..old(self)@
            }),
            !added ==> final(self)@ == old(self)@,
    {
        if transaction.inclusion_state.is_settled() {
            return false;
        }
        let id = transaction_id_of(&transaction.payload);
        self.transactions.insert(id, transaction);
        self.pending_transactions.insert(id);
        true
    }

    /// Reserves an output for a transaction in flight.
    pub fn lock_output(&mut self, output_id: OutputId)
        requires
            old(self).wf(),
        ensures
            final(self).wf(),
            final(self)@ == (AccountView {
                locked_outputs: old(self)@.locked_outputs.insert(output_id),
                ..old(self)@
            }),
    {
        self.locked_outputs.insert(output_id);
    }
}

} // verus!
