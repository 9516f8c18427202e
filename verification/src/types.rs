//! The records that a sync cycle reads and writes.

use crate::ids::payload_id;
use iota_client::bee_message::address::Address;
use iota_client::bee_message::output::OutputId;
use iota_client::bee_message::payload::transaction::{TransactionId, TransactionPayload};
use vstd::prelude::*;

verus! {

/// The ledger's verdict on a transaction.
#[derive(Clone, Copy, Debug, PartialEq, Eq, Structural)]
pub enum InclusionState {
    Pending,
    Confirmed,
    Conflicting,
    UnknownPruned,
}

impl InclusionState {
    /// Confirmed or conflicting: the ledger has decided.
    pub open spec fn settled(self) -> bool {
        self == InclusionState::Confirmed || self == InclusionState::Conflicting
    }

    pub fn is_settled(&self) -> (r: bool)
        ensures
            r == self.settled(),
    {
        match self {
            InclusionState::Confirmed => true,
            InclusionState::Conflicting => true,
            _ => false,
        }
    }
}

/// Whether the signer needs the user's approval for each transaction.
#[derive(Clone, Copy, Debug, PartialEq, Eq, Structural)]
pub enum SignerKind {
    Hardware,
    Software,
}

/// What ends a sync cycle early.
#[derive(Clone, Copy, Debug, PartialEq, Eq, Structural)]
pub enum SyncError {
    /// A synced address is not among the account's addresses.
    AddressNotFoundInAccount,
    /// The node client failed.
    Network,
    /// The storage backend failed.
    Storage,
    /// The consolidation routine failed.
    Consolidation,
    /// A sum of amounts does not fit in 64 bits.
    AmountOverflow,
    /// An event arrived that the cycle was not waiting for.
    UnexpectedEvent,
}

/// The options of one sync call.
#[derive(Clone, Copy, Debug, PartialEq, Eq, Structural)]
pub struct SyncOptions {
    /// Sync even if the last sync was a moment ago.
    pub force_syncing: bool,
    /// Ask the node about the pending transactions first.
    pub sync_pending_transactions: bool,
    /// Consolidate outputs afterwards, unless the signer is hardware-backed.
    pub automatic_output_consolidation: bool,
    /// The lowest key index whose addresses are synced.
    pub address_start_index: u32,
}

impl Default for SyncOptions {
    fn default() -> (options: Self)
        ensures
            options == (SyncOptions {
                force_syncing: false,
                sync_pending_transactions: true,
                automatic_output_consolidation: true,
                address_start_index: 0,
            }),
    {
        SyncOptions {
            force_syncing: false,
            sync_pending_transactions: true,
            automatic_output_consolidation: true,
            address_start_index: 0,
        }
    }
}

/// An address of the account, identified by `(key_index, internal)`.
#[derive(Clone, Copy, Debug, PartialEq, Eq)]
pub struct AccountAddress {
    pub address: Address,
    pub key_index: u32,
    pub internal: bool,
    pub used: bool,
}

/// An address together with the outputs it holds and their total amount.
#[derive(Clone, Debug, PartialEq, Eq)]
pub struct AddressWithBalance {
    pub address: Address,
    pub key_index: u32,
    pub internal: bool,
    pub amount: u64,
    pub output_ids: Vec<OutputId>,
}

/// What an `AddressWithBalance` holds.
pub struct AddressBalanceView {
    pub address: Address,
    pub key_index: u32,
    pub internal: bool,
    pub amount: u64,
    pub output_ids: Seq<OutputId>,
}

impl View for AddressWithBalance {
    type V = AddressBalanceView;

    open spec fn view(&self) -> AddressBalanceView {
        AddressBalanceView {
            address: self.address,
            key_index: self.key_index,
            internal: self.internal,
            amount: self.amount,
            output_ids: self.output_ids@,
        }
    }
}

/// The views of a sequence of address records.
pub open spec fn balance_views(addresses: Seq<AddressWithBalance>) -> Seq<AddressBalanceView> {
    addresses.map_values(|a: AddressWithBalance| a@)
}

/// An output as the account records it.
#[derive(Clone, Copy, Debug, PartialEq, Eq)]
pub struct OutputData {
    pub output_id: OutputId,
    pub amount: u64,
    pub is_spent: bool,
    /// The address that holds the output.
    pub address: Address,
}

impl OutputData {
    /// The same output, marked spent.
    pub open spec fn spent(self) -> OutputData {
        OutputData { is_spent: true, ..self }
    }
}

/// An output as the node reports it.
#[derive(Clone, Copy, Debug, PartialEq, Eq)]
pub struct OutputResponse {
    pub output_id: OutputId,
    pub amount: u64,
    pub is_spent: bool,
}

/// A transaction that the wallet submitted, with the ledger's verdict on it.
#[derive(Clone, Debug, PartialEq, Eq)]
pub struct Transaction {
    pub payload: TransactionPayload,
    pub inclusion_state: InclusionState,
}

impl Transaction {
    /// The identifier of the transaction: that of its payload.
    pub open spec fn id(self) -> TransactionId {
        payload_id(self.payload)
    }
}

/// What asking the node about the pending transactions gave.
#[derive(Clone, Debug, PartialEq, Eq)]
pub struct TransactionSyncResult {
    /// The transactions whose inclusion state changed, with the new state.
    pub updated_transactions: Vec<Transaction>,
    /// The outputs that transactions consumed which are now confirmed.
    pub spent_output_ids: Vec<OutputId>,
    /// The outputs that transactions held locked which are now conflicting.
    pub output_ids_to_unlock: Vec<OutputId>,
}

/// What a `TransactionSyncResult` holds.
pub struct TransactionSyncView {
    pub updated_transactions: Seq<Transaction>,
    pub spent_output_ids: Seq<OutputId>,
    pub output_ids_to_unlock: Seq<OutputId>,
}

impl View for TransactionSyncResult {
    type V = TransactionSyncView;

    open spec fn view(&self) -> TransactionSyncView {
        TransactionSyncView {
            updated_transactions: self.updated_transactions@,
            spent_output_ids: self.spent_output_ids@,
            output_ids_to_unlock: self.output_ids_to_unlock@,
        }
    }
}

/// The funds of an account.
#[derive(Clone, Copy, Debug, PartialEq, Eq, Structural)]
pub struct AccountBalance {
    /// The sum of the unspent outputs.
    pub total: u64,
    /// The total without the outputs that pending transactions hold locked.
    pub available: u64,
}

} // verus!
