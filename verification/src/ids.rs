//! Identifiers of outputs and transactions, as the ledger client defines them.
//!
//! The identifiers stay the client's own types. The library only compares
//! them, copies them and asks a transaction payload for its identifier and
//! its inputs; those calls are the trusted edge of this crate.

use iota_client::bee_message::address::Address;
use iota_client::bee_message::input::Input;
use iota_client::bee_message::output::OutputId;
use iota_client::bee_message::payload::transaction::{Essence, TransactionId, TransactionPayload};
use vstd::prelude::*;

verus! {

/// The client's `bee_message::output::OutputId`, carried as an opaque value.
#[verifier::external_type_specification]
#[verifier::external_body]
pub struct ExOutputId(OutputId);

/// The client's `bee_message::payload::transaction::TransactionId`, carried
/// as an opaque value.
#[verifier::external_type_specification]
#[verifier::external_body]
pub struct ExTransactionId(TransactionId);

/// The client's `bee_message::payload::transaction::TransactionPayload`,
/// carried as an opaque value.
#[verifier::external_type_specification]
#[verifier::external_body]
pub struct ExTransactionPayload(TransactionPayload);

/// The client's `bee_message::address::Address`, carried as an opaque value.
#[verifier::external_type_specification]
#[verifier::external_body]
pub struct ExAddress(Address);

/// The identifier of a transaction payload: the hash that
/// `TransactionPayload::id` computes over the packed payload.
pub uninterp spec fn payload_id(payload: TransactionPayload) -> TransactionId;

/// The inputs of a transaction payload, in the order of its essence: the
/// output that a UTXO input consumes, `None` for a treasury input.
pub uninterp spec fn payload_inputs(payload: TransactionPayload) -> Seq<Option<OutputId>>;

/// Calls `TransactionPayload::id`. The identifier is a hash of the payload's
/// bytes, so it depends on the payload alone.
#[verifier::external_body]
pub(crate) fn transaction_id_of(payload: &TransactionPayload) -> (id: TransactionId)
    ensures
        id == payload_id(*payload),
{
    payload.id()
}

/// Reads `TransactionPayload::essence` and `RegularEssence::inputs`: the
/// number of inputs of the payload.
#[verifier::external_body]
pub(crate) fn input_count(payload: &TransactionPayload) -> (count: usize)
    ensures
        count == payload_inputs(*payload).len(),
{
    let Essence::Regular(essence) = payload.essence();
    essence.inputs().len()
}

/// Reads one input of the payload, through `TransactionPayload::essence` and
/// `RegularEssence::inputs`: `UtxoInput::output_id` for a UTXO input, `None`
/// for a treasury input.
#[verifier::external_body]
pub(crate) fn input_at(payload: &TransactionPayload, index: usize) -> (input: Option<OutputId>)
    requires
        index < payload_inputs(*payload).len(),
    ensures
        input == payload_inputs(*payload)[index as int],
{
    let Essence::Regular(essence) = payload.essence();
    match &essence.inputs()[index] {
        Input::Utxo(utxo) => Some(*utxo.output_id()),
        Input::Treasury(_) => None,
    }
}

/// The `Clone` that the client derives for `TransactionPayload`: a
/// field-by-field copy.
pub assume_specification[ <TransactionPayload as Clone>::clone ](
    payload: &TransactionPayload,
) -> (copy: TransactionPayload)
    ensures
        copy == *payload,
;

/// The `Clone` that the client derives for `Address`, a `Copy` type.
pub assume_specification[ <Address as Clone>::clone ](address: &Address) -> (copy: Address)
    ensures
        copy == *address,
;

/// Calls the `PartialEq` that the client derives for `OutputId`: two
/// identifiers are equal when transaction identifier and index are.
#[verifier::external_body]
pub(crate) fn same_output(a: &OutputId, b: &OutputId) -> (r: bool)
    ensures
        r == (*a == *b),
{
    a == b
}

/// Calls the `PartialEq` that the client derives for `TransactionId`: two
/// identifiers are equal when their 32 bytes are.
#[verifier::external_body]
pub(crate) fn same_transaction(a: &TransactionId, b: &TransactionId) -> (r: bool)
    ensures
        r == (*a == *b),
{
    a == b
}

/// A key of the account's maps and sets: a value that can be copied and
/// compared, where equal means the same value.
pub trait Key: Copy {
    fn same(&self, other: &Self) -> (r: bool)
        ensures
            r == (*self == *other),
    ;
}

impl Key for OutputId {
    fn same(&self, other: &Self) -> (r: bool) {
        same_output(self, other)
    }
}

impl Key for TransactionId {
    fn same(&self, other: &Self) -> (r: bool) {
        same_transaction(self, other)
    }
}

} // verus!
