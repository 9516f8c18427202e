use account_sync::account::Account;
use account_sync::types::{
    AccountAddress, AddressWithBalance, InclusionState, OutputData, SyncError, SyncOptions,
    Transaction, TransactionSyncResult,
};
use iota_client::bee_message::address::{Address, Ed25519Address};
use iota_client::bee_message::input::{Input, UtxoInput};
use iota_client::bee_message::output::{Output, OutputId, SignatureLockedSingleOutput};
use iota_client::bee_message::payload::transaction::{
    Essence, RegularEssence, TransactionId, TransactionPayload,
};
use iota_client::bee_message::signature::{Ed25519Signature, SignatureUnlock};
use iota_client::bee_message::unlock::{UnlockBlock, UnlockBlocks};

fn ledger_address(seed: u8) -> Address {
    Address::Ed25519(Ed25519Address::new([seed; 32]))
}

fn output_id(seed: u8, index: u16) -> OutputId {
    OutputId::new(TransactionId::new([seed; 32]), index).unwrap()
}

fn account_address(key_index: u32, internal: bool) -> AccountAddress {
    AccountAddress { address: ledger_address(key_index as u8), key_index, internal, used: false }
}

fn record(key_index: u32, internal: bool, amount: u64, ids: Vec<OutputId>) -> AddressWithBalance {
    AddressWithBalance {
        address: ledger_address(key_index as u8),
        key_index,
        internal,
        amount,
        output_ids: ids,
    }
}

fn output(id: OutputId, amount: u64, is_spent: bool) -> OutputData {
    OutputData { output_id: id, amount, is_spent, address: ledger_address(0) }
}

fn payload(consumed: Vec<OutputId>, amount: u64) -> TransactionPayload {
    let mut essence = RegularEssence::builder();
    let count = consumed.len();
    for id in consumed {
        essence = essence.add_input(Input::Utxo(UtxoInput::new(*id.transaction_id(), id.index()).unwrap()));
    }
    essence = essence.add_output(Output::SignatureLockedSingle(
        SignatureLockedSingleOutput::new(ledger_address(9), amount).unwrap(),
    ));
    let mut blocks = Vec::new();
    for i in 0..count {
        blocks.push(UnlockBlock::Signature(SignatureUnlock::Ed25519(Ed25519Signature::new(
            [i as u8; 32],
            [i as u8; 64],
        ))));
    }
    TransactionPayload::builder()
        .with_essence(Essence::Regular(essence.finish().unwrap()))
        .with_unlock_blocks(UnlockBlocks::new(blocks).unwrap())
        .finish()
        .unwrap()
}

fn account_with_public(count: u32) -> Account {
    let mut account = Account::new(0);
    for key_index in 0..count {
        assert!(account.push_address(account_address(key_index, false)));
    }
    account
}

#[test]
fn merge_records_one_new_output() {
    let o1 = output_id(1, 0);
    let mut account = account_with_public(1);
    let result = account.update_account(
        vec![record(0, false, 100, vec![o1])],
        vec![output(o1, 100, false)],
        None,
        vec![],
        &SyncOptions::default(),
    );
    assert_eq!(result, Ok(()));
    assert_eq!(account.outputs.len(), 1);
    assert_eq!(account.outputs.get(&o1), Some(&output(o1, 100, false)));
    assert_eq!(account.unspent_outputs.len(), 1);
    assert_eq!(account.unspent_outputs.get(&o1), Some(&output(o1, 100, false)));
    assert_eq!(account.addresses_with_balance, vec![record(0, false, 100, vec![o1])]);
    assert!(account.public_addresses[0].used);
    assert_eq!(account.balance().unwrap().total, 100);
}

#[test]
fn merge_marks_public_and_internal_addresses_used() {
    let mut account = account_with_public(3);
    assert!(account.push_address(account_address(0, true)));
    assert!(account.push_address(account_address(4, true)));
    let result = account.update_account(
        vec![record(2, false, 1, vec![output_id(1, 0)]), record(4, true, 2, vec![output_id(2, 0)])],
        vec![],
        None,
        vec![],
        &SyncOptions::default(),
    );
    assert_eq!(result, Ok(()));
    let public: Vec<bool> = account.public_addresses.iter().map(|a| a.used).collect();
    let internal: Vec<bool> = account.internal_addresses.iter().map(|a| a.used).collect();
    assert_eq!(public, vec![false, false, true]);
    assert_eq!(internal, vec![false, true]);
    assert_eq!(account.public_addresses[2].key_index, 2);
    assert_eq!(account.internal_addresses[1].key_index, 4);
}

#[test]
fn merge_fails_on_an_address_the_account_lacks() {
    let mut account = account_with_public(2);
    let before = account.addresses_with_balance.clone();
    let result = account.update_account(
        vec![
            record(1, false, 5, vec![output_id(1, 0)]),
            record(7, false, 5, vec![output_id(2, 0)]),
            record(0, false, 5, vec![output_id(3, 0)]),
        ],
        vec![output(output_id(1, 0), 5, false)],
        None,
        vec![],
        &SyncOptions::default(),
    );
    assert_eq!(result, Err(SyncError::AddressNotFoundInAccount));
    assert!(account.public_addresses[1].used);
    assert!(!account.public_addresses[0].used);
    assert_eq!(account.addresses_with_balance, before);
    assert_eq!(account.outputs.len(), 0);
    assert_eq!(account.unspent_outputs.len(), 0);
}

#[test]
fn merge_fails_on_an_address_of_the_other_kind() {
    let mut account = account_with_public(2);
    let result = account.update_account(
        vec![record(1, true, 5, vec![])],
        vec![],
        None,
        vec![],
        &SyncOptions::default(),
    );
    assert_eq!(result, Err(SyncError::AddressNotFoundInAccount));
    assert!(!account.public_addresses[1].used);
}

#[test]
fn merge_keeps_addresses_below_the_start_index() {
    let o0 = output_id(1, 0);
    let o5 = output_id(2, 0);
    let mut account = account_with_public(6);
    account.addresses_with_balance = vec![record(0, false, 50, vec![o0]), record(5, false, 10, vec![o5])];
    let options = SyncOptions { address_start_index: 3, ..SyncOptions::default() };
    let result = account.update_account(
        vec![record(5, false, 20, vec![o5])],
        vec![],
        None,
        vec![],
        &options,
    );
    assert_eq!(result, Ok(()));
    assert_eq!(
        account.addresses_with_balance,
        vec![record(0, false, 50, vec![o0]), record(5, false, 20, vec![o5])]
    );
}

#[test]
fn merge_drops_addresses_that_were_not_synced_again() {
    let mut account = account_with_public(6);
    account.addresses_with_balance = vec![
        record(4, false, 7, vec![output_id(4, 0)]),
        record(1, false, 3, vec![output_id(1, 0)]),
        record(3, false, 9, vec![output_id(3, 0)]),
        record(2, false, 8, vec![output_id(2, 0)]),
    ];
    let options = SyncOptions { address_start_index: 3, ..SyncOptions::default() };
    let result = account.update_account(vec![], vec![], None, vec![], &options);
    assert_eq!(result, Ok(()));
    assert_eq!(
        account.addresses_with_balance,
        vec![record(1, false, 3, vec![output_id(1, 0)]), record(2, false, 8, vec![output_id(2, 0)])]
    );
}

#[test]
fn merge_removes_spent_outputs_from_the_unspent_ones_only() {
    let o1 = output_id(1, 0);
    let o2 = output_id(1, 1);
    let mut account = account_with_public(1);
    account
        .update_account(
            vec![record(0, false, 30, vec![o1, o2])],
            vec![output(o1, 10, false), output(o2, 20, false)],
            None,
            vec![],
            &SyncOptions::default(),
        )
        .unwrap();
    account
        .update_account(
            vec![record(0, false, 20, vec![o2])],
            vec![],
            None,
            vec![o1, output_id(9, 9)],
            &SyncOptions::default(),
        )
        .unwrap();
    assert!(!account.unspent_outputs.contains_key(&o1));
    assert!(account.unspent_outputs.contains_key(&o2));
    assert_eq!(account.outputs.get(&o1), Some(&output(o1, 10, false)));
    assert_eq!(account.outputs.len(), 2);
    assert_eq!(account.balance().unwrap().total, 20);
}

#[test]
fn merge_records_a_spent_output_but_not_as_unspent() {
    let o1 = output_id(1, 0);
    let mut account = account_with_public(1);
    account
        .update_account(
            vec![record(0, false, 10, vec![o1])],
            vec![output(o1, 10, true)],
            None,
            vec![],
            &SyncOptions::default(),
        )
        .unwrap();
    assert_eq!(account.outputs.get(&o1), Some(&output(o1, 10, true)));
    assert!(!account.unspent_outputs.contains_key(&o1));
}

#[test]
fn merge_lets_a_later_record_replace_an_earlier_one() {
    let o1 = output_id(1, 0);
    let mut account = account_with_public(1);
    account
        .update_account(
            vec![record(0, false, 10, vec![o1])],
            vec![output(o1, 10, false), output(o1, 11, false)],
            None,
            vec![],
            &SyncOptions::default(),
        )
        .unwrap();
    assert_eq!(account.outputs.len(), 1);
    assert_eq!(account.outputs.get(&o1), Some(&output(o1, 11, false)));
    assert_eq!(account.unspent_outputs.get(&o1), Some(&output(o1, 11, false)));
}

#[test]
fn merge_settles_a_confirmed_transaction() {
    let o1 = output_id(1, 0);
    let tx1 = payload(vec![o1], 100);
    let mut account = account_with_public(1);
    account
        .update_account(
            vec![record(0, false, 100, vec![o1])],
            vec![output(o1, 100, false)],
            None,
            vec![],
            &SyncOptions::default(),
        )
        .unwrap();
    assert!(account.add_pending_transaction(Transaction {
        payload: tx1.clone(),
        inclusion_state: InclusionState::Pending,
    }));
    account.lock_output(o1);
    assert!(account.pending_transactions.contains(&tx1.id()));
    assert!(account.locked_outputs.contains(&o1));

    let result = TransactionSyncResult {
        updated_transactions: vec![Transaction {
            payload: tx1.clone(),
            inclusion_state: InclusionState::Confirmed,
        }],
        spent_output_ids: vec![o1],
        output_ids_to_unlock: vec![],
    };
    account
        .update_account(vec![], vec![], Some(result), vec![], &SyncOptions::default())
        .unwrap();
    assert!(!account.pending_transactions.contains(&tx1.id()));
    assert_eq!(
        account.transactions.get(&tx1.id()).map(|t| t.inclusion_state),
        Some(InclusionState::Confirmed)
    );
    assert!(!account.unspent_outputs.contains_key(&o1));
    assert!(!account.locked_outputs.contains(&o1));
    assert_eq!(account.outputs.get(&o1), Some(&output(o1, 100, true)));
}

#[test]
fn merge_unlocks_the_outputs_of_a_conflicting_transaction() {
    let o2 = output_id(2, 0);
    let tx2 = payload(vec![o2], 40);
    let mut account = account_with_public(1);
    account
        .update_account(
            vec![record(0, false, 40, vec![o2])],
            vec![output(o2, 40, false)],
            None,
            vec![],
            &SyncOptions::default(),
        )
        .unwrap();
    assert!(account.add_pending_transaction(Transaction {
        payload: tx2.clone(),
        inclusion_state: InclusionState::Pending,
    }));
    account.lock_output(o2);

    let result = TransactionSyncResult {
        updated_transactions: vec![Transaction {
            payload: tx2.clone(),
            inclusion_state: InclusionState::Conflicting,
        }],
        spent_output_ids: vec![],
        output_ids_to_unlock: vec![o2],
    };
    account
        .update_account(vec![], vec![], Some(result), vec![], &SyncOptions::default())
        .unwrap();
    assert!(!account.pending_transactions.contains(&tx2.id()));
    assert!(!account.locked_outputs.contains(&o2));
    assert_eq!(account.outputs.get(&o2), Some(&output(o2, 40, true)));
    assert!(account.unspent_outputs.contains_key(&o2));
    assert_eq!(
        account.transactions.get(&tx2.id()).map(|t| t.inclusion_state),
        Some(InclusionState::Conflicting)
    );
}

#[test]
fn merge_keeps_a_transaction_pending_whose_verdict_is_open() {
    let tx = payload(vec![output_id(3, 0)], 1);
    let mut account = account_with_public(1);
    assert!(account.add_pending_transaction(Transaction {
        payload: tx.clone(),
        inclusion_state: InclusionState::Pending,
    }));
    let result = TransactionSyncResult {
        updated_transactions: vec![Transaction {
            payload: tx.clone(),
            inclusion_state: InclusionState::UnknownPruned,
        }],
        spent_output_ids: vec![],
        output_ids_to_unlock: vec![],
    };
    account
        .update_account(vec![], vec![], Some(result), vec![], &SyncOptions::default())
        .unwrap();
    assert!(account.pending_transactions.contains(&tx.id()));
    assert_eq!(
        account.transactions.get(&tx.id()).map(|t| t.inclusion_state),
        Some(InclusionState::UnknownPruned)
    );
}

#[test]
fn merge_twice_with_what_a_second_sync_fetches_changes_nothing() {
    let o1 = output_id(1, 0);
    let mut account = account_with_public(2);
    account
        .update_account(
            vec![record(1, false, 100, vec![o1])],
            vec![output(o1, 100, false)],
            None,
            vec![],
            &SyncOptions::default(),
        )
        .unwrap();
    let public = account.public_addresses.clone();
    let balances = account.addresses_with_balance.clone();
    account
        .update_account(
            vec![record(1, false, 100, vec![o1])],
            vec![],
            None,
            vec![],
            &SyncOptions::default(),
        )
        .unwrap();
    assert_eq!(account.public_addresses, public);
    assert_eq!(account.addresses_with_balance, balances);
    assert_eq!(account.outputs.len(), 1);
    assert_eq!(account.unspent_outputs.get(&o1), Some(&output(o1, 100, false)));
}

#[test]
fn pending_transaction_with_a_settled_verdict_is_refused() {
    let tx = payload(vec![output_id(3, 0)], 1);
    let mut account = Account::new(7);
    assert!(!account.add_pending_transaction(Transaction {
        payload: tx.clone(),
        inclusion_state: InclusionState::Confirmed,
    }));
    assert!(!account.add_pending_transaction(Transaction {
        payload: tx.clone(),
        inclusion_state: InclusionState::Conflicting,
    }));
    assert_eq!(account.pending_transactions.len(), 0);
    assert_eq!(account.transactions.len(), 0);
    assert_eq!(account.index, 7);
}

#[test]
fn pending_transaction_is_filed_under_the_identifier_of_its_payload() {
    let first = payload(vec![output_id(3, 0)], 1);
    let second = payload(vec![output_id(3, 1)], 1);
    assert_ne!(first.id(), second.id());
    let mut account = Account::new(0);
    assert!(account.add_pending_transaction(Transaction {
        payload: first.clone(),
        inclusion_state: InclusionState::Pending,
    }));
    assert!(account.add_pending_transaction(Transaction {
        payload: second.clone(),
        inclusion_state: InclusionState::Pending,
    }));
    assert_eq!(account.pending_transaction_ids(), vec![first.id(), second.id()]);
    assert_eq!(account.transactions.get(&second.id()).map(|t| t.payload.clone()), Some(second));
    assert_eq!(account.transactions.len(), 2);
}

#[test]
fn addresses_are_taken_in_ascending_order_only() {
    let mut account = Account::new(0);
    assert!(account.push_address(account_address(0, false)));
    assert!(account.push_address(account_address(2, false)));
    assert!(!account.push_address(account_address(2, false)));
    assert!(!account.push_address(account_address(1, false)));
    assert!(account.push_address(account_address(1, true)));
    assert_eq!(account.public_addresses.len(), 2);
    assert_eq!(account.internal_addresses.len(), 1);
}
