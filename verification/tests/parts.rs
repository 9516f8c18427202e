use account_sync::account::Account;
use account_sync::addresses::{copy_address, copy_ids, known_output_ids};
use account_sync::merge::{copy_transaction, find_address};
use account_sync::outputs::{
    contains_id, output_response_to_output_data, resolve_output_ids, with_amount, AddressOutputs,
};
use account_sync::store::{IdMap, IdSet};
use account_sync::throttle::{elapsed_since, is_throttled};
use account_sync::transactions::InclusionReport;
use account_sync::types::{
    AccountAddress, AccountBalance, AddressWithBalance, InclusionState, OutputData,
    OutputResponse, SyncError, SyncOptions, Transaction,
};
use iota_client::bee_message::address::{Address, Ed25519Address};
use iota_client::bee_message::input::{Input, UtxoInput};
use iota_client::bee_message::output::{Output, OutputId, SignatureLockedSingleOutput};
use iota_client::bee_message::payload::transaction::{
    Essence, RegularEssence, TransactionId, TransactionPayload,
};
use iota_client::bee_message::signature::{Ed25519Signature, SignatureUnlock};
use iota_client::bee_message::unlock::{UnlockBlock, UnlockBlocks};

fn address_of(seed: u8) -> Address {
    Address::Ed25519(Ed25519Address::new([seed; 32]))
}

fn oid(seed: u8, index: u16) -> OutputId {
    OutputId::new(TransactionId::new([seed; 32]), index).unwrap()
}

fn balance_record(key_index: u32, internal: bool, amount: u64, ids: Vec<OutputId>) -> AddressWithBalance {
    AddressWithBalance { address: address_of(key_index as u8), key_index, internal, amount, output_ids: ids }
}

fn unspent(id: OutputId, amount: u64) -> OutputData {
    OutputData { output_id: id, amount, is_spent: false, address: address_of(0) }
}

fn payload_with(inputs: Vec<Input>) -> TransactionPayload {
    let count = inputs.len();
    let essence = RegularEssence::builder()
        .with_inputs(inputs)
        .add_output(Output::SignatureLockedSingle(
            SignatureLockedSingleOutput::new(address_of(9), 1).unwrap(),
        ))
        .finish()
        .unwrap();
    let mut blocks = Vec::new();
    for i in 0..count {
        blocks.push(UnlockBlock::Signature(SignatureUnlock::Ed25519(Ed25519Signature::new(
            [i as u8; 32],
            [i as u8; 64],
        ))));
    }
    TransactionPayload::builder()
        .with_essence(Essence::Regular(essence))
        .with_unlock_blocks(UnlockBlocks::new(blocks).unwrap())
        .finish()
        .unwrap()
}

fn utxo(id: OutputId) -> Input {
    Input::Utxo(UtxoInput::new(*id.transaction_id(), id.index()).unwrap())
}

fn filled_account() -> Account {
    let mut account = Account::new(0);
    for key_index in [0u32, 1, 2, 5] {
        assert!(account.push_address(AccountAddress {
            address: address_of(key_index as u8),
            key_index,
            internal: false,
            used: false,
        }));
    }
    for key_index in [0u32, 3] {
        assert!(account.push_address(AccountAddress {
            address: address_of(100 + key_index as u8),
            key_index,
            internal: true,
            used: false,
        }));
    }
    account
}

#[test]
fn default_options() {
    assert_eq!(
        SyncOptions::default(),
        SyncOptions {
            force_syncing: false,
            sync_pending_transactions: true,
            automatic_output_consolidation: true,
            address_start_index: 0,
        }
    );
}

#[test]
fn elapsed_time_is_zero_when_the_clock_went_back() {
    assert_eq!(elapsed_since(1_050, 1_000), 50);
    assert_eq!(elapsed_since(1_000, 1_000), 0);
    assert_eq!(elapsed_since(999, 1_000), 0);
    assert_eq!(elapsed_since(u128::MAX, 0), u128::MAX);
}

#[test]
fn throttle_decision() {
    let plain = SyncOptions::default();
    let forced = SyncOptions { force_syncing: true, ..SyncOptions::default() };
    assert!(is_throttled(1_000, 1_000, &plain));
    assert!(is_throttled(1_199, 1_000, &plain));
    assert!(!is_throttled(1_200, 1_000, &plain));
    assert!(!is_throttled(999, 1_000, &plain));
    assert!(!is_throttled(1_000, 1_000, &forced));
    assert!(!is_throttled(1_199, 1_000, &forced));
}

#[test]
fn settled_verdicts() {
    assert!(InclusionState::Confirmed.is_settled());
    assert!(InclusionState::Conflicting.is_settled());
    assert!(!InclusionState::Pending.is_settled());
    assert!(!InclusionState::UnknownPruned.is_settled());
}

#[test]
fn map_keeps_one_record_per_key() {
    let mut map: IdMap<OutputId, u64> = IdMap::new();
    assert_eq!(map.len(), 0);
    assert_eq!(map.get(&oid(1, 0)), None);
    map.insert(oid(1, 0), 10);
    map.insert(oid(1, 1), 11);
    map.insert(oid(2, 0), 20);
    map.insert(oid(1, 1), 12);
    assert_eq!(map.len(), 3);
    assert_eq!(map.get(&oid(1, 0)), Some(&10));
    assert_eq!(map.get(&oid(1, 1)), Some(&12));
    assert_eq!(map.get(&oid(2, 0)), Some(&20));
    assert_eq!(map.get(&oid(2, 1)), None);
    assert_eq!(map.position(&oid(2, 0)), Some(2));
    assert_eq!(map.key_at(1), oid(1, 1));
    assert_eq!(*map.value_at(1), 12);
    map.remove(&oid(1, 0));
    map.remove(&oid(7, 7));
    assert_eq!(map.len(), 2);
    assert!(!map.contains_key(&oid(1, 0)));
    assert!(map.contains_key(&oid(1, 1)));
    assert_eq!(map.key_at(0), oid(1, 1));
}

#[test]
fn set_keeps_one_member_per_key() {
    let first = TransactionId::new([1; 32]);
    let mut other_bytes = [1; 32];
    other_bytes[31] = 2;
    let second = TransactionId::new(other_bytes);
    let mut set: IdSet<TransactionId> = IdSet::new();
    assert!(!set.contains(&first));
    set.insert(first);
    set.insert(first);
    assert_eq!(set.len(), 1);
    assert!(set.contains(&first));
    assert!(!set.contains(&second));
    set.insert(second);
    assert_eq!(set.len(), 2);
    assert_eq!(set.item_at(1), second);
    set.remove(&first);
    set.remove(&first);
    assert_eq!(set.len(), 1);
    assert!(!set.contains(&first));
    assert!(set.contains(&second));
}

#[test]
fn identifiers_are_told_apart_by_index_and_transaction() {
    let ids = vec![oid(1, 0), oid(1, 1), oid(2, 0)];
    assert!(contains_id(&ids, &oid(1, 1)));
    assert!(contains_id(&ids, &oid(2, 0)));
    assert!(!contains_id(&ids, &oid(2, 1)));
    assert!(!contains_id(&ids, &oid(3, 0)));
    assert!(!contains_id(&vec![], &oid(1, 0)));
}

#[test]
fn address_is_found_by_binary_search() {
    let account = filled_account();
    assert_eq!(find_address(&account.public_addresses, 0, false), Some(0));
    assert_eq!(find_address(&account.public_addresses, 2, false), Some(2));
    assert_eq!(find_address(&account.public_addresses, 5, false), Some(3));
    assert_eq!(find_address(&account.public_addresses, 3, false), None);
    assert_eq!(find_address(&account.public_addresses, 6, false), None);
    assert_eq!(find_address(&account.internal_addresses, 3, true), Some(1));
    assert_eq!(find_address(&account.internal_addresses, 1, true), None);
    assert_eq!(find_address(&vec![], 0, false), None);
}

#[test]
fn selection_leaves_out_addresses_below_the_start_index() {
    let mut account = filled_account();
    account.addresses_with_balance = vec![
        balance_record(0, false, 50, vec![oid(1, 0)]),
        balance_record(3, true, 10, vec![oid(2, 0), oid(2, 1)]),
        balance_record(5, false, 10, vec![oid(3, 0)]),
        balance_record(5, false, 99, vec![oid(4, 0)]),
    ];
    let all = account.get_addresses_to_sync(&SyncOptions::default());
    let keys: Vec<(u32, bool)> = all.iter().map(|a| (a.key_index, a.internal)).collect();
    assert_eq!(
        keys,
        vec![(0, false), (1, false), (2, false), (5, false), (0, true), (3, true)]
    );
    assert!(all.iter().all(|a| a.amount == 0));
    assert_eq!(all[0].output_ids, vec![oid(1, 0)]);
    assert_eq!(all[1].output_ids, vec![]);
    assert_eq!(all[3].output_ids, vec![oid(3, 0)]);
    assert_eq!(all[4].output_ids, vec![]);
    assert_eq!(all[5].output_ids, vec![oid(2, 0), oid(2, 1)]);
    assert_eq!(all[4].address, address_of(100));

    let options = SyncOptions { address_start_index: 3, ..SyncOptions::default() };
    let some = account.get_addresses_to_sync(&options);
    assert_eq!(
        some,
        vec![
            balance_record(5, false, 0, vec![oid(3, 0)]),
            AddressWithBalance {
                address: address_of(103),
                key_index: 3,
                internal: true,
                amount: 0,
                output_ids: vec![oid(2, 0), oid(2, 1)],
            },
        ]
    );
    let none = account.get_addresses_to_sync(&SyncOptions {
        address_start_index: 6,
        ..SyncOptions::default()
    });
    assert!(none.is_empty());
}

#[test]
fn known_outputs_come_from_the_first_record_of_the_address() {
    let records = vec![
        balance_record(1, false, 5, vec![oid(1, 0)]),
        balance_record(1, true, 5, vec![oid(2, 0)]),
        balance_record(1, true, 5, vec![oid(3, 0)]),
    ];
    assert_eq!(known_output_ids(&records, 1, true), vec![oid(2, 0)]);
    assert_eq!(known_output_ids(&records, 1, false), vec![oid(1, 0)]);
    assert_eq!(known_output_ids(&records, 2, false), vec![]);
}

#[test]
fn copies_are_equal_to_what_they_copy() {
    let ids = vec![oid(1, 0), oid(2, 5)];
    assert_eq!(copy_ids(&ids), ids);
    let record = balance_record(4, true, 77, ids);
    assert_eq!(copy_address(&record), record);
    let transaction = Transaction {
        payload: payload_with(vec![utxo(oid(1, 0))]),
        inclusion_state: InclusionState::Conflicting,
    };
    assert_eq!(copy_transaction(&transaction), transaction);
}

#[test]
fn node_report_is_sorted_into_held_and_lost_outputs() {
    let reports = vec![
        AddressOutputs {
            address: balance_record(0, false, 0, vec![oid(1, 0), oid(1, 1), oid(1, 2)]),
            output_ids: vec![oid(1, 1), oid(1, 3)],
        },
        AddressOutputs {
            address: balance_record(1, false, 0, vec![oid(2, 0)]),
            output_ids: vec![],
        },
        AddressOutputs { address: balance_record(2, false, 0, vec![]), output_ids: vec![] },
        AddressOutputs {
            address: balance_record(3, true, 0, vec![]),
            output_ids: vec![oid(4, 0)],
        },
    ];
    let (held, lost) = resolve_output_ids(&reports);
    assert_eq!(
        held,
        vec![
            balance_record(0, false, 0, vec![oid(1, 1), oid(1, 3)]),
            balance_record(3, true, 0, vec![oid(4, 0)]),
        ]
    );
    assert_eq!(lost, vec![oid(1, 0), oid(1, 2), oid(2, 0)]);
    let (none_held, none_lost) = resolve_output_ids(&vec![]);
    assert!(none_held.is_empty());
    assert!(none_lost.is_empty());
}

#[test]
fn known_outputs_are_not_fetched_again() {
    let mut account = filled_account();
    account
        .update_account(
            vec![],
            vec![
                unspent(oid(1, 0), 10),
                OutputData { is_spent: true, ..unspent(oid(1, 1), 20) },
            ],
            None,
            vec![],
            &SyncOptions::default(),
        )
        .unwrap();
    let listed = vec![oid(1, 1), oid(5, 0), oid(1, 0), oid(5, 1), oid(1, 0)];
    assert_eq!(account.split_known_outputs(&listed), Ok((vec![oid(5, 0), oid(5, 1)], 40)));
    assert_eq!(account.split_known_outputs(&vec![]), Ok((vec![], 0)));
}

#[test]
fn known_amount_beyond_64_bits_is_an_error() {
    let mut account = filled_account();
    account
        .update_account(
            vec![],
            vec![unspent(oid(1, 0), u64::MAX), unspent(oid(1, 1), 1)],
            None,
            vec![],
            &SyncOptions::default(),
        )
        .unwrap();
    assert_eq!(account.split_known_outputs(&vec![oid(1, 0)]), Ok((vec![], u64::MAX)));
    assert_eq!(
        account.split_known_outputs(&vec![oid(1, 0), oid(1, 1)]),
        Err(SyncError::AmountOverflow)
    );
    assert_eq!(account.balance(), Err(SyncError::AmountOverflow));
}

#[test]
fn responses_become_records_of_the_address() {
    let address = balance_record(3, false, 0, vec![]);
    let responses = vec![
        OutputResponse { output_id: oid(1, 0), amount: 5, is_spent: false },
        OutputResponse { output_id: oid(1, 1), amount: 6, is_spent: true },
    ];
    assert_eq!(
        output_response_to_output_data(&responses, &address),
        vec![
            OutputData { output_id: oid(1, 0), amount: 5, is_spent: false, address: address_of(3) },
            OutputData { output_id: oid(1, 1), amount: 6, is_spent: true, address: address_of(3) },
        ]
    );
    assert!(output_response_to_output_data(&vec![], &address).is_empty());
}

#[test]
fn amount_of_an_address_adds_fetched_and_known_outputs() {
    let address = balance_record(3, false, 1, vec![oid(1, 0)]);
    let outputs = vec![
        unspent(oid(1, 0), 5),
        OutputData { is_spent: true, ..unspent(oid(1, 1), 6) },
    ];
    assert_eq!(
        with_amount(address.clone(), &outputs, 100),
        Ok(balance_record(3, false, 111, vec![oid(1, 0)]))
    );
    assert_eq!(with_amount(address.clone(), &vec![], 0), Ok(balance_record(3, false, 0, vec![oid(1, 0)])));
    assert_eq!(
        with_amount(address.clone(), &outputs, u64::MAX - 11),
        Ok(balance_record(3, false, u64::MAX, vec![oid(1, 0)]))
    );
    assert_eq!(with_amount(address.clone(), &outputs, u64::MAX - 10), Err(SyncError::AmountOverflow));
    assert_eq!(
        with_amount(address, &vec![unspent(oid(1, 0), u64::MAX), unspent(oid(1, 1), 1)], 0),
        Err(SyncError::AmountOverflow)
    );
}

#[test]
fn balance_leaves_locked_outputs_out_of_what_is_available() {
    let mut account = filled_account();
    assert_eq!(account.balance(), Ok(AccountBalance { total: 0, available: 0 }));
    account
        .update_account(
            vec![],
            vec![
                unspent(oid(1, 0), 10),
                unspent(oid(1, 1), 20),
                unspent(oid(1, 2), 30),
                OutputData { is_spent: true, ..unspent(oid(1, 3), 40) },
            ],
            None,
            vec![],
            &SyncOptions::default(),
        )
        .unwrap();
    account.lock_output(oid(1, 1));
    account.lock_output(oid(1, 3));
    account.lock_output(oid(6, 6));
    assert_eq!(account.balance(), Ok(AccountBalance { total: 60, available: 40 }));
}

#[test]
fn verdicts_of_the_node_are_reconciled() {
    let confirmed = payload_with(vec![utxo(oid(1, 0)), utxo(oid(1, 1))]);
    let conflicting = payload_with(vec![utxo(oid(2, 0))]);
    let waiting = payload_with(vec![utxo(oid(3, 0))]);
    let pruned = payload_with(vec![utxo(oid(4, 0))]);
    let unknown = payload_with(vec![utxo(oid(5, 0))]);
    let mut account = filled_account();
    for payload in [&confirmed, &conflicting, &waiting, &pruned] {
        assert!(account.add_pending_transaction(Transaction {
            payload: payload.clone(),
            inclusion_state: InclusionState::Pending,
        }));
    }
    assert_eq!(
        account.pending_transaction_ids(),
        vec![confirmed.id(), conflicting.id(), waiting.id(), pruned.id()]
    );
    let report = |payload: &TransactionPayload, inclusion_state| InclusionReport {
        transaction_id: payload.id(),
        inclusion_state,
    };
    let result = account.reconcile_pending_transactions(&vec![
        report(&confirmed, InclusionState::Confirmed),
        report(&conflicting, InclusionState::Conflicting),
        report(&waiting, InclusionState::Pending),
        report(&pruned, InclusionState::UnknownPruned),
        report(&unknown, InclusionState::Confirmed),
    ]);
    assert_eq!(
        result.updated_transactions,
        vec![
            Transaction { payload: confirmed.clone(), inclusion_state: InclusionState::Confirmed },
            Transaction { payload: conflicting.clone(), inclusion_state: InclusionState::Conflicting },
            Transaction { payload: pruned.clone(), inclusion_state: InclusionState::UnknownPruned },
        ]
    );
    assert_eq!(result.spent_output_ids, vec![oid(1, 0), oid(1, 1)]);
    assert_eq!(result.output_ids_to_unlock, vec![oid(2, 0)]);

    let nothing = account.reconcile_pending_transactions(&vec![]);
    assert!(nothing.updated_transactions.is_empty());
    assert!(nothing.spent_output_ids.is_empty());
    assert!(nothing.output_ids_to_unlock.is_empty());
}

#[test]
fn well_formed_account_is_recognised() {
    let mut account = filled_account();
    assert!(Account::new(3).is_well_formed());
    assert!(account.is_well_formed());
    assert!(account.add_pending_transaction(Transaction {
        payload: payload_with(vec![utxo(oid(1, 0))]),
        inclusion_state: InclusionState::Pending,
    }));
    account.lock_output(oid(1, 0));
    assert!(account.is_well_formed());
}

#[test]
fn address_lists_out_of_order_are_not_well_formed() {
    let mut swapped = filled_account();
    swapped.public_addresses.swap(1, 2);
    assert!(!swapped.is_well_formed());

    let mut doubled = filled_account();
    let last = doubled.internal_addresses[1];
    doubled.internal_addresses.push(last);
    assert!(!doubled.is_well_formed());

    let mut mixed = filled_account();
    mixed.public_addresses[0].internal = true;
    assert!(!mixed.is_well_formed());

    let mut other_way = filled_account();
    other_way.internal_addresses[1].internal = false;
    assert!(!other_way.is_well_formed());
}

#[test]
fn pending_transaction_without_open_record_is_not_well_formed() {
    let payload = payload_with(vec![utxo(oid(1, 0))]);
    let other = payload_with(vec![utxo(oid(2, 0))]);

    let mut unrecorded = filled_account();
    unrecorded.pending_transactions.insert(payload.id());
    assert!(!unrecorded.is_well_formed());

    let mut settled = filled_account();
    settled.transactions.insert(
        payload.id(),
        Transaction { payload: payload.clone(), inclusion_state: InclusionState::Confirmed },
    );
    assert!(settled.is_well_formed());
    settled.pending_transactions.insert(payload.id());
    assert!(!settled.is_well_formed());

    let mut misfiled = filled_account();
    misfiled.transactions.insert(
        other.id(),
        Transaction { payload, inclusion_state: InclusionState::Pending },
    );
    assert!(!misfiled.is_well_formed());
}

#[test]
fn merge_keeps_the_account_well_formed_and_the_unspent_outputs_recorded() {
    let mut account = filled_account();
    let spender = payload_with(vec![utxo(oid(1, 0))]);
    account
        .update_account(
            vec![
                balance_record(2, false, 30, vec![oid(1, 0), oid(1, 1)]),
                balance_record(3, true, 5, vec![oid(2, 0)]),
            ],
            vec![unspent(oid(1, 0), 10), unspent(oid(1, 1), 20), unspent(oid(2, 0), 5)],
            None,
            vec![],
            &SyncOptions::default(),
        )
        .unwrap();
    assert!(account.add_pending_transaction(Transaction {
        payload: spender.clone(),
        inclusion_state: InclusionState::Pending,
    }));
    let result = account.reconcile_pending_transactions(&vec![InclusionReport {
        transaction_id: spender.id(),
        inclusion_state: InclusionState::Confirmed,
    }]);
    account
        .update_account(
            vec![balance_record(2, false, 20, vec![oid(1, 1)])],
            vec![],
            Some(result),
            vec![oid(2, 0)],
            &SyncOptions::default(),
        )
        .unwrap();
    assert!(account.is_well_formed());
    let keys: Vec<u32> = account.public_addresses.iter().map(|a| a.key_index).collect();
    assert_eq!(keys, vec![0, 1, 2, 5]);
    assert_eq!(account.unspent_outputs.len(), 1);
    for i in 0..account.unspent_outputs.len() {
        let id = account.unspent_outputs.key_at(i);
        assert_eq!(account.outputs.get(&id).map(|o| o.is_spent), Some(false));
    }
    for i in 0..account.pending_transactions.len() {
        let id = account.pending_transactions.item_at(i);
        assert!(!account.transactions.get(&id).unwrap().inclusion_state.is_settled());
    }
    assert_eq!(account.balance(), Ok(AccountBalance { total: 20, available: 20 }));
}
