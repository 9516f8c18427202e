use account_sync::account::Account;
use account_sync::cycle::{Phase, SyncAction, SyncCycle, SyncEvent};
use account_sync::outputs::AddressOutputs;
use account_sync::throttle::MIN_SYNC_INTERVAL;
use account_sync::transactions::InclusionReport;
use account_sync::types::{
    AccountAddress, AccountBalance, AddressWithBalance, InclusionState, OutputData,
    OutputResponse, SignerKind, SyncError, SyncOptions, Transaction,
};
use iota_client::bee_message::address::{Address, Ed25519Address};
use iota_client::bee_message::input::{Input, UtxoInput};
use iota_client::bee_message::output::{Output, OutputId, SignatureLockedSingleOutput};
use iota_client::bee_message::payload::transaction::{
    Essence, RegularEssence, TransactionId, TransactionPayload,
};
use iota_client::bee_message::signature::{Ed25519Signature, SignatureUnlock};
use iota_client::bee_message::unlock::{UnlockBlock, UnlockBlocks};

fn node_address(seed: u8) -> Address {
    Address::Ed25519(Ed25519Address::new([seed; 32]))
}

fn id_of_output(seed: u8, index: u16) -> OutputId {
    OutputId::new(TransactionId::new([seed; 32]), index).unwrap()
}

fn selected(key_index: u32, internal: bool, ids: Vec<OutputId>) -> AddressWithBalance {
    AddressWithBalance {
        address: node_address(key_index as u8),
        key_index,
        internal,
        amount: 0,
        output_ids: ids,
    }
}

fn spending(consumed: Vec<OutputId>) -> TransactionPayload {
    let mut essence = RegularEssence::builder();
    let count = consumed.len();
    for id in consumed {
        essence = essence.add_input(Input::Utxo(UtxoInput::new(*id.transaction_id(), id.index()).unwrap()));
    }
    essence = essence.add_output(Output::SignatureLockedSingle(
        SignatureLockedSingleOutput::new(node_address(9), 1).unwrap(),
    ));
    let mut blocks = Vec::new();
    for i in 0..count {
        blocks.push(UnlockBlock::Signature(SignatureUnlock::Ed25519(Ed25519Signature::new(
            [i as u8; 32],
            [i as u8; 64],
        ))));
    }
    TransactionPayload::builder()
        .with_essence(Essence::Regular(essence.finish().unwrap()))
        .with_unlock_blocks(UnlockBlocks::new(blocks).unwrap())
        .finish()
        .unwrap()
}

fn account_of(public: u32) -> Account {
    let mut account = Account::new(0);
    for key_index in 0..public {
        assert!(account.push_address(AccountAddress {
            address: node_address(key_index as u8),
            key_index,
            internal: false,
            used: false,
        }));
    }
    account
}

/// Drives a cycle to its end against a node that lists `listed` for
/// every address with key index 0 and holds `amount` in each output.
fn run_to_end(
    cycle: &mut SyncCycle,
    account: &mut Account,
    listed: Vec<OutputId>,
    amount: u64,
    now: u128,
    later: u128,
) -> (Result<AccountBalance, SyncError>, Vec<&'static str>) {
    let mut trace = Vec::new();
    let mut action = cycle.advance(account, SyncEvent::Started { now });
    loop {
        action = match action {
            SyncAction::QueryInclusionStates(ids) => {
                trace.push("inclusion states");
                let reports = ids
                    .into_iter()
                    .map(|transaction_id| InclusionReport {
                        transaction_id,
                        inclusion_state: InclusionState::Pending,
                    })
                    .collect();
                cycle.advance(account, SyncEvent::InclusionStates(reports))
            }
            SyncAction::QueryOutputIds(addresses) => {
                trace.push("output ids");
                let reports = addresses
                    .into_iter()
                    .map(|address| {
                        let output_ids = if address.key_index == 0 { listed.clone() } else { vec![] };
                        AddressOutputs { address, output_ids }
                    })
                    .collect();
                cycle.advance(account, SyncEvent::OutputIds(reports))
            }
            SyncAction::FetchOutputs(ids) => {
                trace.push(if ids.is_empty() { "nothing to fetch" } else { "outputs" });
                let responses = ids
                    .into_iter()
                    .map(|output_id| OutputResponse { output_id, amount, is_spent: false })
                    .collect();
                cycle.advance(account, SyncEvent::Outputs(responses))
            }
            SyncAction::Consolidate => {
                trace.push("consolidate");
                cycle.advance(account, SyncEvent::Consolidated)
            }
            SyncAction::Merge => {
                trace.push("merge");
                cycle.merge(account)
            }
            SyncAction::Persist => {
                trace.push("persist");
                cycle.advance(account, SyncEvent::Persisted)
            }
            SyncAction::ReadClock => {
                trace.push("clock");
                cycle.advance(account, SyncEvent::Clock { now: later })
            }
            SyncAction::Return(balance) => return (Ok(balance), trace),
            SyncAction::Fail(e) => return (Err(e), trace),
        };
    }
}

#[test]
fn first_sync_finds_one_new_output() {
    let o1 = id_of_output(1, 0);
    let mut account = account_of(1);
    let mut cycle = SyncCycle::new(None, SignerKind::Software, 0);
    let (result, trace) = run_to_end(&mut cycle, &mut account, vec![o1], 100, 5_000, 5_040);
    assert_eq!(result, Ok(AccountBalance { total: 100, available: 100 }));
    assert_eq!(
        trace,
        vec!["inclusion states", "output ids", "outputs", "consolidate", "merge", "persist", "clock"]
    );
    assert_eq!(account.outputs.len(), 1);
    assert_eq!(
        account.outputs.get(&o1),
        Some(&OutputData { output_id: o1, amount: 100, is_spent: false, address: node_address(0) })
    );
    assert_eq!(account.unspent_outputs.get(&o1), account.outputs.get(&o1));
    assert_eq!(
        account.addresses_with_balance,
        vec![AddressWithBalance {
            address: node_address(0),
            key_index: 0,
            internal: false,
            amount: 100,
            output_ids: vec![o1],
        }]
    );
    assert!(account.public_addresses[0].used);
    assert_eq!(cycle.last_synced(), 5_040);
    assert_eq!(cycle.phase(), Phase::Finished);
}

#[test]
fn sync_within_the_interval_only_reports_the_balance() {
    let o1 = id_of_output(1, 0);
    let mut account = account_of(1);
    let mut first = SyncCycle::new(None, SignerKind::Software, 0);
    run_to_end(&mut first, &mut account, vec![o1], 100, 5_000, 5_040).0.unwrap();
    let last_synced = first.last_synced();

    assert_eq!(MIN_SYNC_INTERVAL, 200);
    let mut second = SyncCycle::new(Some(SyncOptions::default()), SignerKind::Software, last_synced);
    let (result, trace) =
        run_to_end(&mut second, &mut account, vec![id_of_output(2, 0)], 7, last_synced + 50, 9_000);
    assert_eq!(result, Ok(AccountBalance { total: 100, available: 100 }));
    assert!(trace.is_empty());
    assert_eq!(second.last_synced(), last_synced);
    assert_eq!(account.outputs.len(), 1);
}

#[test]
fn throttle_ends_at_the_interval() {
    let account = account_of(1);
    let mut inside = SyncCycle::new(None, SignerKind::Software, 1_000);
    assert!(matches!(
        inside.advance(&account, SyncEvent::Started { now: 1_199 }),
        SyncAction::Return(AccountBalance { total: 0, available: 0 })
    ));
    let mut at_once = SyncCycle::new(None, SignerKind::Software, 1_000);
    assert!(matches!(
        at_once.advance(&account, SyncEvent::Started { now: 1_000 }),
        SyncAction::Return(_)
    ));
    let mut outside = SyncCycle::new(None, SignerKind::Software, 1_000);
    assert!(matches!(
        outside.advance(&account, SyncEvent::Started { now: 1_200 }),
        SyncAction::QueryInclusionStates(_)
    ));
    assert_eq!(outside.phase(), Phase::InclusionStates);
}

#[test]
fn clock_that_reads_earlier_than_the_last_sync_does_not_throttle() {
    let account = account_of(1);
    let mut cycle = SyncCycle::new(None, SignerKind::Software, 1_000);
    assert!(matches!(
        cycle.advance(&account, SyncEvent::Started { now: 900 }),
        SyncAction::QueryInclusionStates(_)
    ));
}

#[test]
fn forced_sync_is_not_throttled() {
    let account = account_of(1);
    let options = SyncOptions { force_syncing: true, ..SyncOptions::default() };
    let mut cycle = SyncCycle::new(Some(options), SignerKind::Software, 1_000);
    assert!(matches!(
        cycle.advance(&account, SyncEvent::Started { now: 1_001 }),
        SyncAction::QueryInclusionStates(_)
    ));
}

#[test]
fn sync_without_the_reconciler_starts_with_the_addresses() {
    let account = account_of(2);
    let options = SyncOptions { sync_pending_transactions: false, ..SyncOptions::default() };
    let mut cycle = SyncCycle::new(Some(options), SignerKind::Software, 0);
    match cycle.advance(&account, SyncEvent::Started { now: 1_000 }) {
        SyncAction::QueryOutputIds(addresses) => {
            assert_eq!(addresses, vec![selected(0, false, vec![]), selected(1, false, vec![])]);
        }
        other => panic!("{:?}", other),
    }
    assert_eq!(cycle.phase(), Phase::OutputIds);
}

#[test]
fn hardware_signer_skips_consolidation() {
    let o1 = id_of_output(1, 0);
    let mut account = account_of(1);
    let mut cycle = SyncCycle::new(None, SignerKind::Hardware, 0);
    assert!(cycle.options().automatic_output_consolidation);
    let (result, trace) = run_to_end(&mut cycle, &mut account, vec![o1], 100, 5_000, 5_040);
    assert_eq!(result, Ok(AccountBalance { total: 100, available: 100 }));
    assert_eq!(trace, vec!["inclusion states", "output ids", "outputs", "merge", "persist", "clock"]);
}

#[test]
fn consolidation_can_be_switched_off() {
    let mut account = account_of(1);
    let options = SyncOptions { automatic_output_consolidation: false, ..SyncOptions::default() };
    let mut cycle = SyncCycle::new(Some(options), SignerKind::Software, 0);
    let (result, trace) = run_to_end(&mut cycle, &mut account, vec![], 0, 5_000, 5_040);
    assert_eq!(result, Ok(AccountBalance { total: 0, available: 0 }));
    assert_eq!(trace, vec!["inclusion states", "output ids", "merge", "persist", "clock"]);
}

#[test]
fn second_sync_against_the_same_node_changes_nothing() {
    let o1 = id_of_output(1, 0);
    let o2 = id_of_output(1, 1);
    let mut account = account_of(2);
    let mut first = SyncCycle::new(None, SignerKind::Software, 0);
    run_to_end(&mut first, &mut account, vec![o1, o2], 30, 5_000, 5_040).0.unwrap();
    let public = account.public_addresses.clone();
    let balances = account.addresses_with_balance.clone();
    assert_eq!(balances[0].amount, 60);

    let options = SyncOptions { force_syncing: true, ..SyncOptions::default() };
    let mut second = SyncCycle::new(Some(options), SignerKind::Software, first.last_synced());
    let (result, trace) = run_to_end(&mut second, &mut account, vec![o1, o2], 30, 5_041, 5_080);
    assert_eq!(result, Ok(AccountBalance { total: 60, available: 60 }));
    assert_eq!(
        trace,
        vec![
            "inclusion states",
            "output ids",
            "nothing to fetch",
            "consolidate",
            "merge",
            "persist",
            "clock"
        ]
    );
    assert_eq!(account.public_addresses, public);
    assert_eq!(account.addresses_with_balance, balances);
    assert_eq!(account.outputs.len(), 2);
    assert_eq!(account.unspent_outputs.len(), 2);
    assert_eq!(second.last_synced(), 5_080);
}

#[test]
fn output_that_the_node_no_longer_lists_is_spent() {
    let o1 = id_of_output(1, 0);
    let o2 = id_of_output(1, 1);
    let mut account = account_of(1);
    let mut first = SyncCycle::new(None, SignerKind::Software, 0);
    run_to_end(&mut first, &mut account, vec![o1, o2], 30, 5_000, 5_040).0.unwrap();

    let mut second = SyncCycle::new(None, SignerKind::Software, first.last_synced());
    let (result, _) = run_to_end(&mut second, &mut account, vec![o2], 30, 6_000, 6_040);
    assert_eq!(result, Ok(AccountBalance { total: 30, available: 30 }));
    assert!(!account.unspent_outputs.contains_key(&o1));
    assert!(account.outputs.contains_key(&o1));
    assert_eq!(account.addresses_with_balance[0].amount, 30);
    assert_eq!(account.addresses_with_balance[0].output_ids, vec![o2]);
}

#[test]
fn locked_output_is_not_available() {
    let o1 = id_of_output(1, 0);
    let o2 = id_of_output(1, 1);
    let mut account = account_of(1);
    account.lock_output(o2);
    account.lock_output(id_of_output(8, 8));
    let mut cycle = SyncCycle::new(None, SignerKind::Software, 0);
    let (result, _) = run_to_end(&mut cycle, &mut account, vec![o1, o2], 30, 5_000, 5_040);
    assert_eq!(result, Ok(AccountBalance { total: 60, available: 30 }));
}

#[test]
fn confirmed_transaction_is_settled_by_the_cycle() {
    let o1 = id_of_output(1, 0);
    let mut account = account_of(1);
    let mut first = SyncCycle::new(None, SignerKind::Software, 0);
    run_to_end(&mut first, &mut account, vec![o1], 100, 5_000, 5_040).0.unwrap();
    let tx1 = spending(vec![o1]);
    assert!(account.add_pending_transaction(Transaction {
        payload: tx1.clone(),
        inclusion_state: InclusionState::Pending,
    }));
    account.lock_output(o1);

    let mut cycle = SyncCycle::new(None, SignerKind::Hardware, 5_040);
    let action = cycle.advance(&account, SyncEvent::Started { now: 6_000 });
    assert!(matches!(&action, SyncAction::QueryInclusionStates(ids) if *ids == vec![tx1.id()]));
    let action = cycle.advance(
        &account,
        SyncEvent::InclusionStates(vec![InclusionReport {
            transaction_id: tx1.id(),
            inclusion_state: InclusionState::Confirmed,
        }]),
    );
    assert!(matches!(
        &action,
        SyncAction::QueryOutputIds(addresses) if *addresses == vec![selected(0, false, vec![o1])]
    ));
    let action = cycle.advance(
        &account,
        SyncEvent::OutputIds(vec![AddressOutputs {
            address: selected(0, false, vec![o1]),
            output_ids: vec![],
        }]),
    );
    assert!(matches!(action, SyncAction::Merge));
    assert!(matches!(cycle.merge(&mut account), SyncAction::Persist));
    assert!(matches!(cycle.advance(&account, SyncEvent::Persisted), SyncAction::ReadClock));
    assert!(matches!(
        cycle.advance(&account, SyncEvent::Clock { now: 6_100 }),
        SyncAction::Return(AccountBalance { total: 0, available: 0 })
    ));

    assert!(!account.pending_transactions.contains(&tx1.id()));
    assert_eq!(
        account.transactions.get(&tx1.id()).map(|t| t.inclusion_state),
        Some(InclusionState::Confirmed)
    );
    assert!(!account.unspent_outputs.contains_key(&o1));
    assert!(!account.locked_outputs.contains(&o1));
    assert_eq!(account.outputs.get(&o1).map(|o| o.is_spent), Some(true));
    assert!(account.addresses_with_balance.is_empty());
}

#[test]
fn failure_outside_ends_the_cycle() {
    let account = account_of(1);
    for error in [SyncError::Network, SyncError::Storage, SyncError::Consolidation] {
        let mut cycle = SyncCycle::new(None, SignerKind::Software, 0);
        cycle.advance(&account, SyncEvent::Started { now: 1_000 });
        match cycle.advance(&account, SyncEvent::Failed(error)) {
            SyncAction::Fail(e) => assert_eq!(e, error),
            other => panic!("{:?}", other),
        }
        assert_eq!(cycle.phase(), Phase::Finished);
        assert_eq!(cycle.last_synced(), 0);
    }
}

#[test]
fn event_out_of_turn_ends_the_cycle() {
    let mut account = account_of(1);
    let mut cycle = SyncCycle::new(None, SignerKind::Software, 0);
    assert!(matches!(
        cycle.advance(&account, SyncEvent::Persisted),
        SyncAction::Fail(SyncError::UnexpectedEvent)
    ));
    assert_eq!(cycle.phase(), Phase::Finished);
    assert!(matches!(
        cycle.advance(&account, SyncEvent::Started { now: 1_000 }),
        SyncAction::Fail(SyncError::UnexpectedEvent)
    ));
    let mut early = SyncCycle::new(None, SignerKind::Software, 0);
    assert!(matches!(early.merge(&mut account), SyncAction::Fail(SyncError::UnexpectedEvent)));
    assert_eq!(early.phase(), Phase::Finished);
}

#[test]
fn address_that_the_account_lacks_fails_the_merge() {
    let mut account = account_of(1);
    let mut cycle = SyncCycle::new(None, SignerKind::Hardware, 0);
    cycle.advance(&account, SyncEvent::Started { now: 1_000 });
    cycle.advance(&account, SyncEvent::InclusionStates(vec![]));
    let action = cycle.advance(
        &account,
        SyncEvent::OutputIds(vec![AddressOutputs {
            address: selected(3, false, vec![]),
            output_ids: vec![id_of_output(1, 0)],
        }]),
    );
    assert!(matches!(&action, SyncAction::FetchOutputs(ids) if *ids == vec![id_of_output(1, 0)]));
    let action = cycle.advance(
        &account,
        SyncEvent::Outputs(vec![OutputResponse {
            output_id: id_of_output(1, 0),
            amount: 5,
            is_spent: false,
        }]),
    );
    assert!(matches!(action, SyncAction::Merge));
    assert!(matches!(
        cycle.merge(&mut account),
        SyncAction::Fail(SyncError::AddressNotFoundInAccount)
    ));
    assert_eq!(cycle.phase(), Phase::Finished);
    assert_eq!(account.outputs.len(), 0);
}

#[test]
fn amounts_beyond_64_bits_fail_the_cycle() {
    let mut account = account_of(1);
    let mut cycle = SyncCycle::new(None, SignerKind::Hardware, 0);
    let (result, trace) = run_to_end(
        &mut cycle,
        &mut account,
        vec![id_of_output(1, 0), id_of_output(1, 1)],
        u64::MAX,
        1_000,
        1_040,
    );
    assert_eq!(result, Err(SyncError::AmountOverflow));
    assert_eq!(trace, vec!["inclusion states", "output ids", "outputs"]);
    assert_eq!(cycle.phase(), Phase::Finished);
    assert_eq!(cycle.last_synced(), 0);
}
