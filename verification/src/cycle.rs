//! The sync orchestrator: one sync cycle as a sequence of decisions.
//!
//! The cycle itself touches neither clock, node nor storage. It is told what
//! happened (an event) and answers with what to do next (an action); whoever
//! drives it performs the action and reports back.

use crate::account::{Account, AccountView};
use crate::addresses::{addresses_to_sync, copy_address};
use crate::merge::{found_all, found_prefix_len, merged, with_used};
use crate::outputs::{
    addresses_with_outputs, amount_of, known_amount, lost_outputs, output_data,
    output_response_to_output_data, report_views, resolve_output_ids, unknown_ids, with_amount,
    AddressOutputs, AddressOutputsView,
};
use crate::throttle::{is_throttled, throttled};
use crate::transactions::{reconciled, InclusionReport};
use crate::types::{
    balance_views, AccountBalance, AddressBalanceView, AddressWithBalance, OutputData,
    OutputResponse, SignerKind, SyncError, SyncOptions, TransactionSyncResult,
    TransactionSyncView,
};
use iota_client::bee_message::output::OutputId;
use iota_client::bee_message::payload::transaction::TransactionId;
use vstd::prelude::*;

verus! {

/// What the cycle waits for.
#[derive(Clone, Copy, Debug, PartialEq, Eq, Structural)]
pub enum Phase {
    /// The first reading of the clock.
    Start,
    /// The node's verdicts on the pending transactions.
    InclusionStates,
    /// The outputs that the node lists for the selected addresses.
    OutputIds,
    /// The outputs of one address that had to be fetched.
    Outputs,
    /// The end of the consolidation.
    Consolidation,
    /// The merge into the account.
    Merge,
    /// The account's way into storage.
    Persist,
    /// The second reading of the clock.
    Clock,
    /// Nothing: the cycle is over.
    Finished,
}

/// What happened outside.
pub enum SyncEvent {
    /// The sync lock is held and the clock was read.
    Started { now: u128 },
    /// The node gave its verdicts on the transactions asked about.
    InclusionStates(Vec<InclusionReport>),
    /// The node listed the outputs of the addresses asked about.
    OutputIds(Vec<AddressOutputs>),
    /// The node delivered the outputs asked for.
    Outputs(Vec<OutputResponse>),
    /// The consolidation routine returned.
    Consolidated,
    /// The account is in storage.
    Persisted,
    /// The clock was read again.
    Clock { now: u128 },
    /// What was to be done failed.
    Failed(SyncError),
}

/// What a `SyncEvent` holds.
pub enum SyncEventView {
    Started { now: u128 },
    InclusionStates(Seq<InclusionReport>),
    OutputIds(Seq<AddressOutputsView>),
    Outputs(Seq<OutputResponse>),
    Consolidated,
    Persisted,
    Clock { now: u128 },
    Failed(SyncError),
}

impl View for SyncEvent {
    type V = SyncEventView;

    open spec fn view(&self) -> SyncEventView {
        match self {
            SyncEvent::Started { now } => SyncEventView::Started { now: *now },
            SyncEvent::InclusionStates(reports) => SyncEventView::InclusionStates(reports@),
            SyncEvent::OutputIds(reports) => SyncEventView::OutputIds(report_views(reports@)),
            SyncEvent::Outputs(responses) => SyncEventView::Outputs(responses@),
            SyncEvent::Consolidated => SyncEventView::Consolidated,
            SyncEvent::Persisted => SyncEventView::Persisted,
            SyncEvent::Clock { now } => SyncEventView::Clock { now: *now },
            SyncEvent::Failed(e) => SyncEventView::Failed(*e),
        }
    }
}

/// What to do next.
#[derive(Debug)]
pub enum SyncAction {
    /// Ask the node for the inclusion state of these transactions.
    QueryInclusionStates(Vec<TransactionId>),
    /// Ask the node which outputs these addresses hold.
    QueryOutputIds(Vec<AddressWithBalance>),
    /// Fetch these outputs from the node.
    FetchOutputs(Vec<OutputId>),
    /// Run the consolidation routine.
    Consolidate,
    /// Take the account's write lock and call `merge`.
    Merge,
    /// Hand the account to storage.
    Persist,
    /// Read the clock.
    ReadClock,
    /// The cycle is over: return this balance.
    Return(AccountBalance),
    /// The cycle is over: return this error.
    Fail(SyncError),
}

/// What a `SyncAction` holds.
pub enum SyncActionView {
    QueryInclusionStates(Seq<TransactionId>),
    QueryOutputIds(Seq<AddressBalanceView>),
    FetchOutputs(Seq<OutputId>),
    Consolidate,
    Merge,
    Persist,
    ReadClock,
    Return(AccountBalance),
    Fail(SyncError),
}

impl View for SyncAction {
    type V = SyncActionView;

    open spec fn view(&self) -> SyncActionView {
        match self {
            SyncAction::QueryInclusionStates(ids) => SyncActionView::QueryInclusionStates(ids@),
            SyncAction::QueryOutputIds(addresses) => SyncActionView::QueryOutputIds(
                balance_views(addresses@),
            ),
            SyncAction::FetchOutputs(ids) => SyncActionView::FetchOutputs(ids@),
            SyncAction::Consolidate => SyncActionView::Consolidate,
            SyncAction::Merge => SyncActionView::Merge,
            SyncAction::Persist => SyncActionView::Persist,
            SyncAction::ReadClock => SyncActionView::ReadClock,
            SyncAction::Return(balance) => SyncActionView::Return(*balance),
            SyncAction::Fail(e) => SyncActionView::Fail(*e),
        }
    }
}

impl SyncActionView {
    /// Whether the action sends something to the node.
    pub open spec fn calls_node(self) -> bool {
        self is QueryInclusionStates || self is QueryOutputIds || self is FetchOutputs
    }
}

/// One sync cycle of an account.
pub struct SyncCycle {
    options: SyncOptions,
    signer: SignerKind,
    last_synced: u128,
    phase: Phase,
    transaction_sync_result: Option<TransactionSyncResult>,
    addresses: Vec<AddressWithBalance>,
    spent_outputs: Vec<OutputId>,
    position: usize,
    known_balance: u64,
    addresses_with_balance: Vec<AddressWithBalance>,
    all_outputs: Vec<OutputData>,
    balance: Option<AccountBalance>,
}

/// What a `SyncCycle` holds.
pub struct SyncCycleView {
    pub options: SyncOptions,
    pub signer: SignerKind,
    /// When the last full sync ended, in milliseconds since the epoch.
    pub last_synced: u128,
    pub phase: Phase,
    /// What the reconciler found, if it ran.
    pub transaction_sync_result: Option<TransactionSyncView>,
    /// The addresses that hold outputs, as the node listed them.
    pub addresses: Seq<AddressBalanceView>,
    /// The outputs that the addresses lost.
    pub spent_outputs: Seq<OutputId>,
    /// How many of the addresses are done.
    pub position: nat,
    /// What the known outputs of the address in work add up to.
    pub known_balance: u64,
    /// The addresses that are done, with their amounts.
    pub addresses_with_balance: Seq<AddressBalanceView>,
    /// The outputs fetched so far.
    pub all_outputs: Seq<OutputData>,
    /// The balance after the merge.
    pub balance: Option<AccountBalance>,
}

impl View for SyncCycle {
    type V = SyncCycleView;

    closed spec fn view(&self) -> SyncCycleView {
        SyncCycleView {
            options: self.options,
            signer: self.signer,
            last_synced: self.last_synced,
            phase: self.phase,
            transaction_sync_result: match self.transaction_sync_result {
                Some(r) => Some(r@),
                None => None,
            },
            addresses: balance_views(self.addresses@),
            spent_outputs: self.spent_outputs@,
            position: self.position as nat,
            known_balance: self.known_balance,
            addresses_with_balance: balance_views(self.addresses_with_balance@),
            all_outputs: self.all_outputs@,
            balance: self.balance,
        }
    }
}

impl SyncCycleView {
    /// The cycle, over.
    pub open spec fn finished(self) -> SyncCycleView {
        SyncCycleView { phase: Phase::Finished, ..self }
    }

    /// The cycle before its first event.
    pub open spec fn fresh(options: Option<SyncOptions>, signer: SignerKind, last_synced: u128) -> SyncCycleView {
        SyncCycleView {
            options: match options {
                Some(o) => o,
                None => SyncOptions {
                    force_syncing: false,
                    sync_pending_transactions: true,
                    automatic_output_consolidation: true,
                    address_start_index: 0,
                },
            },
            signer,
            last_synced,
            phase: Phase::Start,
            transaction_sync_result: None,
            addresses: Seq::empty(),
            spent_outputs: Seq::empty(),
            position: 0,
            known_balance: 0,
            addresses_with_balance: Seq::empty(),
            all_outputs: Seq::empty(),
            balance: None,
        }
    }

    /// The selection of the addresses, which starts the fetch pass.
    pub open spec fn select(self, account: Account) -> (SyncCycleView, SyncActionView) {
        (
            SyncCycleView { phase: Phase::OutputIds, ..self },
            SyncActionView::QueryOutputIds(addresses_to_sync(account@, self.options)),
        )
    }

    /// The step before the merge: consolidation runs first if the options
    /// ask for it and the signer is not hardware-backed.
    pub open spec fn before_merge(self) -> (SyncCycleView, SyncActionView) {
        if self.options.automatic_output_consolidation && self.signer != SignerKind::Hardware {
            (SyncCycleView { phase: Phase::Consolidation, ..self }, SyncActionView::Consolidate)
        } else {
            (SyncCycleView { phase: Phase::Merge, ..self }, SyncActionView::Merge)
        }
    }

    /// The next address: its unknown outputs are fetched, and what its
    /// known outputs add up to is kept. After the last address comes the
    /// step before the merge.
    pub open spec fn fetch_next(self, account: Account) -> (SyncCycleView, SyncActionView) {
        if self.position < self.addresses.len() {
            let ids = self.addresses[self.position as int].output_ids;
            let known = known_amount(account@.outputs, ids);
            if known > u64::MAX {
                (self.finished(), SyncActionView::Fail(SyncError::AmountOverflow))
            } else {
                (
                    SyncCycleView { phase: Phase::Outputs, known_balance: known as u64, ..self },
                    SyncActionView::FetchOutputs(unknown_ids(account@.outputs, ids)),
                )
            }
        } else {
            self.before_merge()
        }
    }

    /// The end of a cycle that only reports the balance.
    pub open spec fn report(self, account: Account) -> (SyncCycleView, SyncActionView) {
        (
            self.finished(),
            match account.balance_of() {
                Ok(balance) => SyncActionView::Return(balance),
                Err(e) => SyncActionView::Fail(e),
            },
        )
    }

    /// The address in work, done: the fetched outputs become records, and
    /// the address gets its amount.
    pub open spec fn complete(self, account: Account, responses: Seq<OutputResponse>) -> (
        SyncCycleView,
        SyncActionView,
    ) {
        if self.position >= self.addresses.len() {
            (self.finished(), SyncActionView::Fail(SyncError::UnexpectedEvent))
        } else {
            let address = self.addresses[self.position as int];
            let outputs = responses.map_values(
                |r: OutputResponse| output_data(r, address.address),
            );
            let amount = amount_of(outputs) + self.known_balance;
            if amount > u64::MAX {
                (self.finished(), SyncActionView::Fail(SyncError::AmountOverflow))
            } else {
                (SyncCycleView {
                    position: self.position + 1,
                    addresses_with_balance: self.addresses_with_balance.push(
                        AddressBalanceView { amount: amount as u64, ..address },
                    ),
                    all_outputs: self.all_outputs + outputs,
                    ..self
                }).fetch_next(account)
            }
        }
    }

    /// The cycle after an event, and what it asks for next.
    pub open spec fn advanced(self, account: Account, event: SyncEventView) -> (
        SyncCycleView,
        SyncActionView,
    ) {
        match (self.phase, event) {
            (Phase::Finished, _) => (self, SyncActionView::Fail(SyncError::UnexpectedEvent)),
            (_, SyncEventView::Failed(e)) => (self.finished(), SyncActionView::Fail(e)),
            (Phase::Start, SyncEventView::Started { now }) => {
                if throttled(now, self.last_synced, self.options.force_syncing) {
                    self.report(account)
                } else if self.options.sync_pending_transactions {
                    (
                        SyncCycleView { phase: Phase::InclusionStates, ..self },
                        SyncActionView::QueryInclusionStates(account.pending_transactions.items()),
                    )
                } else {
                    self.select(account)
                }
            },
            (Phase::InclusionStates, SyncEventView::InclusionStates(reports)) => (SyncCycleView {
                transaction_sync_result: Some(reconciled(account@, reports)),
                ..self
            }).select(account),
            (Phase::OutputIds, SyncEventView::OutputIds(reports)) => (SyncCycleView {
                addresses: addresses_with_outputs(reports),
                spent_outputs: lost_outputs(reports),
                position: 0,
                ..self
            }).fetch_next(account),
            (Phase::Outputs, SyncEventView::Outputs(responses)) => self.complete(
                account,
                responses,
            ),
            (Phase::Consolidation, SyncEventView::Consolidated) => (
                SyncCycleView { phase: Phase::Merge, ..self },
                SyncActionView::Merge,
            ),
            (Phase::Persist, SyncEventView::Persisted) => match account.balance_of() {
                Ok(balance) => (
                    SyncCycleView { phase: Phase::Clock, balance: Some(balance), ..self },
                    SyncActionView::ReadClock,
                ),
                Err(e) => (self.finished(), SyncActionView::Fail(e)),
            },
            (Phase::Clock, SyncEventView::Clock { now }) => match self.balance {
                Some(balance) => (
                    SyncCycleView { last_synced: now, ..self.finished() },
                    SyncActionView::Return(balance),
                ),
                None => (self.finished(), SyncActionView::Fail(SyncError::UnexpectedEvent)),
            },
            _ => (self.finished(), SyncActionView::Fail(SyncError::UnexpectedEvent)),
        }
    }

    /// The cycle after the merge, and what it asks for next.
    pub open spec fn merge_done(self, account: AccountView) -> (SyncCycleView, SyncActionView) {
        if self.phase != Phase::Merge {
            (self.finished(), SyncActionView::Fail(SyncError::UnexpectedEvent))
        } else {
            let emptied = SyncCycleView {
                transaction_sync_result: None,
                spent_outputs: Seq::empty(),
                addresses_with_balance: Seq::empty(),
                all_outputs: Seq::empty(),
                ..self
            };
            if found_all(account, self.addresses_with_balance) {
                (SyncCycleView { phase: Phase::Persist, ..emptied }, SyncActionView::Persist)
            } else {
                (emptied.finished(), SyncActionView::Fail(SyncError::AddressNotFoundInAccount))
            }
        }
    }

    /// The account after the merge.
    pub open spec fn merge_into(self, account: AccountView) -> AccountView {
        if self.phase != Phase::Merge {
            account
        } else if found_all(account, self.addresses_with_balance) {
            merged(
                account,
                self.addresses_with_balance,
                self.all_outputs,
                self.transaction_sync_result,
                self.spent_outputs,
                self.options,
            )
        } else {
            with_used(
                account,
                self.addresses_with_balance,
                found_prefix_len(account, self.addresses_with_balance) as int,
            )
        }
    }
}

impl SyncCycle {
    /// A cycle that has not started. Without options the defaults hold.
    pub fn new(options: Option<SyncOptions>, signer: SignerKind, last_synced: u128) -> (cycle: Self)
        ensures
            cycle@ == SyncCycleView::fresh(options, signer, last_synced),
    {
        let options = match options {
            Some(o) => o,
            None => SyncOptions::default(),
        };
        let cycle = SyncCycle {
            options,
            signer,
            last_synced,
            phase: Phase::Start,
            transaction_sync_result: None,
            addresses: Vec::new(),
            spent_outputs: Vec::new(),
            position: 0,
            known_balance: 0,
            addresses_with_balance: Vec::new(),
            all_outputs: Vec::new(),
            balance: None,
        };
        assert(cycle@.addresses =~= Seq::empty());
        assert(cycle@.addresses_with_balance =~= Seq::empty());
        cycle
    }

    /// When the last full sync ended.
    pub fn last_synced(&self) -> (t: u128)
        ensures
            t == self@.last_synced,
    {
        self.last_synced
    }

    /// What the cycle waits for.
    pub fn phase(&self) -> (phase: Phase)
        ensures
            phase == self@.phase,
    {
        self.phase
    }

    /// The options of the cycle.
    pub fn options(&self) -> (options: SyncOptions)
        ensures
            options == self@.options,
    {
        self.options
    }

    fn finish(&mut self, error: SyncError) -> (action: SyncAction)
        ensures
            final(self)@ == old(self)@.finished(),
            action@ == SyncActionView::Fail(error),
    {
        self.phase = Phase::Finished;
        SyncAction::Fail(error)
    }

    fn select(&mut self, account: &Account) -> (action: SyncAction)
        ensures
            (final(self)@, action@) == old(self)@.select(*account),
    {
        self.phase = Phase::OutputIds;
        SyncAction::QueryOutputIds(account.get_addresses_to_sync(&self.options))
    }

    fn before_merge(&mut self) -> (action: SyncAction)
        ensures
            (final(self)@, action@) == old(self)@.before_merge(),
    {
        let hardware = match self.signer {
            SignerKind::Hardware => true,
            SignerKind::Software => false,
        };
        if self.options.automatic_output_consolidation && !hardware {
            self.phase = Phase::Consolidation;
            SyncAction::Consolidate
        } else {
            self.phase = Phase::Merge;
            SyncAction::Merge
        }
    }

    fn fetch_next(&mut self, account: &Account) -> (action: SyncAction)
        ensures
            (final(self)@, action@) == old(self)@.fetch_next(*account),
    {
        if self.position < self.addresses.len() {
            assert(self@.addresses[self.position as int] == self.addresses@[self.position as int]@);
            match account.split_known_outputs(&self.addresses[self.position].output_ids) {
                Ok((unknown, known)) => {
                    self.phase = Phase::Outputs;
                    self.known_balance = known;
                    SyncAction::FetchOutputs(unknown)
                },
                Err(e) => self.finish(e),
            }
        } else {
            self.before_merge()
        }
    }

    fn report(&mut self, account: &Account) -> (action: SyncAction)
        ensures
            (final(self)@, action@) == old(self)@.report(*account),
    {
        self.phase = Phase::Finished;
        match account.balance() {
            Ok(balance) => SyncAction::Return(balance),
            Err(e) => SyncAction::Fail(e),
        }
    }

    fn complete(&mut self, account: &Account, responses: &Vec<OutputResponse>) -> (action:
        SyncAction)
        ensures
            (final(self)@, action@) == old(self)@.complete(*account, responses@),
    {
        if self.position >= self.addresses.len() {
            return self.finish(SyncError::UnexpectedEvent);
        }
        assert(self@.addresses[self.position as int] == self.addresses@[self.position as int]@);
        let address = copy_address(&self.addresses[self.position]);
        let mut outputs = output_response_to_output_data(responses, &address);
        let ghost records = outputs@;
        match with_amount(address, &outputs, self.known_balance) {
            Ok(done) => {
                let ghost before = self@;
                self.addresses_with_balance.push(done);
                self.all_outputs.append(&mut outputs);
                self.position = self.position + 1;
                proof {
                    assert(self@.addresses_with_balance =~= before.addresses_with_balance.push(
                        done@,
                    ));
                    assert(self@.all_outputs =~= before.all_outputs + records);
                }
                self.fetch_next(account)
            },
            Err(e) => self.finish(e),
        }
    }

    /// Takes an event and says what to do next.
    ///
    /// The account is only read here; the one step that writes it is `merge`.
    pub fn advance(&mut self, account: &Account, event: SyncEvent) -> (action: SyncAction)
        ensures
            (final(self)@, action@) == old(self)@.advanced(*account, event@),
    {
        if let Phase::Finished = self.phase {
            return SyncAction::Fail(SyncError::UnexpectedEvent);
        }
        match event {
            SyncEvent::Failed(e) => self.finish(e),
            SyncEvent::Started { now } => {
                if let Phase::Start = self.phase {
                    if is_throttled(now, self.last_synced, &self.options) {
                        self.report(account)
                    } else if self.options.sync_pending_transactions {
                        self.phase = Phase::InclusionStates;
                        SyncAction::QueryInclusionStates(account.pending_transaction_ids())
                    } else {
                        self.select(account)
                    }
                } else {
                    self.finish(SyncError::UnexpectedEvent)
                }
            },
            SyncEvent::InclusionStates(reports) => {
                if let Phase::InclusionStates = self.phase {
                    self.transaction_sync_result = Some(
                        account.reconcile_pending_transactions(&reports),
                    );
                    self.select(account)
                } else {
                    self.finish(SyncError::UnexpectedEvent)
                }
            },
            SyncEvent::OutputIds(reports) => {
                if let Phase::OutputIds = self.phase {
                    let (addresses, spent_outputs) = resolve_output_ids(&reports);
                    self.addresses = addresses;
                    self.spent_outputs = spent_outputs;
                    self.position = 0;
                    self.fetch_next(account)
                } else {
                    self.finish(SyncError::UnexpectedEvent)
                }
            },
            SyncEvent::Outputs(responses) => {
                if let Phase::Outputs = self.phase {
                    self.complete(account, &responses)
                } else {
                    self.finish(SyncError::UnexpectedEvent)
                }
            },
            SyncEvent::Consolidated => {
                if let Phase::Consolidation = self.phase {
                    self.phase = Phase::Merge;
                    SyncAction::Merge
                } else {
                    self.finish(SyncError::UnexpectedEvent)
                }
            },
            SyncEvent::Persisted => {
                if let Phase::Persist = self.phase {
                    match account.balance() {
                        Ok(balance) => {
                            self.phase = Phase::Clock;
                            self.balance = Some(balance);
                            SyncAction::ReadClock
                        },
                        Err(e) => self.finish(e),
                    }
                } else {
                    self.finish(SyncError::UnexpectedEvent)
                }
            },
            SyncEvent::Clock { now } => {
                if let Phase::Clock = self.phase {
                    match self.balance {
                        Some(balance) => {
                            self.phase = Phase::Finished;
                            self.last_synced = now;
                            SyncAction::Return(balance)
                        },
                        None => self.finish(SyncError::UnexpectedEvent),
                    }
                } else {
                    self.finish(SyncError::UnexpectedEvent)
                }
            },
        }
    }

    /// Merges what the cycle fetched into the account, under the account's
    /// write lock. On success the account is to be persisted next.
    pub fn merge(&mut self, account: &mut Account) -> (action: SyncAction)
        requires
            old(account).wf(),
        ensures
            final(account).wf(),
            final(account)@ == old(self)@.merge_into(old(account)@),
            (final(self)@, action@) == old(self)@.merge_done(old(account)@),
    {
        if let Phase::Merge = self.phase {
        } else {
            return self.finish(SyncError::UnexpectedEvent);
        }
        let mut addresses_with_balance: Vec<AddressWithBalance> = Vec::new();
        let mut all_outputs: Vec<OutputData> = Vec::new();
        let mut spent_outputs: Vec<OutputId> = Vec::new();
        let mut transaction_sync_result: Option<TransactionSyncResult> = None;
        core::mem::swap(&mut addresses_with_balance, &mut self.addresses_with_balance);
        core::mem::swap(&mut all_outputs, &mut self.all_outputs);
        core::mem::swap(&mut spent_outputs, &mut self.spent_outputs);
        core::mem::swap(&mut transaction_sync_result, &mut self.transaction_sync_result);
        proof {
            assert(self@.addresses_with_balance =~= Seq::empty());
        }
        match account.update_account(
            addresses_with_balance,
            all_outputs,
            transaction_sync_result,
            spent_outputs,
            &self.options,
        ) {
            Ok(()) => {
                self.phase = Phase::Persist;
                SyncAction::Persist
            },
            Err(e) => self.finish(e),
        }
    }
}

} // verus!
