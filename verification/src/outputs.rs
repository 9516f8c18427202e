//! The output fetcher's decisions: which outputs an address lost, which
//! ones have to be fetched, and what an address holds once they are.

use crate::account::Account;
use crate::addresses::copy_ids;
use crate::types::{
    balance_views, AddressBalanceView, AddressWithBalance, OutputData, OutputResponse, SyncError,
};
use iota_client::bee_message::address::Address;
use iota_client::bee_message::output::OutputId;
use vstd::prelude::*;

verus! {

/// What the node reported for one address: the address as it was selected,
/// and the outputs that the node lists for it.
pub struct AddressOutputs {
    pub address: AddressWithBalance,
    pub output_ids: Vec<OutputId>,
}

/// What an `AddressOutputs` holds.
pub struct AddressOutputsView {
    pub address: AddressBalanceView,
    pub output_ids: Seq<OutputId>,
}

impl View for AddressOutputs {
    type V = AddressOutputsView;

    open spec fn view(&self) -> AddressOutputsView {
        AddressOutputsView { address: self.address@, output_ids: self.output_ids@ }
    }
}

/// The views of a sequence of reports.
pub open spec fn report_views(reports: Seq<AddressOutputs>) -> Seq<AddressOutputsView> {
    reports.map_values(|r: AddressOutputs| r@)
}

/// The outputs that the address held before and that the node no longer
/// lists: they were spent.
pub open spec fn missing_ids(known: Seq<OutputId>, reported: Seq<OutputId>) -> Seq<OutputId> {
    known.filter(|id: OutputId| !reported.contains(id))
}

/// The address with the outputs that the node lists for it.
pub open spec fn with_reported(report: AddressOutputsView) -> AddressBalanceView {
    AddressBalanceView { output_ids: report.output_ids, ..report.address }
}

/// The addresses for which the node lists an output, each with the listed
/// outputs, in order.
pub open spec fn addresses_with_outputs(reports: Seq<AddressOutputsView>) -> Seq<AddressBalanceView> {
    reports.filter(|r: AddressOutputsView| r.output_ids.len() > 0).map_values(
        |r: AddressOutputsView| with_reported(r),
    )
}

/// The outputs that the addresses lost, address by address.
pub open spec fn lost_outputs(reports: Seq<AddressOutputsView>) -> Seq<OutputId> {
    reports.map_values(
        |r: AddressOutputsView| missing_ids(r.address.output_ids, r.output_ids),
    ).flatten()
}

/// Of the listed outputs, those that the account has no record of.
pub open spec fn unknown_ids(outputs: Map<OutputId, OutputData>, ids: Seq<OutputId>) -> Seq<OutputId> {
    ids.filter(|id: OutputId| !outputs.contains_key(id))
}

/// The sum of the recorded amounts of the listed outputs that the account
/// has a record of.
pub open spec fn known_amount(outputs: Map<OutputId, OutputData>, ids: Seq<OutputId>) -> nat
    decreases ids.len(),
{
    if ids.len() == 0 {
        0
    } else if outputs.contains_key(ids.last()) {
        known_amount(outputs, ids.drop_last()) + outputs[ids.last()].amount as nat
    } else {
        known_amount(outputs, ids.drop_last())
    }
}

/// The sum of the amounts of the outputs.
pub open spec fn amount_of(outputs: Seq<OutputData>) -> nat
    decreases outputs.len(),
{
    if outputs.len() == 0 {
        0
    } else {
        amount_of(outputs.drop_last()) + outputs.last().amount as nat
    }
}

/// The record of an output that the node reported for an address.
pub open spec fn output_data(response: OutputResponse, address: Address) -> OutputData {
    OutputData {
        output_id: response.output_id,
        amount: response.amount,
        is_spent: response.is_spent,
        address,
    }
}

proof fn lemma_known_amount_monotone(outputs: Map<OutputId, OutputData>, ids: Seq<OutputId>, count: int)
    requires
        0 <= count <= ids.len(),
    ensures
        known_amount(outputs, ids.take(count)) <= known_amount(outputs, ids),
    decreases ids.len() - count,
{
    if count < ids.len() {
        assert(ids.take(count + 1).drop_last() =~= ids.take(count));
        lemma_known_amount_monotone(outputs, ids, count + 1);
    } else {
        assert(ids.take(count) =~= ids);
    }
}

proof fn lemma_amount_monotone(outputs: Seq<OutputData>, count: int)
    requires
        0 <= count <= outputs.len(),
    ensures
        amount_of(outputs.take(count)) <= amount_of(outputs),
    decreases outputs.len() - count,
{
    if count < outputs.len() {
        assert(outputs.take(count + 1).drop_last() =~= outputs.take(count));
        lemma_amount_monotone(outputs, count + 1);
    } else {
        assert(outputs.take(count) =~= outputs);
    }
}

/// Whether the identifier is among the listed ones.
pub fn contains_id(ids: &Vec<OutputId>, id: &OutputId) -> (found: bool)
    ensures
        found == ids@.contains(*id),
{
    let mut i: usize = 0;
    while i < ids.len()
        invariant
            i <= ids.len(),
            forall|j: int| 0 <= j < i ==> ids@[j] != *id,
        decreases ids.len() - i,
    {
        if crate::ids::same_output(&ids[i], id) {
            return true;
        }
        i += 1;
    }
    false
}

/// Appends to `lost` the outputs that the address held before and that the
/// node no longer lists.
fn collect_missing(known: &Vec<OutputId>, reported: &Vec<OutputId>, lost: &mut Vec<OutputId>)
    ensures
        final(lost)@ == old(lost)@ + missing_ids(known@, reported@),
{
    let ghost gone = |id: OutputId| !reported@.contains(id);
    let mut i: usize = 0;
    proof {
        assert(known@.take(0) =~= Seq::empty());
        assert(known@.take(0).filter(gone) =~= Seq::empty()) by {
            reveal(Seq::filter);
        }
        assert(lost@ =~= old(lost)@ + known@.take(0).filter(gone));
    }
    while i < known.len()
        invariant
            i <= known.len(),
            gone == |id: OutputId| !reported@.contains(id),
            lost@ == old(lost)@ + known@.take(i as int).filter(gone),
        decreases known.len() - i,
    {
        let id = known[i];
        proof {
            assert(known@.take(i + 1) =~= known@.take(i as int).push(id));
            known@.take(i as int).lemma_filter_push(id, gone);
        }
        if !contains_id(reported, &id) {
            lost.push(id);
            proof {
                assert(lost@ =~= old(lost)@ + known@.take(i + 1).filter(gone));
            }
        }
        i += 1;
    }
    proof {
        assert(known@.take(i as int) =~= known@);
    }
}

/// Sorts out what the node reported for the selected addresses: the
/// addresses that hold outputs, each with the outputs that the node lists,
/// and the outputs that the addresses held before and lost since.
pub fn resolve_output_ids(reports: &Vec<AddressOutputs>) -> (resolved: (
    Vec<AddressWithBalance>,
    Vec<OutputId>,
))
    ensures
        balance_views(resolved.0@) == addresses_with_outputs(report_views(reports@)),
        resolved.1@ == lost_outputs(report_views(reports@)),
{
    let ghost views = report_views(reports@);
    let ghost holds = |r: AddressOutputsView| r.output_ids.len() > 0;
    let ghost listed = |r: AddressOutputsView| with_reported(r);
    let ghost missing = |r: AddressOutputsView| missing_ids(r.address.output_ids, r.output_ids);
    let mut addresses: Vec<AddressWithBalance> = Vec::new();
    let mut lost: Vec<OutputId> = Vec::new();
    let mut i: usize = 0;
    proof {
        assert(views.take(0) =~= Seq::empty());
        assert(views.take(0).filter(holds) =~= Seq::empty()) by {
            reveal(Seq::filter);
        }
        assert(balance_views(addresses@) =~= views.take(0).filter(holds).map_values(listed));
        assert(views.take(0).map_values(missing) =~= Seq::empty());
    }
    while i < reports.len()
        invariant
            i <= reports.len(),
            views == report_views(reports@),
            holds == |r: AddressOutputsView| r.output_ids.len() > 0,
            listed == |r: AddressOutputsView| with_reported(r),
            missing == |r: AddressOutputsView| missing_ids(r.address.output_ids, r.output_ids),
            balance_views(addresses@) == views.take(i as int).filter(holds).map_values(listed),
            lost@ == views.take(i as int).map_values(missing).flatten(),
        decreases reports.len() - i,
    {
        let report = &reports[i];
        let ghost view = views[i as int];
        let ghost current = balance_views(addresses@);
        proof {
            assert(view == report@);
            assert(views.take(i + 1) =~= views.take(i as int).push(view));
            views.take(i as int).lemma_filter_push(view, holds);
            assert(views.take(i + 1).map_values(missing) =~= views.take(i as int).map_values(
                missing,
            ).push(missing(view)));
            views.take(i as int).map_values(missing).lemma_flatten_push(missing(view));
        }
        collect_missing(&report.address.output_ids, &report.output_ids, &mut lost);
        if report.output_ids.len() > 0 {
            addresses.push(
                AddressWithBalance {
                    address: report.address.address,
                    key_index: report.address.key_index,
                    internal: report.address.internal,
                    amount: report.address.amount,
                    output_ids: copy_ids(&report.output_ids),
                },
            );
            proof {
                assert(balance_views(addresses@) =~= current.push(with_reported(view)));
                assert(views.take(i as int).filter(holds).push(view).map_values(listed)
                    =~= views.take(i as int).filter(holds).map_values(listed).push(
                    with_reported(view),
                ));
            }
        }
        i += 1;
    }
    proof {
        assert(views.take(i as int) =~= views);
    }
    (addresses, lost)
}

impl Account {
    /// Splits the outputs that the node lists for an address into those to
    /// fetch, which the account has no record of, and those it knows, whose
    /// recorded amounts it adds up. Fails where that sum does not fit in
    /// 64 bits.
    pub fn split_known_outputs(&self, output_ids: &Vec<OutputId>) -> (result: Result<
        (Vec<OutputId>, u64),
        SyncError,
    >)
        ensures
            match result {
                Ok((unknown, known)) => unknown@ == unknown_ids(self@.outputs, output_ids@)
                    && known == known_amount(self@.outputs, output_ids@),
                Err(e) => e == SyncError::AmountOverflow && known_amount(
                    self@.outputs,
                    output_ids@,
                ) > u64::MAX,
            },
    {
        let ghost fresh = |id: OutputId| !self@.outputs.contains_key(id);
        let mut unknown: Vec<OutputId> = Vec::new();
        let mut known: u64 = 0;
        let mut i: usize = 0;
        proof {
            assert(output_ids@.take(0) =~= Seq::empty());
            assert(output_ids@.take(0).filter(fresh) =~= Seq::empty()) by {
                reveal(Seq::filter);
            }
        }
        while i < output_ids.len()
            invariant
                i <= output_ids.len(),
                fresh == |id: OutputId| !self@.outputs.contains_key(id),
                unknown@ == output_ids@.take(i as int).filter(fresh),
                known == known_amount(self@.outputs, output_ids@.take(i as int)),
            decreases output_ids.len() - i,
        {
            let id = output_ids[i];
            proof {
                assert(output_ids@.take(i + 1) =~= output_ids@.take(i as int).push(id));
                assert(output_ids@.take(i + 1).drop_last() =~= output_ids@.take(i as int));
                output_ids@.take(i as int).lemma_filter_push(id, fresh);
            }
            match self.outputs.get(&id) {
                Some(output) => {
                    match known.checked_add(output.amount) {
                        Some(sum) => {
                            known = sum;
                        },
                        None => {
                            proof {
                                lemma_known_amount_monotone(self@.outputs, output_ids@, i + 1);
                            }
                            return Err(SyncError::AmountOverflow);
                        },
                    }
                },
                None => {
                    unknown.push(id);
                },
            }
            i += 1;
        }
        proof {
            assert(output_ids@.take(i as int) =~= output_ids@);
        }
        Ok((unknown, known))
    }
}

/// Turns what the node reported for the outputs of an address into the
/// account's records of them.
pub fn output_response_to_output_data(
    responses: &Vec<OutputResponse>,
    address: &AddressWithBalance,
) -> (outputs: Vec<OutputData>)
    ensures
        outputs@ == responses@.map_values(|r: OutputResponse| output_data(r, address.address)),
{
    let mut outputs: Vec<OutputData> = Vec::new();
    let mut i: usize = 0;
    while i < responses.len()
        invariant
            i <= responses.len(),
            outputs@ == responses@.take(i as int).map_values(
                |r: OutputResponse| output_data(r, address.address),
            ),
        decreases responses.len() - i,
    {
        let response = responses[i];
        outputs.push(
            OutputData {
                output_id: response.output_id,
                amount: response.amount,
                is_spent: response.is_spent,
                address: address.address,
            },
        );
        proof {
            assert(outputs@ =~= responses@.take(i + 1).map_values(
                |r: OutputResponse| output_data(r, address.address),
            ));
        }
        i += 1;
    }
    proof {
        assert(responses@.take(i as int) =~= responses@);
    }
    outputs
}

/// The address with its amount: what the fetched outputs add up to, plus
/// the amount of the outputs that the account knew already. Fails where
/// that does not fit in 64 bits.
pub fn with_amount(
    address: AddressWithBalance,
    outputs: &Vec<OutputData>,
    already_known_balance: u64,
) -> (result: Result<AddressWithBalance, SyncError>)
    ensures
        match result {
            Ok(updated) => amount_of(outputs@) + already_known_balance <= u64::MAX && updated@ == (
            AddressBalanceView {
                amount: (amount_of(outputs@) + already_known_balance) as u64,
                ..address@
            }),
            Err(e) => e == SyncError::AmountOverflow && amount_of(outputs@)
                + already_known_balance > u64::MAX,
        },
{
    let mut amount: u64 = 0;
    let mut i: usize = 0;
    proof {
        assert(outputs@.take(0) =~= Seq::empty());
    }
    while i < outputs.len()
        invariant
            i <= outputs.len(),
            amount == amount_of(outputs@.take(i as int)),
        decreases outputs.len() - i,
    {
        proof {
            assert(outputs@.take(i + 1).drop_last() =~= outputs@.take(i as int));
        }
        match amount.checked_add(outputs[i].amount) {
            Some(sum) => {
                amount = sum;
            },
            None => {
                proof {
                    lemma_amount_monotone(outputs@, i + 1);
                }
                return Err(SyncError::AmountOverflow);
            },
        }
        i += 1;
    }
    proof {
        assert(outputs@.take(i as int) =~= outputs@);
    }
    match amount.checked_add(already_known_balance) {
        Some(sum) => {
            let mut address = address;
            address.amount = sum;
            Ok(address)
        },
        None => Err(SyncError::AmountOverflow),
    }
}

} // verus!
