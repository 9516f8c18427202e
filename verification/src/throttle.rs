//! The throttle: a full sync runs at most once per interval unless forced.

use crate::types::SyncOptions;
use vstd::prelude::*;

verus! {

/// The least time between two full syncs, in milliseconds.
pub const MIN_SYNC_INTERVAL: u128 = 200;

/// The milliseconds from `last_synced` to `now`; zero where the clock
/// reads earlier than the last sync.
pub open spec fn elapsed_ms(now: u128, last_synced: u128) -> u128 {
    if now >= last_synced {
        (now - last_synced) as u128
    } else {
        0
    }
}

/// Whether a sync at `now` only reports the balance: it is not forced and
/// the last sync lies less than the interval back. A clock that reads
/// earlier than the last sync never throttles.
pub open spec fn throttled(now: u128, last_synced: u128, force_syncing: bool) -> bool {
    !force_syncing && last_synced <= now && now - last_synced < MIN_SYNC_INTERVAL
}

/// The time since the last sync.
pub fn elapsed_since(now: u128, last_synced: u128) -> (elapsed: u128)
    ensures
        elapsed == elapsed_ms(now, last_synced),
{
    if now >= last_synced {
        now - last_synced
    } else {
        0
    }
}

/// Decides whether the sync skips the node.
pub fn is_throttled(now: u128, last_synced: u128, options: &SyncOptions) -> (skip: bool)
    ensures
        skip == throttled(now, last_synced, options.force_syncing),
{
    !options.force_syncing && last_synced <= now && now - last_synced < MIN_SYNC_INTERVAL
}

} // verus!
