//! Hook called after each group commit.
use vstd::prelude::*;

verus! {

/// Called once per successful group commit.
pub trait SyncHook {
    /// `batch_len` is the number of records in the synced batch; `head_sequence`
    /// is the highest record `sequence` in that batch (inclusive coverage).
    fn on_sync(&mut self, head_sequence: u64, batch_len: usize);
}

/// Does nothing.
#[derive(Debug, Default, Clone, Copy, PartialEq, Eq, Structural)]
pub struct NoopSyncHook;

impl SyncHook for NoopSyncHook {
    fn on_sync(&mut self, _head_sequence: u64, _batch_len: usize)
        ensures
            *final(self) == *old(self),
    {
    }
}

/// Stamps a monotonic sync id and counts syncs.
#[derive(Debug, PartialEq, Eq, Structural)]
pub struct SequenceStampHook {
    sync_count: u64,
    last_stamp: u64,
}

impl SequenceStampHook {
    /// Syncs counted.
    pub closed spec fn syncs(self) -> u64 {
        self.sync_count
    }

    /// Stamp of the most recent completed sync, 0 before the first.
    pub closed spec fn stamp(self) -> u64 {
        self.last_stamp
    }

    /// A hook that has seen no sync.
    #[must_use]
    pub fn new() -> (r: SequenceStampHook)
        ensures
            r.syncs() == 0,
            r.stamp() == 0,
    {
        SequenceStampHook { sync_count: 0, last_stamp: 0 }
    }

    /// Syncs counted.
    #[must_use]
    pub fn sync_count(&self) -> (r: u64)
        ensures
            r == self.syncs(),
    {
        self.sync_count
    }

    /// Stamp of the most recent completed sync, 0 before the first.
    #[must_use]
    pub fn last_stamp(&self) -> (r: u64)
        ensures
            r == self.stamp(),
    {
        self.last_stamp
    }
}

impl Default for SequenceStampHook {
    fn default() -> (r: SequenceStampHook)
        ensures
            r.syncs() == 0,
            r.stamp() == 0,
    {
        SequenceStampHook::new()
    }
}

impl SyncHook for SequenceStampHook {
    fn on_sync(&mut self, _head_sequence: u64, _batch_len: usize)
        ensures
            final(self).stamp() == (old(self).stamp() + 1) % 0x1_0000_0000_0000_0000,
            final(self).syncs() == (old(self).syncs() + 1) % 0x1_0000_0000_0000_0000,
    {
        self.last_stamp = self.last_stamp.wrapping_add(1);
        self.sync_count = self.sync_count.wrapping_add(1);
    }
}

} // verus!
