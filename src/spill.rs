//! The auto-spilling backend's decision: keep the state in memory until its contents
//! outgrow a threshold, then hand every value over to a disk backend, once.
use vstd::prelude::*;
use crate::datum::ValueModel;
use crate::state::{InMemoryHashMap, PutEntry, put_all};

verus! {

/// Where an operator keeps its state.
#[derive(Debug, Clone, Copy, PartialEq, Eq)]
pub enum BackendKind {
    /// In memory only.
    Memory,
    /// On disk from the start.
    Disk,
    /// In memory until it grows past the threshold, then on disk.
    AutoSpill { threshold: u64 },
}

/// The backend an operator uses: memory without a scratch directory; with one, disk, or
/// memory that spills to disk where spilling is allowed.
pub fn backend_kind(has_scratch_directory: bool, allow_spilling_to_disk: bool, spill_threshold: u64) -> (r:
    BackendKind)
    ensures
        r == (if !has_scratch_directory {
            BackendKind::Memory
        } else if allow_spilling_to_disk {
            BackendKind::AutoSpill { threshold: spill_threshold }
        } else {
            BackendKind::Disk
        }),
{
    if !has_scratch_directory {
        BackendKind::Memory
    } else if allow_spilling_to_disk {
        BackendKind::AutoSpill { threshold: spill_threshold }
    } else {
        BackendKind::Disk
    }
}

/// The auto-spilling backend's bookkeeping: the threshold, and whether the state has
/// moved to disk. The state it watches is held by its caller.
pub struct AutoSpill {
    /// The persisted size above which the state moves.
    pub threshold: u64,
    /// Whether the state has moved; it moves at most once.
    pub spilled: bool,
}

/// `n` counted up to `u64::MAX`.
pub open spec fn saturated(n: int) -> int {
    if n <= u64::MAX {
        n
    } else {
        u64::MAX as int
    }
}

impl AutoSpill {
    /// Nothing moved yet; moves above `threshold` bytes.
    pub fn new(threshold: u64) -> (r: AutoSpill)
        ensures
            r.threshold == threshold,
            !r.spilled,
    {
        AutoSpill { threshold, spilled: false }
    }

    /// Whether `memory` is to move now: it has not moved yet, and the persisted size of its
    /// values, counted up to `u64::MAX`, exceeds the threshold.
    pub fn should_spill(&self, memory: &InMemoryHashMap) -> (r: bool)
        ensures
            r == (!self.spilled && saturated(memory.total_size()) > self.threshold),
    {
        if self.spilled {
            return false;
        }
        memory.bytes() > self.threshold
    }

    /// Marks the state as moved and returns one write per key of `memory`, which rebuilds
    /// exactly its contents in an empty backend.
    pub fn spill(&mut self, memory: &InMemoryHashMap) -> (r: Vec<PutEntry>)
        requires
            memory.wf(),
        ensures
            put_all(Map::<Seq<u8>, ValueModel>::empty(), r@) == memory@,
            final(self).spilled,
            final(self).threshold == old(self).threshold,
    {
        self.spilled = true;
        memory.entries()
    }
}

} // verus!
