//! Memory tiers.
//!
//! The simulator keeps an ordered sequence of memory tiers, fastest first.
//! Each tier counts how many pages currently reside in it and how many fit.

use vstd::prelude::*;

verus! {

/// Duration with femtosecond precision.
#[derive(Clone, Copy, Debug, PartialEq, Eq, Structural)]
pub struct FemtoDuration {
    /// Whole seconds.
    pub secs: u64,
    /// Femtoseconds below one second.
    pub femto_secs: u64,
}

impl FemtoDuration {
    /// Creates a duration from whole seconds and femtoseconds.
    pub fn new(secs: u64, femto_secs: u64) -> (r: FemtoDuration)
        ensures
            r.secs == secs,
            r.femto_secs == femto_secs,
    {
        FemtoDuration { secs, femto_secs }
    }
}

/// Access latencies of one memory tier. Carried through to the output data
/// model; the placement policy itself never reads them.
#[derive(Clone, Copy, Debug, PartialEq, Eq, Structural)]
pub struct AccessLatencies {
    /// Read latency.
    pub read: FemtoDuration,
    /// Write latency.
    pub write: FemtoDuration,
    /// Fault latency.
    pub fault: FemtoDuration,
}

/// Index of a memory tier. Lower indices name faster tiers.
#[derive(Clone, Copy, Debug, PartialEq, Eq, Structural, Hash)]
pub struct MemIdx(usize);

impl View for MemIdx {
    type V = usize;

    closed spec fn view(&self) -> usize {
        self.0
    }
}

/// The tier index with value `i`, for use in specifications.
pub closed spec fn spec_mem_idx(i: int) -> MemIdx {
    MemIdx(i as usize)
}

/// `spec_mem_idx` inverts the view, and the view determines the index.
pub broadcast proof fn lemma_mem_idx_view(i: int)
    requires
        0 <= i <= usize::MAX,
    ensures
        (#[trigger] spec_mem_idx(i))@ == i,
{
}

/// Two tier indices with the same view are the same index.
pub proof fn lemma_mem_idx_eq(a: MemIdx, b: MemIdx)
    requires
        a@ == b@,
    ensures
        a == b,
{
}

impl MemIdx {
    /// Creates a tier index.
    pub fn new(idx: usize) -> (r: MemIdx)
        ensures
            r@ == idx,
    {
        MemIdx(idx)
    }

    /// Returns the tier index as a `usize`.
    pub fn to_usize(self) -> (r: usize)
        ensures
            r == self@,
    {
        self.0
    }
}

/// Why a page could not be reserved or released on a single tier.
#[derive(Clone, Copy, Debug, PartialEq, Eq, Structural)]
pub enum MemoryError {
    /// The tier holds as many pages as it can.
    Full,
    /// The tier holds no page.
    Empty,
}

/// Why a page could not be migrated between two tiers.
#[derive(Clone, Copy, Debug, PartialEq, Eq, Structural)]
pub enum MigrateError {
    /// The source tier holds no page.
    SourceEmpty(MemIdx),
    /// The destination tier is full.
    DestinationFull(MemIdx),
}

/// One memory tier: a name, an occupancy count, a capacity, and latencies.
pub struct Memory {
    /// Display name of the tier.
    pub name: String,
    /// Number of pages currently resident.
    pub page_len: u64,
    /// Number of pages that fit.
    pub page_capacity: u64,
    /// Access latencies, carried through to the output.
    pub latencies: AccessLatencies,
}

impl Memory {
    /// A tier is well formed when its occupancy does not exceed its capacity.
    pub open spec fn wf(&self) -> bool {
        self.page_len <= self.page_capacity
    }

    /// Creates an empty tier.
    pub fn new(name: String, page_capacity: u64, latencies: AccessLatencies) -> (r: Memory)
        ensures
            r.name == name,
            r.page_len == 0,
            r.page_capacity == page_capacity,
            r.latencies == latencies,
            r.wf(),
    {
        Memory { name, page_len: 0, page_capacity, latencies }
    }

    /// Releases one page: decrements the occupancy, or fails on an empty tier.
    pub fn release_page(&mut self) -> (r: Result<(), MemoryError>)
        ensures
            old(self).page_len == 0 ==> r == Result::<(), MemoryError>::Err(MemoryError::Empty)
                && *final(self) == *old(self),
            old(self).page_len > 0 ==> r == Result::<(), MemoryError>::Ok(()) && *final(self) == (
            Memory { page_len: (old(self).page_len - 1) as u64, ..*old(self) }),
    {
        if self.page_len == 0 {
            Err(MemoryError::Empty)
        } else {
            self.page_len = self.page_len - 1;
            Ok(())
        }
    }

    /// Reserves one page: increments the occupancy, or fails on a full tier.
    pub fn reserve_page(&mut self) -> (r: Result<(), MemoryError>)
        requires
            old(self).wf(),
        ensures
            old(self).page_len >= old(self).page_capacity ==> r == Result::<(), MemoryError>::Err(
                MemoryError::Full,
            ) && *final(self) == *old(self),
            old(self).page_len < old(self).page_capacity ==> r == Result::<(), MemoryError>::Ok(())
                && *final(self) == (Memory {
                page_len: (old(self).page_len + 1) as u64,
                ..*old(self)
            }),
            final(self).wf(),
    {
        if self.page_len >= self.page_capacity {
            Err(MemoryError::Full)
        } else {
            self.page_len = self.page_len + 1;
            Ok(())
        }
    }

    /// Returns whether the tier holds no page.
    pub fn is_empty(&self) -> (r: bool)
        ensures
            r == (self.page_len == 0),
    {
        self.page_len == 0
    }

    /// Returns whether the tier is full.
    pub fn is_full(&self) -> (r: bool)
        ensures
            r == (self.page_len >= self.page_capacity),
    {
        self.page_len >= self.page_capacity
    }

    /// Returns the tier's name.
    pub fn name(&self) -> (r: &String)
        ensures
            r == &self.name,
    {
        &self.name
    }

    /// Returns the number of resident pages.
    pub fn page_len(&self) -> (r: u64)
        ensures
            r == self.page_len,
    {
        self.page_len
    }

    /// Returns the capacity in pages.
    pub fn page_capacity(&self) -> (r: u64)
        ensures
            r == self.page_capacity,
    {
        self.page_capacity
    }
}

/// The ordered sequence of memory tiers, fastest first.
pub struct Memories {
    memories: Vec<Memory>,
}

impl View for Memories {
    type V = Seq<Memory>;

    closed spec fn view(&self) -> Seq<Memory> {
        self.memories@
    }
}

impl Memories {
    /// Every tier is well formed.
    pub open spec fn wf(&self) -> bool {
        forall|i: int| 0 <= i < self@.len() ==> (#[trigger] self@[i]).wf()
    }

    /// Creates the tiers from a vector ordered fastest to slowest.
    pub fn new(memories: Vec<Memory>) -> (r: Memories)
        ensures
            r@ == memories@,
    {
        Memories { memories }
    }

    /// Returns the number of tiers.
    pub fn len(&self) -> (r: usize)
        ensures
            r == self@.len(),
    {
        self.memories.len()
    }

    /// Returns the tier at `idx`.
    pub fn get(&self, idx: MemIdx) -> (r: &Memory)
        requires
            idx@ < self@.len(),
        ensures
            *r == self@[idx@ as int],
    {
        &self.memories[idx.to_usize()]
    }

    /// Reserves one page on tier `idx`.
    pub fn reserve(&mut self, idx: MemIdx) -> (r: Result<(), MemoryError>)
        requires
            old(self).wf(),
            idx@ < old(self)@.len(),
        ensures
            final(self).wf(),
            old(self)@[idx@ as int].page_len >= old(self)@[idx@ as int].page_capacity ==> r
                == Result::<(), MemoryError>::Err(MemoryError::Full) && final(self)@ == old(self)@,
            old(self)@[idx@ as int].page_len < old(self)@[idx@ as int].page_capacity ==> r
                == Result::<(), MemoryError>::Ok(()) && final(self)@ == old(self)@.update(
                idx@ as int,
                (Memory {
                    page_len: (old(self)@[idx@ as int].page_len + 1) as u64,
                    ..old(self)@[idx@ as int]
                }),
            ),
    {
        let i = idx.to_usize();
        let mem = &mut self.memories[i];
        let r = mem.reserve_page();
        proof {
            if old(self)@[idx@ as int].page_len >= old(self)@[idx@ as int].page_capacity {
                assert(final(self)@ =~= old(self)@);
            }
        }
        r
    }

    /// Releases one page on tier `idx`.
    pub fn release(&mut self, idx: MemIdx) -> (r: Result<(), MemoryError>)
        requires
            old(self).wf(),
            idx@ < old(self)@.len(),
        ensures
            final(self).wf(),
            old(self)@[idx@ as int].page_len == 0 ==> r == Result::<(), MemoryError>::Err(
                MemoryError::Empty,
            ) && final(self)@ == old(self)@,
            old(self)@[idx@ as int].page_len > 0 ==> r == Result::<(), MemoryError>::Ok(())
                && final(self)@ == old(self)@.update(
                idx@ as int,
                (Memory {
                    page_len: (old(self)@[idx@ as int].page_len - 1) as u64,
                    ..old(self)@[idx@ as int]
                }),
            ),
    {
        let i = idx.to_usize();
        let mem = &mut self.memories[i];
        let r = mem.release_page();
        proof {
            if old(self)@[idx@ as int].page_len == 0 {
                assert(final(self)@ =~= old(self)@);
            }
        }
        r
    }

    /// Migrates one page from tier `src` to tier `dst`: a no-op when the two
    /// are equal, otherwise a reservation on `dst` followed by a release on
    /// `src`, failing with the first precondition that does not hold.
    pub fn migrate_page(&mut self, src: MemIdx, dst: MemIdx) -> (r: Result<(), MigrateError>)
        requires
            old(self).wf(),
            src@ < old(self)@.len(),
            dst@ < old(self)@.len(),
        ensures
            final(self).wf(),
            final(self)@.len() == old(self)@.len(),
            src@ == dst@ ==> r == Result::<(), MigrateError>::Ok(()) && final(self)@
                == old(self)@,
            src@ != dst@ && old(self)@[src@ as int].page_len == 0 ==> r == Result::<
                (),
                MigrateError,
            >::Err(MigrateError::SourceEmpty(src)) && final(self)@ == old(self)@,
            src@ != dst@ && old(self)@[src@ as int].page_len > 0 && old(self)@[dst@ as int].page_len
                >= old(self)@[dst@ as int].page_capacity ==> r == Result::<(), MigrateError>::Err(
                MigrateError::DestinationFull(dst),
            ) && final(self)@ == old(self)@,
            src@ != dst@ && old(self)@[src@ as int].page_len > 0 && old(self)@[dst@ as int].page_len
                < old(self)@[dst@ as int].page_capacity ==> r == Result::<(), MigrateError>::Ok(())
                && final(self)@ == old(self)@.update(
                src@ as int,
                Memory { page_len: (old(self)@[src@ as int].page_len - 1) as u64, ..old(self)@[src@ as int] },
            ).update(
                dst@ as int,
                Memory { page_len: (old(self)@[dst@ as int].page_len + 1) as u64, ..old(self)@[dst@ as int] },
            ),
    {
        let src_idx = src.to_usize();
        let dst_idx = dst.to_usize();
        if src_idx == dst_idx {
            return Ok(());
        }
        if self.memories[src_idx].page_len == 0 {
            return Err(MigrateError::SourceEmpty(src));
        }
        if self.memories[dst_idx].page_len >= self.memories[dst_idx].page_capacity {
            return Err(MigrateError::DestinationFull(dst));
        }
        let src_mem = &mut self.memories[src_idx];
        src_mem.page_len = src_mem.page_len - 1;
        let dst_mem = &mut self.memories[dst_idx];
        dst_mem.page_len = dst_mem.page_len + 1;
        Ok(())
    }

    /// Returns the next faster tier, or `None` from the fastest.
    pub fn faster_memory(&self, mem_idx: MemIdx) -> (r: Option<MemIdx>)
        ensures
            mem_idx@ == 0 ==> (r is None),
            mem_idx@ > 0 ==> (r matches Some(m) && m@ == mem_idx@ - 1),
    {
        let idx = mem_idx.to_usize();
        if idx == 0 {
            None
        } else {
            Some(MemIdx(idx - 1))
        }
    }

    /// Returns the next slower tier, or `None` from the slowest.
    pub fn slower_memory(&self, mem_idx: MemIdx) -> (r: Option<MemIdx>)
        requires
            mem_idx@ < self@.len(),
        ensures
            mem_idx@ + 1 >= self@.len() ==> (r is None),
            mem_idx@ + 1 < self@.len() ==> (r matches Some(m) && m@ == mem_idx@ + 1),
    {
        let idx = mem_idx.to_usize();
        let n = self.memories.len();
        if idx >= n - 1 {
            None
        } else {
            Some(MemIdx(idx + 1))
        }
    }
}

} // verus!
