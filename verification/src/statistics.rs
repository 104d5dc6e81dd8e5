//! Statistics journal.
//!
//! An append-only log of every access and, per page, of every migration.
//! The first migration recorded for a page is its initial mapping, with no
//! previous tier; every later entry's previous tier is the tier the page was
//! migrated to by the entry before it.

use vstd::prelude::*;
use crate::memories::MemIdx;
use crate::page_table::PagePtr;

verus! {

/// Kind of an access, as recorded in the journal.
#[derive(Clone, Copy, Debug, PartialEq, Eq, Structural)]
pub enum AccessKind {
    /// Read access.
    Read,
    /// Write access.
    Write,
}

/// How the accessed page met its tier: mapped by this access, or already
/// resident.
#[derive(Clone, Copy, Debug, PartialEq, Eq, Structural)]
pub enum AccessMem {
    /// The access mapped the page into this tier.
    Mapped(MemIdx),
    /// The page already resided in this tier.
    Resided(MemIdx),
}

/// One recorded access to a page.
#[derive(Clone, Copy, Debug, PartialEq, Eq, Structural)]
pub struct Access {
    /// Timestamp from the trace record.
    pub time: u64,
    /// The accessed page.
    pub page_ptr: PagePtr,
    /// Read or write.
    pub kind: AccessKind,
    /// Tier, and whether the access mapped the page.
    pub mem: AccessMem,
    /// Temperature before the access was registered.
    pub prev_temperature: u64,
    /// Temperature after the access and any cooling it caused.
    pub cur_temperature: u64,
    /// Whether this access triggered a global cooling event.
    pub caused_cooling: bool,
}

/// One recorded migration of a page.
#[derive(Clone, Copy, Debug, PartialEq, Eq)]
pub struct PageMigration {
    /// Timestamp from the trace record.
    pub time: u64,
    /// Tier the page came from; `None` for the initial mapping.
    pub prev_mem_idx: Option<MemIdx>,
    /// Tier the page now resides in.
    pub cur_mem_idx: MemIdx,
}

/// A migration history is well chained when it starts with the initial
/// mapping and every later entry's previous tier is its predecessor's tier.
pub open spec fn chain_ok(ms: Seq<PageMigration>) -> bool {
    &&& ms.len() > 0 ==> (ms[0].prev_mem_idx is None)
    &&& forall|k: int|
        1 <= k < ms.len() ==> (#[trigger] ms[k]).prev_mem_idx == Some(ms[k - 1].cur_mem_idx)
}

/// Whether the histories' page addresses are strictly ascending.
pub open spec fn sorted_keys(ms: Seq<(u64, Seq<PageMigration>)>) -> bool {
    forall|a: int, b: int| 0 <= a < b < ms.len() ==> (#[trigger] ms[a]).0 < (#[trigger] ms[b]).0
}

/// Whether `ms` has an entry for address `addr`.
pub open spec fn mig_has_key(ms: Seq<(u64, Seq<PageMigration>)>, addr: u64) -> bool {
    exists|i: int| 0 <= i < ms.len() && (#[trigger] ms[i]).0 == addr
}

/// The position of the entry for address `addr` in `ms`.
pub open spec fn mig_idx_of(ms: Seq<(u64, Seq<PageMigration>)>, addr: u64) -> int {
    choose|i: int| 0 <= i < ms.len() && (#[trigger] ms[i]).0 == addr
}

/// The migration histories as a map from page address to history.
pub open spec fn mig_map(ms: Seq<(u64, Seq<PageMigration>)>) -> Map<u64, Seq<PageMigration>> {
    Map::new(|a: u64| mig_has_key(ms, a), |a: u64| ms[mig_idx_of(ms, a)].1)
}

/// When `addr` is present, `mig_idx_of` names a position holding it.
pub proof fn lemma_mig_idx_of(ms: Seq<(u64, Seq<PageMigration>)>, addr: u64)
    requires
        mig_has_key(ms, addr),
    ensures
        0 <= mig_idx_of(ms, addr) < ms.len(),
        ms[mig_idx_of(ms, addr)].0 == addr,
{
}

/// With strictly sorted keys, `mig_idx_of` is the only position holding `addr`.
pub proof fn lemma_mig_idx_of_unique(ms: Seq<(u64, Seq<PageMigration>)>, addr: u64, i: int)
    requires
        sorted_keys(ms),
        0 <= i < ms.len(),
        ms[i].0 == addr,
    ensures
        mig_has_key(ms, addr),
        mig_idx_of(ms, addr) == i,
{
    assert(mig_has_key(ms, addr));
    let j = mig_idx_of(ms, addr);
    lemma_mig_idx_of(ms, addr);
    if i < j {
        assert(ms[i].0 < ms[j].0);
    } else if j < i {
        assert(ms[j].0 < ms[i].0);
    }
}

/// Replacing the history of an existing entry updates the map at its key.
proof fn lemma_mig_update(ms: Seq<(u64, Seq<PageMigration>)>, i: int, h: Seq<PageMigration>)
    requires
        sorted_keys(ms),
        0 <= i < ms.len(),
    ensures
        sorted_keys(ms.update(i, (ms[i].0, h))),
        mig_map(ms.update(i, (ms[i].0, h))) == mig_map(ms).insert(ms[i].0, h),
{
    let addr = ms[i].0;
    let newm = ms.update(i, (addr, h));
    assert(forall|k: int| 0 <= k < newm.len() ==> (#[trigger] newm[k]).0 == ms[k].0);
    assert forall|a: u64| #[trigger] mig_has_key(newm, a) implies mig_has_key(ms, a) by {
        let k = mig_idx_of(newm, a);
        assert(ms[k].0 == a);
    }
    assert forall|a: u64| #[trigger] mig_has_key(ms, a) implies mig_has_key(newm, a) by {
        let k = mig_idx_of(ms, a);
        lemma_mig_idx_of(ms, a);
        assert(newm[k].0 == a);
    }
    assert forall|a: u64| mig_has_key(ms, a) && a != addr implies #[trigger] mig_map(newm)[a]
        == mig_map(ms)[a] by {
        let k = mig_idx_of(ms, a);
        lemma_mig_idx_of(ms, a);
        lemma_mig_idx_of_unique(newm, a, k);
    }
    lemma_mig_idx_of_unique(newm, addr, i);
    assert(mig_map(newm) =~= mig_map(ms).insert(addr, h));
}

/// Inserting a new entry at its sorted position keeps the keys sorted and
/// adds its key to the map.
proof fn lemma_mig_insert(
    ms: Seq<(u64, Seq<PageMigration>)>,
    i: int,
    addr: u64,
    h: Seq<PageMigration>,
)
    requires
        sorted_keys(ms),
        0 <= i <= ms.len(),
        forall|k: int| 0 <= k < i ==> (#[trigger] ms[k]).0 < addr,
        forall|k: int| i <= k < ms.len() ==> (#[trigger] ms[k]).0 > addr,
    ensures
        sorted_keys(ms.insert(i, (addr, h))),
        mig_map(ms.insert(i, (addr, h))) == mig_map(ms).insert(addr, h),
{
    let newm = ms.insert(i, (addr, h));
    assert(forall|k: int| 0 <= k < i ==> (#[trigger] newm[k]) == ms[k]);
    assert(forall|k: int| i < k < newm.len() ==> (#[trigger] newm[k]) == ms[k - 1]);
    assert(newm[i] == (addr, h));
    assert forall|a: int, b: int| 0 <= a < b < newm.len() implies (#[trigger] newm[a]).0 < (
    #[trigger] newm[b]).0 by {
        if a < i && b > i {
            assert(ms[a].0 < addr && ms[b - 1].0 > addr);
        } else if a == i && b > i {
            assert(ms[b - 1].0 > addr);
        } else if b == i {
            assert(ms[a].0 < addr);
        }
    }
    assert(!mig_has_key(ms, addr));
    lemma_mig_idx_of_unique(newm, addr, i);
    assert forall|a: u64| #[trigger] mig_has_key(newm, a) && a != addr implies mig_has_key(ms, a)
        && mig_map(newm)[a] == mig_map(ms)[a] by {
        let k = mig_idx_of(newm, a);
        lemma_mig_idx_of(newm, a);
        if k < i {
            lemma_mig_idx_of_unique(ms, a, k);
        } else {
            lemma_mig_idx_of_unique(ms, a, k - 1);
        }
    }
    assert forall|a: u64| #[trigger] mig_has_key(ms, a) implies mig_has_key(newm, a) by {
        let k = mig_idx_of(ms, a);
        lemma_mig_idx_of(ms, a);
        if k < i {
            assert(newm[k].0 == a);
        } else {
            assert(newm[k + 1].0 == a);
        }
    }
    assert(mig_map(newm) =~= mig_map(ms).insert(addr, h));
}

/// The journal: accesses in arrival order, and per-page migration
/// histories ordered by page address.
pub struct Statistics {
    accesses: Vec<Access>,
    page_migrations: Vec<(PagePtr, Vec<PageMigration>)>,
}

impl Statistics {
    /// All recorded accesses, in arrival order.
    pub closed spec fn spec_accesses(&self) -> Seq<Access> {
        self.accesses@
    }

    /// The migration histories, keyed by page address, sorted ascending.
    pub closed spec fn spec_migrations(&self) -> Seq<(u64, Seq<PageMigration>)> {
        self.page_migrations@.map_values(|e: (PagePtr, Vec<PageMigration>)| (e.0@, e.1@))
    }

    /// Keys strictly ascending, histories non-empty and well chained.
    pub open spec fn wf(&self) -> bool {
        &&& sorted_keys(self.spec_migrations())
        &&& forall|i: int|
            0 <= i < self.spec_migrations().len() ==> (#[trigger] self.spec_migrations()[i]).1.len()
                > 0 && chain_ok(self.spec_migrations()[i].1)
    }

    /// Creates an empty journal.
    pub fn new() -> (r: Statistics)
        ensures
            r.spec_accesses() == Seq::<Access>::empty(),
            r.spec_migrations() == Seq::<(u64, Seq<PageMigration>)>::empty(),
            r.wf(),
    {
        let r = Statistics { accesses: Vec::new(), page_migrations: Vec::new() };
        proof {
            assert(r.spec_accesses() =~= Seq::<Access>::empty());
            assert(r.spec_migrations() =~= Seq::<(u64, Seq<PageMigration>)>::empty());
        }
        r
    }

    /// Appends an access to the journal.
    pub fn register_access(&mut self, access: Access)
        ensures
            final(self).spec_accesses() == old(self).spec_accesses().push(access),
            final(self).spec_migrations() == old(self).spec_migrations(),
            old(self).wf() ==> final(self).wf(),
    {
        self.accesses.push(access);
        proof {
            assert(final(self).spec_migrations() =~= old(self).spec_migrations());
        }
    }

    /// Appends a migration to a page's history: the page is recorded as
    /// having moved to `cur_mem_idx` at `time`, coming from the tier of its
    /// previous migration, or from nowhere when this is its first.
    pub fn register_page_migration(&mut self, page_ptr: PagePtr, time: u64, cur_mem_idx: MemIdx)
        requires
            old(self).wf(),
        ensures
            final(self).wf(),
            final(self).spec_accesses() == old(self).spec_accesses(),
            mig_map(final(self).spec_migrations()) == mig_map(old(self).spec_migrations()).insert(
                page_ptr@,
                spec_migration_history(old(self).spec_migrations(), page_ptr@).push(
                    (PageMigration {
                        time,
                        prev_mem_idx: spec_migration_prev(old(self).spec_migrations(), page_ptr@),
                        cur_mem_idx,
                    }),
                ),
            ),
            mig_has_key(final(self).spec_migrations(), page_ptr@),
    {
        let addr = page_ptr.to_u64();
        let n = self.page_migrations.len();
        let mut i: usize = 0;
        while i < n && self.page_migrations[i].0.to_u64() < addr
            invariant
                n == self.page_migrations@.len(),
                0 <= i <= n,
                forall|k: int| 0 <= k < i ==> (#[trigger] self.spec_migrations()[k]).0 < addr,
                self == old(self),
                addr == page_ptr@,
            decreases n - i,
        {
            proof {
                assert(self.spec_migrations()[i as int].0 == self.page_migrations@[i as int].0@);
            }
            i = i + 1;
        }
        proof {
            assert(i < n ==> old(self).spec_migrations()[i as int].0 >= addr);
            assert forall|k: int| i <= k < n implies (#[trigger] old(self).spec_migrations()[k]).0
                >= addr by {
                if i < k {
                    assert(old(self).spec_migrations()[i as int].0 < old(
                        self,
                    ).spec_migrations()[k].0);
                }
            }
        }
        if i < n && self.page_migrations[i].0.to_u64() == addr {
            let ghost oldm = old(self).spec_migrations();
            proof {
                lemma_mig_idx_of_unique(oldm, addr, i as int);
            }
            let entry = &mut self.page_migrations[i];
            let last_idx = entry.1.len() - 1;
            let prev = Some(entry.1[last_idx].cur_mem_idx);
            entry.1.push(PageMigration { time, prev_mem_idx: prev, cur_mem_idx });
            proof {
                let newm = self.spec_migrations();
                let m = PageMigration {
                    time,
                    prev_mem_idx: spec_migration_prev(oldm, addr),
                    cur_mem_idx,
                };
                assert(newm =~= oldm.update(i as int, (addr, oldm[i as int].1.push(m))));
                lemma_mig_update(oldm, i as int, oldm[i as int].1.push(m));
                lemma_mig_idx_of_unique(newm, addr, i as int);
            }
        } else {
            let ghost oldm = old(self).spec_migrations();
            let mut history: Vec<PageMigration> = Vec::new();
            history.push(PageMigration { time, prev_mem_idx: None, cur_mem_idx });
            self.page_migrations.insert(i, (page_ptr, history));
            proof {
                let newm = self.spec_migrations();
                let m = PageMigration { time, prev_mem_idx: None, cur_mem_idx };
                assert(!mig_has_key(oldm, addr)) by {
                    if mig_has_key(oldm, addr) {
                        let k = mig_idx_of(oldm, addr);
                        lemma_mig_idx_of(oldm, addr);
                    }
                }
                assert(newm =~= oldm.insert(i as int, (addr, seq![m])));
                assert forall|k: int| i <= k < n implies (#[trigger] oldm[k]).0 > addr by {
                    if oldm[k].0 == addr {
                        assert(mig_has_key(oldm, addr));
                    }
                }
                lemma_mig_insert(oldm, i as int, addr, seq![m]);
                assert(spec_migration_history(oldm, addr).push(m) =~= seq![m]);
                lemma_mig_idx_of_unique(newm, addr, i as int);
                assert(chain_ok(seq![m]));
            }
        }
    }

    /// Returns all recorded accesses, in arrival order.
    pub fn accesses(&self) -> (r: &Vec<Access>)
        ensures
            r@ == self.spec_accesses(),
    {
        &self.accesses
    }

    /// Returns the migration histories, ordered by page address ascending.
    pub fn page_migrations(&self) -> (r: &Vec<(PagePtr, Vec<PageMigration>)>)
        ensures
            r@.len() == self.spec_migrations().len(),
            forall|i: int|
                0 <= i < r@.len() ==> (#[trigger] r@[i]).0@ == self.spec_migrations()[i].0
                    && r@[i].1@ == self.spec_migrations()[i].1,
    {
        &self.page_migrations
    }
}

/// Law: in a well-formed journal, each page's first migration is its
/// initial mapping, with no previous tier, and every later migration's
/// previous tier is the tier the migration before it moved the page to.
pub proof fn lemma_migration_chain(s: &Statistics, i: int)
    requires
        s.wf(),
        0 <= i < s.spec_migrations().len(),
    ensures
        s.spec_migrations()[i].1.len() > 0,
        (s.spec_migrations()[i].1[0].prev_mem_idx is None),
        forall|k: int|
            1 <= k < s.spec_migrations()[i].1.len() ==> (#[trigger] s.spec_migrations()[i].1[k]).prev_mem_idx
                == Some(s.spec_migrations()[i].1[k - 1].cur_mem_idx),
{
    assert(chain_ok(s.spec_migrations()[i].1));
}

/// The migration history already recorded for `addr`: the entry's history
/// when one exists, the empty history otherwise.
pub open spec fn spec_migration_history(
    ms: Seq<(u64, Seq<PageMigration>)>,
    addr: u64,
) -> Seq<PageMigration> {
    if mig_has_key(ms, addr) {
        ms[mig_idx_of(ms, addr)].1
    } else {
        Seq::empty()
    }
}

/// The previous tier the next migration of `addr` will record: the tier of
/// its last migration, or `None` when none is recorded.
pub open spec fn spec_migration_prev(
    ms: Seq<(u64, Seq<PageMigration>)>,
    addr: u64,
) -> Option<MemIdx> {
    if mig_has_key(ms, addr) && ms[mig_idx_of(ms, addr)].1.len() > 0 {
        Some(ms[mig_idx_of(ms, addr)].1.last().cur_mem_idx)
    } else {
        None
    }
}

} // verus!
