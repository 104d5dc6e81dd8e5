//! Output data model.
//!
//! The typed snapshot of a finished run: the processed time span, every
//! journalled access, and every page's migration history, keyed by page
//! address ascending so that a serialization of the snapshot is
//! byte-deterministic.

use vstd::prelude::*;
use crate::statistics::{Access, AccessKind, AccessMem, Statistics};

verus! {

/// One access in the snapshot, with plain-integer fields.
#[derive(Clone, Copy, Debug, PartialEq, Eq)]
pub struct PageAccess {
    /// The accessed page's address.
    pub page_ptr: u64,
    /// Timestamp from the trace record.
    pub time: u64,
    /// Tier the access found (or mapped) the page in.
    pub mem_idx: usize,
    /// Whether the access mapped the page.
    pub faulted: bool,
    /// Read or write.
    pub kind: PageAccessKind,
    /// Temperature before the access.
    pub prev_temp: u64,
    /// Temperature after the access and any cooling it caused.
    pub cur_temp: u64,
    /// Whether the access triggered a global cooling event.
    pub caused_cooling: bool,
}

/// Kind of an access in the snapshot.
#[derive(Clone, Copy, Debug, PartialEq, Eq, Structural)]
pub enum PageAccessKind {
    /// Read access.
    Read,
    /// Write access.
    Write,
}

/// One migration in the snapshot.
#[derive(Clone, Copy, Debug, PartialEq, Eq)]
pub struct PageMigration {
    /// Tier the page came from; `None` for the initial mapping.
    pub prev_mem_idx: Option<usize>,
    /// Tier the page moved to.
    pub cur_mem_idx: usize,
    /// Timestamp from the trace record.
    pub time: u64,
}

/// All accesses of a run, in arrival order.
#[derive(Clone, Debug, PartialEq, Eq)]
pub struct PageAccesses {
    /// The accesses.
    pub accesses: Vec<PageAccess>,
}

/// All migration histories of a run, by page address ascending.
#[derive(Clone, Debug, PartialEq, Eq)]
pub struct PageMigrations {
    /// Per-page histories, keyed by page address, sorted ascending.
    pub migrations: Vec<(u64, Vec<PageMigration>)>,
}

/// The classifier's part of the snapshot.
#[derive(Clone, Debug, PartialEq, Eq)]
pub struct HeMemData {
    /// All accesses.
    pub page_accesses: PageAccesses,
    /// All migration histories.
    pub page_migrations: PageMigrations,
}

/// The output snapshot of a finished run.
#[derive(Clone, Debug, PartialEq, Eq)]
pub struct Data {
    /// Time span `[start, end)` of the processed records.
    pub time_span: Option<(u64, u64)>,
    /// The classifier's journal.
    pub hemem: HeMemData,
}

/// The snapshot form of a journalled access.
pub open spec fn spec_page_access(a: Access) -> PageAccess {
    PageAccess {
        page_ptr: a.page_ptr@,
        time: a.time,
        mem_idx: (match a.mem {
            AccessMem::Mapped(m) => m@,
            AccessMem::Resided(m) => m@,
        }),
        faulted: a.mem is Mapped,
        kind: (match a.kind {
            AccessKind::Read => PageAccessKind::Read,
            AccessKind::Write => PageAccessKind::Write,
        }),
        prev_temp: a.prev_temperature,
        cur_temp: a.cur_temperature,
        caused_cooling: a.caused_cooling,
    }
}

/// The snapshot form of a journalled migration.
pub open spec fn spec_page_migration(m: crate::statistics::PageMigration) -> PageMigration {
    PageMigration {
        prev_mem_idx: (match m.prev_mem_idx {
            Some(i) => Some(i@),
            None => None,
        }),
        cur_mem_idx: m.cur_mem_idx@,
        time: m.time,
    }
}

impl Data {
    /// Builds the snapshot of a run from its time span and journal. The
    /// snapshot is a pure function of the two: identical runs give
    /// identical snapshots.
    pub fn collect(time_span: Option<(u64, u64)>, statistics: &Statistics) -> (d: Data)
        ensures
            d.time_span == time_span,
            d.hemem.page_accesses.accesses@.len() == statistics.spec_accesses().len(),
            forall|i: int|
                0 <= i < statistics.spec_accesses().len()
                    ==> #[trigger] d.hemem.page_accesses.accesses@[i] == spec_page_access(
                    statistics.spec_accesses()[i],
                ),
            d.hemem.page_migrations.migrations@.len() == statistics.spec_migrations().len(),
            forall|i: int|
                0 <= i < statistics.spec_migrations().len()
                    ==> (#[trigger] d.hemem.page_migrations.migrations@[i]).0
                    == statistics.spec_migrations()[i].0
                    && d.hemem.page_migrations.migrations@[i].1@.len()
                    == statistics.spec_migrations()[i].1.len() && (forall|j: int|
                    0 <= j < statistics.spec_migrations()[i].1.len()
                        ==> #[trigger] d.hemem.page_migrations.migrations@[i].1@[j]
                        == spec_page_migration(statistics.spec_migrations()[i].1[j])),
    {
        let journal_accesses = statistics.accesses();
        let mut accesses: Vec<PageAccess> = Vec::new();
        let n = journal_accesses.len();
        let mut i: usize = 0;
        while i < n
            invariant
                n == journal_accesses@.len(),
                journal_accesses@ == statistics.spec_accesses(),
                0 <= i <= n,
                accesses@.len() == i,
                forall|k: int|
                    0 <= k < i ==> #[trigger] accesses@[k] == spec_page_access(
                        statistics.spec_accesses()[k],
                    ),
            decreases n - i,
        {
            let a = journal_accesses[i];
            let mem_idx = match a.mem {
                AccessMem::Mapped(m) => m.to_usize(),
                AccessMem::Resided(m) => m.to_usize(),
            };
            let faulted = match a.mem {
                AccessMem::Mapped(_) => true,
                AccessMem::Resided(_) => false,
            };
            let kind = match a.kind {
                AccessKind::Read => PageAccessKind::Read,
                AccessKind::Write => PageAccessKind::Write,
            };
            accesses.push(
                PageAccess {
                    page_ptr: a.page_ptr.to_u64(),
                    time: a.time,
                    mem_idx,
                    faulted,
                    kind,
                    prev_temp: a.prev_temperature,
                    cur_temp: a.cur_temperature,
                    caused_cooling: a.caused_cooling,
                },
            );
            i = i + 1;
        }
        let journal_migrations = statistics.page_migrations();
        let mut migrations: Vec<(u64, Vec<PageMigration>)> = Vec::new();
        let m_len = journal_migrations.len();
        let mut i: usize = 0;
        while i < m_len
            invariant
                m_len == journal_migrations@.len(),
                journal_migrations@.len() == statistics.spec_migrations().len(),
                forall|k: int|
                    0 <= k < m_len ==> (#[trigger] journal_migrations@[k]).0@
                        == statistics.spec_migrations()[k].0 && journal_migrations@[k].1@
                        == statistics.spec_migrations()[k].1,
                0 <= i <= m_len,
                migrations@.len() == i,
                forall|k: int|
                    0 <= k < i ==> (#[trigger] migrations@[k]).0
                        == statistics.spec_migrations()[k].0 && migrations@[k].1@.len()
                        == statistics.spec_migrations()[k].1.len() && (forall|j: int|
                        0 <= j < statistics.spec_migrations()[k].1.len()
                            ==> #[trigger] migrations@[k].1@[j] == spec_page_migration(
                            statistics.spec_migrations()[k].1[j],
                        )),
            decreases m_len - i,
        {
            let entry = &journal_migrations[i];
            let h_len = entry.1.len();
            let mut history: Vec<PageMigration> = Vec::new();
            let mut j: usize = 0;
            while j < h_len
                invariant
                    0 <= i < m_len,
                    m_len == journal_migrations@.len(),
                    journal_migrations@.len() == statistics.spec_migrations().len(),
                    entry == &journal_migrations@[i as int],
                    entry.1@ == statistics.spec_migrations()[i as int].1,
                    h_len == entry.1@.len(),
                    0 <= j <= h_len,
                    history@.len() == j,
                    forall|k: int|
                        0 <= k < j ==> #[trigger] history@[k] == spec_page_migration(
                            statistics.spec_migrations()[i as int].1[k],
                        ),
                decreases h_len - j,
            {
                let m = entry.1[j];
                let prev_mem_idx = match m.prev_mem_idx {
                    Some(idx) => Some(idx.to_usize()),
                    None => None,
                };
                history.push(
                    PageMigration { prev_mem_idx, cur_mem_idx: m.cur_mem_idx.to_usize(), time: m.time },
                );
                j = j + 1;
            }
            migrations.push((entry.0.to_u64(), history));
            i = i + 1;
        }
        Data {
            time_span,
            hemem: HeMemData {
                page_accesses: PageAccesses { accesses },
                page_migrations: PageMigrations { migrations },
            },
        }
    }
}

} // verus!
