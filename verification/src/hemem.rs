//! HeMem classifier.
//!
//! Replays trace records against the page table and the memory tiers: maps
//! unmapped pages into the fastest tier with room, counts accesses with lazy
//! global cooling, and migrates pages toward faster tiers as they become hot
//! and toward slower tiers as they cool, evicting the coldest pages of a
//! full destination on demand.

use vstd::prelude::*;
use crate::memories::{spec_mem_idx, MemIdx, Memories, Memory};
use crate::page_table::{
    caught_up, coldest_addr, has_ptr, idx_of, spec_is_hot, spec_key, spec_temperature, tier_count,
    Page, PagePtr, PageTable,
};
use crate::page_table::{
    catch_up_seq, key_le, key_of_addr, lemma_caught_up_facts, lemma_coldest_singleton,
    lemma_cooled_counter_bounds, lemma_idx_of, lemma_idx_of_unique, lemma_tier_count_catch_up,
    lemma_tier_count_push, lemma_tier_count_update, unique_ptrs,
};
use crate::page_table::{lemma_page_ptr_eq, lemma_page_ptr_view, spec_page_ptr};
use crate::pin_trace::{Record, RecordAccessKind};
use crate::sim::Trace;
use crate::statistics::{
    mig_has_key, mig_idx_of, mig_map, spec_migration_history, spec_migration_prev, Access,
    AccessKind, AccessMem, PageMigration, Statistics,
};

verus! {

/// Largest accepted global-cooling threshold; keeps every temperature
/// representable in 64 bits.
pub const MAX_COOLING_THRESHOLD: u64 = 0x4000000000000000;

/// Thresholds of the placement policy.
#[derive(Clone, Copy, Debug, PartialEq, Eq, Structural)]
pub struct Config {
    /// Adjusted read count at which a page becomes hot.
    pub read_hot_threshold: u64,
    /// Adjusted write count at which a page becomes hot.
    pub write_hot_threshold: u64,
    /// Adjusted count that triggers a global cooling event.
    pub global_cooling_threshold: u64,
}

/// Why the classifier could not serve a request.
#[derive(Clone, Copy, Debug, PartialEq, Eq, Structural)]
pub enum HeMemError {
    /// No tier had room for a new page.
    AllTiersFull,
    /// The destination tier stayed full even after trying to evict.
    DestinationFullUncoolable,
    /// A page to cool already resides in the slowest tier.
    AlreadySlowest,
    /// A page to warm already resides in the fastest tier.
    AlreadyFastest,
}

/// Why a classifier could not be constructed.
#[derive(Clone, Copy, Debug, PartialEq, Eq, Structural)]
pub enum ConfigError {
    /// The configuration names no memory tier.
    NoMemories,
    /// The global-cooling threshold is too large to track temperatures.
    CoolingThresholdTooLarge,
}

/// The classifier's whole mutable state, as one specification-level value:
/// the mapped pages, the cooling clock, the tiers, and the journal.
#[verifier::ext_equal]
pub struct SimState {
    /// All mapped pages, in mapping order.
    pub pages: Seq<Page>,
    /// The global cooling clock.
    pub clock: u64,
    /// The memory tiers, fastest first.
    pub mems: Seq<Memory>,
    /// The journal of accesses, in arrival order.
    pub accesses: Seq<Access>,
    /// The journal of migrations, as a map from page address to history.
    pub migrations: Map<u64, Seq<PageMigration>>,
}

/// The migration history recorded for `addr`, or the empty history.
pub open spec fn map_migration_history(
    migs: Map<u64, Seq<PageMigration>>,
    addr: u64,
) -> Seq<PageMigration> {
    if migs.dom().contains(addr) {
        migs[addr]
    } else {
        Seq::empty()
    }
}

/// The previous tier the next migration of `addr` will record.
pub open spec fn map_migration_prev(migs: Map<u64, Seq<PageMigration>>, addr: u64) -> Option<
    MemIdx,
> {
    let h = map_migration_history(migs, addr);
    if h.len() > 0 {
        Some(h.last().cur_mem_idx)
    } else {
        None
    }
}

/// The state after recording a migration of the page at `addr` to `dst`:
/// the page is caught up and re-homed, the two tiers' populations adjust
/// (none when `dst` is the page's own tier), and the journal grows by one
/// migration.
pub open spec fn spec_move(s: SimState, time: u64, addr: u64, dst: MemIdx) -> SimState
    recommends
        has_ptr(s.pages, addr),
        dst@ < s.mems.len(),
{
    let i = idx_of(s.pages, addr);
    let p = s.pages[i];
    let src = p.mem_idx;
    let p2 = Page { mem_idx: dst, ..caught_up(p, s.clock) };
    let mems2 = if src@ == dst@ {
        s.mems
    } else {
        s.mems.update(
            src@ as int,
            (Memory { page_len: (s.mems[src@ as int].page_len - 1) as u64, ..s.mems[src@ as int] }),
        ).update(
            dst@ as int,
            (Memory { page_len: (s.mems[dst@ as int].page_len + 1) as u64, ..s.mems[dst@ as int] }),
        )
    };
    SimState {
        pages: s.pages.update(i, p2),
        mems: mems2,
        migrations: s.migrations.insert(
            addr,
            map_migration_history(s.migrations, addr).push(
                (PageMigration {
                    time,
                    prev_mem_idx: map_migration_prev(s.migrations, addr),
                    cur_mem_idx: dst,
                }),
            ),
        ),
        ..s
    }
}

/// The state after the eviction cascade that frees one slot in tier `m`:
/// for each level from `k - 1` down to `m`, the coldest page of that tier
/// moves one tier slower. Tier `k` is the tier with room that absorbs the
/// deepest eviction.
pub open spec fn spec_evict_chain(s: SimState, time: u64, m: int, k: int) -> SimState
    decreases k - m,
{
    if k <= m {
        s
    } else {
        spec_evict_chain(
            spec_move(s, time, coldest_addr(s.pages, k - 1), spec_mem_idx(k)),
            time,
            m,
            k - 1,
        )
    }
}

/// Peeling the shallowest level off an eviction cascade: the cascade down
/// to `m` is the cascade down to `m + 1` followed by the move out of `m`.
pub proof fn lemma_evict_chain_peel(s: SimState, time: u64, m: int, k: int)
    requires
        m < k,
    ensures
        spec_evict_chain(s, time, m, k) == spec_move(
            spec_evict_chain(s, time, m + 1, k),
            time,
            coldest_addr(spec_evict_chain(s, time, m + 1, k).pages, m),
            spec_mem_idx(m + 1),
        ),
    decreases k - m,
{
    let s1 = spec_move(s, time, coldest_addr(s.pages, k - 1), spec_mem_idx(k));
    assert(spec_evict_chain(s, time, m, k) == spec_evict_chain(s1, time, m, k - 1));
    if m + 1 == k {
        assert(spec_evict_chain(s1, time, m, m) == s1);
        assert(spec_evict_chain(s, time, m + 1, k) == s);
    } else {
        assert(spec_evict_chain(s, time, m + 1, k) == spec_evict_chain(s1, time, m + 1, k - 1));
        lemma_evict_chain_peel(s1, time, m, k - 1);
    }
}

/// A well-bounded page stays well bounded when caught up, with both
/// counters at or under the threshold afterwards.
pub proof fn lemma_page_ok_caught_up(p: Page, clock: u64, threshold: u64, n_mems: nat)
    requires
        page_ok(p, clock, threshold, n_mems),
    ensures
        page_ok(caught_up(p, clock), clock, threshold, n_mems),
        caught_up(p, clock).read_accesses <= threshold,
        caught_up(p, clock).write_accesses <= threshold,
        caught_up(p, clock).ptr == p.ptr,
        caught_up(p, clock).mem_idx == p.mem_idx,
{
    lemma_caught_up_facts(p, clock);
    if p.clock_tick == clock {
        crate::page_table::lemma_caught_up_identity(p, clock);
    } else {
        let delta = (clock - p.clock_tick) as u64;
        lemma_cooled_counter_bounds(p.read_accesses, delta);
        lemma_cooled_counter_bounds(p.write_accesses, delta);
    }
}

/// Under the invariant every page's temperature fits in 64 bits.
pub proof fn lemma_temps_ok(s: SimState, c: Config)
    requires
        sim_inv(s, c),
    ensures
        forall|i: int|
            0 <= i < s.pages.len() ==> spec_temperature(#[trigger] s.pages[i]) <= u64::MAX,
{
}

/// The journal's history and previous-tier views agree between the ordered
/// sequence and its map.
pub proof fn lemma_histories_agree(ms: Seq<(u64, Seq<PageMigration>)>, addr: u64)
    ensures
        map_migration_history(mig_map(ms), addr) == spec_migration_history(ms, addr),
        map_migration_prev(mig_map(ms), addr) == spec_migration_prev(ms, addr),
{
    if mig_has_key(ms, addr) {
        assert(mig_map(ms).dom().contains(addr));
        assert(mig_map(ms)[addr] == ms[mig_idx_of(ms, addr)].1);
    } else {
        assert(!mig_map(ms).dom().contains(addr));
    }
}

/// Catching every page up preserves the cross-component invariant.
pub proof fn lemma_catch_up_preserves_inv(s: SimState, c: Config)
    requires
        sim_inv(s, c),
    ensures
        sim_inv(SimState { pages: catch_up_seq(s.pages, s.clock), ..s }, c),
        forall|j: int|
            0 <= j < s.pages.len() ==> (#[trigger] catch_up_seq(s.pages, s.clock)[j]).ptr
                == s.pages[j].ptr,
{
    let cs = catch_up_seq(s.pages, s.clock);
    assert forall|j: int| 0 <= j < cs.len() implies page_ok(
        #[trigger] cs[j],
        s.clock,
        c.global_cooling_threshold,
        s.mems.len(),
    ) && cs[j].ptr == s.pages[j].ptr by {
        lemma_page_ok_caught_up(s.pages[j], s.clock, c.global_cooling_threshold, s.mems.len());
    }
    assert forall|t: int| 0 <= t < s.mems.len() implies (#[trigger] s.mems[t]).page_len
        == tier_count(cs, t) by {
        lemma_tier_count_catch_up(s.pages, s.clock, t);
    }
}

/// The state and result of cooling the page at `addr`: it is caught up and
/// then migrated one tier slower, unless it already resides in the slowest
/// tier.
pub open spec fn spec_cool_page(s: SimState, time: u64, addr: u64) -> (
    SimState,
    Result<(), HeMemError>,
)
    recommends
        has_ptr(s.pages, addr),
{
    let i = idx_of(s.pages, addr);
    let p = s.pages[i];
    let s1 = SimState { pages: s.pages.update(i, caught_up(p, s.clock)), ..s };
    if p.mem_idx@ + 1 >= s.mems.len() {
        (s1, Err(HeMemError::AlreadySlowest))
    } else {
        spec_migrate_page(s1, time, addr, spec_mem_idx(p.mem_idx@ + 1))
    }
}

/// The state and result of warming the page at `addr`: it is caught up and
/// then migrated one tier faster, unless it already resides in the fastest
/// tier.
pub open spec fn spec_warm_page(s: SimState, time: u64, addr: u64) -> (
    SimState,
    Result<(), HeMemError>,
)
    recommends
        has_ptr(s.pages, addr),
{
    let i = idx_of(s.pages, addr);
    let p = s.pages[i];
    let s1 = SimState { pages: s.pages.update(i, caught_up(p, s.clock)), ..s };
    if p.mem_idx@ == 0 {
        (s1, Err(HeMemError::AlreadyFastest))
    } else {
        spec_migrate_page(s1, time, addr, spec_mem_idx(p.mem_idx@ - 1))
    }
}

/// Catching one page up preserves the cross-component invariant.
pub proof fn lemma_lookup_preserves_inv(s: SimState, c: Config, i: int)
    requires
        sim_inv(s, c),
        0 <= i < s.pages.len(),
    ensures
        sim_inv(
            SimState { pages: s.pages.update(i, caught_up(s.pages[i], s.clock)), ..s },
            c,
        ),
{
    let s1 = SimState { pages: s.pages.update(i, caught_up(s.pages[i], s.clock)), ..s };
    lemma_page_ok_caught_up(s.pages[i], s.clock, c.global_cooling_threshold, s.mems.len());
    assert forall|t: int| 0 <= t < s1.mems.len() implies (#[trigger] s1.mems[t]).page_len
        == tier_count(s1.pages, t) by {
        lemma_tier_count_update(s.pages, i, caught_up(s.pages[i], s.clock), t);
    }
    assert forall|j: int| 0 <= j < s1.pages.len() implies page_ok(
        #[trigger] s1.pages[j],
        s1.clock,
        c.global_cooling_threshold,
        s1.mems.len(),
    ) by {
        if j != i {
            assert(s1.pages[j] == s.pages[j]);
        }
    }
}

/// Recording a feasible move preserves the cross-component invariant.
pub proof fn lemma_move_preserves_inv(s: SimState, c: Config, time: u64, addr: u64, dst: MemIdx)
    requires
        sim_inv(s, c),
        unique_ptrs(s.pages),
        has_ptr(s.pages, addr),
        dst@ < s.mems.len(),
        s.pages[idx_of(s.pages, addr)].mem_idx@ != dst@ ==> s.mems[dst@ as int].page_len
            < s.mems[dst@ as int].page_capacity,
    ensures
        sim_inv(spec_move(s, time, addr, dst), c),
        spec_move(s, time, addr, dst).pages.len() == s.pages.len(),
        forall|j: int|
            0 <= j < s.pages.len() ==> (#[trigger] spec_move(s, time, addr, dst).pages[j]).ptr
                == s.pages[j].ptr,
        spec_move(s, time, addr, dst).clock == s.clock,
        spec_move(s, time, addr, dst).accesses == s.accesses,
        unique_ptrs(spec_move(s, time, addr, dst).pages),
{
    let i = idx_of(s.pages, addr);
    lemma_idx_of(s.pages, addr);
    let p = s.pages[i];
    let src = p.mem_idx;
    let s2 = spec_move(s, time, addr, dst);
    let p2 = Page { mem_idx: dst, ..caught_up(p, s.clock) };
    lemma_page_ok_caught_up(p, s.clock, c.global_cooling_threshold, s.mems.len());
    // the source tier holds this page, so its population is positive
    crate::page_table::lemma_tier_keys_facts(s.pages, src@ as int);
    assert(crate::page_table::tier_keys(s.pages, src@ as int).contains(spec_key(p)));
    assert(tier_count(s.pages, src@ as int) > 0);
    assert forall|t: int| 0 <= t < s2.mems.len() implies (#[trigger] s2.mems[t]).page_len
        == tier_count(s2.pages, t) by {
        lemma_tier_count_update(s.pages, i, p2, t);
    }
    assert forall|j: int| 0 <= j < s2.pages.len() implies page_ok(
        #[trigger] s2.pages[j],
        s2.clock,
        c.global_cooling_threshold,
        s2.mems.len(),
    ) by {
        if j != i {
            assert(s2.pages[j] == s.pages[j]);
        }
    }
}

/// The fastest tier from `i` on with room for one more page, or `-1`.
pub open spec fn first_free_tier(mems: Seq<Memory>, i: int) -> int
    decreases mems.len() - i,
{
    if i < 0 || i >= mems.len() {
        -1
    } else if mems[i].page_len < mems[i].page_capacity {
        i
    } else {
        first_free_tier(mems, i + 1)
    }
}

/// The state and result of migrating the page at `addr` to tier `dst`.
/// When `dst` has room (or already holds the page) the move is recorded
/// directly. When `dst` is full, every page is caught up and an eviction
/// cascade tries to free one slot: it needs a slower tier with room, and a
/// page to evict at every level on the way; with those the cascade runs and
/// the move is recorded, otherwise the migration fails with every page
/// caught up and nothing else changed.
pub open spec fn spec_migrate_page(s: SimState, time: u64, addr: u64, dst: MemIdx) -> (
    SimState,
    Result<(), HeMemError>,
)
    recommends
        has_ptr(s.pages, addr),
        dst@ < s.mems.len(),
{
    let i = idx_of(s.pages, addr);
    let src = s.pages[i].mem_idx;
    if src@ == dst@ || s.mems[dst@ as int].page_len < s.mems[dst@ as int].page_capacity {
        (spec_move(s, time, addr, dst), Ok(()))
    } else {
        let cs = SimState { pages: catch_up_seq(s.pages, s.clock), ..s };
        let k = first_free_tier(s.mems, dst@ as int);
        if k == -1 || exists|t: int|
            dst@ <= t < k && (#[trigger] s.mems[t]).page_len == 0 {
            (cs, Err(HeMemError::DestinationFullUncoolable))
        } else {
            (spec_move(spec_evict_chain(cs, time, dst@ as int, k), time, addr, dst), Ok(()))
        }
    }
}

/// An eviction cascade never touches the clock or the access journal.
pub proof fn lemma_evict_chain_frame(s: SimState, time: u64, m: int, k: int)
    ensures
        spec_evict_chain(s, time, m, k).clock == s.clock,
        spec_evict_chain(s, time, m, k).accesses == s.accesses,
    decreases k - m,
{
    if k > m {
        lemma_evict_chain_frame(
            spec_move(s, time, coldest_addr(s.pages, k - 1), spec_mem_idx(k)),
            time,
            m,
            k - 1,
        );
    }
}

/// Migrating, cooling or warming a page never touches the clock or the
/// access journal.
pub proof fn lemma_policy_frame(s: SimState, time: u64, addr: u64)
    ensures
        spec_cool_page(s, time, addr).0.clock == s.clock,
        spec_cool_page(s, time, addr).0.accesses == s.accesses,
        spec_warm_page(s, time, addr).0.clock == s.clock,
        spec_warm_page(s, time, addr).0.accesses == s.accesses,
{
    let i = idx_of(s.pages, addr);
    let p = s.pages[i];
    let s1 = SimState { pages: s.pages.update(i, caught_up(p, s.clock)), ..s };
    lemma_migrate_frame(s1, time, addr, spec_mem_idx(p.mem_idx@ + 1));
    lemma_migrate_frame(s1, time, addr, spec_mem_idx(p.mem_idx@ - 1));
}

/// A migration never touches the clock or the access journal.
pub proof fn lemma_migrate_frame(s: SimState, time: u64, addr: u64, dst: MemIdx)
    ensures
        spec_migrate_page(s, time, addr, dst).0.clock == s.clock,
        spec_migrate_page(s, time, addr, dst).0.accesses == s.accesses,
{
    let cs = SimState { pages: catch_up_seq(s.pages, s.clock), ..s };
    let k = first_free_tier(s.mems, dst@ as int);
    lemma_evict_chain_frame(cs, time, dst@ as int, k);
}

/// The journal effect of one handled record: a rejected record leaves the
/// classifier unchanged; an accepted one appends exactly one access, whose
/// timestamp is the record's.
pub proof fn lemma_handle_journal(s: SimState, c: Config, rec: Record)
    ensures
        (spec_handle(s, c, rec).1 is Err) ==> spec_handle(s, c, rec).0 == s,
        (spec_handle(s, c, rec).1 is Ok) ==> ({
            let f = spec_handle(s, c, rec).0.accesses;
            f.len() == s.accesses.len() + 1 && (forall|j: int|
                0 <= j < s.accesses.len() ==> #[trigger] f[j] == s.accesses[j]) && f.last().time
                == rec.time
        }),
{
    let addr = rec.addr & !0xfffu64;
    if !(spec_handle(s, c, rec).1 is Err) {
        lemma_policy_frame(
            spec_handle_mid_state(s, c, rec),
            rec.time,
            addr,
        );
    }
}

/// The state of `spec_handle` just before the policy transition; named so
/// frame lemmas can speak of it.
pub open spec fn spec_handle_mid_state(s: SimState, c: Config, rec: Record) -> SimState {
    let addr = rec.addr & !0xfffu64;
    let existed = has_ptr(s.pages, addr);
    let s_b = if existed {
        SimState {
            pages: s.pages.update(
                idx_of(s.pages, addr),
                caught_up(s.pages[idx_of(s.pages, addr)], s.clock),
            ),
            ..s
        }
    } else {
        spec_map_new_page(s, rec.time, addr, first_free_tier(s.mems, 0))
    };
    let i = idx_of(s_b.pages, addr);
    let p0 = s_b.pages[i];
    let p1 = if rec.kind is Read {
        Page { read_accesses: (p0.read_accesses + 1) as u64, ..p0 }
    } else {
        Page { write_accesses: (p0.write_accesses + 1) as u64, ..p0 }
    };
    let s_c = SimState { pages: s_b.pages.update(i, p1), ..s_b };
    let caused_cooling = p1.read_accesses >= c.global_cooling_threshold
        || p1.write_accesses >= c.global_cooling_threshold;
    let s_d = if caused_cooling {
        SimState { clock: (s_c.clock + 1) as u64, ..s_c }
    } else {
        s_c
    };
    let p2 = caught_up(p1, s_d.clock);
    SimState { pages: s_d.pages.update(i, p2), ..s_d }
}

/// The state and count after cooling up to `count` of the coldest pages
/// out of tier `t`, coldest first. A page whose move fails stays put and
/// is not counted; each round picks the tier's coldest page at that
/// moment.
pub open spec fn spec_cool_rounds(s: SimState, time: u64, t: int, count: nat) -> (SimState, int)
    decreases count,
{
    if count == 0 || tier_count(s.pages, t) == 0 {
        (s, 0)
    } else {
        let picked = coldest_addr(s.pages, t);
        let outcome = spec_cool_page(s, time, picked);
        let rest = spec_cool_rounds(outcome.0, time, t, (count - 1) as nat);
        (rest.0, rest.1 + if outcome.1 is Ok {
            1int
        } else {
            0int
        })
    }
}

/// Law: in a well-formed classifier, each tier's occupancy count equals
/// the number of pages that reside in it.
pub proof fn lemma_tier_occupancy(h: &HeMem, t: int)
    requires
        h.wf(),
        0 <= t < h.st().mems.len(),
    ensures
        h.st().mems[t].page_len == tier_count(h.st().pages, t),
{
}

/// Law: in a well-formed classifier, no page's cooling tick runs ahead of
/// the global clock.
pub proof fn lemma_clock_bound(h: &HeMem, i: int)
    requires
        h.wf(),
        0 <= i < h.st().pages.len(),
    ensures
        h.st().pages[i].clock_tick <= h.st().clock,
{
    assert(page_ok(
        h.st().pages[i],
        h.st().clock,
        h.spec_config().global_cooling_threshold,
        h.st().mems.len(),
    ));
}

/// Law: over one handled record, the journalled access's temperature rises
/// by at most two when it causes no cooling event, and otherwise ends at
/// or below half of the risen value.
pub proof fn lemma_handle_temperature(s: SimState, c: Config, rec: Record)
    requires
        sim_inv(s, c),
        unique_ptrs(s.pages),
        s.clock < u64::MAX,
    ensures
        (spec_handle(s, c, rec).1 is Ok) ==> ({
            let acc = spec_handle(s, c, rec).0.accesses.last();
            &&& !acc.caused_cooling ==> acc.prev_temperature <= acc.cur_temperature
                <= acc.prev_temperature + 2
            &&& acc.caused_cooling ==> acc.cur_temperature <= (acc.prev_temperature + 2) / 2
        }),
{
    let addr = rec.addr & !0xfffu64;
    let existed = has_ptr(s.pages, addr);
    let threshold = c.global_cooling_threshold;
    if spec_handle(s, c, rec).1 is Ok {
        lemma_policy_frame(spec_handle_mid_state(s, c, rec), rec.time, addr);
        let s_b = if existed {
            SimState {
                pages: s.pages.update(
                    idx_of(s.pages, addr),
                    caught_up(s.pages[idx_of(s.pages, addr)], s.clock),
                ),
                ..s
            }
        } else {
            spec_map_new_page(s, rec.time, addr, first_free_tier(s.mems, 0))
        };
        let i = idx_of(s_b.pages, addr);
        // the snapshotted page is caught up, so its counters are at or
        // under the threshold
        if existed {
            let i0 = idx_of(s.pages, addr);
            lemma_idx_of(s.pages, addr);
            lemma_page_ok_caught_up(s.pages[i0], s.clock, threshold, s.mems.len());
            lemma_idx_of_unique(s_b.pages, addr, i0);
        } else {
            lemma_first_free_tier_bounds(s.mems, 0);
            lemma_page_ptr_view(addr);
            lemma_idx_of_unique(s_b.pages, addr, s.pages.len() as int);
        }
        let p0 = s_b.pages[i];
        assert(p0.read_accesses <= threshold && p0.write_accesses <= threshold);
        assert(p0.clock_tick == s_b.clock);
        let p1 = if rec.kind is Read {
            Page { read_accesses: (p0.read_accesses + 1) as u64, ..p0 }
        } else {
            Page { write_accesses: (p0.write_accesses + 1) as u64, ..p0 }
        };
        let prev = spec_temperature(p0);
        assert(prev + 2 <= u64::MAX);
        assert(prev <= spec_temperature(p1) <= prev + 2);
        let caused_cooling = p1.read_accesses >= threshold || p1.write_accesses >= threshold;
        if !caused_cooling {
            crate::page_table::lemma_caught_up_identity(p1, s_b.clock);
        } else {
            let clock2 = (s_b.clock + 1) as u64;
            let p2 = caught_up(p1, clock2);
            let r1 = p1.read_accesses;
            let w1 = p1.write_accesses;
            assert(p2.read_accesses == r1 >> 1u64 && p2.write_accesses == w1 >> 1u64);
            assert(r1 >> 1u64 == r1 / 2) by (bit_vector);
            assert(w1 >> 1u64 == w1 / 2) by (bit_vector);
            assert(r1 / 2 + 2 * (w1 / 2) <= (r1 + 2 * w1) / 2) by (nonlinear_arith);
            assert((r1 + 2 * w1) / 2 <= (prev + 2) / 2);
        }
    }
}

/// A found first-free tier lies within the tiers and has room.
pub proof fn lemma_first_free_tier_bounds(mems: Seq<Memory>, j: int)
    ensures
        first_free_tier(mems, j) == -1 || (0 <= first_free_tier(mems, j) < mems.len()
            && mems[first_free_tier(mems, j)].page_len < mems[first_free_tier(
            mems,
            j,
        )].page_capacity),
    decreases mems.len() - j,
{
    if j < 0 || j >= mems.len() {
    } else if mems[j].page_len < mems[j].page_capacity {
    } else {
        lemma_first_free_tier_bounds(mems, j + 1);
    }
}

/// The state after mapping a fresh page at `addr` into tier `k` at `time`:
/// the page joins the table caught up with zeroed counters, the tier's
/// population grows, and the initial migration is journalled.
pub open spec fn spec_map_new_page(s: SimState, time: u64, addr: u64, k: int) -> SimState
    recommends
        0 <= k < s.mems.len(),
{
    let s_m = SimState {
        pages: s.pages.push(
            (Page {
                ptr: spec_page_ptr(addr),
                mem_idx: spec_mem_idx(k),
                read_accesses: 0u64,
                write_accesses: 0u64,
                clock_tick: s.clock,
            }),
        ),
        mems: s.mems.update(
            k,
            (Memory { page_len: (s.mems[k].page_len + 1) as u64, ..s.mems[k] }),
        ),
        ..s
    };
    SimState {
        migrations: s_m.migrations.insert(
            addr,
            map_migration_history(s_m.migrations, addr).push(
                (PageMigration {
                    time,
                    prev_mem_idx: map_migration_prev(s_m.migrations, addr),
                    cur_mem_idx: spec_mem_idx(k),
                }),
            ),
        ),
        ..s_m
    }
}

/// The state and result of handling one trace record, exactly as the
/// classifier performs it: map the page if absent (or fail when every tier
/// is full), snapshot its residency and temperature, count the access,
/// trigger a global cooling when a counter reaches the threshold, re-check
/// hotness on the caught-up counters, migrate one tier on a hot/cold
/// transition, and journal the access.
pub open spec fn spec_handle(s: SimState, c: Config, rec: Record) -> (
    SimState,
    Result<(), HeMemError>,
) {
    let addr = rec.addr & !0xfffu64;
    let existed = has_ptr(s.pages, addr);
    if !existed && first_free_tier(s.mems, 0) == -1 {
        (s, Err(HeMemError::AllTiersFull))
    } else {
        let prev_mem: Option<MemIdx> = if existed {
            Some(s.pages[idx_of(s.pages, addr)].mem_idx)
        } else {
            Option::None
        };
        let s_b = if existed {
            SimState {
                pages: s.pages.update(
                    idx_of(s.pages, addr),
                    caught_up(s.pages[idx_of(s.pages, addr)], s.clock),
                ),
                ..s
            }
        } else {
            spec_map_new_page(s, rec.time, addr, first_free_tier(s.mems, 0))
        };
        let i = idx_of(s_b.pages, addr);
        let p0 = s_b.pages[i];
        let was_hot = spec_is_hot(p0, c.read_hot_threshold, c.write_hot_threshold);
        let prev_temp = spec_temperature(p0) as u64;
        let p1 = if rec.kind is Read {
            Page { read_accesses: (p0.read_accesses + 1) as u64, ..p0 }
        } else {
            Page { write_accesses: (p0.write_accesses + 1) as u64, ..p0 }
        };
        let s_c = SimState { pages: s_b.pages.update(i, p1), ..s_b };
        let caused_cooling = p1.read_accesses >= c.global_cooling_threshold
            || p1.write_accesses >= c.global_cooling_threshold;
        let s_d = if caused_cooling {
            SimState { clock: (s_c.clock + 1) as u64, ..s_c }
        } else {
            s_c
        };
        let p2 = caught_up(p1, s_d.clock);
        let s_e = SimState { pages: s_d.pages.update(i, p2), ..s_d };
        let is_hot2 = spec_is_hot(p2, c.read_hot_threshold, c.write_hot_threshold);
        let cur_temp = spec_temperature(p2) as u64;
        let s_f = if was_hot && !is_hot2 {
            spec_cool_page(s_e, rec.time, addr).0
        } else if !was_hot && is_hot2 {
            spec_warm_page(s_e, rec.time, addr).0
        } else {
            s_e
        };
        let access = Access {
            time: rec.time,
            page_ptr: spec_page_ptr(addr),
            kind: if rec.kind is Read {
                AccessKind::Read
            } else {
                AccessKind::Write
            },
            mem: match prev_mem {
                Some(m) => AccessMem::Resided(m),
                Option::None => AccessMem::Mapped(p2.mem_idx),
            },
            prev_temperature: prev_temp,
            cur_temperature: cur_temp,
            caused_cooling,
        };
        (SimState { accesses: s_f.accesses.push(access), ..s_f }, Ok(()))
    }
}

/// A page's counters are bounded by the cooling threshold, it resides in a
/// real tier, and its tick does not run ahead of the clock.
pub open spec fn page_ok(p: Page, clock: u64, threshold: u64, n_mems: nat) -> bool {
    &&& p.mem_idx@ < n_mems
    &&& p.clock_tick <= clock
    &&& p.read_accesses <= threshold + 1
    &&& p.write_accesses <= threshold + 1
    &&& p.clock_tick == clock ==> p.read_accesses <= threshold && p.write_accesses <= threshold
}

/// Invariant tying the classifier's components together: tiers exist and
/// are within capacity, every page is well bounded, and each tier's
/// population count equals the number of pages that reside in it.
pub open spec fn sim_inv(s: SimState, c: Config) -> bool {
    &&& s.mems.len() >= 1
    &&& c.global_cooling_threshold <= MAX_COOLING_THRESHOLD
    &&& forall|t: int| 0 <= t < s.mems.len() ==> (#[trigger] s.mems[t]).wf()
    &&& forall|i: int|
        0 <= i < s.pages.len() ==> page_ok(
            #[trigger] s.pages[i],
            s.clock,
            c.global_cooling_threshold,
            s.mems.len(),
        )
    &&& forall|t: int|
        0 <= t < s.mems.len() ==> (#[trigger] s.mems[t]).page_len == tier_count(s.pages, t)
}

/// The HeMem classifier: configuration, tiers, page table, and journal.
pub struct HeMem {
    config: Config,
    memories: Memories,
    page_table: PageTable,
    statistics: Statistics,
}

impl HeMem {
    /// The classifier's configuration.
    pub closed spec fn spec_config(&self) -> Config {
        self.config
    }

    /// The classifier's whole mutable state.
    pub closed spec fn st(&self) -> SimState {
        SimState {
            pages: self.page_table@,
            clock: self.page_table.clock(),
            mems: self.memories@,
            accesses: self.statistics.spec_accesses(),
            migrations: mig_map(self.statistics.spec_migrations()),
        }
    }

    /// The ordered journal of migration histories, by page address.
    pub closed spec fn spec_migration_seq(&self) -> Seq<(u64, Seq<PageMigration>)> {
        self.statistics.spec_migrations()
    }

    /// Well-formedness: the page table holds unique, caught-up-or-older
    /// pages, the journal is sorted and well chained, and the cross-component
    /// invariant holds.
    pub open spec fn wf(&self) -> bool {
        &&& self.page_table_wf()
        &&& self.statistics_wf()
        &&& sim_inv(self.st(), self.spec_config())
    }

    /// The page table's own well-formedness, over this classifier's state.
    pub closed spec fn page_table_wf(&self) -> bool {
        self.page_table.wf()
    }

    /// The journal's own well-formedness.
    pub closed spec fn statistics_wf(&self) -> bool {
        self.statistics.wf()
    }

    /// Creates a classifier over tiers ordered fastest to slowest. All
    /// tiers start empty. Fails when no tier is given, or when the cooling
    /// threshold is too large to track temperatures in 64 bits.
    pub fn new(config: Config, memories: Vec<Memory>) -> (r: Result<HeMem, ConfigError>)
        requires
            forall|i: int|
                0 <= i < memories@.len() ==> (#[trigger] memories@[i]).page_len == 0
                    && memories@[i].wf(),
        ensures
            memories@.len() == 0 ==> r == Result::<HeMem, ConfigError>::Err(
                ConfigError::NoMemories,
            ),
            memories@.len() > 0 && config.global_cooling_threshold > MAX_COOLING_THRESHOLD ==> r
                == Result::<HeMem, ConfigError>::Err(ConfigError::CoolingThresholdTooLarge),
            memories@.len() > 0 && config.global_cooling_threshold <= MAX_COOLING_THRESHOLD ==> (
            r matches Ok(h) && h.wf() && h.spec_config() == config && h.st() == (SimState {
                pages: Seq::<Page>::empty(),
                clock: 0,
                mems: memories@,
                accesses: Seq::<Access>::empty(),
                migrations: Map::<u64, Seq<PageMigration>>::empty(),
            })),
    {
        if memories.len() == 0 {
            return Err(ConfigError::NoMemories);
        }
        if config.global_cooling_threshold > MAX_COOLING_THRESHOLD {
            return Err(ConfigError::CoolingThresholdTooLarge);
        }
        let h = HeMem {
            config,
            memories: Memories::new(memories),
            page_table: PageTable::new(),
            statistics: Statistics::new(),
        };
        proof {
            assert(mig_map(h.statistics.spec_migrations()) =~= Map::<
                u64,
                Seq<PageMigration>,
            >::empty());
            assert forall|t: int| 0 <= t < h.st().mems.len() implies (
            #[trigger] h.st().mems[t]).page_len == tier_count(h.st().pages, t) by {
                assert(tier_count(Seq::<Page>::empty(), t) == 0);
            }
        }
        Ok(h)
    }

    /// Returns the statistics journal.
    pub fn statistics(&self) -> (r: &Statistics)
        ensures
            r.spec_accesses() == self.st().accesses,
            r.spec_migrations() == self.spec_migration_seq(),
            mig_map(r.spec_migrations()) == self.st().migrations,
            self.wf() ==> r.wf(),
    {
        &self.statistics
    }

    /// Returns the memory tiers.
    pub fn memories(&self) -> (r: &Memories)
        ensures
            r@ == self.st().mems,
    {
        &self.memories
    }

    /// Returns the page table.
    pub fn page_table(&self) -> (r: &PageTable)
        ensures
            r@ == self.st().pages,
            r.clock() == self.st().clock,
    {
        &self.page_table
    }

    /// Maps an unmapped page into the fastest tier with room, walking tiers
    /// fastest to slowest. Fails when every tier is full, leaving the
    /// classifier unchanged.
    pub fn map_page(&mut self, page_ptr: PagePtr) -> (r: Result<MemIdx, HeMemError>)
        requires
            old(self).wf(),
            !has_ptr(old(self).st().pages, page_ptr@),
        ensures
            final(self).wf(),
            final(self).spec_config() == old(self).spec_config(),
            first_free_tier(old(self).st().mems, 0) == -1 ==> r == Result::<
                MemIdx,
                HeMemError,
            >::Err(HeMemError::AllTiersFull) && final(self).st() == old(self).st(),
            first_free_tier(old(self).st().mems, 0) >= 0 ==> {
                let k = first_free_tier(old(self).st().mems, 0);
                r == Result::<MemIdx, HeMemError>::Ok(spec_mem_idx(k)) && final(self).st() == (
                SimState {
                    pages: old(self).st().pages.push(
                        (Page {
                            ptr: page_ptr,
                            mem_idx: spec_mem_idx(k),
                            read_accesses: 0u64,
                            write_accesses: 0u64,
                            clock_tick: old(self).st().clock,
                        }),
                    ),
                    mems: old(self).st().mems.update(
                        k,
                        (Memory {
                            page_len: (old(self).st().mems[k].page_len + 1) as u64,
                            ..old(self).st().mems[k]
                        }),
                    ),
                    ..old(self).st()
                })
            },
    {
        let n = self.memories.len();
        let mut t: usize = 0;
        while t < n
            invariant
                old(self).wf(),
                !has_ptr(old(self).st().pages, page_ptr@),
                self.wf(),
                self.st() == old(self).st(),
                self.spec_config() == old(self).spec_config(),
                self.page_table == old(self).page_table,
                self.statistics == old(self).statistics,
                n == self.st().mems.len(),
                0 <= t <= n,
                first_free_tier(self.st().mems, 0) == first_free_tier(self.st().mems, t as int),
                forall|k: int|
                    0 <= k < t ==> (#[trigger] self.st().mems[k]).page_len
                        >= self.st().mems[k].page_capacity,
            decreases n - t,
        {
            let idx = MemIdx::new(t);
            match self.memories.reserve(idx) {
                Ok(()) => {
                    let page = Page::new(page_ptr, idx);
                    let ghost k = t as int;
                    proof {
                        assert(first_free_tier(old(self).st().mems, k) == k);
                    }
                    match self.page_table.insert(page) {
                        Ok(()) => {},
                        Err(_) => {
                            proof {
                                assert(false);
                            }
                        },
                    }
                    proof {
                        let clock = old(self).st().clock;
                        crate::memories::lemma_mem_idx_view(k);
                        crate::memories::lemma_mem_idx_eq(idx, spec_mem_idx(k));
                        assert(caught_up(page, clock) == (Page {
                            ptr: page_ptr,
                            mem_idx: spec_mem_idx(k),
                            read_accesses: 0u64,
                            write_accesses: 0u64,
                            clock_tick: clock,
                        })) by {
                            let delta = (clock - page.clock_tick) as u64;
                            assert(0u64 >> delta == 0) by (bit_vector);
                            assert(0u64 >> 63u64 == 0) by (bit_vector);
                        }
                        let oldst = old(self).st();
                        let newst = self.st();
                        let newpage = caught_up(page, clock);
                        assert(newst.pages =~= oldst.pages.push(newpage));
                        assert(newst.mems =~= oldst.mems.update(
                            k,
                            (Memory {
                                page_len: (oldst.mems[k].page_len + 1) as u64,
                                ..oldst.mems[k]
                            }),
                        ));
                        // the cross-component invariant survives the mapping
                        assert forall|tt: int| 0 <= tt < newst.mems.len() implies (
                        #[trigger] newst.mems[tt]).page_len == tier_count(newst.pages, tt) by {
                            lemma_tier_count_push(oldst.pages, newpage, tt);
                        }
                        assert forall|i: int| 0 <= i < newst.pages.len() implies page_ok(
                            #[trigger] newst.pages[i],
                            newst.clock,
                            self.spec_config().global_cooling_threshold,
                            newst.mems.len(),
                        ) by {
                            if i < oldst.pages.len() {
                                assert(oldst.pages[i] == newst.pages[i]);
                            }
                        }
                    }
                    return Ok(idx);
                },
                Err(_) => {},
            }
            t = t + 1;
        }
        proof {
            assert(first_free_tier(self.st().mems, n as int) == -1);
        }
        Err(HeMemError::AllTiersFull)
    }

    /// Migrates a mapped page to tier `dst_mem_idx`, evicting the coldest
    /// pages of full tiers toward slower tiers on demand, and records every
    /// move in the journal.
    #[verifier::rlimit(100)]
    pub fn migrate_page(&mut self, cur_time: u64, page_ptr: PagePtr, dst_mem_idx: MemIdx) -> (r:
        Result<(), HeMemError>)
        requires
            old(self).wf(),
            has_ptr(old(self).st().pages, page_ptr@),
            dst_mem_idx@ < old(self).st().mems.len(),
        ensures
            final(self).wf(),
            final(self).spec_config() == old(self).spec_config(),
            final(self).st() == spec_migrate_page(
                old(self).st(),
                cur_time,
                page_ptr@,
                dst_mem_idx,
            ).0,
            r == spec_migrate_page(old(self).st(), cur_time, page_ptr@, dst_mem_idx).1,
            final(self).st().clock == old(self).st().clock,
            final(self).st().accesses == old(self).st().accesses,
            final(self).st().pages.len() == old(self).st().pages.len(),
            final(self).st().mems.len() == old(self).st().mems.len(),
            forall|j: int|
                0 <= j < old(self).st().pages.len() ==> (#[trigger] final(self).st().pages[j]).ptr
                    == old(self).st().pages[j].ptr,
            forall|j: int|
                0 <= j < final(self).st().pages.len() ==> (#[trigger] final(self).st().pages[j]).clock_tick
                    == old(self).st().pages[j].clock_tick || final(self).st().pages[j].clock_tick
                    == old(self).st().clock,
    {
        let ghost s0 = self.st();
        let ghost i0 = idx_of(s0.pages, page_ptr@);
        proof {
            lemma_idx_of(s0.pages, page_ptr@);
        }
        let page = match self.page_table.get_mut(page_ptr) {
            Some(p) => p,
            None => {
                proof {
                    assert(false);
                }
                Page::new(page_ptr, dst_mem_idx)
            },
        };
        let src = page.mem_idx();
        proof {
            lemma_caught_up_facts(s0.pages[i0], s0.clock);
            assert(src == s0.pages[i0].mem_idx);
            assert(src@ < s0.mems.len());
            // the tier holding the page is not empty
            crate::page_table::lemma_tier_keys_facts(s0.pages, src@ as int);
            assert(crate::page_table::tier_keys(s0.pages, src@ as int).contains(
                spec_key(s0.pages[i0]),
            ));
            assert(s0.mems[src@ as int].page_len > 0);
            // the intermediate state after the lookup's catch-up
            assert(self.st() == (SimState {
                pages: s0.pages.update(i0, caught_up(s0.pages[i0], s0.clock)),
                ..s0
            }));
        }
        let ghost s1 = self.st();
        proof {
            // the lookup's catch-up keeps the invariant
            let cfg0 = self.spec_config();
            lemma_page_ok_caught_up(
                s0.pages[i0],
                s0.clock,
                cfg0.global_cooling_threshold,
                s0.mems.len(),
            );
            assert forall|t: int| 0 <= t < s1.mems.len() implies (#[trigger] s1.mems[t]).page_len
                == tier_count(s1.pages, t) by {
                lemma_tier_count_update(s0.pages, i0, caught_up(s0.pages[i0], s0.clock), t);
            }
            assert forall|j: int| 0 <= j < s1.pages.len() implies page_ok(
                #[trigger] s1.pages[j],
                s1.clock,
                cfg0.global_cooling_threshold,
                s1.mems.len(),
            ) by {
                if j != i0 {
                    assert(s1.pages[j] == s0.pages[j]);
                }
            }
            assert(self.wf());
        }
        match self.memories.migrate_page(src, dst_mem_idx) {
            Ok(()) => {
                proof {
                    assert(self.st().pages[i0].ptr@ == page_ptr@);
                    assert(has_ptr(self.st().pages, page_ptr@));
                }
                self.page_table.move_mem(page_ptr, dst_mem_idx);
                self.statistics.register_page_migration(page_ptr, cur_time, dst_mem_idx);
                proof {
                    lemma_idx_of_unique(s1.pages, page_ptr@, i0);
                    crate::page_table::lemma_caught_up_identity(
                        caught_up(s0.pages[i0], s0.clock),
                        s0.clock,
                    );
                    assert(s1.pages.update(i0, caught_up(s0.pages[i0], s0.clock)) =~= s1.pages);
                    lemma_histories_agree(old(self).spec_migration_seq(), page_ptr@);
                    assert(self.st().pages =~= spec_move(s0, cur_time, page_ptr@, dst_mem_idx).pages);
                    assert(self.st().mems =~= spec_move(s0, cur_time, page_ptr@, dst_mem_idx).mems);
                    assert(self.st().migrations =~= spec_move(
                        s0,
                        cur_time,
                        page_ptr@,
                        dst_mem_idx,
                    ).migrations);
                    assert(self.st() =~= spec_move(s0, cur_time, page_ptr@, dst_mem_idx));
                    lemma_move_preserves_inv(s0, self.spec_config(), cur_time, page_ptr@, dst_mem_idx);
                }
                Ok(())
            },
            Err(_) => {
                let ghost cfg = self.spec_config();
                proof {
                    // the source tier is not empty, so the destination is
                    // full and differs from the source
                    assert(src@ != dst_mem_idx@);
                    assert(s0.mems[dst_mem_idx@ as int].page_len >= s0.mems[dst_mem_idx@ as int].page_capacity);
                }
                let n = self.memories.len();
                let dst_usize = dst_mem_idx.to_usize();
                let mut k: usize = dst_usize;
                let mut any_empty = false;
                loop
                    invariant
                        self.wf(),
                        self.st() == s1,
                        self.spec_config() == cfg,
                        n == s1.mems.len(),
                        s1.mems == s0.mems,
                        dst_usize <= k <= n,
                        dst_usize == dst_mem_idx@,
                        first_free_tier(s0.mems, dst_usize as int) == first_free_tier(
                            s0.mems,
                            k as int,
                        ),
                        forall|t: int|
                            dst_usize <= t < k ==> (#[trigger] s0.mems[t]).page_len
                                >= s0.mems[t].page_capacity,
                        any_empty == exists|t: int|
                            dst_usize <= t < k && (#[trigger] s0.mems[t]).page_len == 0,
                    ensures
                        dst_usize <= k <= n,
                        forall|t: int|
                            dst_usize <= t < k ==> (#[trigger] s0.mems[t]).page_len
                                >= s0.mems[t].page_capacity,
                        any_empty == exists|t: int|
                            dst_usize <= t < k && (#[trigger] s0.mems[t]).page_len == 0,
                        k == n ==> first_free_tier(s0.mems, dst_usize as int) == -1,
                        k < n ==> first_free_tier(s0.mems, dst_usize as int) == k as int
                            && s0.mems[k as int].page_len < s0.mems[k as int].page_capacity,
                    decreases n - k,
                {
                    if k >= n {
                        break ;
                    }
                    let mem = self.memories.get(MemIdx::new(k));
                    if !mem.is_full() {
                        break ;
                    }
                    if mem.page_len() == 0 {
                        any_empty = true;
                        proof {
                            assert(s0.mems[k as int].page_len == 0);
                        }
                    }
                    k = k + 1;
                }
                if k == n || any_empty {
                    self.page_table.catch_up_pages();
                    proof {
                        crate::page_table::lemma_catch_up_seq_absorb(s0.pages, i0, s0.clock);
                        assert(self.st().pages == catch_up_seq(s0.pages, s0.clock));
                        assert(self.st() =~= spec_migrate_page(
                            s0,
                            cur_time,
                            page_ptr@,
                            dst_mem_idx,
                        ).0);
                        // the invariant survives the catch-up
                        let s2 = self.st();
                        assert forall|j: int| 0 <= j < s2.pages.len() implies page_ok(
                            #[trigger] s2.pages[j],
                            s2.clock,
                            cfg.global_cooling_threshold,
                            s2.mems.len(),
                        ) by {
                            lemma_page_ok_caught_up(
                                s0.pages[j],
                                s0.clock,
                                cfg.global_cooling_threshold,
                                s0.mems.len(),
                            );
                        }
                        assert forall|t: int| 0 <= t < s2.mems.len() implies (
                        #[trigger] s2.mems[t]).page_len == tier_count(s2.pages, t) by {
                            crate::page_table::lemma_tier_count_catch_up(s0.pages, s0.clock, t);
                        }
                    }
                    return Err(HeMemError::DestinationFullUncoolable);
                }
                self.page_table.catch_up_pages();
                let ghost s_cs = self.st();
                proof {
                    crate::page_table::lemma_catch_up_seq_absorb(s0.pages, i0, s0.clock);
                    assert(s_cs == (SimState { pages: catch_up_seq(s0.pages, s0.clock), ..s0 }));
                    let s2 = self.st();
                    assert forall|j: int| 0 <= j < s2.pages.len() implies page_ok(
                        #[trigger] s2.pages[j],
                        s2.clock,
                        cfg.global_cooling_threshold,
                        s2.mems.len(),
                    ) by {
                        lemma_page_ok_caught_up(
                            s0.pages[j],
                            s0.clock,
                            cfg.global_cooling_threshold,
                            s0.mems.len(),
                        );
                    }
                    assert forall|t: int| 0 <= t < s2.mems.len() implies (
                    #[trigger] s2.mems[t]).page_len == tier_count(s2.pages, t) by {
                        crate::page_table::lemma_tier_count_catch_up(s0.pages, s0.clock, t);
                    }
                    assert forall|j: int| 0 <= j < s2.pages.len() implies (
                    #[trigger] s2.pages[j]).clock_tick == s2.clock by {
                        lemma_caught_up_facts(s0.pages[j], s0.clock);
                    }
                }
                let mut m: usize = k;
                while m > dst_usize
                    invariant
                        self.wf(),
                        self.spec_config() == cfg,
                        dst_usize <= m <= k < n,
                        n == self.st().mems.len(),
                        self.st() == spec_evict_chain(s_cs, cur_time, m as int, k as int),
                        self.st().clock == s_cs.clock,
                        self.st().accesses == s_cs.accesses,
                        self.st().pages.len() == s_cs.pages.len(),
                        forall|j: int|
                            0 <= j < s_cs.pages.len() ==> (#[trigger] self.st().pages[j]).ptr
                                == s_cs.pages[j].ptr,
                        forall|j: int|
                            0 <= j < self.st().pages.len() ==> (
                            #[trigger] self.st().pages[j]).clock_tick == self.st().clock,
                        forall|t: int|
                            dst_usize <= t < m ==> (#[trigger] self.st().mems[t]).page_len
                                == self.st().mems[t].page_capacity && self.st().mems[t].page_len
                                > 0,
                        self.st().mems[m as int].page_len < self.st().mems[m as int].page_capacity,
                    decreases m,
                {
                    let mm = m - 1;
                    let ghost s_a = self.st();
                    proof {
                        lemma_temps_ok(s_a, cfg);
                    }
                    let sel = self.page_table.coldest_pages(MemIdx::new(mm), 1);
                    proof {
                        crate::page_table::lemma_catch_up_seq_identity(s_a.pages, s_a.clock);
                        assert(self.st() == s_a);
                        assert(tier_count(s_a.pages, mm as int) == s_a.mems[mm as int].page_len);
                        assert(sel@.len() == 1);
                    }
                    let q = sel[0];
                    proof {
                        assert(crate::page_table::ptrs_have_addr(sel@, s_a.pages[idx_of(
                            s_a.pages,
                            q@,
                        )].ptr@));
                        assert forall|jj: int|
                            0 <= jj < s_a.pages.len() && (#[trigger] s_a.pages[jj]).mem_idx@
                                == mm as int && s_a.pages[jj].ptr@ != q@ implies key_le(
                            key_of_addr(s_a.pages, q@),
                            spec_key(s_a.pages[jj]),
                        ) by {
                            if crate::page_table::ptrs_have_addr(sel@, s_a.pages[jj].ptr@) {
                                assert(sel@[0]@ == s_a.pages[jj].ptr@);
                            }
                        }
                        lemma_coldest_singleton(s_a.pages, mm as int, q@);
                        assert(q@ == coldest_addr(s_a.pages, mm as int));
                    }
                    let ghost s_b = self.st();
                    let ghost seq_b = self.statistics.spec_migrations();
                    let ghost iq = idx_of(s_b.pages, q@);
                    proof {
                        lemma_idx_of(s_b.pages, q@);
                        assert(s_b.pages[iq].mem_idx@ == mm as int);
                    }
                    let to_idx = MemIdx::new(m);
                    match self.memories.migrate_page(MemIdx::new(mm), to_idx) {
                        Ok(()) => {},
                        Err(_) => {
                            proof {
                                assert(false);
                            }
                        },
                    }
                    self.page_table.move_mem(q, to_idx);
                    self.statistics.register_page_migration(q, cur_time, to_idx);
                    proof {
                        crate::page_table::lemma_caught_up_identity(s_b.pages[iq], s_b.clock);
                        lemma_histories_agree(seq_b, q@);
                        crate::memories::lemma_mem_idx_view(m as int);
                        crate::memories::lemma_mem_idx_eq(to_idx, spec_mem_idx(m as int));
                        assert(self.st().pages =~= spec_move(
                            s_b,
                            cur_time,
                            q@,
                            spec_mem_idx(m as int),
                        ).pages);
                        assert(self.st().mems =~= spec_move(
                            s_b,
                            cur_time,
                            q@,
                            spec_mem_idx(m as int),
                        ).mems);
                        assert(self.st().migrations =~= spec_move(
                            s_b,
                            cur_time,
                            q@,
                            spec_mem_idx(m as int),
                        ).migrations);
                        assert(self.st() =~= spec_move(s_b, cur_time, q@, spec_mem_idx(m as int)));
                        lemma_evict_chain_peel(s_cs, cur_time, mm as int, k as int);
                        assert(self.st() == spec_evict_chain(s_cs, cur_time, mm as int, k as int));
                        lemma_move_preserves_inv(s_b, cfg, cur_time, q@, spec_mem_idx(m as int));
                    }
                    m = mm;
                }
                // the cascade freed one slot in the destination; move the
                // page there from wherever it now resides
                let ghost s_ch = self.st();
                let ghost seq_ch = self.statistics.spec_migrations();
                proof {
                    lemma_caught_up_facts(s0.pages[i0], s0.clock);
                    assert(s_cs.pages[i0].ptr == s0.pages[i0].ptr);
                    assert(s_ch.pages[i0].ptr@ == page_ptr@);
                    assert(has_ptr(s_ch.pages, page_ptr@));
                }
                let page2 = match self.page_table.get_mut(page_ptr) {
                    Some(p) => p,
                    None => {
                        proof {
                            assert(false);
                        }
                        Page::new(page_ptr, dst_mem_idx)
                    },
                };
                let src2 = page2.mem_idx();
                let ghost ip = idx_of(s_ch.pages, page_ptr@);
                proof {
                    lemma_idx_of(s_ch.pages, page_ptr@);
                    crate::page_table::lemma_caught_up_identity(s_ch.pages[ip], s_ch.clock);
                    assert(s_ch.pages.update(ip, caught_up(s_ch.pages[ip], s_ch.clock))
                        =~= s_ch.pages);
                    assert(self.st() == s_ch);
                    // the page's tier is not empty
                    crate::page_table::lemma_tier_keys_facts(s_ch.pages, src2@ as int);
                    assert(crate::page_table::tier_keys(s_ch.pages, src2@ as int).contains(
                        spec_key(s_ch.pages[ip]),
                    ));
                    assert(s_ch.mems[src2@ as int].page_len > 0);
                    assert(self.st().mems == s_ch.mems);
                    assert(s_ch.mems[dst_mem_idx@ as int].page_len < s_ch.mems[dst_mem_idx@ as int].page_capacity);
                }
                match self.memories.migrate_page(src2, dst_mem_idx) {
                    Ok(()) => {},
                    Err(_) => {
                        proof {
                            assert(false);
                        }
                    },
                }
                self.page_table.move_mem(page_ptr, dst_mem_idx);
                self.statistics.register_page_migration(page_ptr, cur_time, dst_mem_idx);
                proof {
                    lemma_histories_agree(seq_ch, page_ptr@);
                    assert(self.st().pages =~= spec_move(
                        s_ch,
                        cur_time,
                        page_ptr@,
                        dst_mem_idx,
                    ).pages);
                    assert(self.st().mems =~= spec_move(s_ch, cur_time, page_ptr@, dst_mem_idx).mems);
                    assert(self.st().migrations =~= spec_move(
                        s_ch,
                        cur_time,
                        page_ptr@,
                        dst_mem_idx,
                    ).migrations);
                    assert(self.st() =~= spec_move(s_ch, cur_time, page_ptr@, dst_mem_idx));
                    lemma_move_preserves_inv(s_ch, cfg, cur_time, page_ptr@, dst_mem_idx);
                    assert(self.st() == spec_migrate_page(s0, cur_time, page_ptr@, dst_mem_idx).0);
                }
                Ok(())
            },
        }
    }

    /// Cools a page: catches it up and migrates it one tier slower. Fails
    /// when it already resides in the slowest tier, or when the slower tier
    /// cannot take it.
    pub fn cool_page(&mut self, cur_time: u64, page_ptr: PagePtr) -> (r: Result<(), HeMemError>)
        requires
            old(self).wf(),
            has_ptr(old(self).st().pages, page_ptr@),
        ensures
            final(self).wf(),
            final(self).spec_config() == old(self).spec_config(),
            final(self).st() == spec_cool_page(old(self).st(), cur_time, page_ptr@).0,
            r == spec_cool_page(old(self).st(), cur_time, page_ptr@).1,
            final(self).st().clock == old(self).st().clock,
            final(self).st().accesses == old(self).st().accesses,
            final(self).st().pages.len() == old(self).st().pages.len(),
            final(self).st().mems.len() == old(self).st().mems.len(),
            forall|j: int|
                0 <= j < old(self).st().pages.len() ==> (#[trigger] final(self).st().pages[j]).ptr
                    == old(self).st().pages[j].ptr,
            forall|j: int|
                0 <= j < final(self).st().pages.len() ==> (#[trigger] final(self).st().pages[j]).clock_tick
                    == old(self).st().pages[j].clock_tick || final(self).st().pages[j].clock_tick
                    == old(self).st().clock,
    {
        let ghost s0 = self.st();
        let ghost i0 = idx_of(s0.pages, page_ptr@);
        proof {
            lemma_idx_of(s0.pages, page_ptr@);
        }
        let page = match self.page_table.get_mut(page_ptr) {
            Some(p) => p,
            None => {
                proof {
                    assert(false);
                }
                Page::new(page_ptr, MemIdx::new(0))
            },
        };
        let mem_idx = page.mem_idx();
        proof {
            lemma_caught_up_facts(s0.pages[i0], s0.clock);
            lemma_lookup_preserves_inv(s0, self.spec_config(), i0);
            assert(self.st().pages[i0].ptr@ == page_ptr@);
            assert(has_ptr(self.st().pages, page_ptr@));
        }
        match self.memories.slower_memory(mem_idx) {
            None => Err(HeMemError::AlreadySlowest),
            Some(dst) => {
                proof {
                    crate::memories::lemma_mem_idx_view(mem_idx@ + 1);
                    crate::memories::lemma_mem_idx_eq(dst, spec_mem_idx(mem_idx@ + 1));
                }
                self.migrate_page(cur_time, page_ptr, dst)
            },
        }
    }

    /// Warms a page: catches it up and migrates it one tier faster. Fails
    /// when it already resides in the fastest tier, or when the faster tier
    /// cannot take it.
    pub fn warm_page(&mut self, cur_time: u64, page_ptr: PagePtr) -> (r: Result<(), HeMemError>)
        requires
            old(self).wf(),
            has_ptr(old(self).st().pages, page_ptr@),
        ensures
            final(self).wf(),
            final(self).spec_config() == old(self).spec_config(),
            final(self).st() == spec_warm_page(old(self).st(), cur_time, page_ptr@).0,
            r == spec_warm_page(old(self).st(), cur_time, page_ptr@).1,
            final(self).st().clock == old(self).st().clock,
            final(self).st().accesses == old(self).st().accesses,
            final(self).st().pages.len() == old(self).st().pages.len(),
            final(self).st().mems.len() == old(self).st().mems.len(),
            forall|j: int|
                0 <= j < old(self).st().pages.len() ==> (#[trigger] final(self).st().pages[j]).ptr
                    == old(self).st().pages[j].ptr,
            forall|j: int|
                0 <= j < final(self).st().pages.len() ==> (#[trigger] final(self).st().pages[j]).clock_tick
                    == old(self).st().pages[j].clock_tick || final(self).st().pages[j].clock_tick
                    == old(self).st().clock,
    {
        let ghost s0 = self.st();
        let ghost i0 = idx_of(s0.pages, page_ptr@);
        proof {
            lemma_idx_of(s0.pages, page_ptr@);
        }
        let page = match self.page_table.get_mut(page_ptr) {
            Some(p) => p,
            None => {
                proof {
                    assert(false);
                }
                Page::new(page_ptr, MemIdx::new(0))
            },
        };
        let mem_idx = page.mem_idx();
        proof {
            lemma_caught_up_facts(s0.pages[i0], s0.clock);
            lemma_lookup_preserves_inv(s0, self.spec_config(), i0);
            assert(self.st().pages[i0].ptr@ == page_ptr@);
            assert(has_ptr(self.st().pages, page_ptr@));
        }
        match self.memories.faster_memory(mem_idx) {
            None => Err(HeMemError::AlreadyFastest),
            Some(dst) => {
                proof {
                    crate::memories::lemma_mem_idx_view(mem_idx@ - 1);
                    crate::memories::lemma_mem_idx_eq(dst, spec_mem_idx(mem_idx@ - 1));
                }
                self.migrate_page(cur_time, page_ptr, dst)
            },
        }
    }

    /// Handles one trace record: maps the page if absent, counts the
    /// access with lazy cooling, triggers a global cooling when a counter
    /// reaches the threshold, migrates the page one tier on a hot/cold
    /// transition, and journals the access. Fails only when a fresh page
    /// finds every tier full, leaving the classifier unchanged.
    #[verifier::rlimit(100)]
    pub fn handle_trace(&mut self, trace: Trace) -> (r: Result<(), HeMemError>)
        requires
            old(self).wf(),
            old(self).st().clock < u64::MAX,
        ensures
            final(self).wf(),
            final(self).spec_config() == old(self).spec_config(),
            final(self).st() == spec_handle(old(self).st(), old(self).spec_config(), trace.record).0,
            r == spec_handle(old(self).st(), old(self).spec_config(), trace.record).1,
            final(self).st().clock <= old(self).st().clock + 1,
    {
        let ghost s = self.st();
        let ghost cfg = self.spec_config();
        let rec = trace.record;
        let page_ptr = PagePtr::new(rec.addr);
        let ghost addr = rec.addr & !0xfffu64;
        proof {
            assert(page_ptr@ == addr);
        }
        let ghost existed = has_ptr(s.pages, addr);
        let ghost i0 = if existed {
            idx_of(s.pages, addr)
        } else {
            0int
        };
        // look the page up, catching it up, to learn its prior residency
        let prev = self.page_table.get_mut(page_ptr);
        let page_prev_mem_idx = match prev {
            Some(p) => Some(p.mem_idx()),
            None => None,
        };
        proof {
            if existed {
                lemma_idx_of(s.pages, addr);
                lemma_caught_up_facts(s.pages[i0], s.clock);
                lemma_lookup_preserves_inv(s, cfg, i0);
            }
        }
        // map the page if it is not mapped yet
        if page_prev_mem_idx.is_none() {
            proof {
                assert(self.st() == s);
                lemma_first_free_tier_bounds(s.mems, 0);
            }
            match self.map_page(page_ptr) {
                Ok(mem_idx) => {
                    let ghost seq_m = self.statistics.spec_migrations();
                    self.statistics.register_page_migration(page_ptr, rec.time, mem_idx);
                    proof {
                        let k = first_free_tier(s.mems, 0);
                        lemma_histories_agree(seq_m, addr);
                        assert(mig_map(seq_m) == s.migrations);
                        lemma_page_ptr_view(addr);
                        lemma_page_ptr_eq(page_ptr, spec_page_ptr(addr));
                        assert(self.st() =~= spec_map_new_page(s, rec.time, addr, k));
                    }
                },
                Err(e) => {
                    proof {
                        assert(first_free_tier(s.mems, 0) == -1);
                        assert(self.st() == s);
                    }
                    return Err(e);
                },
            }
        }
        let ghost s_b = if existed {
            SimState { pages: s.pages.update(i0, caught_up(s.pages[i0], s.clock)), ..s }
        } else {
            spec_map_new_page(s, rec.time, addr, first_free_tier(s.mems, 0))
        };
        let ghost i = idx_of(s_b.pages, addr);
        proof {
            assert(self.st() == s_b);
            assert(self.wf());
            if existed {
                lemma_idx_of_unique(s_b.pages, addr, i0);
            } else {
                lemma_page_ptr_view(addr);
                lemma_idx_of_unique(s_b.pages, addr, s.pages.len() as int);
            }
            assert(s_b.pages[i].clock_tick == s_b.clock);
            crate::page_table::lemma_caught_up_identity(s_b.pages[i], s_b.clock);
            assert(s_b.pages.update(i, caught_up(s_b.pages[i], s_b.clock)) =~= s_b.pages);
        }
        let rt = self.config.read_hot_threshold;
        let wt = self.config.write_hot_threshold;
        let gct = self.config.global_cooling_threshold;
        // snapshot the page's pre-access hotness and temperature
        let page0 = match self.page_table.get_mut(page_ptr) {
            Some(p) => p,
            None => {
                proof {
                    assert(false);
                }
                Page::new(page_ptr, MemIdx::new(0))
            },
        };
        proof {
            assert(self.st() == s_b);
            assert(page0 == s_b.pages[i]);
            // the caught-up counters are at or under the threshold
            assert(page0.read_accesses <= gct && page0.write_accesses <= gct);
            assert(spec_temperature(page0) <= u64::MAX);
        }
        let was_hot = page0.is_hot(rt, wt);
        let prev_temp = page0.temperature();
        // count the access
        let mut page1 = page0;
        match rec.kind {
            RecordAccessKind::Read => page1.register_read_access(),
            RecordAccessKind::Write => page1.register_write_access(),
        }
        self.page_table.update_page(page1);
        let ghost s_c = SimState { pages: s_b.pages.update(i, page1), ..s_b };
        proof {
            assert(self.st() == s_c);
        }
        // a counter at the threshold triggers a global cooling event
        let caused_cooling = page1.over_threshold(gct);
        if caused_cooling {
            self.page_table.cool_all_pages();
        }
        let ghost s_d = if caused_cooling {
            SimState { clock: (s_c.clock + 1) as u64, ..s_c }
        } else {
            s_c
        };
        proof {
            assert(self.st() == s_d);
            lemma_idx_of_unique(s_d.pages, addr, i);
        }
        // re-check hotness on the caught-up counters
        let page2 = match self.page_table.get_mut(page_ptr) {
            Some(p) => p,
            None => {
                proof {
                    assert(false);
                }
                Page::new(page_ptr, MemIdx::new(0))
            },
        };
        let ghost p2 = caught_up(page1, s_d.clock);
        let ghost s_e = SimState { pages: s_d.pages.update(i, p2), ..s_d };
        proof {
            assert(page2 == p2);
            assert(self.st().pages =~= s_e.pages);
            assert(self.st() == s_e);
            // the invariant holds again: the accessed page is back at or
            // under the threshold, every other page is merely one tick
            // further behind the clock
            lemma_page_ok_caught_up(page1, s_d.clock, gct, s_d.mems.len());
            if !caused_cooling {
                crate::page_table::lemma_caught_up_identity(page1, s_d.clock);
            }
            assert forall|j: int| 0 <= j < s_e.pages.len() implies page_ok(
                #[trigger] s_e.pages[j],
                s_e.clock,
                gct,
                s_e.mems.len(),
            ) by {
                if j != i {
                    assert(s_e.pages[j] == s_b.pages[j]);
                }
            }
            assert forall|t: int| 0 <= t < s_e.mems.len() implies (
            #[trigger] s_e.mems[t]).page_len == tier_count(s_e.pages, t) by {
                lemma_tier_count_update(s_b.pages, i, page1, t);
                lemma_tier_count_update(s_c.pages, i, p2, t);
            }
            assert(sim_inv(s_e, cfg));
            assert(self.wf());
            assert(spec_temperature(p2) <= u64::MAX);
            assert(s_e.pages[i].ptr@ == addr);
            assert(has_ptr(s_e.pages, addr));
        }
        let is_hot2 = page2.is_hot(rt, wt);
        let cur_mem = page2.mem_idx();
        let cur_temp = page2.temperature();
        // migrate one tier on a hot/cold transition; failures are benign
        if was_hot && !is_hot2 {
            let _ = self.cool_page(rec.time, page_ptr);
        } else if !was_hot && is_hot2 {
            let _ = self.warm_page(rec.time, page_ptr);
        }
        let ghost s_f = self.st();
        // journal the access
        let kind = match rec.kind {
            RecordAccessKind::Read => AccessKind::Read,
            RecordAccessKind::Write => AccessKind::Write,
        };
        let mem = match page_prev_mem_idx {
            Some(m) => AccessMem::Resided(m),
            None => AccessMem::Mapped(cur_mem),
        };
        let access = Access {
            time: rec.time,
            page_ptr,
            kind,
            mem,
            prev_temperature: prev_temp,
            cur_temperature: cur_temp,
            caused_cooling,
        };
        self.statistics.register_access(access);
        proof {
            if existed {
                assert(page_prev_mem_idx == Some(s.pages[i0].mem_idx));
            }
            lemma_page_ptr_view(addr);
            lemma_page_ptr_eq(page_ptr, spec_page_ptr(addr));
            assert(self.st() =~= spec_handle(s, cfg, rec).0);
        }
        Ok(())
    }

    /// Cools a tier by up to `count` pages: after catching every page up,
    /// each round picks the tier's coldest page and migrates it one tier
    /// slower; a page whose move fails stays put. Returns how many moved.
    pub fn cool_memory(&mut self, cur_time: u64, mem_idx: MemIdx, count: usize) -> (r: usize)
        requires
            old(self).wf(),
            mem_idx@ < old(self).st().mems.len(),
        ensures
            final(self).wf(),
            final(self).spec_config() == old(self).spec_config(),
            final(self).st().clock == old(self).st().clock,
            final(self).st().accesses == old(self).st().accesses,
            r <= count,
            ({
                let s_cs = SimState {
                    pages: catch_up_seq(old(self).st().pages, old(self).st().clock),
                    ..old(self).st()
                };
                let rounds = spec_cool_rounds(s_cs, cur_time, mem_idx@ as int, count as nat);
                final(self).st() == rounds.0 && r == rounds.1
            }),
    {
        let ghost s0 = self.st();
        let ghost cfg = self.spec_config();
        let ghost t = mem_idx@ as int;
        self.page_table.catch_up_pages();
        let ghost s_cs = self.st();
        proof {
            lemma_catch_up_preserves_inv(s0, cfg);
            assert(s_cs == (SimState { pages: catch_up_seq(s0.pages, s0.clock), ..s0 }));
            assert forall|j: int| 0 <= j < s_cs.pages.len() implies (
            #[trigger] s_cs.pages[j]).clock_tick == s_cs.clock by {
                lemma_caught_up_facts(s0.pages[j], s0.clock);
            }
        }
        let mut cooled: usize = 0;
        let mut i: usize = 0;
        while i < count
            invariant
                self.wf(),
                self.spec_config() == cfg,
                t == mem_idx@ as int,
                mem_idx@ < self.st().mems.len(),
                0 <= i <= count,
                cooled <= i,
                self.st().clock == s_cs.clock,
                self.st().accesses == s_cs.accesses,
                forall|j: int|
                    0 <= j < self.st().pages.len() ==> (#[trigger] self.st().pages[j]).clock_tick
                        == self.st().clock,
                spec_cool_rounds(s_cs, cur_time, t, count as nat).0 == spec_cool_rounds(
                    self.st(),
                    cur_time,
                    t,
                    (count - i) as nat,
                ).0,
                spec_cool_rounds(s_cs, cur_time, t, count as nat).1 == cooled + spec_cool_rounds(
                    self.st(),
                    cur_time,
                    t,
                    (count - i) as nat,
                ).1,
            decreases count - i,
        {
            let ghost s_it = self.st();
            proof {
                lemma_temps_ok(s_it, cfg);
            }
            let sel = self.page_table.coldest_pages(mem_idx, 1);
            proof {
                crate::page_table::lemma_catch_up_seq_identity(s_it.pages, s_it.clock);
                assert(self.st() == s_it);
            }
            if sel.len() == 0 {
                proof {
                    assert(tier_count(s_it.pages, t) == 0);
                    assert(spec_cool_rounds(s_it, cur_time, t, (count - i) as nat).0 == s_it);
                }
                i = count;
            } else {
                let q = sel[0];
                proof {
                    assert(tier_count(s_it.pages, t) > 0);
                    assert forall|jj: int|
                        0 <= jj < s_it.pages.len() && (#[trigger] s_it.pages[jj]).mem_idx@ == t
                            && s_it.pages[jj].ptr@ != q@ implies key_le(
                        key_of_addr(s_it.pages, q@),
                        spec_key(s_it.pages[jj]),
                    ) by {
                        if crate::page_table::ptrs_have_addr(sel@, s_it.pages[jj].ptr@) {
                            assert(sel@[0]@ == s_it.pages[jj].ptr@);
                        }
                    }
                    lemma_coldest_singleton(s_it.pages, t, q@);
                    assert(q@ == coldest_addr(s_it.pages, t));
                }
                let res = self.cool_page(cur_time, q);
                if res.is_ok() {
                    cooled = cooled + 1;
                }
                proof {
                    assert(self.st() == spec_cool_page(s_it, cur_time, q@).0);
                }
                i = i + 1;
            }
        }
        cooled
    }
}

} // verus!
