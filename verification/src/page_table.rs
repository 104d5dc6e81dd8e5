//! Page table with lazy global cooling.
//!
//! Every page carries two adjusted access counters and the cooling-clock
//! value they are current to. A global cooling event only increments the
//! table's clock; a page is caught up (its counters halved once per missed
//! tick) whenever it is next touched.

use vstd::prelude::*;
use crate::memories::MemIdx;

verus! {

/// Low 12 bits of an address, cleared by page alignment.
pub const PAGE_MASK: u64 = 0xfff;

/// Number of bits of an access counter; shifts are clamped to one less.
pub const COUNTER_BITS: u64 = 64;

/// A 64-bit page-aligned address.
#[derive(Clone, Copy, Debug, PartialEq, Eq, Structural, Hash)]
pub struct PagePtr(u64);

impl View for PagePtr {
    type V = u64;

    closed spec fn view(&self) -> u64 {
        self.0
    }
}

/// The page pointer with address `a`, for use in specifications.
pub closed spec fn spec_page_ptr(a: u64) -> PagePtr {
    PagePtr(a)
}

/// `spec_page_ptr` inverts the view.
pub proof fn lemma_page_ptr_view(a: u64)
    ensures
        spec_page_ptr(a)@ == a,
{
}

/// Two page pointers with the same view are the same pointer.
pub proof fn lemma_page_ptr_eq(p: PagePtr, q: PagePtr)
    requires
        p@ == q@,
    ensures
        p == q,
{
}

/// Whether an address has its low 12 bits clear.
pub open spec fn page_aligned(addr: u64) -> bool {
    addr & PAGE_MASK == 0
}

impl PagePtr {
    /// Creates a page pointer from any 64-bit value, clearing the low 12 bits.
    pub fn new(page: u64) -> (r: PagePtr)
        ensures
            r@ == page & !PAGE_MASK,
            page_aligned(r@),
    {
        proof {
            assert((page & !0xfffu64) & 0xfffu64 == 0) by (bit_vector);
        }
        PagePtr(page & !PAGE_MASK)
    }

    /// Returns the page pointer as a `u64`.
    pub fn to_u64(self) -> (r: u64)
        ensures
            r == self@,
    {
        self.0
    }
}

/// Per-page residency and heat record.
#[derive(Clone, Copy, Debug, PartialEq, Eq, Structural)]
pub struct Page {
    /// Page-aligned address; the page's identity.
    pub ptr: PagePtr,
    /// Tier the page currently resides in.
    pub mem_idx: MemIdx,
    /// Adjusted read counter, current to `clock_tick`.
    pub read_accesses: u64,
    /// Adjusted write counter, current to `clock_tick`.
    pub write_accesses: u64,
    /// Cooling-clock value the counters are current to.
    pub clock_tick: u64,
}

/// An access counter after `delta` missed cooling ticks: halved once per
/// tick, with the shift clamped to the counter width less one.
pub open spec fn cooled_counter(c: u64, delta: u64) -> u64 {
    if delta < COUNTER_BITS - 1 {
        c >> delta
    } else {
        c >> (COUNTER_BITS - 1) as u64
    }
}

/// A page caught up to `clock`: both counters cooled by the missed ticks.
pub open spec fn caught_up(p: Page, clock: u64) -> Page
    recommends
        p.clock_tick <= clock,
{
    Page {
        read_accesses: cooled_counter(p.read_accesses, (clock - p.clock_tick) as u64),
        write_accesses: cooled_counter(p.write_accesses, (clock - p.clock_tick) as u64),
        clock_tick: clock,
        ..p
    }
}

/// Scalar ranking of a page's heat: reads count once, writes twice.
pub open spec fn spec_temperature(p: Page) -> int {
    p.read_accesses + 2 * p.write_accesses
}

/// A page is hot when either adjusted counter meets its threshold.
pub open spec fn spec_is_hot(p: Page, read_hot_threshold: u64, write_hot_threshold: u64) -> bool {
    p.read_accesses >= read_hot_threshold || p.write_accesses >= write_hot_threshold
}

/// Cooling never increases a counter, and one missed tick at least halves it.
pub proof fn lemma_cooled_counter_bounds(c: u64, delta: u64)
    ensures
        cooled_counter(c, delta) <= c,
        delta >= 1 ==> cooled_counter(c, delta) <= c / 2,
{
    assert(c >> delta <= c) by (bit_vector);
    assert(c >> 63u64 <= c) by (bit_vector);
    assert(1u64 <= delta < 63u64 ==> c >> delta <= c / 2) by (bit_vector);
    assert(c >> 63u64 <= c / 2) by (bit_vector);
}

impl Page {
    /// Creates a freshly mapped page with zeroed counters.
    pub fn new(ptr: PagePtr, mem_idx: MemIdx) -> (r: Page)
        ensures
            r == (Page {
                ptr,
                mem_idx,
                read_accesses: 0u64,
                write_accesses: 0u64,
                clock_tick: 0u64,
            }),
    {
        Page { ptr, mem_idx, read_accesses: 0, write_accesses: 0, clock_tick: 0 }
    }

    /// Returns the tier this page resides in.
    pub fn mem_idx(&self) -> (r: MemIdx)
        ensures
            r == self.mem_idx,
    {
        self.mem_idx
    }

    /// Moves this page to `mem_idx`.
    pub fn move_mem(&mut self, mem_idx: MemIdx)
        ensures
            *final(self) == (Page { mem_idx, ..*old(self) }),
    {
        self.mem_idx = mem_idx;
    }

    /// Registers a read access on the adjusted counter.
    pub fn register_read_access(&mut self)
        requires
            old(self).read_accesses < u64::MAX,
        ensures
            *final(self) == (Page {
                read_accesses: (old(self).read_accesses + 1) as u64,
                ..*old(self)
            }),
    {
        self.read_accesses = self.read_accesses + 1;
    }

    /// Registers a write access on the adjusted counter.
    pub fn register_write_access(&mut self)
        requires
            old(self).write_accesses < u64::MAX,
        ensures
            *final(self) == (Page {
                write_accesses: (old(self).write_accesses + 1) as u64,
                ..*old(self)
            }),
    {
        self.write_accesses = self.write_accesses + 1;
    }

    /// Returns whether this page is hot.
    pub fn is_hot(&self, read_hot_threshold: u64, write_hot_threshold: u64) -> (r: bool)
        ensures
            r == spec_is_hot(*self, read_hot_threshold, write_hot_threshold),
    {
        self.read_accesses >= read_hot_threshold || self.write_accesses >= write_hot_threshold
    }

    /// Returns this page's temperature.
    pub fn temperature(&self) -> (r: u64)
        requires
            spec_temperature(*self) <= u64::MAX,
        ensures
            r == spec_temperature(*self),
    {
        self.read_accesses + 2 * self.write_accesses
    }

    /// Returns whether either adjusted counter is at or over `threshold`.
    pub fn over_threshold(&self, threshold: u64) -> (r: bool)
        ensures
            r == (self.read_accesses >= threshold || self.write_accesses >= threshold),
    {
        self.read_accesses >= threshold || self.write_accesses >= threshold
    }

    /// Catches this page up to the global cooling clock, halving both
    /// counters once per missed tick.
    pub fn cool_accesses(&mut self, global_clock: u64)
        requires
            old(self).clock_tick <= global_clock,
        ensures
            *final(self) == caught_up(*old(self), global_clock),
    {
        let delta = global_clock - self.clock_tick;
        let offset: u64 = if delta < COUNTER_BITS - 1 {
            delta
        } else {
            COUNTER_BITS - 1
        };
        self.read_accesses = self.read_accesses >> offset;
        self.write_accesses = self.write_accesses >> offset;
        self.clock_tick = global_clock;
    }
}

/// Catching a page up keeps its identity and residency, sets its tick to the
/// clock, and never raises its temperature.
pub proof fn lemma_caught_up_facts(p: Page, clock: u64)
    ensures
        caught_up(p, clock).ptr == p.ptr,
        caught_up(p, clock).mem_idx == p.mem_idx,
        caught_up(p, clock).clock_tick == clock,
        spec_temperature(caught_up(p, clock)) <= spec_temperature(p),
        caught_up(p, clock).read_accesses <= p.read_accesses,
        caught_up(p, clock).write_accesses <= p.write_accesses,
{
    let delta = (clock - p.clock_tick) as u64;
    lemma_cooled_counter_bounds(p.read_accesses, delta);
    lemma_cooled_counter_bounds(p.write_accesses, delta);
}

/// Why a page could not be inserted into the page table.
#[derive(Clone, Copy, Debug, PartialEq, Eq, Structural)]
pub enum PageTableError {
    /// A page with the same pointer is already mapped.
    AlreadyMapped,
}

/// Whether some page in `s` has address `addr`.
pub open spec fn has_ptr(s: Seq<Page>, addr: u64) -> bool {
    exists|i: int| 0 <= i < s.len() && (#[trigger] s[i]).ptr@ == addr
}

/// The index of the page with address `addr` in `s`.
pub open spec fn idx_of(s: Seq<Page>, addr: u64) -> int {
    choose|i: int| 0 <= i < s.len() && (#[trigger] s[i]).ptr@ == addr
}

/// No two pages in `s` share an address.
pub open spec fn unique_ptrs(s: Seq<Page>) -> bool {
    forall|i: int, j: int|
        0 <= i < j < s.len() ==> (#[trigger] s[i]).ptr@ != (#[trigger] s[j]).ptr@
}

/// Every page in `s` caught up to `clock`.
pub open spec fn catch_up_seq(s: Seq<Page>, clock: u64) -> Seq<Page> {
    s.map_values(|p: Page| caught_up(p, clock))
}

/// When `addr` is present, `idx_of` names a position holding it.
pub proof fn lemma_idx_of(s: Seq<Page>, addr: u64)
    requires
        has_ptr(s, addr),
    ensures
        0 <= idx_of(s, addr) < s.len(),
        s[idx_of(s, addr)].ptr@ == addr,
{
}

/// With unique addresses, `idx_of` is the only position holding `addr`.
pub proof fn lemma_idx_of_unique(s: Seq<Page>, addr: u64, i: int)
    requires
        unique_ptrs(s),
        0 <= i < s.len(),
        s[i].ptr@ == addr,
    ensures
        has_ptr(s, addr),
        idx_of(s, addr) == i,
{
    assert(has_ptr(s, addr));
    let j = idx_of(s, addr);
    lemma_idx_of(s, addr);
    if i != j {
        if i < j {
            assert(s[i].ptr@ != s[j].ptr@);
        } else {
            assert(s[j].ptr@ != s[i].ptr@);
        }
    }
}

/// Ranking key of a page for coldest-first selection: temperature first,
/// page pointer as the tie-break.
pub open spec fn spec_key(p: Page) -> (u64, u64)
    recommends
        spec_temperature(p) <= u64::MAX,
{
    (spec_temperature(p) as u64, p.ptr@)
}

/// Ranking key of the page with address `addr` in `cs`.
pub open spec fn key_of_addr(cs: Seq<Page>, addr: u64) -> (u64, u64)
    recommends
        has_ptr(cs, addr),
{
    spec_key(cs[idx_of(cs, addr)])
}

/// Lexicographic order on ranking keys.
pub open spec fn key_le(a: (u64, u64), b: (u64, u64)) -> bool {
    a.0 < b.0 || (a.0 == b.0 && a.1 <= b.1)
}

/// Strict lexicographic order on ranking keys.
pub open spec fn key_lt(a: (u64, u64), b: (u64, u64)) -> bool {
    key_le(a, b) && a != b
}

/// Ranking keys of the pages of tier `tier`, in table order.
pub open spec fn tier_keys(s: Seq<Page>, tier: int) -> Seq<(u64, u64)>
    decreases s.len(),
{
    if s.len() == 0 {
        Seq::empty()
    } else {
        let rest = tier_keys(s.drop_last(), tier);
        if s.last().mem_idx@ == tier {
            rest.push(spec_key(s.last()))
        } else {
            rest
        }
    }
}

/// Number of pages of `s` residing in tier `tier`.
pub open spec fn tier_count(s: Seq<Page>, tier: int) -> nat {
    tier_keys(s, tier).len()
}

/// Whether some pointer in `r` has address `addr`.
pub open spec fn ptrs_have_addr(r: Seq<PagePtr>, addr: u64) -> bool {
    exists|a: int| 0 <= a < r.len() && (#[trigger] r[a])@ == addr
}

/// Appending a page grows its tier's population by one and no other's.
pub proof fn lemma_tier_count_push(s: Seq<Page>, p: Page, t: int)
    ensures
        tier_count(s.push(p), t) == tier_count(s, t) + if p.mem_idx@ == t {
            1int
        } else {
            0int
        },
{
    assert(s.push(p).drop_last() =~= s);
    assert(s.push(p).last() == p);
}

/// Replacing the page at `i` adjusts only the populations of the two tiers
/// involved.
pub proof fn lemma_tier_count_update(s: Seq<Page>, i: int, p: Page, t: int)
    requires
        0 <= i < s.len(),
    ensures
        tier_count(s.update(i, p), t) == tier_count(s, t) - (if s[i].mem_idx@ == t {
            1int
        } else {
            0int
        }) + (if p.mem_idx@ == t {
            1int
        } else {
            0int
        }),
    decreases s.len(),
{
    let s2 = s.update(i, p);
    if i == s.len() - 1 {
        assert(s2.drop_last() =~= s.drop_last());
        assert(s2.last() == p);
        assert(s.last() == s[i]);
    } else {
        assert(s2.drop_last() =~= s.drop_last().update(i, p));
        assert(s2.last() == s.last());
        lemma_tier_count_update(s.drop_last(), i, p, t);
    }
}

/// Catching every page up leaves each tier's population unchanged.
pub proof fn lemma_tier_count_catch_up(s: Seq<Page>, clock: u64, t: int)
    ensures
        tier_count(catch_up_seq(s, clock), t) == tier_count(s, t),
    decreases s.len(),
{
    let cs = catch_up_seq(s, clock);
    if s.len() > 0 {
        assert(cs.drop_last() =~= catch_up_seq(s.drop_last(), clock));
        assert(cs.last() == caught_up(s.last(), clock));
        lemma_tier_count_catch_up(s.drop_last(), clock, t);
    } else {
        assert(cs =~= Seq::<Page>::empty());
    }
}

/// The lowest key of a non-empty key sequence.
pub open spec fn min_key(ks: Seq<(u64, u64)>) -> (u64, u64)
    recommends
        ks.len() > 0,
    decreases ks.len(),
{
    if ks.len() <= 1 {
        ks[0]
    } else {
        let m = min_key(ks.drop_last());
        if key_le(m, ks.last()) {
            m
        } else {
            ks.last()
        }
    }
}

/// `min_key` names an element of the sequence no other element undercuts.
pub proof fn lemma_min_key(ks: Seq<(u64, u64)>)
    requires
        ks.len() > 0,
    ensures
        ks.contains(min_key(ks)),
        forall|j: int| 0 <= j < ks.len() ==> key_le(min_key(ks), #[trigger] ks[j]),
    decreases ks.len(),
{
    if ks.len() == 1 {
        assert(ks[0] == min_key(ks));
    } else {
        lemma_min_key(ks.drop_last());
        let m = min_key(ks.drop_last());
        assert(forall|j: int| 0 <= j < ks.len() - 1 ==> ks.drop_last()[j] == #[trigger] ks[j]);
        if key_le(m, ks.last()) {
            let j0 = choose|j0: int| 0 <= j0 < ks.drop_last().len() && ks.drop_last()[j0] == m;
            assert(ks[j0] == m);
        } else {
            assert(ks[ks.len() - 1] == min_key(ks));
            assert forall|j: int| 0 <= j < ks.len() implies key_le(
                min_key(ks),
                #[trigger] ks[j],
            ) by {
                if j < ks.len() - 1 {
                    assert(key_le(m, ks[j]));
                }
            }
        }
    }
}

/// The address of the coldest page of tier `t`: lowest temperature, lowest
/// address on a tie.
pub open spec fn coldest_addr(cs: Seq<Page>, t: int) -> u64
    recommends
        tier_count(cs, t) > 0,
{
    min_key(tier_keys(cs, t)).1
}

/// Catching up a page already at the clock changes nothing.
pub proof fn lemma_caught_up_identity(p: Page, clock: u64)
    requires
        p.clock_tick == clock,
    ensures
        caught_up(p, clock) == p,
{
    let r = p.read_accesses;
    let w = p.write_accesses;
    assert(r >> 0u64 == r) by (bit_vector);
    assert(w >> 0u64 == w) by (bit_vector);
}

/// Catching up a sequence whose pages are all at the clock changes nothing.
pub proof fn lemma_catch_up_seq_identity(s: Seq<Page>, clock: u64)
    requires
        forall|i: int| 0 <= i < s.len() ==> (#[trigger] s[i]).clock_tick == clock,
    ensures
        catch_up_seq(s, clock) == s,
{
    assert forall|i: int| 0 <= i < s.len() implies catch_up_seq(s, clock)[i] == s[i] by {
        lemma_caught_up_identity(s[i], clock);
    }
    assert(catch_up_seq(s, clock) =~= s);
}

/// Catching one page up early does not change the fully caught-up table.
pub proof fn lemma_catch_up_seq_absorb(s: Seq<Page>, i: int, clock: u64)
    requires
        0 <= i < s.len(),
        s[i].clock_tick <= clock,
    ensures
        catch_up_seq(s.update(i, caught_up(s[i], clock)), clock) == catch_up_seq(s, clock),
{
    let s2 = s.update(i, caught_up(s[i], clock));
    assert forall|j: int| 0 <= j < s.len() implies catch_up_seq(s2, clock)[j] == catch_up_seq(
        s,
        clock,
    )[j] by {
        if j == i {
            lemma_caught_up_identity(caught_up(s[i], clock), clock);
        }
    }
    assert(catch_up_seq(s2, clock) =~= catch_up_seq(s, clock));
}

/// A tier page whose key undercuts every other page of its tier is the
/// tier's coldest page.
pub proof fn lemma_coldest_singleton(cs: Seq<Page>, t: int, addr: u64)
    requires
        unique_ptrs(cs),
        has_ptr(cs, addr),
        cs[idx_of(cs, addr)].mem_idx@ == t,
        forall|i: int|
            0 <= i < cs.len() && (#[trigger] cs[i]).mem_idx@ == t && cs[i].ptr@ != addr
                ==> key_le(key_of_addr(cs, addr), spec_key(cs[i])),
    ensures
        addr == coldest_addr(cs, t),
        tier_count(cs, t) > 0,
{
    lemma_tier_keys_facts(cs, t);
    let i_a = idx_of(cs, addr);
    lemma_idx_of(cs, addr);
    assert(tier_keys(cs, t).contains(spec_key(cs[i_a])));
    assert(tier_keys(cs, t).len() > 0);
    lemma_min_key(tier_keys(cs, t));
    let mk = min_key(tier_keys(cs, t));
    let j0 = choose|j0: int| 0 <= j0 < tier_keys(cs, t).len() && tier_keys(cs, t)[j0] == mk;
    let i0 = choose|i0: int|
        0 <= i0 < cs.len() && tier_keys(cs, t)[j0] == spec_key(cs[i0]) && cs[i0].mem_idx@ == t;
    let ja = choose|ja: int|
        0 <= ja < tier_keys(cs, t).len() && tier_keys(cs, t)[ja] == spec_key(cs[i_a]);
    assert(key_le(mk, spec_key(cs[i_a])));
    if cs[i0].ptr@ != addr {
        assert(key_le(key_of_addr(cs, addr), spec_key(cs[i0])));
        assert(key_of_addr(cs, addr) == spec_key(cs[i_a]));
        assert(mk == spec_key(cs[i0]));
        assert(spec_key(cs[i_a]).1 == addr);
        assert(spec_key(cs[i0]).1 == cs[i0].ptr@);
        assert(mk == spec_key(cs[i_a]));
        assert(false);
    }
    assert(mk.1 == cs[i0].ptr@);
}

/// Every tier key comes from a tier page, every tier page contributes its
/// key, and with unique addresses the keys' addresses are pairwise distinct.
pub proof fn lemma_tier_keys_facts(s: Seq<Page>, tier: int)
    requires
        unique_ptrs(s),
    ensures
        forall|j: int|
            0 <= j < tier_keys(s, tier).len() ==> exists|i: int|
                0 <= i < s.len() && (#[trigger] tier_keys(s, tier)[j]) == spec_key(s[i])
                    && s[i].mem_idx@ == tier,
        forall|i: int|
            0 <= i < s.len() && (#[trigger] s[i]).mem_idx@ == tier ==> tier_keys(
                s,
                tier,
            ).contains(spec_key(s[i])),
        forall|j1: int, j2: int|
            0 <= j1 < j2 < tier_keys(s, tier).len() ==> (#[trigger] tier_keys(s, tier)[j1]).1 != (
            #[trigger] tier_keys(s, tier)[j2]).1,
    decreases s.len(),
{
    if s.len() > 0 {
        let pre = s.drop_last();
        assert(unique_ptrs(pre)) by {
            assert forall|i: int, j: int| 0 <= i < j < pre.len() implies (#[trigger] pre[i]).ptr@
                != (#[trigger] pre[j]).ptr@ by {
                assert(s[i].ptr@ != s[j].ptr@);
            }
        }
        lemma_tier_keys_facts(pre, tier);
        let keys = tier_keys(s, tier);
        let pkeys = tier_keys(pre, tier);
        // every key of the prefix is a key of some earlier page
        assert forall|j: int| 0 <= j < keys.len() implies exists|i: int|
            0 <= i < s.len() && (#[trigger] keys[j]) == spec_key(s[i]) && s[i].mem_idx@
                == tier by {
            if j < pkeys.len() {
                let i = choose|i: int|
                    0 <= i < pre.len() && pkeys[j] == spec_key(pre[i]) && pre[i].mem_idx@ == tier;
                assert(pre[i] == s[i]);
                assert(keys[j] == spec_key(s[i]) && s[i].mem_idx@ == tier);
            } else {
                let i = s.len() - 1;
                assert(keys[j] == spec_key(s[i]) && s[i].mem_idx@ == tier);
            }
        }
        // every tier page contributes its key
        assert forall|i: int|
            0 <= i < s.len() && (#[trigger] s[i]).mem_idx@ == tier implies keys.contains(
            spec_key(s[i]),
        ) by {
            if i < s.len() - 1 {
                assert(pre[i] == s[i]);
                assert(pkeys.contains(spec_key(pre[i])));
                let j = choose|j: int| 0 <= j < pkeys.len() && pkeys[j] == spec_key(pre[i]);
                assert(keys[j] == spec_key(s[i]));
            } else {
                if s.last().mem_idx@ == tier {
                    assert(keys[keys.len() - 1] == spec_key(s[i]));
                }
            }
        }
        // distinct addresses
        assert forall|j1: int, j2: int| 0 <= j1 < j2 < keys.len() implies (
        #[trigger] keys[j1]).1 != (#[trigger] keys[j2]).1 by {
            let i1 = choose|i: int|
                0 <= i < s.len() && keys[j1] == spec_key(s[i]) && s[i].mem_idx@ == tier;
            let i2 = choose|i: int|
                0 <= i < s.len() && keys[j2] == spec_key(s[i]) && s[i].mem_idx@ == tier;
            if j2 < pkeys.len() {
                assert(pkeys[j1].1 != pkeys[j2].1);
            } else if s.last().mem_idx@ == tier && j2 == keys.len() - 1 {
                // keys[j2] is the key of the last page; keys[j1] comes from
                // an earlier page, whose address differs
                let i = choose|i: int|
                    0 <= i < pre.len() && pkeys[j1] == spec_key(pre[i]) && pre[i].mem_idx@ == tier;
                assert(s[i].ptr@ != s[s.len() - 1].ptr@);
                assert(keys[j1].1 == s[i].ptr@);
            }
        }
    }
}

/// The page table: the primary store of all mapped pages, with the global
/// cooling clock that pages are lazily caught up to.
///
/// Per-tier residency is derived from the store itself — each page carries
/// its tier — so the store and the tiers' occupancy counts can never drift
/// apart; the memory tiers hold the counts.
pub struct PageTable {
    pages: Vec<Page>,
    global_clock: u64,
}

impl View for PageTable {
    type V = Seq<Page>;

    closed spec fn view(&self) -> Seq<Page> {
        self.pages@
    }
}

impl PageTable {
    /// The global cooling clock.
    pub closed spec fn clock(&self) -> u64 {
        self.global_clock
    }

    /// Addresses are unique and no page's tick runs ahead of the clock.
    pub open spec fn wf(&self) -> bool {
        &&& unique_ptrs(self@)
        &&& forall|i: int|
            0 <= i < self@.len() ==> (#[trigger] self@[i]).clock_tick <= self.clock()
    }

    /// Creates an empty page table with the clock at zero.
    pub fn new() -> (r: PageTable)
        ensures
            r@ == Seq::<Page>::empty(),
            r.clock() == 0,
            r.wf(),
    {
        let r = PageTable { pages: Vec::new(), global_clock: 0 };
        proof {
            assert(r@ =~= Seq::<Page>::empty());
        }
        r
    }

    /// Returns the current value of the global cooling clock.
    pub fn global_clock(&self) -> (r: u64)
        ensures
            r == self.clock(),
    {
        self.global_clock
    }

    /// Returns all pages, in insertion order.
    pub fn pages(&self) -> (r: &Vec<Page>)
        ensures
            r@ == self@,
    {
        &self.pages
    }

    /// Returns whether a page with this pointer is mapped.
    pub fn contains(&self, page_ptr: PagePtr) -> (r: bool)
        ensures
            r == has_ptr(self@, page_ptr@),
    {
        let n = self.pages.len();
        let addr = page_ptr.to_u64();
        let mut i: usize = 0;
        while i < n
            invariant
                n == self@.len(),
                addr == page_ptr@,
                0 <= i <= n,
                forall|k: int| 0 <= k < i ==> (#[trigger] self@[k]).ptr@ != addr,
            decreases n - i,
        {
            if self.pages[i].ptr.to_u64() == addr {
                return true;
            }
            i = i + 1;
        }
        false
    }

    /// Looks a page up by pointer; when mapped, the stored page is first
    /// caught up to the global clock and a copy of it is returned.
    pub fn get_mut(&mut self, page_ptr: PagePtr) -> (r: Option<Page>)
        requires
            old(self).wf(),
        ensures
            final(self).wf(),
            final(self).clock() == old(self).clock(),
            !has_ptr(old(self)@, page_ptr@) ==> (r is None) && final(self)@ == old(self)@,
            has_ptr(old(self)@, page_ptr@) ==> {
                let k = idx_of(old(self)@, page_ptr@);
                let p = caught_up(old(self)@[k], old(self).clock());
                r == Some(p) && final(self)@ == old(self)@.update(k, p)
            },
    {
        let clock = self.global_clock;
        let n = self.pages.len();
        let addr = page_ptr.to_u64();
        let mut i: usize = 0;
        while i < n
            invariant
                n == self@.len(),
                addr == page_ptr@,
                0 <= i <= n,
                self.wf(),
                self@ == old(self)@,
                self.clock() == old(self).clock(),
                clock == old(self).clock(),
                forall|k: int| 0 <= k < i ==> (#[trigger] self@[k]).ptr@ != addr,
            decreases n - i,
        {
            if self.pages[i].ptr.to_u64() == addr {
                proof {
                    lemma_idx_of_unique(self@, addr, i as int);
                }
                let page_ref = &mut self.pages[i];
                page_ref.cool_accesses(clock);
                let page = *page_ref;
                return Some(page);
            }
            i = i + 1;
        }
        None
    }

    /// Inserts a freshly mapped page, catching it up to the global clock.
    /// Fails when a page with the same pointer is already mapped.
    pub fn insert(&mut self, page: Page) -> (r: Result<(), PageTableError>)
        requires
            old(self).wf(),
            page.clock_tick <= old(self).clock(),
        ensures
            final(self).wf(),
            final(self).clock() == old(self).clock(),
            has_ptr(old(self)@, page.ptr@) ==> r == Result::<(), PageTableError>::Err(
                PageTableError::AlreadyMapped,
            ) && final(self)@ == old(self)@,
            !has_ptr(old(self)@, page.ptr@) ==> r == Result::<(), PageTableError>::Ok(())
                && final(self)@ == old(self)@.push(caught_up(page, old(self).clock())),
    {
        if self.contains(page.ptr) {
            return Err(PageTableError::AlreadyMapped);
        }
        let mut page = page;
        page.cool_accesses(self.global_clock);
        self.pages.push(page);
        Ok(())
    }

    /// Stores an updated copy of an already mapped page, keyed by its own
    /// pointer.
    pub fn update_page(&mut self, page: Page)
        requires
            old(self).wf(),
            has_ptr(old(self)@, page.ptr@),
            page.clock_tick <= old(self).clock(),
        ensures
            final(self).wf(),
            final(self).clock() == old(self).clock(),
            final(self)@ == old(self)@.update(idx_of(old(self)@, page.ptr@), page),
    {
        let n = self.pages.len();
        let addr = page.ptr.to_u64();
        let mut i: usize = 0;
        while i < n
            invariant
                n == self@.len(),
                addr == page.ptr@,
                page.clock_tick <= old(self).clock(),
                0 <= i <= n,
                self.wf(),
                self@ == old(self)@,
                self.clock() == old(self).clock(),
                has_ptr(self@, addr),
                forall|k: int| 0 <= k < i ==> (#[trigger] self@[k]).ptr@ != addr,
            decreases n - i,
        {
            if self.pages[i].ptr.to_u64() == addr {
                proof {
                    lemma_idx_of_unique(self@, addr, i as int);
                }
                self.pages[i] = page;
                return ;
            }
            i = i + 1;
        }
        proof {
            lemma_idx_of(self@, addr);
            assert(false);
        }
    }

    /// Advances the global cooling clock by one tick; every page is halved
    /// lazily when next touched.
    pub fn cool_all_pages(&mut self)
        requires
            old(self).clock() < u64::MAX,
        ensures
            final(self)@ == old(self)@,
            final(self).clock() == old(self).clock() + 1,
            old(self).wf() ==> final(self).wf(),
    {
        self.global_clock = self.global_clock + 1;
    }

    /// Moves the page with pointer `page_ptr` to tier `mem_idx`, catching it
    /// up to the global clock on the way.
    pub fn move_mem(&mut self, page_ptr: PagePtr, mem_idx: MemIdx)
        requires
            old(self).wf(),
            has_ptr(old(self)@, page_ptr@),
        ensures
            final(self).wf(),
            final(self).clock() == old(self).clock(),
            final(self)@ == old(self)@.update(
                idx_of(old(self)@, page_ptr@),
                (Page {
                    mem_idx,
                    ..caught_up(old(self)@[idx_of(old(self)@, page_ptr@)], old(self).clock())
                }),
            ),
    {
        let clock = self.global_clock;
        let n = self.pages.len();
        let addr = page_ptr.to_u64();
        let mut i: usize = 0;
        while i < n
            invariant
                n == self@.len(),
                addr == page_ptr@,
                0 <= i <= n,
                self.wf(),
                self@ == old(self)@,
                self.clock() == old(self).clock(),
                clock == old(self).clock(),
                has_ptr(self@, addr),
                forall|k: int| 0 <= k < i ==> (#[trigger] self@[k]).ptr@ != addr,
            decreases n - i,
        {
            if self.pages[i].ptr.to_u64() == addr {
                proof {
                    lemma_idx_of_unique(self@, addr, i as int);
                }
                let page_ref = &mut self.pages[i];
                page_ref.cool_accesses(clock);
                page_ref.move_mem(mem_idx);
                return ;
            }
            i = i + 1;
        }
        proof {
            lemma_idx_of(self@, addr);
            assert(false);
        }
    }

    /// Catches every page up to the global clock.
    pub fn catch_up_pages(&mut self)
        requires
            old(self).wf(),
        ensures
            final(self).wf(),
            final(self).clock() == old(self).clock(),
            final(self)@ == catch_up_seq(old(self)@, old(self).clock()),
    {
        let clock = self.global_clock;
        let n = self.pages.len();
        let mut i: usize = 0;
        while i < n
            invariant
                old(self).wf(),
                n == self@.len(),
                self@.len() == old(self)@.len(),
                0 <= i <= n,
                self.clock() == old(self).clock(),
                clock == old(self).clock(),
                forall|k: int| 0 <= k < i ==> self@[k] == caught_up(#[trigger] old(self)@[k], clock),
                forall|k: int| i <= k < n ==> self@[k] == #[trigger] old(self)@[k],
            decreases n - i,
        {
            proof {
                assert(self@[i as int] == old(self)@[i as int]);
                assert(old(self)@[i as int].clock_tick <= old(self).clock());
            }
            let page_ref = &mut self.pages[i];
            page_ref.cool_accesses(clock);
            i = i + 1;
        }
        proof {
            assert(self@ =~= catch_up_seq(old(self)@, clock));
            assert forall|k1: int, k2: int| 0 <= k1 < k2 < self@.len() implies (
            #[trigger] self@[k1]).ptr@ != (#[trigger] self@[k2]).ptr@ by {
                lemma_caught_up_facts(old(self)@[k1], clock);
                lemma_caught_up_facts(old(self)@[k2], clock);
            }
            assert forall|k: int| 0 <= k < self@.len() implies (#[trigger] self@[k]).clock_tick
                <= self.clock() by {
                lemma_caught_up_facts(old(self)@[k], clock);
            }
        }
    }

    /// Returns up to `count` pages of tier `mem_idx`, coldest first: after
    /// every page is caught up to the global clock, pages are ranked by
    /// temperature ascending with the page pointer as the tie-break, and the
    /// lowest-ranked ones are returned in ranking order.
    pub fn coldest_pages(&mut self, mem_idx: MemIdx, count: usize) -> (r: Vec<PagePtr>)
        requires
            old(self).wf(),
            forall|i: int|
                0 <= i < old(self)@.len() ==> spec_temperature(#[trigger] old(self)@[i])
                    <= u64::MAX,
        ensures
            final(self).wf(),
            final(self).clock() == old(self).clock(),
            final(self)@ == catch_up_seq(old(self)@, old(self).clock()),
            r@.len() == if count <= tier_count(final(self)@, mem_idx@ as int) {
                count as int
            } else {
                tier_count(final(self)@, mem_idx@ as int) as int
            },
            forall|a: int|
                0 <= a < r@.len() ==> has_ptr(final(self)@, (#[trigger] r@[a])@)
                    && final(self)@[idx_of(final(self)@, r@[a]@)].mem_idx@ == mem_idx@,
            forall|a: int, b: int|
                0 <= a < b < r@.len() ==> key_lt(
                    key_of_addr(final(self)@, (#[trigger] r@[a])@),
                    key_of_addr(final(self)@, (#[trigger] r@[b])@),
                ),
            forall|i: int, a: int|
                #![trigger final(self)@[i], r@[a]]
                0 <= i < final(self)@.len() && final(self)@[i].mem_idx@ == mem_idx@
                    && !ptrs_have_addr(r@, final(self)@[i].ptr@) && 0 <= a < r@.len() ==> key_le(
                    key_of_addr(final(self)@, r@[a]@),
                    spec_key(final(self)@[i]),
                ),
    {
        broadcast use vstd::seq_lib::group_to_multiset_ensures;

        let clock = self.global_clock;
        let tier = mem_idx.to_usize();
        let n = self.pages.len();

        // Catch every page up to the global clock.
        let mut i: usize = 0;
        while i < n
            invariant
                old(self).wf(),
                n == self@.len(),
                self@.len() == old(self)@.len(),
                0 <= i <= n,
                self.clock() == old(self).clock(),
                clock == old(self).clock(),
                forall|k: int| 0 <= k < i ==> self@[k] == caught_up(#[trigger] old(self)@[k], clock),
                forall|k: int| i <= k < n ==> self@[k] == #[trigger] old(self)@[k],
            decreases n - i,
        {
            proof {
                assert(self@[i as int] == old(self)@[i as int]);
                assert(old(self)@[i as int].clock_tick <= old(self).clock());
            }
            let page_ref = &mut self.pages[i];
            page_ref.cool_accesses(clock);
            i = i + 1;
        }
        proof {
            assert(self@ =~= catch_up_seq(old(self)@, clock));
            assert forall|k1: int, k2: int| 0 <= k1 < k2 < self@.len() implies (
            #[trigger] self@[k1]).ptr@ != (#[trigger] self@[k2]).ptr@ by {
                lemma_caught_up_facts(old(self)@[k1], clock);
                lemma_caught_up_facts(old(self)@[k2], clock);
            }
            assert forall|k: int| 0 <= k < self@.len() implies (#[trigger] self@[k]).clock_tick
                <= self.clock() && spec_temperature(self@[k]) <= u64::MAX by {
                lemma_caught_up_facts(old(self)@[k], clock);
            }
        }
        let ghost cs = self@;
        proof {
            lemma_tier_keys_facts(cs, tier as int);
        }

        // Collect the ranking keys of the pages of the requested tier.
        let mut keys: Vec<(u64, u64)> = Vec::new();
        let mut i: usize = 0;
        while i < n
            invariant
                n == self@.len(),
                self@ == cs,
                self.clock() == old(self).clock(),
                0 <= i <= n,
                tier == mem_idx@,
                forall|k: int| 0 <= k < n ==> spec_temperature(#[trigger] cs[k]) <= u64::MAX,
                keys@ == tier_keys(cs.take(i as int), tier as int),
            decreases n - i,
        {
            proof {
                assert(cs.take(i + 1 as int).drop_last() =~= cs.take(i as int));
                assert(cs.take(i + 1 as int).last() == cs[i as int]);
            }
            let p = self.pages[i];
            if p.mem_idx.to_usize() == tier {
                let t = p.temperature();
                keys.push((t, p.ptr.to_u64()));
            }
            i = i + 1;
        }
        proof {
            assert(cs.take(n as int) =~= cs);
        }

        // Repeatedly extract the lowest-ranked remaining key.
        let mut out: Vec<PagePtr> = Vec::new();
        let ghost mut taken: Seq<(u64, u64)> = Seq::empty();
        while out.len() < count && keys.len() > 0
            invariant
                self@ == cs,
                self.clock() == old(self).clock(),
                unique_ptrs(cs),
                tier == mem_idx@,
                out@.len() == taken.len(),
                out@.len() <= count,
                forall|a: int|
                    0 <= a < out@.len() ==> has_ptr(cs, (#[trigger] out@[a])@) && cs[idx_of(
                        cs,
                        out@[a]@,
                    )].mem_idx@ == tier && taken[a] == key_of_addr(cs, out@[a]@),
                taken.to_multiset().add(keys@.to_multiset()) == tier_keys(
                    cs,
                    tier as int,
                ).to_multiset(),
                forall|a: int, b: int|
                    0 <= a < b < out@.len() ==> key_lt(
                        key_of_addr(cs, (#[trigger] out@[a])@),
                        key_of_addr(cs, (#[trigger] out@[b])@),
                    ),
                forall|a: int, j: int|
                    #![trigger taken[a], keys@[j]]
                    0 <= a < taken.len() && 0 <= j < keys@.len() ==> key_le(taken[a], keys@[j]),
                forall|j1: int, j2: int|
                    0 <= j1 < j2 < keys@.len() ==> (#[trigger] keys@[j1]).1 != (
                    #[trigger] keys@[j2]).1,
                forall|a: int, j: int|
                    #![trigger out@[a], keys@[j]]
                    0 <= a < out@.len() && 0 <= j < keys@.len() ==> (out@[a])@ != keys@[j].1,
            decreases count - out.len(),
        {
            // Find the position of the lowest-ranked remaining key.
            let mut m: usize = 0;
            let mut j: usize = 1;
            while j < keys.len()
                invariant
                    keys@.len() > 0,
                    0 <= m < j <= keys@.len(),
                    forall|q: int| 0 <= q < j ==> key_le(keys@[m as int], #[trigger] keys@[q]),
                decreases keys@.len() - j,
            {
                let (tj, aj) = keys[j];
                let (tm, am) = keys[m];
                if tj < tm || (tj == tm && aj <= am) {
                    m = j;
                }
                j = j + 1;
            }
            let (_, addr) = keys[m];
            let ghost k = keys@[m as int];
            proof {
                broadcast use vstd::seq_lib::group_to_multiset_ensures;

                lemma_tier_keys_facts(cs, tier as int);
                // `k` occurs in the tier keys, so it is the key of a unique
                // tier page, and `addr` is that page's address.
                assert(keys@.contains(k));
                assert(keys@.to_multiset().count(k) > 0);
                assert(tier_keys(cs, tier as int).to_multiset().count(k) > 0);
                assert(tier_keys(cs, tier as int).contains(k));
                let j0 = choose|j0: int|
                    0 <= j0 < tier_keys(cs, tier as int).len() && tier_keys(cs, tier as int)[j0]
                        == k;
                let i0 = choose|i0: int|
                    0 <= i0 < cs.len() && tier_keys(cs, tier as int)[j0] == spec_key(cs[i0])
                        && cs[i0].mem_idx@ == tier;
                assert(addr == k.1);
                assert(cs[i0].ptr@ == addr);
                lemma_idx_of_unique(cs, addr, i0);
                assert(key_of_addr(cs, addr) == k);
            }
            out.push(PagePtr(addr));
            proof {
                taken = taken.push(k);
            }
            keys.remove(m);
            proof {
                broadcast use vstd::seq_lib::group_to_multiset_ensures;

                assert(taken.to_multiset().add(keys@.to_multiset()) =~= tier_keys(
                    cs,
                    tier as int,
                ).to_multiset());
            }
        }
        proof {
            // The result holds as many pages as requested, or the whole tier.
            assert(taken.to_multiset().len() + keys@.to_multiset().len() == tier_keys(
                cs,
                tier as int,
            ).to_multiset().len());
            // Any tier page left out keeps a key at least as large as every
            // selected one.
            assert forall|i: int, a: int|
                #![trigger cs[i], out@[a]]
                0 <= i < cs.len() && cs[i].mem_idx@ == tier && !ptrs_have_addr(out@, cs[i].ptr@)
                    && 0 <= a < out@.len() implies key_le(
                key_of_addr(cs, out@[a]@),
                spec_key(cs[i]),
            ) by {
                lemma_tier_keys_facts(cs, tier as int);
                let k = spec_key(cs[i]);
                assert(tier_keys(cs, tier as int).contains(k));
                assert(tier_keys(cs, tier as int).to_multiset().count(k) > 0);
                if taken.to_multiset().count(k) > 0 {
                    assert(taken.contains(k));
                    let a0 = choose|a0: int| 0 <= a0 < taken.len() && taken[a0] == k;
                    lemma_idx_of(cs, out@[a0]@);
                    assert(key_of_addr(cs, out@[a0]@).1 == out@[a0]@);
                    assert(out@[a0]@ == cs[i].ptr@);
                    assert(false);
                } else {
                    assert(keys@.to_multiset().count(k) > 0);
                    assert(keys@.contains(k));
                    assert(key_le(taken[a], k));
                }
            }
        }
        out
    }
}

} // verus!
