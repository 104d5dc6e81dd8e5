//! End-to-end scenarios for the classifier and driver.

use ftmemsim::hemem::{Config, HeMem, HeMemError};
use ftmemsim::memories::{AccessLatencies, FemtoDuration, MemIdx, Memory};
use ftmemsim::pin_trace::{Record, RecordAccessKind};
use ftmemsim::sim::{Classifier, Simulator, Trace};

fn latencies() -> AccessLatencies {
    AccessLatencies {
        read: FemtoDuration::new(0, 1_500_000),
        write: FemtoDuration::new(0, 1_000_000),
        fault: FemtoDuration::new(0, 10_000_000),
    }
}

fn tier(name: &str, cap: u64) -> Memory {
    Memory::new(String::from(name), cap, latencies())
}

fn config(read: u64, write: u64, cooling: u64) -> Config {
    Config {
        read_hot_threshold: read,
        write_hot_threshold: write,
        global_cooling_threshold: cooling,
    }
}

fn read_rec(time: u64, addr: u64) -> Record {
    Record {
        time,
        addr,
        kind: RecordAccessKind::Read,
    }
}

fn page_state(hm: &HeMem, addr: u64) -> (usize, u64, u64) {
    for p in hm.page_table().pages().iter() {
        if p.ptr.to_u64() == addr {
            return (p.mem_idx.to_usize(), p.read_accesses, p.write_accesses);
        }
    }
    panic!("page not mapped: {addr:#x}");
}

fn migrations_of(hm: &HeMem, addr: u64) -> Vec<(Option<usize>, usize, u64)> {
    for (ptr, hist) in hm.statistics().page_migrations().iter() {
        if ptr.to_u64() == addr {
            return hist
                .iter()
                .map(|m| {
                    (
                        m.prev_mem_idx.map(MemIdx::to_usize),
                        m.cur_mem_idx.to_usize(),
                        m.time,
                    )
                })
                .collect();
        }
    }
    Vec::new()
}

#[test]
fn single_tier_warm_up_and_cooling() {
    let mut hm = HeMem::new(config(2, 2, 3), vec![tier("ram", 4)]).unwrap();
    let a = 0x1000;
    for (t, addr) in [(10, a), (20, a), (30, a)] {
        hm.handle_trace(Trace {
            record: read_rec(t, addr),
        })
        .unwrap();
    }

    let accesses = hm.statistics().accesses();
    assert_eq!(accesses.len(), 3);
    assert!(!accesses[0].caused_cooling);
    assert!(!accesses[1].caused_cooling);
    assert!(accesses[2].caused_cooling);

    // one mapping, and nothing else, in the migration journal
    let migs = migrations_of(&hm, a);
    assert_eq!(migs, vec![(None, 0, 10)]);

    // the third access was cooled right away: 3 >> 1 == 1
    let (mem_idx, reads, _) = page_state(&hm, a);
    assert_eq!(mem_idx, 0);
    assert_eq!(reads, 1);
}

#[test]
fn warm_to_faster_migration_evicts_cold_page() {
    let mut hm = HeMem::new(config(2, 2, 1000), vec![tier("fast", 1), tier("slow", 4)]).unwrap();
    let a = 0x1000;
    let b = 0x2000;
    for (t, addr) in [(1, a), (2, b), (3, b), (4, b)] {
        hm.handle_trace(Trace {
            record: read_rec(t, addr),
        })
        .unwrap();
    }

    // B became hot on its second read and moved to the fast tier, evicting
    // the cold page A to the slow tier
    assert_eq!(page_state(&hm, a).0, 1);
    assert_eq!(page_state(&hm, b).0, 0);

    let migs_a = migrations_of(&hm, a);
    let migs_b = migrations_of(&hm, b);
    assert_eq!(migs_a, vec![(None, 0, 1), (Some(0), 1, 3)]);
    assert_eq!(migs_b, vec![(None, 1, 2), (Some(1), 0, 3)]);
    assert_eq!(migs_a.len() + migs_b.len(), 4);
}

#[test]
fn all_tiers_full_aborts_before_journalling() {
    let mut hm = HeMem::new(config(2, 2, 1000), vec![tier("t0", 1), tier("t1", 1)]).unwrap();
    let records = vec![read_rec(1, 0x1000), read_rec(2, 0x2000), read_rec(3, 0x3000)];
    let mut sim = Simulator::new(0, 1_000_000_000);
    let result = sim.run(&records, &mut hm);
    assert_eq!(result, Err(HeMemError::AllTiersFull));

    // the failing record left no journal entry behind
    assert_eq!(hm.statistics().accesses().len(), 2);
    assert!(migrations_of(&hm, 0x3000).is_empty());
}

#[test]
fn cooling_clears_hotness() {
    let mut hm = HeMem::new(config(2, 2, 3), vec![tier("ram", 2)]).unwrap();
    let a = 0x1000;
    let b = 0x2000;
    for (t, addr) in [(1, a), (1, a), (1, a), (2, b), (2, b), (2, b)] {
        hm.handle_trace(Trace {
            record: read_rec(t, addr),
        })
        .unwrap();
    }

    let accesses = hm.statistics().accesses();
    assert_eq!(accesses.len(), 6);
    // each page's third access triggers a global cooling event
    assert!(accesses[2].caused_cooling);
    assert!(accesses[5].caused_cooling);
    assert!(!accesses[0].caused_cooling && !accesses[1].caused_cooling);
    assert!(!accesses[3].caused_cooling && !accesses[4].caused_cooling);

    // both pages' counters were halved on their cooling event
    assert_eq!(page_state(&hm, a).1, 1);
    assert_eq!(page_state(&hm, b).1, 1);

    // no page ever migrated beyond its initial mapping
    assert_eq!(migrations_of(&hm, a).len(), 1);
    assert_eq!(migrations_of(&hm, b).len(), 1);
}

#[test]
fn trace_sub_sampling_skips_every_other_record() {
    let mut hm = HeMem::new(config(100, 100, 1000), vec![tier("ram", 8)]).unwrap();
    let records = vec![
        read_rec(10, 0x1000),
        read_rec(20, 0x2000),
        read_rec(30, 0x3000),
        read_rec(40, 0x4000),
    ];
    let mut sim = Simulator::new(1, 1_000_000_000);
    let out = sim.run(&records, &mut hm).unwrap();

    // only records 0 and 2 reached the classifier
    let accesses = hm.statistics().accesses();
    assert_eq!(accesses.len(), 2);
    assert_eq!(accesses[0].time, 10);
    assert_eq!(accesses[1].time, 30);
    assert_eq!(out.time_span, Some((10, 31)));
}

#[test]
fn empty_trace_has_no_time_span() {
    let mut hm = HeMem::new(config(2, 2, 3), vec![tier("ram", 4)]).unwrap();
    let records: Vec<Record> = Vec::new();
    let mut sim = Simulator::new(0, 1_000_000_000);
    let out = sim.run(&records, &mut hm).unwrap();
    assert_eq!(out.time_span, None);
    assert_eq!(hm.statistics().accesses().len(), 0);
}

#[test]
fn cool_page_on_slowest_tier_fails() {
    let mut hm = HeMem::new(config(2, 2, 1000), vec![tier("ram", 4)]).unwrap();
    hm.handle_trace(Trace {
        record: read_rec(1, 0x1000),
    })
    .unwrap();
    let ptr = ftmemsim::page_table::PagePtr::new(0x1000);
    assert_eq!(hm.cool_page(2, ptr), Err(HeMemError::AlreadySlowest));
}

#[test]
fn warm_page_on_fastest_tier_fails() {
    let mut hm = HeMem::new(config(2, 2, 1000), vec![tier("ram", 4)]).unwrap();
    hm.handle_trace(Trace {
        record: read_rec(1, 0x1000),
    })
    .unwrap();
    let ptr = ftmemsim::page_table::PagePtr::new(0x1000);
    assert_eq!(hm.warm_page(2, ptr), Err(HeMemError::AlreadyFastest));
}

#[test]
fn migration_to_full_uncoolable_tier_fails() {
    // the slower tier can hold nothing, so evicting from it is hopeless
    let mut hm = HeMem::new(config(2, 2, 1000), vec![tier("t0", 2), tier("t1", 0)]).unwrap();
    hm.handle_trace(Trace {
        record: read_rec(1, 0x1000),
    })
    .unwrap();
    let ptr = ftmemsim::page_table::PagePtr::new(0x1000);
    assert_eq!(hm.cool_page(2, ptr), Err(HeMemError::DestinationFullUncoolable));
    // the page stayed where it was
    assert_eq!(page_state(&hm, 0x1000).0, 0);
}

#[test]
fn new_classifier_rejects_empty_tier_list() {
    let r = HeMem::new(config(2, 2, 3), Vec::new());
    assert!(r.is_err());
}

#[test]
fn new_classifier_rejects_oversized_cooling_threshold() {
    let r = HeMem::new(config(2, 2, u64::MAX), vec![tier("ram", 4)]);
    assert!(r.is_err());
}

#[test]
fn warming_through_a_full_chain_evicts_level_by_level() {
    // three tiers; warming B into the full fastest tier ripples the
    // coldest page of every full tier one tier slower, deepest first
    let mut hm = HeMem::new(
        config(2, 2, 1000),
        vec![tier("t0", 1), tier("t1", 1), tier("t2", 4)],
    )
    .unwrap();
    let a = 0x1000;
    let b = 0x2000;
    for (t, addr) in [(1, a), (2, b), (3, b)] {
        hm.handle_trace(Trace {
            record: read_rec(t, addr),
        })
        .unwrap();
    }

    // B became hot on its second read; to make room in the fastest tier,
    // B itself (the only page of its tier) was first evicted one slower
    assert_eq!(page_state(&hm, a).0, 1);
    assert_eq!(page_state(&hm, b).0, 0);
    assert_eq!(migrations_of(&hm, a), vec![(None, 0, 1), (Some(0), 1, 3)]);
    assert_eq!(
        migrations_of(&hm, b),
        vec![(None, 1, 2), (Some(1), 2, 3), (Some(2), 0, 3)]
    );

    // the tier occupancy counts match the pages' residency
    let mems = hm.memories();
    assert_eq!(mems.get(MemIdx::new(0)).page_len(), 1);
    assert_eq!(mems.get(MemIdx::new(1)).page_len(), 1);
    assert_eq!(mems.get(MemIdx::new(2)).page_len(), 0);
}

#[test]
fn cool_memory_moves_the_coldest_page() {
    let mut hm = HeMem::new(config(10, 10, 1000), vec![tier("t0", 4), tier("t1", 4)]).unwrap();
    // two pages in the fast tier; the second is warmer
    for (t, addr) in [(1, 0x2000), (2, 0x1000), (3, 0x1000)] {
        hm.handle_trace(Trace {
            record: read_rec(t, addr),
        })
        .unwrap();
    }
    let cooled = hm.cool_memory(4, MemIdx::new(0), 1);
    assert_eq!(cooled, 1);
    // the colder page moved, the warmer one stayed
    assert_eq!(page_state(&hm, 0x2000).0, 1);
    assert_eq!(page_state(&hm, 0x1000).0, 0);
}

#[test]
fn classifier_trait_dispatch() {
    let mut hm = HeMem::new(config(2, 2, 3), vec![tier("ram", 4)]).unwrap();
    Classifier::handle_trace(
        &mut hm,
        Trace {
            record: read_rec(1, 0x1000),
        },
    )
    .unwrap();
    assert_eq!(hm.statistics().accesses().len(), 1);
}

#[test]
fn runs_are_deterministic() {
    let records = vec![
        read_rec(1, 0x1000),
        read_rec(2, 0x2000),
        read_rec(3, 0x2000),
        read_rec(4, 0x2000),
        read_rec(5, 0x1000),
    ];
    let mut outputs = Vec::new();
    for _ in 0..2 {
        let mut hm =
            HeMem::new(config(2, 2, 3), vec![tier("fast", 1), tier("slow", 4)]).unwrap();
        let mut sim = Simulator::new(0, 1_000_000_000);
        let out = sim.run(&records, &mut hm).unwrap();
        let data = ftmemsim::data::Data::collect(out.time_span, hm.statistics());
        outputs.push(data);
    }
    assert_eq!(outputs[0], outputs[1]);
}
