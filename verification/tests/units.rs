//! Unit tests for the codec, the page table, and the tiers.

use ftmemsim::memories::{AccessLatencies, FemtoDuration, MemIdx, Memory, MemoryError};
use ftmemsim::page_table::{Page, PagePtr, PageTable, PageTableError};
use ftmemsim::pin_trace::{
    PinTrace, PinTraceReader, PinTraceWriter, Record, RecordAccessKind, TraceError,
};

fn latencies() -> AccessLatencies {
    AccessLatencies {
        read: FemtoDuration::new(0, 1),
        write: FemtoDuration::new(0, 2),
        fault: FemtoDuration::new(0, 3),
    }
}

#[test]
fn page_ptr_masks_low_bits() {
    let p = PagePtr::new(0x1234_5fff);
    assert_eq!(p.to_u64(), 0x1234_5000);
    let q = PagePtr::new(0x1234_5000);
    assert_eq!(p, q);
}

#[test]
fn page_counters_and_hotness() {
    let mut page = Page::new(PagePtr::new(0x1000), MemIdx::new(0));
    page.register_read_access();
    page.register_read_access();
    page.register_write_access();
    assert_eq!(page.temperature(), 4);
    assert!(page.is_hot(2, 5));
    assert!(page.is_hot(5, 1));
    assert!(!page.is_hot(5, 5));
    assert!(page.over_threshold(2));
    assert!(!page.over_threshold(3));
}

#[test]
fn lazy_cooling_halves_once_per_missed_tick() {
    let mut page = Page::new(PagePtr::new(0x1000), MemIdx::new(0));
    for _ in 0..12 {
        page.register_read_access();
    }
    page.cool_accesses(2);
    assert_eq!(page.read_accesses, 3);
    assert_eq!(page.clock_tick, 2);
    // catching up again at the same clock changes nothing
    page.cool_accesses(2);
    assert_eq!(page.read_accesses, 3);
}

#[test]
fn page_table_insert_and_lookup() {
    let mut pt = PageTable::new();
    let a = PagePtr::new(0x1000);
    assert!(!pt.contains(a));
    pt.insert(Page::new(a, MemIdx::new(0))).unwrap();
    assert!(pt.contains(a));
    assert_eq!(
        pt.insert(Page::new(a, MemIdx::new(1))),
        Err(PageTableError::AlreadyMapped)
    );
    let page = pt.get_mut(a).unwrap();
    assert_eq!(page.ptr, a);
    assert!(pt.get_mut(PagePtr::new(0x2000)).is_none());
}

#[test]
fn coldest_pages_orders_by_temperature_then_pointer() {
    let mut pt = PageTable::new();
    let hot = PagePtr::new(0x3000);
    let cold_high = PagePtr::new(0x2000);
    let cold_low = PagePtr::new(0x1000);
    let mut hot_page = Page::new(hot, MemIdx::new(0));
    hot_page.register_write_access();
    pt.insert(hot_page).unwrap();
    pt.insert(Page::new(cold_high, MemIdx::new(0))).unwrap();
    pt.insert(Page::new(cold_low, MemIdx::new(0))).unwrap();

    let coldest = pt.coldest_pages(MemIdx::new(0), 3);
    assert_eq!(coldest.len(), 3);
    // equal temperatures tie-break on the lower page pointer
    assert_eq!(coldest[0], cold_low);
    assert_eq!(coldest[1], cold_high);
    assert_eq!(coldest[2], hot);

    let two = pt.coldest_pages(MemIdx::new(0), 2);
    assert_eq!(two, vec![cold_low, cold_high]);
    assert!(pt.coldest_pages(MemIdx::new(1), 2).is_empty());
}

#[test]
fn memory_reserve_and_release() {
    let mut mem = Memory::new(String::from("ram"), 2, latencies());
    assert!(mem.is_empty());
    assert_eq!(mem.release_page(), Err(MemoryError::Empty));
    mem.reserve_page().unwrap();
    mem.reserve_page().unwrap();
    assert!(mem.is_full());
    assert_eq!(mem.reserve_page(), Err(MemoryError::Full));
    assert_eq!(mem.page_len(), 2);
    assert_eq!(mem.page_capacity(), 2);
    assert_eq!(mem.name().as_str(), "ram");
    mem.release_page().unwrap();
    assert_eq!(mem.page_len(), 1);
}

#[test]
fn migrate_between_tiers() {
    let mut mems = ftmemsim::memories::Memories::new(vec![
        Memory::new(String::from("fast"), 1, latencies()),
        Memory::new(String::from("slow"), 1, latencies()),
    ]);
    assert_eq!(
        mems.migrate_page(MemIdx::new(0), MemIdx::new(1)),
        Err(ftmemsim::memories::MigrateError::SourceEmpty(MemIdx::new(0)))
    );
    mems.reserve(MemIdx::new(0)).unwrap();
    mems.reserve(MemIdx::new(1)).unwrap();
    assert_eq!(
        mems.migrate_page(MemIdx::new(0), MemIdx::new(1)),
        Err(ftmemsim::memories::MigrateError::DestinationFull(MemIdx::new(1)))
    );
    // migrating a page onto its own tier is a no-op
    mems.migrate_page(MemIdx::new(0), MemIdx::new(0)).unwrap();
    assert_eq!(mems.get(MemIdx::new(0)).page_len(), 1);
    mems.release(MemIdx::new(1)).unwrap();
    mems.migrate_page(MemIdx::new(0), MemIdx::new(1)).unwrap();
    assert_eq!(mems.get(MemIdx::new(0)).page_len(), 0);
    assert_eq!(mems.get(MemIdx::new(1)).page_len(), 1);
}

#[test]
fn faster_and_slower_neighbours() {
    let mems = ftmemsim::memories::Memories::new(vec![
        Memory::new(String::from("a"), 1, latencies()),
        Memory::new(String::from("b"), 1, latencies()),
    ]);
    assert_eq!(mems.faster_memory(MemIdx::new(0)), None);
    assert_eq!(mems.faster_memory(MemIdx::new(1)), Some(MemIdx::new(0)));
    assert_eq!(mems.slower_memory(MemIdx::new(0)), Some(MemIdx::new(1)));
    assert_eq!(mems.slower_memory(MemIdx::new(1)), None);
}

#[test]
fn trace_codec_round_trip() {
    let mut writer = PinTraceWriter::new();
    let records = vec![
        Record {
            time: 7,
            addr: 0x1000,
            kind: RecordAccessKind::Read,
        },
        Record {
            time: 9,
            addr: 0xabcd_e000,
            kind: RecordAccessKind::Write,
        },
    ];
    for r in records.iter() {
        writer.write(r);
    }
    let bytes = writer.finish();
    assert_eq!(bytes.len(), 0x40 + 2 * 0x10);

    let trace = PinTrace::from_reader(&bytes).unwrap();
    assert_eq!(trace.header.records, 2);
    assert_eq!(trace.records, records);

    let mut reader = PinTraceReader::from_reader(bytes).unwrap();
    assert_eq!(reader.records_remaining(), 2);
    assert_eq!(reader.read_next().unwrap(), Some(records[0]));
    assert_eq!(reader.read_next().unwrap(), Some(records[1]));
    assert_eq!(reader.read_next().unwrap(), None);
}

#[test]
fn trace_writer_masks_unaligned_addresses() {
    let mut writer = PinTraceWriter::new();
    writer.write(&Record {
        time: 1,
        addr: 0x1234,
        kind: RecordAccessKind::Read,
    });
    let bytes = writer.finish();
    let trace = PinTrace::from_reader(&bytes).unwrap();
    assert_eq!(trace.records[0].addr, 0x1000);
}

#[test]
fn trace_reader_rejects_bad_magic() {
    let writer = PinTraceWriter::new();
    let mut bytes = writer.finish();
    bytes[0] = 0x51;
    assert_eq!(PinTrace::from_reader(&bytes), Err(TraceError::BadMagic));
}

#[test]
fn trace_reader_rejects_short_stream() {
    let writer = PinTraceWriter::new();
    let mut bytes = writer.finish();
    bytes.truncate(0x20);
    assert_eq!(PinTrace::from_reader(&bytes), Err(TraceError::ShortRead));
    let empty: Vec<u8> = Vec::new();
    assert_eq!(PinTrace::from_reader(&empty), Err(TraceError::ShortRead));
}

#[test]
fn trace_reader_rejects_unknown_kind() {
    let mut writer = PinTraceWriter::new();
    writer.write(&Record {
        time: 1,
        addr: 0x1000,
        kind: RecordAccessKind::Read,
    });
    let mut bytes = writer.finish();
    // corrupt the kind bits of the first record
    bytes[0x48] = 0x02;
    assert_eq!(PinTrace::from_reader(&bytes), Err(TraceError::BadKind));
}

#[test]
fn trace_reader_trusts_stream_length_over_header() {
    // a header that claims more records than the stream holds
    let mut writer = PinTraceWriter::new();
    writer.write(&Record {
        time: 1,
        addr: 0x1000,
        kind: RecordAccessKind::Read,
    });
    let mut bytes = writer.finish();
    bytes[8] = 9;  // the header now claims nine records
    let trace = PinTrace::from_reader(&bytes).unwrap();
    assert_eq!(trace.header.records, 9);
    assert_eq!(trace.records.len(), 1);
}
