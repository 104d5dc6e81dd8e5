//! Binary access-trace codec.
//!
//! The wire format is little-endian throughout: an 8-byte magic, a 0x38-byte
//! header of six `u64` fields plus padding, then 16-byte records of a
//! timestamp and a page-aligned address whose low 12 bits carry the access
//! kind. The record count is derived from the stream length; the header's
//! own count may be stale.

use vstd::prelude::*;

verus! {

/// Size of the magic, in bytes.
pub const MAGIC_SIZE: usize = 8;

/// Size of the header, in bytes, padding included.
pub const HEADER_SIZE: usize = 0x38;

/// Size of one record, in bytes.
pub const RECORD_SIZE: usize = 0x10;

/// Why a trace could not be decoded.
#[derive(Clone, Copy, Debug, PartialEq, Eq, Structural)]
pub enum TraceError {
    /// The stream does not start with the trace magic.
    BadMagic,
    /// The stream ends before the header is complete.
    ShortRead,
    /// A record's low address bits name no known access kind.
    BadKind,
}

/// Kind of a trace record.
#[derive(Clone, Copy, Debug, PartialEq, Eq, Structural)]
pub enum RecordAccessKind {
    /// Read access.
    Read,
    /// Write access.
    Write,
}

/// One trace record: a timestamp and a page-aligned address.
#[derive(Clone, Copy, Debug, PartialEq, Eq, Structural)]
pub struct Record {
    /// Timestamp.
    pub time: u64,
    /// Address, page-aligned.
    pub addr: u64,
    /// Access kind.
    pub kind: RecordAccessKind,
}

/// The trace header: record count and aggregate counters.
#[derive(Clone, Copy, Debug, PartialEq, Eq, Structural)]
pub struct Header {
    /// Number of records, as claimed by the writer.
    pub records: u64,
    /// Sampling rate.
    pub rate: u64,
    /// Load misses.
    pub load_misses: u64,
    /// Load accesses.
    pub load_accesses: u64,
    /// Store misses.
    pub store_misses: u64,
    /// Store accesses.
    pub store_accesses: u64,
}

/// The 8 magic bytes that open a trace.
pub open spec fn spec_magic() -> Seq<u8> {
    seq![0x50u8, 0x49u8, 0x4eu8, 0x54u8, 0x20u8, 0x76u8, 0x30u8, 0x00u8]
}

/// A `u64` read from 8 bytes, least-significant first.
pub open spec fn u64_le(b: Seq<u8>) -> u64
    recommends
        b.len() == 8,
{
    (b[0] as u64) | (b[1] as u64) << 8u64 | (b[2] as u64) << 16u64 | (b[3] as u64) << 24u64 | (
    b[4] as u64) << 32u64 | (b[5] as u64) << 40u64 | (b[6] as u64) << 48u64 | (b[7] as u64)
        << 56u64
}

/// The 8 bytes of a `u64`, least-significant first.
pub open spec fn u64_bytes(x: u64) -> Seq<u8> {
    seq![
        (x & 0xff) as u8,
        ((x >> 8u64) & 0xff) as u8,
        ((x >> 16u64) & 0xff) as u8,
        ((x >> 24u64) & 0xff) as u8,
        ((x >> 32u64) & 0xff) as u8,
        ((x >> 40u64) & 0xff) as u8,
        ((x >> 48u64) & 0xff) as u8,
        ((x >> 56u64) & 0xff) as u8,
    ]
}

/// Reading back the bytes of a `u64` gives the same value.
pub proof fn lemma_u64_round_trip(x: u64)
    ensures
        u64_le(u64_bytes(x)) == x,
{
    assert(((x & 0xff) as u8 as u64) | (((x >> 8u64) & 0xff) as u8 as u64) << 8u64 | (((x
        >> 16u64) & 0xff) as u8 as u64) << 16u64 | (((x >> 24u64) & 0xff) as u8 as u64) << 24u64
        | (((x >> 32u64) & 0xff) as u8 as u64) << 32u64 | (((x >> 40u64) & 0xff) as u8 as u64)
        << 40u64 | (((x >> 48u64) & 0xff) as u8 as u64) << 48u64 | (((x >> 56u64) & 0xff) as u8
        as u64) << 56u64 == x) by (bit_vector);
}

/// The bytes of one record on the wire: the timestamp, then the address
/// with the kind in the low bits.
pub open spec fn record_bytes(r: Record) -> Seq<u8> {
    u64_bytes(r.time) + u64_bytes(
        (r.addr & !0xfffu64) | (if r.kind is Write {
            1u64
        } else {
            0u64
        }),
    )
}

/// The record encoded in 16 wire bytes, or `BadKind` when the low address
/// bits name no kind.
pub open spec fn parse_record(b: Seq<u8>) -> Result<Record, TraceError>
    recommends
        b.len() == 16,
{
    let time = u64_le(b.subrange(0, 8));
    let addr_with_kind = u64_le(b.subrange(8, 16));
    let kind_bits = addr_with_kind & 0xfff;
    if kind_bits == 0 {
        Ok(Record { time, addr: addr_with_kind & !0xfffu64, kind: RecordAccessKind::Read })
    } else if kind_bits == 1 {
        Ok(Record { time, addr: addr_with_kind & !0xfffu64, kind: RecordAccessKind::Write })
    } else {
        Err(TraceError::BadKind)
    }
}

/// The header's 0x38 wire bytes: six `u64` fields and 8 bytes of padding.
pub open spec fn header_bytes(h: Header) -> Seq<u8> {
    u64_bytes(h.records) + u64_bytes(h.rate) + u64_bytes(h.load_misses) + u64_bytes(
        h.load_accesses,
    ) + u64_bytes(h.store_misses) + u64_bytes(h.store_accesses) + seq![
        0u8,
        0u8,
        0u8,
        0u8,
        0u8,
        0u8,
        0u8,
        0u8,
    ]
}

/// The header encoded in 0x38 wire bytes.
pub open spec fn parse_header(b: Seq<u8>) -> Header
    recommends
        b.len() == HEADER_SIZE,
{
    Header {
        records: u64_le(b.subrange(0, 8)),
        rate: u64_le(b.subrange(8, 16)),
        load_misses: u64_le(b.subrange(16, 24)),
        load_accesses: u64_le(b.subrange(24, 32)),
        store_misses: u64_le(b.subrange(32, 40)),
        store_accesses: u64_le(b.subrange(40, 48)),
    }
}

/// The wire bytes of a sequence of records, in order.
pub open spec fn records_bytes(rs: Seq<Record>) -> Seq<u8>
    decreases rs.len(),
{
    if rs.len() == 0 {
        Seq::empty()
    } else {
        records_bytes(rs.drop_last()) + record_bytes(rs.last())
    }
}

/// The wire bytes of a whole trace.
pub open spec fn trace_bytes(h: Header, rs: Seq<Record>) -> Seq<u8> {
    spec_magic() + header_bytes(h) + records_bytes(rs)
}

/// The records of a trace body, frame by frame, or the first frame error.
pub open spec fn parse_records(b: Seq<u8>, n: nat) -> Result<Seq<Record>, TraceError>
    recommends
        16 * n <= b.len(),
    decreases n,
{
    if n == 0 {
        Ok(Seq::empty())
    } else {
        match parse_records(b, (n - 1) as nat) {
            Ok(rs) => match parse_record(b.subrange((16 * (n - 1)) as int, (16 * n) as int)) {
                Ok(r) => Ok(rs.push(r)),
                Err(e) => Err(e),
            },
            Err(e) => Err(e),
        }
    }
}

/// A whole trace decoded from its wire bytes: the magic is checked, the
/// header read, and the record count derived from the stream length.
pub open spec fn parse_trace(b: Seq<u8>) -> Result<(Header, Seq<Record>), TraceError> {
    if b.len() < 8 {
        Err(TraceError::ShortRead)
    } else if b.subrange(0, 8) != spec_magic() {
        Err(TraceError::BadMagic)
    } else if b.len() < 0x40 {
        Err(TraceError::ShortRead)
    } else {
        let n = ((b.len() - 0x40) as int / 16) as nat;
        match parse_records(b.subrange(0x40, b.len() as int), n) {
            Ok(rs) => Ok((parse_header(b.subrange(8, 0x40)), rs)),
            Err(e) => Err(e),
        }
    }
}

/// Reading a record's wire bytes back gives the record, when its address
/// is page-aligned.
pub proof fn lemma_record_round_trip(r: Record)
    requires
        r.addr & 0xfff == 0,
    ensures
        parse_record(record_bytes(r)) == Result::<Record, TraceError>::Ok(r),
{
    let awk = (r.addr & !0xfffu64) | (if r.kind is Write {
        1u64
    } else {
        0u64
    });
    let b = record_bytes(r);
    assert(b.subrange(0, 8) =~= u64_bytes(r.time));
    assert(b.subrange(8, 16) =~= u64_bytes(awk));
    lemma_u64_round_trip(r.time);
    lemma_u64_round_trip(awk);
    let a = r.addr;
    assert(a & 0xfff == 0 ==> ((a & !0xfffu64) | 0u64) & 0xfff == 0 && ((a & !0xfffu64) | 1u64)
        & 0xfff == 1 && ((a & !0xfffu64) | 0u64) & !0xfffu64 == a && ((a & !0xfffu64) | 1u64)
        & !0xfffu64 == a) by (bit_vector);
}

/// Reading a whole written trace back gives the same header and records,
/// when every record's address is page-aligned.
pub proof fn lemma_trace_round_trip(h: Header, rs: Seq<Record>)
    requires
        forall|i: int| 0 <= i < rs.len() ==> (#[trigger] rs[i]).addr & 0xfff == 0,
    ensures
        parse_trace(trace_bytes(h, rs)) == Result::<(Header, Seq<Record>), TraceError>::Ok((h, rs)),
{
    let b = trace_bytes(h, rs);
    lemma_records_bytes_len(rs);
    assert(header_bytes(h).len() == 0x38);
    assert(b.len() == 0x40 + 16 * rs.len());
    assert(b.subrange(0, 8) =~= spec_magic());
    assert(b.subrange(8, 0x40) =~= header_bytes(h));
    lemma_header_round_trip(h);
    let body = b.subrange(0x40, b.len() as int);
    assert(body =~= records_bytes(rs));
    lemma_records_round_trip(rs);
    assert(((b.len() - 0x40) as int / 16) as nat == rs.len()) by {
        assert((16 * rs.len()) as int / 16 == rs.len());
    }
}

/// The wire length of a record sequence is 16 bytes per record.
pub proof fn lemma_records_bytes_len(rs: Seq<Record>)
    ensures
        records_bytes(rs).len() == 16 * rs.len(),
    decreases rs.len(),
{
    if rs.len() > 0 {
        lemma_records_bytes_len(rs.drop_last());
    }
}

/// Reading a header's wire bytes back gives the header.
pub proof fn lemma_header_round_trip(h: Header)
    ensures
        parse_header(header_bytes(h)) == h,
{
    let b = header_bytes(h);
    assert(b.subrange(0, 8) =~= u64_bytes(h.records));
    assert(b.subrange(8, 16) =~= u64_bytes(h.rate));
    assert(b.subrange(16, 24) =~= u64_bytes(h.load_misses));
    assert(b.subrange(24, 32) =~= u64_bytes(h.load_accesses));
    assert(b.subrange(32, 40) =~= u64_bytes(h.store_misses));
    assert(b.subrange(40, 48) =~= u64_bytes(h.store_accesses));
    lemma_u64_round_trip(h.records);
    lemma_u64_round_trip(h.rate);
    lemma_u64_round_trip(h.load_misses);
    lemma_u64_round_trip(h.load_accesses);
    lemma_u64_round_trip(h.store_misses);
    lemma_u64_round_trip(h.store_accesses);
}

/// Reading a record sequence's wire bytes back, frame by frame, gives the
/// same records.
proof fn lemma_records_round_trip(rs: Seq<Record>)
    requires
        forall|i: int| 0 <= i < rs.len() ==> (#[trigger] rs[i]).addr & 0xfff == 0,
    ensures
        parse_records(records_bytes(rs), rs.len()) == Result::<Seq<Record>, TraceError>::Ok(rs),
    decreases rs.len(),
{
    lemma_records_bytes_len(rs);
    if rs.len() == 0 {
        assert(parse_records(records_bytes(rs), 0) == Result::<Seq<Record>, TraceError>::Ok(Seq::<Record>::empty()));
        assert(Seq::<Record>::empty() =~= rs);
    } else {
        let pre = rs.drop_last();
        lemma_records_round_trip(pre);
        lemma_records_bytes_len(pre);
        let b = records_bytes(rs);
        assert(b =~= records_bytes(pre) + record_bytes(rs.last()));
        assert(b.subrange(0, records_bytes(pre).len() as int) =~= records_bytes(pre));
        lemma_records_prefix(pre, b);
        assert(b.subrange(16 * (rs.len() - 1), 16 * rs.len() as int) =~= record_bytes(rs.last()));
        lemma_record_round_trip(rs.last());
        assert(pre.push(rs.last()) =~= rs);
    }
}

/// Frame-by-frame parsing only looks at the frames it covers, so a longer
/// buffer with the same prefix parses the same records.
proof fn lemma_records_prefix(rs: Seq<Record>, b: Seq<u8>)
    requires
        records_bytes(rs).len() <= b.len(),
        b.subrange(0, records_bytes(rs).len() as int) == records_bytes(rs),
    ensures
        parse_records(b, rs.len()) == parse_records(records_bytes(rs), rs.len()),
    decreases rs.len(),
{
    lemma_records_bytes_len(rs);
    if rs.len() > 0 {
        let pre = rs.drop_last();
        lemma_records_bytes_len(pre);
        assert(records_bytes(pre).len() <= b.len());
        assert(b.subrange(0, records_bytes(pre).len() as int) =~= records_bytes(pre)) by {
            assert(records_bytes(rs) =~= records_bytes(pre) + record_bytes(rs.last()));
            assert forall|j: int| 0 <= j < records_bytes(pre).len() implies b[j] == records_bytes(
                pre,
            )[j] by {
                assert(b[j] == b.subrange(0, records_bytes(rs).len() as int)[j]);
            }
        }
        lemma_records_prefix(pre, b);
        assert(records_bytes(rs).subrange(0, records_bytes(pre).len() as int) =~= records_bytes(
            pre,
        ));
        lemma_records_prefix(pre, records_bytes(rs));
        assert(b.subrange(16 * (rs.len() - 1), 16 * rs.len() as int) =~= records_bytes(
            rs,
        ).subrange(16 * (rs.len() - 1), 16 * rs.len() as int)) by {
            assert forall|j: int|
                16 * (rs.len() - 1) <= j < 16 * rs.len() implies b[j] == records_bytes(rs)[j] by {
                assert(b[j] == b.subrange(0, records_bytes(rs).len() as int)[j]);
            }
        }
    }
}

/// Reads the little-endian `u64` at `off`.
pub fn read_u64_le(bytes: &Vec<u8>, off: usize) -> (r: u64)
    requires
        off + 8 <= bytes@.len(),
    ensures
        r == u64_le(bytes@.subrange(off as int, off + 8)),
{
    let n = bytes.len();
    proof {
        assert(off + 8 <= n);
    }
    let b0 = bytes[off] as u64;
    let b1 = bytes[off + 1] as u64;
    let b2 = bytes[off + 2] as u64;
    let b3 = bytes[off + 3] as u64;
    let b4 = bytes[off + 4] as u64;
    let b5 = bytes[off + 5] as u64;
    let b6 = bytes[off + 6] as u64;
    let b7 = bytes[off + 7] as u64;
    proof {
        let s = bytes@.subrange(off as int, off + 8);
        assert(s[0] == bytes@[off as int]);
        assert(s[1] == bytes@[off + 1]);
        assert(s[2] == bytes@[off + 2]);
        assert(s[3] == bytes@[off + 3]);
        assert(s[4] == bytes@[off + 4]);
        assert(s[5] == bytes@[off + 5]);
        assert(s[6] == bytes@[off + 6]);
        assert(s[7] == bytes@[off + 7]);
    }
    b0 | b1 << 8u64 | b2 << 16u64 | b3 << 24u64 | b4 << 32u64 | b5 << 40u64 | b6 << 48u64 | b7
        << 56u64
}

/// Appends the 8 little-endian bytes of `x`.
pub fn push_u64_le(out: &mut Vec<u8>, x: u64)
    ensures
        final(out)@ == old(out)@ + u64_bytes(x),
{
    out.push((x & 0xff) as u8);
    out.push(((x >> 8u64) & 0xff) as u8);
    out.push(((x >> 16u64) & 0xff) as u8);
    out.push(((x >> 24u64) & 0xff) as u8);
    out.push(((x >> 32u64) & 0xff) as u8);
    out.push(((x >> 40u64) & 0xff) as u8);
    out.push(((x >> 48u64) & 0xff) as u8);
    out.push(((x >> 56u64) & 0xff) as u8);
    proof {
        assert(final(out)@ =~= old(out)@ + u64_bytes(x));
    }
}

/// Writes the 8 little-endian bytes of `x` over `buf[off .. off + 8]`.
pub fn write_u64_le_at(buf: &mut Vec<u8>, off: usize, x: u64)
    requires
        off + 8 <= old(buf)@.len(),
    ensures
        final(buf)@ == old(buf)@.subrange(0, off as int) + u64_bytes(x) + old(buf)@.subrange(
            off + 8,
            old(buf)@.len() as int,
        ),
{
    let n = buf.len();
    proof {
        assert(off + 8 <= n);
    }
    buf[off] = (x & 0xff) as u8;
    buf[off + 1] = ((x >> 8u64) & 0xff) as u8;
    buf[off + 2] = ((x >> 16u64) & 0xff) as u8;
    buf[off + 3] = ((x >> 24u64) & 0xff) as u8;
    buf[off + 4] = ((x >> 32u64) & 0xff) as u8;
    buf[off + 5] = ((x >> 40u64) & 0xff) as u8;
    buf[off + 6] = ((x >> 48u64) & 0xff) as u8;
    buf[off + 7] = ((x >> 56u64) & 0xff) as u8;
    proof {
        assert(final(buf)@ =~= old(buf)@.subrange(0, off as int) + u64_bytes(x) + old(
            buf,
        )@.subrange(off + 8, old(buf)@.len() as int));
    }
}

impl Record {
    /// Decodes the record at `off`.
    pub fn from_bytes(bytes: &Vec<u8>, off: usize) -> (r: Result<Record, TraceError>)
        requires
            off + 16 <= bytes@.len(),
        ensures
            r == parse_record(bytes@.subrange(off as int, off + 16)),
    {
        let n = bytes.len();
        proof {
            assert(off + 16 <= n);
        }
        let time = read_u64_le(bytes, off);
        let addr_with_kind = read_u64_le(bytes, off + 8);
        proof {
            let f = bytes@.subrange(off as int, off + 16);
            assert(f.subrange(0, 8) =~= bytes@.subrange(off as int, off + 8));
            assert(f.subrange(8, 16) =~= bytes@.subrange(off + 8, off + 16));
        }
        let kind_bits = addr_with_kind & 0xfff;
        let addr = addr_with_kind & !0xfffu64;
        if kind_bits == 0 {
            Ok(Record { time, addr, kind: RecordAccessKind::Read })
        } else if kind_bits == 1 {
            Ok(Record { time, addr, kind: RecordAccessKind::Write })
        } else {
            Err(TraceError::BadKind)
        }
    }

    /// Appends this record's 16 wire bytes; the low 12 address bits are
    /// replaced by the kind.
    pub fn to_bytes(&self, out: &mut Vec<u8>)
        ensures
            final(out)@ == old(out)@ + record_bytes(*self),
    {
        push_u64_le(out, self.time);
        let kind_bits: u64 = match self.kind {
            RecordAccessKind::Read => 0,
            RecordAccessKind::Write => 1,
        };
        push_u64_le(out, (self.addr & !0xfffu64) | kind_bits);
        proof {
            assert(final(out)@ =~= old(out)@ + record_bytes(*self));
        }
    }
}

impl Header {
    /// Decodes the header at `off`.
    pub fn from_bytes(bytes: &Vec<u8>, off: usize) -> (r: Header)
        requires
            off + HEADER_SIZE <= bytes@.len(),
        ensures
            r == parse_header(bytes@.subrange(off as int, off + HEADER_SIZE)),
    {
        let n = bytes.len();
        proof {
            assert(off + HEADER_SIZE <= n);

            let f = bytes@.subrange(off as int, off + HEADER_SIZE);
            assert(f.subrange(0, 8) =~= bytes@.subrange(off as int, off + 8));
            assert(f.subrange(8, 16) =~= bytes@.subrange(off + 8, off + 16));
            assert(f.subrange(16, 24) =~= bytes@.subrange(off + 16, off + 24));
            assert(f.subrange(24, 32) =~= bytes@.subrange(off + 24, off + 32));
            assert(f.subrange(32, 40) =~= bytes@.subrange(off + 32, off + 40));
            assert(f.subrange(40, 48) =~= bytes@.subrange(off + 40, off + 48));
        }
        Header {
            records: read_u64_le(bytes, off),
            rate: read_u64_le(bytes, off + 8),
            load_misses: read_u64_le(bytes, off + 16),
            load_accesses: read_u64_le(bytes, off + 24),
            store_misses: read_u64_le(bytes, off + 32),
            store_accesses: read_u64_le(bytes, off + 40),
        }
    }

    /// Appends this header's 0x38 wire bytes.
    pub fn to_bytes(&self, out: &mut Vec<u8>)
        ensures
            final(out)@ == old(out)@ + header_bytes(*self),
    {
        push_u64_le(out, self.records);
        push_u64_le(out, self.rate);
        push_u64_le(out, self.load_misses);
        push_u64_le(out, self.load_accesses);
        push_u64_le(out, self.store_misses);
        push_u64_le(out, self.store_accesses);
        proof {
            assert(out@ =~= old(out)@ + header_bytes(*self).subrange(0, 48));
        }
        let mut i: usize = 0;
        while i < 8
            invariant
                0 <= i <= 8,
                out@ == old(out)@ + header_bytes(*self).subrange(
                    0,
                    header_bytes(*self).len() - 8 + i,
                ),
            decreases 8 - i,
        {
            out.push(0u8);
            proof {
                assert(out@ =~= old(out)@ + header_bytes(*self).subrange(
                    0,
                    header_bytes(*self).len() - 8 + i + 1,
                ));
            }
            i = i + 1;
        }
        proof {
            assert(header_bytes(*self).subrange(0, header_bytes(*self).len() as int)
                =~= header_bytes(*self));
        }
    }
}

/// Checks that the bytes open with the trace magic.
fn check_magic(bytes: &Vec<u8>) -> (r: bool)
    requires
        bytes@.len() >= 8,
    ensures
        r == (bytes@.subrange(0, 8) == spec_magic()),
{
    let ok = bytes[0] == 0x50 && bytes[1] == 0x49 && bytes[2] == 0x4e && bytes[3] == 0x54
        && bytes[4] == 0x20 && bytes[5] == 0x76 && bytes[6] == 0x30 && bytes[7] == 0x00;
    proof {
        if ok {
            assert(bytes@.subrange(0, 8) =~= spec_magic());
        } else {
            assert(bytes@.subrange(0, 8) != spec_magic()) by {
                if bytes@.subrange(0, 8) == spec_magic() {
                    assert(bytes@[0] == spec_magic()[0]);
                    assert(bytes@[1] == spec_magic()[1]);
                    assert(bytes@[2] == spec_magic()[2]);
                    assert(bytes@[3] == spec_magic()[3]);
                    assert(bytes@[4] == spec_magic()[4]);
                    assert(bytes@[5] == spec_magic()[5]);
                    assert(bytes@[6] == spec_magic()[6]);
                    assert(bytes@[7] == spec_magic()[7]);
                }
            }
        }
    }
    ok
}

/// A whole trace held in memory: the header and all records.
#[derive(Debug, PartialEq, Eq)]
pub struct PinTrace {
    /// The decoded header.
    pub header: Header,
    /// All records, in file order.
    pub records: Vec<Record>,
}

impl PinTrace {
    /// Decodes a whole trace from its wire bytes. The record count comes
    /// from the byte length, not from the header.
    pub fn from_reader(bytes: &Vec<u8>) -> (r: Result<PinTrace, TraceError>)
        ensures
            (r matches Ok(t) ==> parse_trace(bytes@) == Result::<
                (Header, Seq<Record>),
                TraceError,
            >::Ok((t.header, t.records@))),
            (r matches Err(e) ==> parse_trace(bytes@) == Result::<
                (Header, Seq<Record>),
                TraceError,
            >::Err(e)),
    {
        let len = bytes.len();
        if len < 8 {
            return Err(TraceError::ShortRead);
        }
        if !check_magic(bytes) {
            return Err(TraceError::BadMagic);
        }
        if len < 0x40 {
            return Err(TraceError::ShortRead);
        }
        let header = Header::from_bytes(bytes, 8);
        let n = (len - 0x40) / 16;
        let ghost body = bytes@.subrange(0x40, bytes@.len() as int);
        let mut records: Vec<Record> = Vec::new();
        let mut i: usize = 0;
        while i < n
            invariant
                len == bytes@.len(),
                len >= 0x40,
                bytes@.subrange(0, 8) == spec_magic(),
                header == parse_header(bytes@.subrange(8, 0x40)),
                n == (len - 0x40) as int / 16,
                0x40 + 16 * n <= len,
                0 <= i <= n,
                body == bytes@.subrange(0x40, bytes@.len() as int),
                parse_records(body, i as nat) == Result::<Seq<Record>, TraceError>::Ok(records@),
            decreases n - i,
        {
            proof {
                assert(body.subrange(16 * (i as int), 16 * (i as int) + 16) =~= bytes@.subrange(
                    0x40 + 16 * (i as int),
                    0x40 + 16 * (i as int) + 16,
                ));
            }
            match Record::from_bytes(bytes, 0x40 + 16 * i) {
                Ok(rec) => {
                    records.push(rec);
                },
                Err(e) => {
                    proof {
                        lemma_parse_records_extend_err(body, i as nat, n as nat, e);
                        assert(parse_records(body, ((len - 0x40) as int / 16) as nat)
                            == Result::<Seq<Record>, TraceError>::Err(e));
                        assert(parse_trace(bytes@) == Result::<
                            (Header, Seq<Record>),
                            TraceError,
                        >::Err(e));
                    }
                    return Err(e);
                },
            }
            i = i + 1;
        }
        proof {
            assert(parse_header(bytes@.subrange(8, 0x40)) == header);
        }
        Ok(PinTrace { header, records })
    }
}

/// Once a frame fails to parse, parsing any longer prefix fails the same
/// way.
proof fn lemma_parse_records_extend_err(b: Seq<u8>, i: nat, n: nat, e: TraceError)
    requires
        i < n,
        parse_records(b, i).is_ok(),
        parse_record(b.subrange((16 * i) as int, (16 * i + 16) as int)) == Result::<
            Record,
            TraceError,
        >::Err(e),
    ensures
        parse_records(b, n) == Result::<Seq<Record>, TraceError>::Err(e),
    decreases n - i,
{
    if n == i + 1 {
    } else {
        lemma_parse_records_extend_err(b, i, (n - 1) as nat, e);
    }
}

/// An incremental reader over a trace's wire bytes. The record count is
/// derived from the byte length; records are yielded on demand.
pub struct PinTraceReader {
    bytes: Vec<u8>,
    pos: usize,
    records_remaining: u64,
    header: Header,
}

impl PinTraceReader {
    /// The bytes the reader walks.
    pub closed spec fn spec_bytes(&self) -> Seq<u8> {
        self.bytes@
    }

    /// The current read position.
    pub closed spec fn spec_pos(&self) -> int {
        self.pos as int
    }

    /// The decoded header.
    pub closed spec fn spec_header(&self) -> Header {
        self.header
    }

    /// How many whole records lie at and after the read position.
    pub closed spec fn spec_remaining(&self) -> int {
        self.records_remaining as int
    }

    /// The remaining records all lie within the bytes.
    pub open spec fn wf(&self) -> bool {
        self.spec_pos() + 16 * self.spec_remaining() <= self.spec_bytes().len()
    }

    /// Opens a trace over its wire bytes: checks the magic, decodes the
    /// header, and derives the record count from the byte length.
    pub fn from_reader(bytes: Vec<u8>) -> (r: Result<PinTraceReader, TraceError>)
        ensures
            bytes@.len() < 8 ==> (r matches Err(e) && e == TraceError::ShortRead),
            bytes@.len() >= 8 && bytes@.subrange(0, 8) != spec_magic() ==> (r matches Err(e) && e
                == TraceError::BadMagic),
            bytes@.len() >= 8 && bytes@.subrange(0, 8) == spec_magic() && bytes@.len() < 0x40 ==> (
            r matches Err(e) && e == TraceError::ShortRead),
            bytes@.len() >= 0x40 && bytes@.subrange(0, 8) == spec_magic() ==> (r matches Ok(t)
                && t.wf() && t.spec_bytes() == bytes@ && t.spec_pos() == 0x40 && t.spec_header()
                == parse_header(bytes@.subrange(8, 0x40)) && t.spec_remaining() == (bytes@.len()
                - 0x40) as int / 16),
    {
        let len = bytes.len();
        if len < 8 {
            return Err(TraceError::ShortRead);
        }
        if !check_magic(&bytes) {
            return Err(TraceError::BadMagic);
        }
        if len < 0x40 {
            return Err(TraceError::ShortRead);
        }
        let header = Header::from_bytes(&bytes, 8);
        let total_records = ((len - 0x40) / 16) as u64;
        Ok(PinTraceReader { bytes, pos: 0x40, records_remaining: total_records, header })
    }

    /// Decodes the next record, or `None` when all records were read.
    pub fn read_next(&mut self) -> (r: Result<Option<Record>, TraceError>)
        requires
            old(self).wf(),
        ensures
            final(self).wf(),
            final(self).spec_bytes() == old(self).spec_bytes(),
            final(self).spec_header() == old(self).spec_header(),
            old(self).spec_remaining() == 0 ==> r == Result::<Option<Record>, TraceError>::Ok(
                None,
            ) && *final(self) == *old(self),
            old(self).spec_remaining() > 0 ==> {
                let frame = old(self).spec_bytes().subrange(
                    old(self).spec_pos(),
                    old(self).spec_pos() + 16,
                );
                match parse_record(frame) {
                    Ok(rec) => r == Result::<Option<Record>, TraceError>::Ok(Some(rec))
                        && final(self).spec_pos() == old(self).spec_pos() + 16
                        && final(self).spec_remaining() == old(self).spec_remaining() - 1,
                    Err(e) => r == Result::<Option<Record>, TraceError>::Err(e) && *final(self)
                        == *old(self),
                }
            },
    {
        if self.records_remaining == 0 {
            return Ok(None);
        }
        let n = self.bytes.len();
        proof {
            assert(self.pos + 16 <= n);
        }
        match Record::from_bytes(&self.bytes, self.pos) {
            Ok(rec) => {
                self.pos = self.pos + 16;
                self.records_remaining = self.records_remaining - 1;
                Ok(Some(rec))
            },
            Err(e) => Err(e),
        }
    }

    /// Returns how many records remain.
    pub fn records_remaining(&self) -> (r: u64)
        ensures
            r == self.spec_remaining(),
    {
        self.records_remaining
    }
}

/// An incremental writer of a trace's wire bytes: the magic and a
/// placeholder header up front, records appended behind, and the real
/// header written on `finish`.
pub struct PinTraceWriter {
    buf: Vec<u8>,
    records_written: u64,
    records: Ghost<Seq<Record>>,
}

/// The all-zero header a new writer reserves space with.
pub open spec fn zero_header() -> Header {
    Header {
        records: 0,
        rate: 0,
        load_misses: 0,
        load_accesses: 0,
        store_misses: 0,
        store_accesses: 0,
    }
}

impl PinTraceWriter {
    /// The records written so far.
    pub closed spec fn spec_records(&self) -> Seq<Record> {
        self.records@
    }

    /// The count matches the records, and the buffer holds the magic, the
    /// placeholder header, and the records' wire bytes.
    pub closed spec fn wf(&self) -> bool {
        &&& self.records_written == self.records@.len()
        &&& self.buf@ == trace_bytes(zero_header(), self.records@)
    }

    /// Creates a writer holding the magic and a placeholder header.
    pub fn new() -> (r: PinTraceWriter)
        ensures
            r.wf(),
            r.spec_records() == Seq::<Record>::empty(),
    {
        let mut buf: Vec<u8> = Vec::new();
        buf.push(0x50);
        buf.push(0x49);
        buf.push(0x4e);
        buf.push(0x54);
        buf.push(0x20);
        buf.push(0x76);
        buf.push(0x30);
        buf.push(0x00);
        let header = Header {
            records: 0,
            rate: 0,
            load_misses: 0,
            load_accesses: 0,
            store_misses: 0,
            store_accesses: 0,
        };
        header.to_bytes(&mut buf);
        let r = PinTraceWriter { buf, records_written: 0, records: Ghost(Seq::empty()) };
        proof {
            assert(r.buf@ =~= trace_bytes(zero_header(), Seq::<Record>::empty()));
        }
        r
    }

    /// Appends one record's wire bytes.
    pub fn write(&mut self, record: &Record)
        requires
            old(self).wf(),
            old(self).spec_records().len() < u64::MAX,
        ensures
            final(self).wf(),
            final(self).spec_records() == old(self).spec_records().push(*record),
    {
        record.to_bytes(&mut self.buf);
        self.records_written = self.records_written + 1;
        proof {
            self.records@ = self.records@.push(*record);
            assert(self.buf@ =~= trace_bytes(zero_header(), self.records@)) by {
                assert(self.records@.drop_last() =~= old(self).records@);
                assert(records_bytes(self.records@) =~= records_bytes(old(self).records@)
                    + record_bytes(*record));
            }
        }
    }

    /// Finishes the trace: writes the real header, with the observed record
    /// count, over the placeholder, and returns the wire bytes.
    pub fn finish(self) -> (r: Vec<u8>)
        requires
            self.wf(),
        ensures
            r@ == trace_bytes(
                (Header { records: self.spec_records().len() as u64, ..zero_header() }),
                self.spec_records(),
            ),
    {
        let mut buf = self.buf;
        proof {
            lemma_records_bytes_len(self.records@);
        }
        write_u64_le_at(&mut buf, 8, self.records_written);
        proof {
            let h = Header { records: self.records@.len() as u64, ..zero_header() };
            assert(buf@ =~= trace_bytes(h, self.records@)) by {
                assert(header_bytes(h) =~= u64_bytes(h.records) + header_bytes(
                    zero_header(),
                ).subrange(8, 0x38));
            }
        }
        buf
    }
}

} // verus!
