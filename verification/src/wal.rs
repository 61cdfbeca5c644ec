//! The write-ahead log format: a header (`WAL1` magic and version), then one record
//! per journaled order, each sealed by a CRC32 (IEEE 802.3) of its bytes.
use vstd::prelude::*;
use crate::types::{order_from_wire, order_wire, lemma_order_wire_roundtrip, Order, ORDER_WIRE_LEN};
use crate::wire::{
    from_le32, from_le64, le32, le64, lemma_le32_roundtrip, lemma_le64_roundtrip, push_le32, push_le64,
    read_le32, read_le64,
};

verus! {

/// Reflected IEEE 802.3 polynomial.
pub const CRC32_POLY: u32 = 0xEDB8_8320;

/// One bit of the CRC register: shift right, folding in the polynomial when the bit
/// shifted out is set.
pub open spec fn crc_step(c: u32) -> u32 {
    if c & 1u32 == 1u32 {
        (c >> 1u32) ^ CRC32_POLY
    } else {
        c >> 1u32
    }
}

/// Eight register steps: one byte.
pub open spec fn crc_step8(c: u32) -> u32 {
    crc_step(crc_step(crc_step(crc_step(crc_step(crc_step(crc_step(crc_step(c))))))))
}

/// The CRC register after feeding `b` into register value `c`, one byte at a time.
pub open spec fn crc_feed(c: u32, b: Seq<u8>) -> u32
    decreases b.len(),
{
    if b.len() == 0 {
        c
    } else {
        crc_step8(crc_feed(c, b.drop_last()) ^ (b.last() as u32))
    }
}

/// CRC32 of `b`: register preset to all ones, output complemented.
pub open spec fn spec_crc32(b: Seq<u8>) -> u32 {
    !crc_feed(0xFFFF_FFFFu32, b)
}

/// A register step is linear over xor.
proof fn lemma_step_xor(a: u32, b: u32)
    ensures
        crc_step(a ^ b) == crc_step(a) ^ crc_step(b),
{
    assert(crc_step(a ^ b) == crc_step(a) ^ crc_step(b)) by (bit_vector);
}

/// Feeding one byte equals the table entry of the low byte, xored with the register
/// shifted by eight.
proof fn lemma_byte_table(c: u32, x: u8)
    ensures
        crc_step8(c ^ (x as u32)) == crc_step8((c ^ (x as u32)) & 0xFFu32) ^ (c >> 8u32),
{
    let y = c ^ (x as u32);
    let lo = y & 0xFFu32;
    let hi = y & 0xFFFF_FF00u32;
    assert(y == lo ^ hi && hi == (c >> 8u32) << 8u32) by (bit_vector)
        requires
            y == c ^ (x as u32),
            lo == y & 0xFFu32,
            hi == y & 0xFFFF_FF00u32,
    ;
    let mut a = lo;
    let mut h = hi;
    lemma_step_xor(lo, hi);
    lemma_step_xor(crc_step(lo), crc_step(hi));
    lemma_step_xor(crc_step(crc_step(lo)), crc_step(crc_step(hi)));
    lemma_step_xor(crc_step(crc_step(crc_step(lo))), crc_step(crc_step(crc_step(hi))));
    lemma_step_xor(crc_step(crc_step(crc_step(crc_step(lo)))), crc_step(crc_step(crc_step(crc_step(hi)))));
    lemma_step_xor(
        crc_step(crc_step(crc_step(crc_step(crc_step(lo))))),
        crc_step(crc_step(crc_step(crc_step(crc_step(hi))))),
    );
    lemma_step_xor(
        crc_step(crc_step(crc_step(crc_step(crc_step(crc_step(lo)))))),
        crc_step(crc_step(crc_step(crc_step(crc_step(crc_step(hi)))))),
    );
    lemma_step_xor(
        crc_step(crc_step(crc_step(crc_step(crc_step(crc_step(crc_step(lo))))))),
        crc_step(crc_step(crc_step(crc_step(crc_step(crc_step(crc_step(hi))))))),
    );
    assert(crc_step8(hi) == c >> 8u32) by (bit_vector)
        requires
            hi == (c >> 8u32) << 8u32,
    ;
}

/// The 256-entry table of byte steps.
pub struct Crc32Table {
    table: Vec<u32>,
}

impl Crc32Table {
    pub closed spec fn wf(&self) -> bool {
        &&& self.table@.len() == 256
        &&& forall|i: int| 0 <= i < 256 ==> #[trigger] self.table@[i] == crc_step8(i as u32)
    }

    /// Precomputes the step of every byte value.
    pub fn new() -> (r: Self)
        ensures
            r.wf(),
    {
        let mut table: Vec<u32> = Vec::with_capacity(256);
        let mut i: u32 = 0;
        while i < 256
            invariant
                i <= 256,
                table@.len() == i,
                forall|j: int| 0 <= j < i ==> #[trigger] table@[j] == crc_step8(j as u32),
            decreases 256 - i,
        {
            let mut c = i;
            let mut k: u32 = 0;
            while k < 8
                invariant
                    k <= 8,
                    i < 256,
                    c == (if k == 0 {
                        i
                    } else if k == 1 {
                        crc_step(i)
                    } else if k == 2 {
                        crc_step(crc_step(i))
                    } else if k == 3 {
                        crc_step(crc_step(crc_step(i)))
                    } else if k == 4 {
                        crc_step(crc_step(crc_step(crc_step(i))))
                    } else if k == 5 {
                        crc_step(crc_step(crc_step(crc_step(crc_step(i)))))
                    } else if k == 6 {
                        crc_step(crc_step(crc_step(crc_step(crc_step(crc_step(i))))))
                    } else if k == 7 {
                        crc_step(crc_step(crc_step(crc_step(crc_step(crc_step(crc_step(i)))))))
                    } else {
                        crc_step8(i)
                    }),
                decreases 8 - k,
            {
                c = if c & 1 == 1 {
                    (c >> 1) ^ CRC32_POLY
                } else {
                    c >> 1
                };
                k = k + 1;
            }
            table.push(c);
            i = i + 1;
        }
        Crc32Table { table }
    }

    /// CRC32 of `b[start..end]`, one table lookup per byte.
    pub fn checksum_range(&self, b: &[u8], start: usize, end: usize) -> (r: u32)
        requires
            self.wf(),
            start <= end <= b@.len(),
        ensures
            r == spec_crc32(b@.subrange(start as int, end as int)),
    {
        let ghost s = b@.subrange(start as int, end as int);
        let mut c: u32 = 0xFFFF_FFFF;
        let mut i: usize = start;
        while i < end
            invariant
                self.wf(),
                start <= i <= end <= b@.len(),
                s == b@.subrange(start as int, end as int),
                c == crc_feed(0xFFFF_FFFFu32, s.take(i - start)),
            decreases end - i,
        {
            assert(s.take(i - start + 1).drop_last() =~= s.take(i - start));
            assert(s.take(i - start + 1).last() == b@[i as int]);
            proof {
                lemma_byte_table(c, b@[i as int]);
            }
            let x = b[i];
            let v: u32 = (c ^ (x as u32)) & 0xFF;
            assert(v < 256) by (bit_vector)
                requires
                    v == (c ^ (x as u32)) & 0xFFu32,
            ;
            let idx = v as usize;
            assert(self.table@[idx as int] == crc_step8(v));
            c = self.table[idx] ^ (c >> 8);
            i = i + 1;
        }
        assert(s.take(end - start) =~= s);
        !c
    }

    /// CRC32 of `b`.
    pub fn checksum(&self, b: &[u8]) -> (r: u32)
        requires
            self.wf(),
        ensures
            r == spec_crc32(b@),
    {
        assert(b@.subrange(0, b@.len() as int) =~= b@);
        self.checksum_range(b, 0, b.len())
    }
}

/// CRC32 of `b`.
pub fn crc32(b: &[u8]) -> (r: u32)
    ensures
        r == spec_crc32(b@),
{
    let t = Crc32Table::new();
    t.checksum(b)
}


/// Magic number opening a log file (`WAL1`).
pub const WAL_MAGIC: u32 = 0x5741_4C31;

/// Version of the log format.
pub const WAL_VERSION: u32 = 1;

/// Length of the file header: magic, then version.
pub const WAL_HEADER_LEN: usize = 8;

/// Length of a record: sequence id, timestamp, order, CRC32 of the first 64 bytes.
pub const WAL_RECORD_LEN: usize = 68;

/// The sequence id and the time (in nanoseconds) a record was journaled at.
#[derive(Debug, Clone, Copy, PartialEq, Eq)]
pub struct WalHeader {
    pub seq_id: u64,
    pub timestamp_ns: u64,
}

/// The sequence id the next record of a log holding `records` takes: one past the last
/// record's, 1 for an empty log, and `None` once the last id is `u64::MAX`.
pub fn next_seq_id(records: &Vec<(WalHeader, Order)>) -> (r: Option<u64>)
    ensures
        r == (if records@.len() == 0 {
            Some(1u64)
        } else if records@.last().0.seq_id < u64::MAX {
            Some((records@.last().0.seq_id + 1) as u64)
        } else {
            None
        }),
{
    let n = records.len();
    if n == 0 {
        Some(1)
    } else {
        let last = records[n - 1].0.seq_id;
        if last < u64::MAX {
            Some(last + 1)
        } else {
            None
        }
    }
}

/// The file header: magic and version, little-endian.
pub open spec fn header_bytes() -> Seq<u8> {
    le32(WAL_MAGIC) + le32(WAL_VERSION)
}

/// The sealed part of a record.
pub open spec fn record_body(h: WalHeader, o: Order) -> Seq<u8> {
    le64(h.seq_id) + le64(h.timestamp_ns) + order_wire(o)
}

/// A record: its body and the CRC32 of the body.
pub open spec fn record_bytes(h: WalHeader, o: Order) -> Seq<u8> {
    record_body(h, o) + le32(spec_crc32(record_body(h, o)))
}

/// The records at the start of `b`, up to the first one that is incomplete or whose
/// checksum does not match (a torn or damaged tail is dropped).
pub open spec fn parse_records(b: Seq<u8>) -> Seq<(WalHeader, Order)>
    decreases b.len(),
{
    if b.len() < WAL_RECORD_LEN || from_le32(b.subrange(64, 68)) != spec_crc32(b.subrange(0, 64)) {
        Seq::empty()
    } else {
        seq![
            (
                WalHeader { seq_id: from_le64(b.subrange(0, 8)), timestamp_ns: from_le64(b.subrange(8, 16)) },
                order_from_wire(b.subrange(16, 64)),
            ),
        ] + parse_records(b.subrange(68, b.len() as int))
    }
}

/// The records of a log file, or `None` when it does not open with the header.
pub open spec fn wal_records(b: Seq<u8>) -> Option<Seq<(WalHeader, Order)>> {
    if b.len() >= WAL_HEADER_LEN && from_le32(b.subrange(0, 4)) == WAL_MAGIC && from_le32(b.subrange(4, 8))
        == WAL_VERSION {
        Some(parse_records(b.subrange(8, b.len() as int)))
    } else {
        None
    }
}

/// The bytes of a sequence of records, in order.
pub open spec fn encode_records(rs: Seq<(WalHeader, Order)>) -> Seq<u8>
    decreases rs.len(),
{
    if rs.len() == 0 {
        Seq::empty()
    } else {
        record_bytes(rs[0].0, rs[0].1) + encode_records(rs.drop_first())
    }
}

/// The file header.
pub fn wal_header() -> (r: Vec<u8>)
    ensures
        r@ == header_bytes(),
{
    let mut v: Vec<u8> = Vec::new();
    push_le32(&mut v, WAL_MAGIC);
    push_le32(&mut v, WAL_VERSION);
    v
}

/// The record journaling `o` under `h`.
pub fn encode_wal_record(table: &Crc32Table, h: WalHeader, o: &Order) -> (r: Vec<u8>)
    requires
        table.wf(),
    ensures
        r@ == record_bytes(h, *o),
{
    let mut v: Vec<u8> = Vec::new();
    push_le64(&mut v, h.seq_id);
    push_le64(&mut v, h.timestamp_ns);
    let w = o.to_wire_bytes();
    let mut i: usize = 0;
    let ghost v0 = v@;
    while i < w.len()
        invariant
            i <= w@.len(),
            v@ == v0 + w@.take(i as int),
        decreases w.len() - i,
    {
        assert(w@.take(i + 1) =~= w@.take(i as int).push(w@[i as int]));
        v.push(w[i]);
        i = i + 1;
    }
    assert(w@.take(w@.len() as int) =~= w@);
    assert(v@ =~= record_body(h, *o));
    let crc = table.checksum(v.as_slice());
    push_le32(&mut v, crc);
    v
}

/// The record stored at `b[off..off + 68]`, read without its checksum.
fn read_record(b: &[u8], off: usize) -> (r: (WalHeader, Order))
    requires
        off + 68 <= b@.len(),
    ensures
        r.0 == (WalHeader {
            seq_id: from_le64(b@.subrange(off as int, off + 8)),
            timestamp_ns: from_le64(b@.subrange(off + 8, off + 16)),
        }),
        r.1 == order_from_wire(b@.subrange(off + 16, off + 64)),
{
    let n = b.len();
    let seq_id = read_le64(b, off);
    let timestamp_ns = read_le64(b, off + 8);
    let mut w: Vec<u8> = Vec::new();
    let mut i: usize = 0;
    while i < ORDER_WIRE_LEN
        invariant
            i <= ORDER_WIRE_LEN,
            off + 68 <= b@.len(),
            n == b@.len(),
            w@ == b@.subrange(off + 16, off + 16 + i),
        decreases ORDER_WIRE_LEN - i,
    {
        assert(b@.subrange(off + 16, off + 16 + i + 1) =~= b@.subrange(off + 16, off + 16 + i).push(b@[off + 16 + i]));
        w.push(b[off + 16 + i]);
        i = i + 1;
    }
    (WalHeader { seq_id, timestamp_ns }, Order::from_wire_bytes(w.as_slice()))
}

/// One step of `parse_records` on the bytes from `off` on.
proof fn lemma_parse_step(b: Seq<u8>, off: int)
    requires
        0 <= off,
        off + 68 <= b.len(),
    ensures
        parse_records(b.subrange(off, b.len() as int)) == (if from_le32(b.subrange(off + 64, off + 68)) != spec_crc32(
            b.subrange(off, off + 64),
        ) {
            Seq::empty()
        } else {
            seq![
                (
                    WalHeader {
                        seq_id: from_le64(b.subrange(off, off + 8)),
                        timestamp_ns: from_le64(b.subrange(off + 8, off + 16)),
                    },
                    order_from_wire(b.subrange(off + 16, off + 64)),
                ),
            ] + parse_records(b.subrange(off + 68, b.len() as int))
        }),
{
    let rest = b.subrange(off, b.len() as int);
    assert(rest.subrange(64, 68) =~= b.subrange(off + 64, off + 68));
    assert(rest.subrange(0, 64) =~= b.subrange(off, off + 64));
    assert(rest.subrange(0, 8) =~= b.subrange(off, off + 8));
    assert(rest.subrange(8, 16) =~= b.subrange(off + 8, off + 16));
    assert(rest.subrange(16, 64) =~= b.subrange(off + 16, off + 64));
    assert(rest.subrange(68, rest.len() as int) =~= b.subrange(off + 68, b.len() as int));
}

proof fn lemma_parse_short(b: Seq<u8>, off: int)
    requires
        0 <= off <= b.len(),
        off + 68 > b.len(),
    ensures
        parse_records(b.subrange(off, b.len() as int)) == Seq::<(WalHeader, Order)>::empty(),
{
}

/// The records of a log file; `None` when `b` does not open with the header.
#[verifier::spinoff_prover]
#[verifier::rlimit(50)]
pub fn decode_wal(table: &Crc32Table, b: &[u8]) -> (r: Option<Vec<(WalHeader, Order)>>)
    requires
        table.wf(),
    ensures
        match r {
            Some(v) => wal_records(b@) == Some(v@),
            None => wal_records(b@) is None,
        },
{
    let n = b.len();
    if n < WAL_HEADER_LEN || read_le32(b, 0) != WAL_MAGIC || read_le32(b, 4) != WAL_VERSION {
        return None;
    }
    let ghost all = b@.subrange(8, n as int);
    let mut out: Vec<(WalHeader, Order)> = Vec::new();
    let mut off: usize = WAL_HEADER_LEN;
    proof {
        if off + 68 > n {
            lemma_parse_short(b@, off as int);
        }
        assert(Seq::<(WalHeader, Order)>::empty() + parse_records(b@.subrange(8, n as int)) =~= parse_records(all));
    }
    while n - off >= WAL_RECORD_LEN
        invariant_except_break
            table.wf(),
            8 <= off <= n == b@.len(),
            all == b@.subrange(8, n as int),
            out@ + parse_records(b@.subrange(off as int, n as int)) == parse_records(all),
            off + 68 > n ==> parse_records(b@.subrange(off as int, n as int)) == Seq::<(WalHeader, Order)>::empty(),
        ensures
            out@ == parse_records(all),
        decreases n - off,
    {
        proof {
            lemma_parse_step(b@, off as int);
        }
        let stored = read_le32(b, off + 64);
        let computed = table.checksum_range(b, off, off + 64);
        if stored != computed {
            assert(out@ + Seq::<(WalHeader, Order)>::empty() =~= out@);
            break;
        }
        let item = read_record(b, off);
        let ghost prev = out@;
        out.push(item);
        proof {
            let tail = parse_records(b@.subrange(off + 68, n as int));
            assert(prev + (seq![item] + tail) =~= out@ + tail);
        }
        off = off + WAL_RECORD_LEN;
        proof {
            if off + 68 > n {
                lemma_parse_short(b@, off as int);
                assert(out@ + Seq::<(WalHeader, Order)>::empty() =~= out@);
            }
        }
    }
    Some(out)
}

#[verifier::spinoff_prover]
#[verifier::rlimit(60)]
proof fn lemma_parse_encoded(rs: Seq<(WalHeader, Order)>)
    ensures
        parse_records(encode_records(rs)) == rs,
    decreases rs.len(),
{
    if rs.len() == 0 {
        assert(parse_records(encode_records(rs)) =~= rs);
    } else {
        let h = rs[0].0;
        let o = rs[0].1;
        let body = record_body(h, o);
        let rec = record_bytes(h, o);
        let tail = encode_records(rs.drop_first());
        let e = encode_records(rs);
        lemma_le64_roundtrip(h.seq_id);
        lemma_le64_roundtrip(h.timestamp_ns);
        lemma_order_wire_roundtrip(o);
        lemma_le32_roundtrip(spec_crc32(body));
        assert(body.len() == 64);
        assert(e == rec + tail);
        assert(e.subrange(0, 64) =~= body);
        assert(e.subrange(64, 68) =~= le32(spec_crc32(body)));
        assert(e.subrange(0, 8) =~= le64(h.seq_id));
        assert(e.subrange(8, 16) =~= le64(h.timestamp_ns));
        assert(e.subrange(16, 64) =~= order_wire(o));
        assert(e.subrange(68, e.len() as int) =~= tail);
        lemma_parse_encoded(rs.drop_first());
        assert(parse_records(e) =~= seq![(h, o)] + rs.drop_first());
        assert(seq![(h, o)] + rs.drop_first() =~= rs);
    }
}

/// Reading back a log written as the header followed by records gives exactly those
/// records, in order.
pub proof fn lemma_wal_roundtrip(rs: Seq<(WalHeader, Order)>)
    ensures
        wal_records(header_bytes() + encode_records(rs)) == Some(rs),
{
    let f = header_bytes() + encode_records(rs);
    lemma_le32_roundtrip(WAL_MAGIC);
    lemma_le32_roundtrip(WAL_VERSION);
    assert(f.subrange(0, 4) =~= le32(WAL_MAGIC));
    assert(f.subrange(4, 8) =~= le32(WAL_VERSION));
    assert(f.subrange(8, f.len() as int) =~= encode_records(rs));
    lemma_parse_encoded(rs);
}

/// A partially written last record is dropped: the complete records before it are
/// read back exactly.
pub proof fn lemma_wal_drops_torn_tail(rs: Seq<(WalHeader, Order)>, junk: Seq<u8>)
    requires
        junk.len() < WAL_RECORD_LEN,
    ensures
        wal_records(header_bytes() + encode_records(rs) + junk) == Some(rs),
{
    let f = header_bytes() + encode_records(rs) + junk;
    lemma_le32_roundtrip(WAL_MAGIC);
    lemma_le32_roundtrip(WAL_VERSION);
    assert(f.subrange(0, 4) =~= le32(WAL_MAGIC));
    assert(f.subrange(4, 8) =~= le32(WAL_VERSION));
    assert(f.subrange(8, f.len() as int) =~= encode_records(rs) + junk);
    lemma_parse_encoded_tail(rs, junk);
}

#[verifier::spinoff_prover]
#[verifier::rlimit(60)]
proof fn lemma_parse_encoded_tail(rs: Seq<(WalHeader, Order)>, junk: Seq<u8>)
    requires
        junk.len() < WAL_RECORD_LEN,
    ensures
        parse_records(encode_records(rs) + junk) == rs,
    decreases rs.len(),
{
    if rs.len() == 0 {
        assert(encode_records(rs) + junk =~= junk);
        assert(parse_records(junk) =~= rs);
    } else {
        let h = rs[0].0;
        let o = rs[0].1;
        let body = record_body(h, o);
        let rec = record_bytes(h, o);
        let tail = encode_records(rs.drop_first()) + junk;
        let e = encode_records(rs) + junk;
        lemma_le64_roundtrip(h.seq_id);
        lemma_le64_roundtrip(h.timestamp_ns);
        lemma_order_wire_roundtrip(o);
        lemma_le32_roundtrip(spec_crc32(body));
        assert(e =~= rec + tail);
        assert(e.subrange(0, 64) =~= body);
        assert(e.subrange(64, 68) =~= le32(spec_crc32(body)));
        assert(e.subrange(0, 8) =~= le64(h.seq_id));
        assert(e.subrange(8, 16) =~= le64(h.timestamp_ns));
        assert(e.subrange(16, 64) =~= order_wire(o));
        assert(e.subrange(68, e.len() as int) =~= tail);
        lemma_parse_encoded_tail(rs.drop_first(), junk);
        assert(seq![(h, o)] + rs.drop_first() =~= rs);
    }
}
} // verus!
