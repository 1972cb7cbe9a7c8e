//! The write-ahead log: adds and removes since the manifest's epoch.
use vstd::prelude::*;
use vstd::slice::slice_subrange;
use crate::bytes::{
    lemma_u32_round_trip, lemma_u32s_round_trip, lemma_u64_round_trip, push_u32, push_u32s, push_u64,
    read_u32, read_u32s, read_u64, u32_at, u32_bytes, u32s_at, u32s_bytes, u64_at, u64_bytes,
};
use crate::crc::{crc32, crc_of, law_one_changed_byte_is_seen};

verus! {

/// Version of the log, the manifest and the run tables.
pub const FORMAT_VERSION: u8 = 3;

/// A record that adds a vector.
pub const WAL_ADD: u8 = 1;

/// A record that removes a vector.
pub const WAL_REMOVE: u8 = 2;

/// One record of the log.
pub struct WalRecord {
    pub kind: u8,
    pub id: u64,
    /// Bit patterns; empty in a removal.
    pub vector: Vec<u32>,
}

/// What a record says.
pub struct Logged {
    pub kind: u8,
    pub id: u64,
    pub vector: Seq<u32>,
}

impl View for WalRecord {
    type V = Logged;

    open spec fn view(&self) -> Logged {
        Logged { kind: self.kind, id: self.id, vector: self.vector@ }
    }
}

/// What a list of records says.
pub open spec fn logged(records: Seq<WalRecord>) -> Seq<Logged> {
    Seq::new(records.len(), |i: int| records[i]@)
}

/// "TVFW".
pub open spec fn wal_magic() -> Seq<u8> {
    seq![0x54u8, 0x56u8, 0x46u8, 0x57u8]
}

/// The header of a log for vectors of `dim` coordinates, over the manifest of
/// `epoch`.
pub open spec fn header_bytes(dim: u32, epoch: u64) -> Seq<u8> {
    wal_magic() + seq![FORMAT_VERSION, 0u8, 0u8, 0u8] + u32_bytes(dim) + seq![0u8, 0u8, 0u8, 0u8]
        + u64_bytes(epoch)
}

/// The bytes that a record's checksum covers.
pub open spec fn covered(kind: u8, id: Seq<u8>, payload: Seq<u8>) -> Seq<u8> {
    seq![kind] + id + payload
}

/// The bytes of a record.
#[verifier::opaque]
pub open spec fn record_bytes(r: Logged) -> Seq<u8> {
    seq![r.kind, 0u8, 0u8, 0u8] + u32_bytes(
        crc_of(covered(r.kind, u64_bytes(r.id), u32s_bytes(r.vector))),
    ) + u64_bytes(r.id) + u32s_bytes(r.vector)
}

/// The bytes of consecutive records.
pub open spec fn body(records: Seq<Logged>) -> Seq<u8>
    decreases records.len(),
{
    if records.len() == 0 {
        Seq::empty()
    } else {
        record_bytes(records[0]) + body(records.drop_first())
    }
}

/// The log that holds `records`.
pub open spec fn log_of(dim: u32, epoch: u64, records: Seq<Logged>) -> Seq<u8> {
    header_bytes(dim, epoch) + body(records)
}

/// A record that a log of dimension `dim` can hold.
pub open spec fn loggable(r: Logged, dim: u32) -> bool {
    ||| r.kind == WAL_ADD && r.vector.len() == dim
    ||| r.kind == WAL_REMOVE && r.vector.len() == 0
}

/// The bytes open with a log header.
pub open spec fn is_log(s: Seq<u8>) -> bool {
    &&& s.len() >= 24
    &&& s[0] == 0x54 && s[1] == 0x56 && s[2] == 0x46 && s[3] == 0x57
    &&& s[4] == FORMAT_VERSION
}

/// Payload of a record kind, if it is one.
pub open spec fn payload_len(kind: u8, dim: u32) -> Option<int> {
    if kind == WAL_ADD {
        Some(4 * dim as int)
    } else if kind == WAL_REMOVE {
        Some(0)
    } else {
        None
    }
}

/// The intact record at offset `o`, if there is one.
pub open spec fn record_at(s: Seq<u8>, o: int, dim: u32) -> Option<Logged> {
    if o + 16 > s.len() {
        None
    } else {
        match payload_len(s[o], dim) {
            None => None,
            Some(len) => if o + 16 + len > s.len() || crc_of(
                covered(s[o], s.subrange(o + 8, o + 16), s.subrange(o + 16, o + 16 + len)),
            ) != u32_at(s, o + 4) {
                None
            } else {
                Some(
                    Logged {
                        kind: s[o],
                        id: u64_at(s, o + 8),
                        vector: u32s_at(s, o + 16, (len / 4) as nat),
                    },
                )
            },
        }
    }
}

/// The records from offset `o` up to the first that is not intact.
pub open spec fn records_from(s: Seq<u8>, o: int, dim: u32) -> Seq<Logged>
    decreases s.len() - o,
{
    match record_at(s, o, dim) {
        None => Seq::empty(),
        Some(r) => seq![r] + records_from(s, o + 16 + 4 * r.vector.len(), dim),
    }
}

/// The records of a log that belongs to `epoch` and, unless it is 0, to
/// dimension `dim`.
pub open spec fn records_of(s: Seq<u8>, epoch: u64, dim: int) -> Seq<Logged> {
    if !is_log(s) || u64_at(s, 16) != epoch || (dim != 0 && u32_at(s, 8) != dim) {
        Seq::empty()
    } else {
        records_from(s, 24, u32_at(s, 8))
    }
}

/// The header of a new log.
pub fn wal_header(dim: u32, epoch: u64) -> (out: Vec<u8>)
    ensures
        out@ == header_bytes(dim, epoch),
{
    let mut out: Vec<u8> = Vec::new();
    out.push(0x54);
    out.push(0x56);
    out.push(0x46);
    out.push(0x57);
    out.push(FORMAT_VERSION);
    out.push(0);
    out.push(0);
    out.push(0);
    push_u32(&mut out, dim);
    out.push(0);
    out.push(0);
    out.push(0);
    out.push(0);
    push_u64(&mut out, epoch);
    assert(out@ =~= header_bytes(dim, epoch));
    out
}

/// The bytes of one record.
pub fn wal_record(kind: u8, id: u64, vector: &[u32]) -> (out: Vec<u8>)
    ensures
        out@ == record_bytes(Logged { kind, id, vector: vector@ }),
{
    let mut input: Vec<u8> = Vec::new();
    input.push(kind);
    push_u64(&mut input, id);
    push_u32s(&mut input, vector);
    assert(input@ =~= covered(kind, u64_bytes(id), u32s_bytes(vector@)));
    let crc: u32 = crc32(input.as_slice());
    reveal(record_bytes);
    let mut out: Vec<u8> = Vec::new();
    out.push(kind);
    out.push(0);
    out.push(0);
    out.push(0);
    assert(out@ =~= seq![kind, 0u8, 0u8, 0u8]);
    push_u32(&mut out, crc);
    push_u64(&mut out, id);
    push_u32s(&mut out, vector);
    out
}

fn has_header(bytes: &[u8]) -> (r: bool)
    ensures
        r == is_log(bytes@),
{
    bytes.len() >= 24 && bytes[0] == 0x54 && bytes[1] == 0x56 && bytes[2] == 0x46 && bytes[3] == 0x57
        && bytes[4] == FORMAT_VERSION
}

/// The epoch of a log.
pub fn parse_wal_epoch(bytes: &[u8]) -> (r: Option<u64>)
    ensures
        r == if is_log(bytes@) {
            Some(u64_at(bytes@, 16))
        } else {
            None
        },
{
    if has_header(bytes) {
        Some(read_u64(bytes, 16))
    } else {
        None
    }
}

/// The dimension in the header of a log.
pub fn parse_wal_dim(bytes: &[u8]) -> (r: Option<u32>)
    ensures
        r == if is_log(bytes@) {
            Some(u32_at(bytes@, 8))
        } else {
            None
        },
{
    if has_header(bytes) {
        Some(read_u32(bytes, 8))
    } else {
        None
    }
}

/// The intact record at offset `o`, if there is one.
fn parse_record(bytes: &[u8], o: usize, dim: u32) -> (r: Option<WalRecord>)
    requires
        o <= bytes@.len(),
    ensures
        match r {
            Some(rec) => record_at(bytes@, o as int, dim) == Some(rec@),
            None => record_at(bytes@, o as int, dim) is None,
        },
{
    let n: usize = bytes.len();
    if n - o < 16 {
        return None;
    }
    let kind: u8 = bytes[o];
    let words: u32 = if kind == WAL_ADD {
        dim
    } else if kind == WAL_REMOVE {
        0
    } else {
        return None;
    };
    if ((n - o - 16) as u64) < 4 * (words as u64) {
        return None;
    }
    let len: usize = 4 * (words as usize);
    let mut input: Vec<u8> = Vec::new();
    input.push(kind);
    input.extend_from_slice(slice_subrange(bytes, o + 8, o + 16));
    input.extend_from_slice(slice_subrange(bytes, o + 16, o + 16 + len));
    assert(input@ =~= covered(
        kind,
        bytes@.subrange(o + 8, o + 16),
        bytes@.subrange(o + 16, o + 16 + len),
    ));
    if crc32(input.as_slice()) != read_u32(bytes, o + 4) {
        return None;
    }
    Some(WalRecord { kind, id: read_u64(bytes, o + 8), vector: read_u32s(bytes, o + 16, words as usize) })
}

/// The records of a log for `epoch` and `dim` (0: any), up to the first that
/// is not intact.
pub fn parse_wal(bytes: &[u8], epoch: u64, dim: usize) -> (records: Vec<WalRecord>)
    ensures
        logged(records@) == records_of(bytes@, epoch, dim as int),
{
    let mut records: Vec<WalRecord> = Vec::new();
    assert(logged(records@) =~= Seq::<Logged>::empty());
    if !has_header(bytes) {
        return records;
    }
    let wal_dim: u32 = read_u32(bytes, 8);
    if read_u64(bytes, 16) != epoch || (dim != 0 && wal_dim as usize != dim) {
        return records;
    }
    let n: usize = bytes.len();
    let mut o: usize = 24;
    let mut more: bool = true;
    assert(logged(records@) + records_from(bytes@, 24, wal_dim) =~= records_from(bytes@, 24, wal_dim));
    while more
        invariant
            24 <= o <= n,
            n == bytes@.len(),
            logged(records@) + (if more {
                records_from(bytes@, o as int, wal_dim)
            } else {
                Seq::empty()
            }) == records_from(bytes@, 24, wal_dim),
        decreases n - o + (if more { 1int } else { 0 }),
    {
        match parse_record(bytes, o, wal_dim) {
            None => {
                more = false;
            },
            Some(rec) => {
                let ghost before = logged(records@);
                let ghost r = rec@;
                let len: usize = 4 * rec.vector.len();
                proof {
                    assert(records_from(bytes@, o as int, wal_dim) == seq![r] + records_from(
                        bytes@,
                        o + 16 + 4 * r.vector.len(),
                        wal_dim,
                    ));
                }
                records.push(rec);
                o = o + 16 + len;
                proof {
                    assert(logged(records@) =~= before.push(r));
                    assert(before.push(r) + records_from(bytes@, o as int, wal_dim) =~= before + (seq![r]
                        + records_from(bytes@, o as int, wal_dim)));
                }
            },
        }
    }
    assert(logged(records@) + Seq::<Logged>::empty() =~= logged(records@));
    records
}

/// The fields of a record's bytes.
proof fn lemma_record_parts(r: Logged)
    ensures
        record_bytes(r).len() == 16 + 4 * r.vector.len(),
        record_bytes(r)[0] == r.kind,
        record_bytes(r).subrange(4, 8) == u32_bytes(
            crc_of(covered(r.kind, u64_bytes(r.id), u32s_bytes(r.vector))),
        ),
        record_bytes(r).subrange(8, 16) == u64_bytes(r.id),
        record_bytes(r).subrange(16, 16 + 4 * r.vector.len() as int) == u32s_bytes(r.vector),
{
    reveal(record_bytes);
    let b = record_bytes(r);
    let payload = u32s_bytes(r.vector);
    assert(b.subrange(4, 8) =~= u32_bytes(crc_of(covered(r.kind, u64_bytes(r.id), payload))));
    assert(b.subrange(8, 16) =~= u64_bytes(r.id));
    assert(b.subrange(16, b.len() as int) =~= payload);
}

/// A written record is read back.
proof fn lemma_record_at(s: Seq<u8>, o: int, dim: u32, r: Logged)
    requires
        loggable(r, dim),
        0 <= o,
        o + record_bytes(r).len() <= s.len(),
        s.subrange(o, o + record_bytes(r).len()) == record_bytes(r),
    ensures
        record_bytes(r).len() == 16 + 4 * r.vector.len(),
        record_at(s, o, dim) == Some(r),
{
    let b = record_bytes(r);
    let payload = u32s_bytes(r.vector);
    let crc = crc_of(covered(r.kind, u64_bytes(r.id), payload));
    let t = s.subrange(o, o + b.len());
    lemma_record_parts(r);
    assert(t[0] == s[o]);
    assert(s.subrange(o + 4, o + 8) =~= t.subrange(4, 8));
    assert(s.subrange(o + 8, o + 16) =~= t.subrange(8, 16));
    assert(s.subrange(o + 16, o + b.len()) =~= t.subrange(16, b.len() as int));
    lemma_u32_round_trip(crc, s, o + 4);
    lemma_u64_round_trip(r.id, s, o + 8);
    lemma_u32s_round_trip(r.vector, s, o + 16);
}

/// Written records are read back, and reading goes on behind them.
proof fn lemma_records_prefix(s: Seq<u8>, o: int, dim: u32, records: Seq<Logged>)
    requires
        forall|i: int| 0 <= i < records.len() ==> loggable(#[trigger] records[i], dim),
        0 <= o,
        o + body(records).len() <= s.len(),
        s.subrange(o, o + body(records).len()) == body(records),
    ensures
        records_from(s, o, dim) == records + records_from(s, o + body(records).len(), dim),
    decreases records.len(),
{
    if records.len() == 0 {
        assert(records + records_from(s, o, dim) =~= records_from(s, o, dim));
    } else {
        let r = records[0];
        let rest = records.drop_first();
        let b = record_bytes(r);
        let t = s.subrange(o, o + body(records).len());
        assert(s.subrange(o, o + b.len()) =~= t.subrange(0, b.len() as int));
        assert(t.subrange(0, b.len() as int) =~= b);
        assert(s.subrange(o + b.len(), o + b.len() + body(rest).len()) =~= t.subrange(
            b.len() as int,
            t.len() as int,
        ));
        assert(t.subrange(b.len() as int, t.len() as int) =~= body(rest));
        lemma_record_at(s, o, dim, r);
        assert forall|i: int| 0 <= i < rest.len() implies loggable(#[trigger] rest[i], dim) by {
            assert(rest[i] == records[i + 1]);
        }
        lemma_records_prefix(s, o + b.len(), dim, rest);
        let tail = records_from(s, o + body(records).len(), dim);
        assert(seq![r] + (rest + tail) =~= records + tail);
    }
}

/// The header of a written log is read back.
proof fn lemma_header(dim: u32, epoch: u64, s: Seq<u8>)
    requires
        s.len() >= 24,
        s.subrange(0, 24) == header_bytes(dim, epoch),
    ensures
        is_log(s),
        u32_at(s, 8) == dim,
        u64_at(s, 16) == epoch,
{
    let h = header_bytes(dim, epoch);
    let t = s.subrange(0, 24);
    assert(t[0] == s[0] && t[1] == s[1] && t[2] == s[2] && t[3] == s[3] && t[4] == s[4]);
    assert(s.subrange(8, 12) =~= t.subrange(8, 12));
    assert(h.subrange(8, 12) =~= u32_bytes(dim));
    assert(s.subrange(16, 24) =~= t.subrange(16, 24));
    assert(h.subrange(16, 24) =~= u64_bytes(epoch));
    lemma_u32_round_trip(dim, s, 8);
    lemma_u64_round_trip(epoch, s, 16);
}

/// Appending a record's bytes to a log appends the record.
pub proof fn law_log_append(dim: u32, epoch: u64, records: Seq<Logged>, r: Logged)
    ensures
        log_of(dim, epoch, records.push(r)) == log_of(dim, epoch, records) + record_bytes(r),
{
    lemma_body_push(records, r);
    assert(log_of(dim, epoch, records.push(r)) =~= log_of(dim, epoch, records) + record_bytes(r));
}

proof fn lemma_body_push(records: Seq<Logged>, r: Logged)
    ensures
        body(records.push(r)) == body(records) + record_bytes(r),
    decreases records.len(),
{
    let all = records.push(r);
    if records.len() == 0 {
        assert(all.drop_first() =~= Seq::<Logged>::empty());
        assert(body(all.drop_first()) =~= Seq::<u8>::empty());
        assert(all[0] == r);
        assert(body(all) =~= body(records) + record_bytes(r));
    } else {
        assert(all.drop_first() =~= records.drop_first().push(r));
        lemma_body_push(records.drop_first(), r);
        assert(all[0] == records[0]);
        assert(body(all) =~= body(records) + record_bytes(r));
    }
}

/// A log with its tail cut off or anything at all behind its first records
/// still gives those records first.
proof fn lemma_log_prefix(s: Seq<u8>, dim: u32, epoch: u64, records: Seq<Logged>)
    requires
        forall|i: int| 0 <= i < records.len() ==> loggable(#[trigger] records[i], dim),
        log_of(dim, epoch, records).len() <= s.len(),
        s.subrange(0, log_of(dim, epoch, records).len() as int) == log_of(dim, epoch, records),
    ensures
        records_of(s, epoch, dim as int) == records + records_from(
            s,
            log_of(dim, epoch, records).len() as int,
            dim,
        ),
        records_of(s, epoch, 0) == records_of(s, epoch, dim as int),
{
    let l = log_of(dim, epoch, records);
    let t = s.subrange(0, l.len() as int);
    assert(s.subrange(0, 24) =~= t.subrange(0, 24));
    assert(l.subrange(0, 24) =~= header_bytes(dim, epoch));
    lemma_header(dim, epoch, s);
    assert(s.subrange(24, 24 + body(records).len() as int) =~= t.subrange(24, t.len() as int));
    assert(l.subrange(24, l.len() as int) =~= body(records));
    lemma_records_prefix(s, 24, dim, records);
}

/// A log gives back what was written to it.
pub proof fn law_log_round_trip(dim: u32, epoch: u64, records: Seq<Logged>)
    requires
        forall|i: int| 0 <= i < records.len() ==> loggable(#[trigger] records[i], dim),
    ensures
        records_of(log_of(dim, epoch, records), epoch, dim as int) == records,
        records_of(log_of(dim, epoch, records), epoch, 0) == records,
{
    let s = log_of(dim, epoch, records);
    assert(s.subrange(0, s.len() as int) =~= s);
    lemma_log_prefix(s, dim, epoch, records);
    assert(records + Seq::<Logged>::empty() =~= records);
}

/// A log of another epoch gives nothing.
pub proof fn law_stale_log_is_ignored(dim: u32, epoch: u64, records: Seq<Logged>, other: u64, d: int)
    requires
        other != epoch,
    ensures
        records_of(log_of(dim, epoch, records), other, d) == Seq::<Logged>::empty(),
{
    let s = log_of(dim, epoch, records);
    assert(s.subrange(0, 24) =~= header_bytes(dim, epoch));
    lemma_header(dim, epoch, s);
}

/// A write that stopped inside a record loses that record only.
pub proof fn law_torn_record_is_dropped(
    dim: u32,
    epoch: u64,
    records: Seq<Logged>,
    r: Logged,
    kept: int,
)
    requires
        forall|i: int| 0 <= i < records.len() ==> loggable(#[trigger] records[i], dim),
        loggable(r, dim),
        0 <= kept < record_bytes(r).len(),
    ensures
        records_of(
            log_of(dim, epoch, records) + record_bytes(r).take(kept),
            epoch,
            dim as int,
        ) == records,
{
    let l = log_of(dim, epoch, records);
    let s = l + record_bytes(r).take(kept);
    let o = l.len() as int;
    assert(s.subrange(0, o) =~= l);
    lemma_log_prefix(s, dim, epoch, records);
    lemma_record_parts(r);
    if kept > 0 {
        assert(s[o] == r.kind);
    }
    assert(record_at(s, o, dim) is None);
    assert(records + Seq::<Logged>::empty() =~= records);
}

/// A record with one byte changed is not intact.
proof fn lemma_damaged(s: Seq<u8>, o: int, dim: u32, r: Logged, p: int, v: u8)
    requires
        loggable(r, dim),
        4 <= p < record_bytes(r).len(),
        v != record_bytes(r)[p],
        0 <= o,
        o + record_bytes(r).len() <= s.len(),
        s.subrange(o, o + record_bytes(r).len()) == record_bytes(r).update(p, v),
    ensures
        record_at(s, o, dim) is None,
{
    lemma_record_parts(r);
    let b = record_bytes(r);
    let c = b.update(p, v);
    let len = 4 * r.vector.len() as int;
    let payload = u32s_bytes(r.vector);
    let was = covered(r.kind, u64_bytes(r.id), payload);
    let is = covered(s[o], s.subrange(o + 8, o + 16), s.subrange(o + 16, o + 16 + len));
    let crc = crc_of(was);
    let t = s.subrange(o, o + b.len());
    assert(t[0] == s[o]);
    assert forall|k: int| 0 <= k < b.len() implies #[trigger] c[k] == s[o + k] by {
        assert(t[k] == s[o + k]);
    }
    assert forall|k: int| 0 < k < was.len() implies #[trigger] was[k] == b[k + 7] by {
        if k < 9 {
            assert(b.subrange(8, 16)[k - 1] == b[k + 7]);
        } else {
            assert(b.subrange(16, 16 + len)[k - 9] == b[k + 7]);
        }
    }
    assert forall|k: int| 0 < k < is.len() implies #[trigger] is[k] == c[k + 7] by {
        assert(c[k + 7] == s[o + (k + 7)]);
    }
    if p < 8 {
        assert(was =~= is);
        if u32_at(s, o + 4) == crc {
            lemma_u32_bytes_of(s, o + 4);
            assert(c[p] == s[o + p]);
            assert(s.subrange(o + 4, o + 8)[p - 4] == v);
            assert(b.subrange(4, 8)[p - 4] == b[p]);
        }
    } else {
        assert(c[4] == s[o + 4] && c[5] == s[o + 5] && c[6] == s[o + 6] && c[7] == s[o + 7]);
        assert(s.subrange(o + 4, o + 8) =~= b.subrange(4, 8));
        lemma_u32_round_trip(crc, s, o + 4);
        law_one_changed_byte_is_seen(was, is, p - 7);
    }
}

/// A record with one byte changed in its checksum, id or vector ends the log:
/// the records before it stay, it and all behind it are left out.
pub proof fn law_damaged_record_ends_the_log(
    dim: u32,
    epoch: u64,
    records: Seq<Logged>,
    r: Logged,
    tail: Seq<u8>,
    p: int,
    v: u8,
)
    requires
        forall|i: int| 0 <= i < records.len() ==> loggable(#[trigger] records[i], dim),
        loggable(r, dim),
        4 <= p < record_bytes(r).len(),
        v != record_bytes(r)[p],
    ensures
        records_of(
            log_of(dim, epoch, records) + record_bytes(r).update(p, v) + tail,
            epoch,
            dim as int,
        ) == records,
{
    let l = log_of(dim, epoch, records);
    let b = record_bytes(r);
    let c = b.update(p, v);
    let s = l + c + tail;
    let o = l.len() as int;
    let len = 4 * r.vector.len() as int;
    lemma_record_parts(r);
    assert(s.subrange(0, o) =~= l);
    lemma_log_prefix(s, dim, epoch, records);
    assert(s.subrange(o, o + 16 + len) =~= c);
    lemma_damaged(s, o, dim, r, p, v);
    assert(record_at(s, o, dim) is None);
    assert(records + Seq::<Logged>::empty() =~= records);
}

/// Four bytes are the bytes of the word that they hold.
proof fn lemma_u32_bytes_of(s: Seq<u8>, o: int)
    requires
        0 <= o,
        o + 4 <= s.len(),
    ensures
        s.subrange(o, o + 4) == u32_bytes(u32_at(s, o)),
{
    let v = u32_at(s, o);
    let (a, b, c, d) = (s[o], s[o + 1], s[o + 2], s[o + 3]);
    assert(v == a + 0x100 * b + 0x1_0000 * c + 0x100_0000 * d);
    assert(v % 0x100 == a);
    assert(v / 0x100 == b + 0x100 * c + 0x1_0000 * d);
    assert(v / 0x1_0000 == c + 0x100 * d);
    assert(v / 0x100_0000 == d);
    let t = s.subrange(o, o + 4);
    let w = u32_bytes(v);
    assert(w.len() == 4 && w[0] == a && w[1] == b && w[2] == c && w[3] == d);
    assert forall|k: int| 0 <= k < 4 implies t[k] == w[k] by {
        assert(k == 0 || k == 1 || k == 2 || k == 3);
    }
    assert(t =~= w);
}

} // verus!
