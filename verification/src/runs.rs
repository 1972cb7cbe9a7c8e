//! Id runs: sorted tables from an id to the copies of its row.
use vstd::prelude::*;
use crate::bytes::{
    lemma_u32_round_trip, lemma_u64_round_trip, push_u32, push_u64, read_u32, read_u64, u32_at, u32_bytes, u64_at,
    u64_bytes,
};
use crate::segment::id_slots;
use crate::sort::{lemma_same_elements, lemma_sorted_pairs, pair_leq, sort_pairs, sorted_pairs};
use crate::wal::FORMAT_VERSION;

verus! {

/// Bytes in front of the entries.
pub const RUN_HEADER_BYTES: usize = 16;

/// Bytes of an entry.
pub const RUN_ENTRY_BYTES: usize = 24;

/// The entry names a replica.
pub const ENTRY_FLAG_REPLICA: u32 = 1;

/// Where a copy of a row was written.
#[derive(Clone, Copy, PartialEq, Eq, Structural)]
pub struct RunEntry {
    pub id: u64,
    pub partition_id: u32,
    pub generation: u32,
    pub row: u32,
    pub flags: u32,
}

/// "TVFR", the version, and the number of entries.
pub open spec fn run_header(n: u64) -> Seq<u8> {
    seq![0x54u8, 0x56u8, 0x46u8, 0x52u8, FORMAT_VERSION, 0u8, 0u8, 0u8] + u64_bytes(n)
}

/// The bytes of an entry.
pub open spec fn entry_bytes(e: RunEntry) -> Seq<u8> {
    u64_bytes(e.id) + u32_bytes(e.partition_id) + u32_bytes(e.generation) + u32_bytes(e.row) + u32_bytes(
        e.flags,
    )
}

/// The bytes of entries.
pub open spec fn entries_bytes(entries: Seq<RunEntry>) -> Seq<u8>
    decreases entries.len(),
{
    if entries.len() == 0 {
        Seq::empty()
    } else {
        entries_bytes(entries.drop_last()) + entry_bytes(entries.last())
    }
}

/// The table that holds `entries`.
pub open spec fn run_bytes(entries: Seq<RunEntry>) -> Seq<u8> {
    run_header(entries.len() as u64) + entries_bytes(entries)
}

/// Entry `k` of a table.
pub open spec fn entry_at(s: Seq<u8>, k: int) -> RunEntry {
    RunEntry {
        id: u64_at(s, 16 + 24 * k),
        partition_id: u32_at(s, 16 + 24 * k + 8),
        generation: u32_at(s, 16 + 24 * k + 12),
        row: u32_at(s, 16 + 24 * k + 16),
        flags: u32_at(s, 16 + 24 * k + 20),
    }
}

/// Number of entries of a table.
pub open spec fn run_count(s: Seq<u8>) -> int {
    if s.len() < 16 {
        0
    } else {
        u64_at(s, 8) as int
    }
}

/// The entries of a table.
pub open spec fn entries_in(s: Seq<u8>) -> Seq<RunEntry> {
    Seq::new(run_count(s) as nat, |k: int| entry_at(s, k))
}

/// Ids in order.
pub open spec fn id_sorted(entries: Seq<RunEntry>) -> bool {
    forall|i: int, j: int| 0 <= i <= j < entries.len() ==> entries[i].id <= entries[j].id
}

/// The table is complete, and sorted by id.
pub open spec fn is_run(s: Seq<u8>) -> bool {
    &&& s.len() >= 16 + 24 * run_count(s) || run_count(s) == 0
    &&& id_sorted(entries_in(s))
}

/// The ids of entries.
pub open spec fn entry_ids(entries: Seq<RunEntry>) -> Seq<u64> {
    Seq::new(entries.len(), |i: int| entries[i].id)
}

/// The entries sorted by id; those of one id keep their order.
pub open spec fn by_id(entries: Seq<RunEntry>) -> Seq<RunEntry> {
    let order = sorted_pairs(id_slots(entry_ids(entries)));
    Seq::new(order.len(), |k: int| entries[order[k].1 as int])
}

/// Number of entries of a table.
pub fn run_entry_count(run: &[u8]) -> (n: usize)
    requires
        run_count(run@) <= usize::MAX,
    ensures
        n == run_count(run@),
{
    if run.len() < RUN_HEADER_BYTES {
        0
    } else {
        read_u64(run, 8) as usize
    }
}

/// Entry `k` of a table.
pub fn run_entry(run: &[u8], k: usize) -> (e: RunEntry)
    requires
        16 + 24 * (k + 1) <= run@.len(),
    ensures
        e == entry_at(run@, k as int),
{
    let len: usize = run.len();
    let o: usize = RUN_HEADER_BYTES + k * RUN_ENTRY_BYTES;
    RunEntry {
        id: read_u64(run, o),
        partition_id: read_u32(run, o + 8),
        generation: read_u32(run, o + 12),
        row: read_u32(run, o + 16),
        flags: read_u32(run, o + 20),
    }
}

/// The id of entry `k` of a table.
pub fn run_entry_id(run: &[u8], k: usize) -> (id: u64)
    requires
        16 + 24 * (k + 1) <= run@.len(),
    ensures
        id == entry_at(run@, k as int).id,
{
    let len: usize = run.len();
    read_u64(run, RUN_HEADER_BYTES + k * RUN_ENTRY_BYTES)
}

/// A complete table's count fits the machine.
pub proof fn lemma_run_fits(s: Seq<u8>)
    requires
        is_run(s),
        s.len() <= usize::MAX,
    ensures
        run_count(s) <= usize::MAX,
        forall|k: int| 0 <= k < run_count(s) ==> 16 + 24 * (k + 1) <= s.len() && #[trigger] entries_in(s)[k]
            == entry_at(s, k),
{
}

/// Entries take 24 bytes each.
pub proof fn lemma_entries_len(entries: Seq<RunEntry>)
    ensures
        entries_bytes(entries).len() == 24 * entries.len(),
    decreases entries.len(),
{
    if entries.len() > 0 {
        lemma_entries_len(entries.drop_last());
    }
}

/// Where an entry lies.
proof fn lemma_entry_within(entries: Seq<RunEntry>, k: int)
    requires
        0 <= k < entries.len(),
    ensures
        24 * k + 24 <= entries_bytes(entries).len(),
        entries_bytes(entries).subrange(24 * k, 24 * k + 24) == entry_bytes(entries[k]),
    decreases entries.len(),
{
    lemma_entries_len(entries);
    let init = entries.drop_last();
    lemma_entries_len(init);
    let all = entries_bytes(entries);
    if k < init.len() {
        lemma_entry_within(init, k);
        assert(all.subrange(24 * k, 24 * k + 24) =~= entries_bytes(init).subrange(24 * k, 24 * k + 24));
    } else {
        assert(all.subrange(24 * k, 24 * k + 24) =~= entry_bytes(entries.last()));
    }
}

/// An entry reads back from its bytes.
proof fn lemma_entry_round_trip(e: RunEntry, s: Seq<u8>, k: int)
    requires
        0 <= k,
        16 + 24 * k + 24 <= s.len(),
        s.subrange(16 + 24 * k, 16 + 24 * k + 24) == entry_bytes(e),
    ensures
        entry_at(s, k) == e,
{
    let o = 16 + 24 * k;
    let t = s.subrange(o, o + 24);
    let b = entry_bytes(e);
    assert(s.subrange(o, o + 8) =~= t.subrange(0, 8));
    assert(b.subrange(0, 8) =~= u64_bytes(e.id));
    assert(s.subrange(o + 8, o + 12) =~= t.subrange(8, 12));
    assert(b.subrange(8, 12) =~= u32_bytes(e.partition_id));
    assert(s.subrange(o + 12, o + 16) =~= t.subrange(12, 16));
    assert(b.subrange(12, 16) =~= u32_bytes(e.generation));
    assert(s.subrange(o + 16, o + 20) =~= t.subrange(16, 20));
    assert(b.subrange(16, 20) =~= u32_bytes(e.row));
    assert(s.subrange(o + 20, o + 24) =~= t.subrange(20, 24));
    assert(b.subrange(20, 24) =~= u32_bytes(e.flags));
    lemma_u64_round_trip(e.id, s, o);
    lemma_u32_round_trip(e.partition_id, s, o + 8);
    lemma_u32_round_trip(e.generation, s, o + 12);
    lemma_u32_round_trip(e.row, s, o + 16);
    lemma_u32_round_trip(e.flags, s, o + 20);
}

/// A table gives back the entries that were written to it.
pub proof fn law_run_round_trip(entries: Seq<RunEntry>)
    requires
        entries.len() <= u64::MAX,
    ensures
        entries_in(run_bytes(entries)) == entries,
        id_sorted(entries) ==> is_run(run_bytes(entries)),
{
    let s = run_bytes(entries);
    let n = entries.len() as u64;
    lemma_entries_len(entries);
    assert(s.subrange(8, 16) =~= u64_bytes(n));
    lemma_u64_round_trip(n, s, 8);
    assert forall|k: int| 0 <= k < entries.len() implies entry_at(s, k) == entries[k] by {
        lemma_entry_within(entries, k);
        assert(s.subrange(16 + 24 * k, 16 + 24 * k + 24) =~= entries_bytes(entries).subrange(
            24 * k,
            24 * k + 24,
        ));
        lemma_entry_round_trip(entries[k], s, k);
    }
    assert(entries_in(s) =~= entries);
}

/// Sorting orders the entries by id and keeps each of them.
pub proof fn law_by_id(entries: Seq<RunEntry>)
    requires
        entries.len() <= u64::MAX,
    ensures
        id_sorted(by_id(entries)),
        by_id(entries).len() == entries.len(),
        forall|i: int| 0 <= i < entries.len() ==> by_id(entries).contains(#[trigger] entries[i]),
        forall|k: int| 0 <= k < entries.len() ==> entries.contains(#[trigger] by_id(entries)[k]),
{
    let ids = entry_ids(entries);
    let pairs = id_slots(ids);
    let order = sorted_pairs(pairs);
    lemma_sorted_pairs(pairs);
    lemma_same_elements(order, pairs);
    let out = by_id(entries);
    assert(order.len() == entries.len());
    assert forall|k: int| 0 <= k < order.len() implies {
        &&& (#[trigger] order[k]).1 < entries.len()
        &&& order[k].0 == entries[order[k].1 as int].id
    } by {
        assert(order.contains(order[k]));
        assert(pairs.contains(order[k]));
    }
    assert forall|i: int, j: int| 0 <= i <= j < out.len() implies out[i].id <= out[j].id by {
        assert(order[i].0 == entries[order[i].1 as int].id);
        assert(order[j].0 == entries[order[j].1 as int].id);
        if i < j {
            assert(pair_leq(order[i], order[j]));
        }
    }
    assert forall|i: int| 0 <= i < entries.len() implies out.contains(#[trigger] entries[i]) by {
        assert(pairs[i] == (entries[i].id, i as u64));
        assert(pairs.contains(pairs[i]));
        assert(order.contains(pairs[i]));
        let k = choose|k: int| 0 <= k < order.len() && order[k] == pairs[i];
        assert(out[k] == entries[i]);
    }
    assert forall|k: int| 0 <= k < entries.len() implies entries.contains(#[trigger] out[k]) by {
        assert(order[k].1 < entries.len());
        assert(out[k] == entries[order[k].1 as int]);
    }
}

fn push_entry(out: &mut Vec<u8>, e: RunEntry)
    ensures
        final(out)@ == old(out)@ + entry_bytes(e),
{
    push_u64(out, e.id);
    push_u32(out, e.partition_id);
    push_u32(out, e.generation);
    push_u32(out, e.row);
    push_u32(out, e.flags);
    assert(out@ =~= old(out)@ + entry_bytes(e));
}

/// The table that holds `entries`, sorted by id.
pub fn encode_run(entries: &Vec<RunEntry>) -> (out: Vec<u8>)
    ensures
        out@ == run_bytes(by_id(entries@)),
        entries_in(out@) == by_id(entries@),
        is_run(out@),
{
    let n: usize = entries.len();
    let mut pairs: Vec<(u64, u64)> = Vec::new();
    let mut i: usize = 0;
    let ghost want = id_slots(entry_ids(entries@));
    while i < n
        invariant
            n == entries@.len(),
            i <= n,
            want == id_slots(entry_ids(entries@)),
            pairs@ == want.take(i as int),
        decreases n - i,
    {
        pairs.push((entries[i].id, i as u64));
        i = i + 1;
        assert(pairs@ =~= want.take(i as int));
    }
    assert(pairs@ =~= want);
    let order: Vec<(u64, u64)> = sort_pairs(&pairs);
    let ghost sorted = by_id(entries@);
    proof {
        law_by_id(entries@);
        law_run_round_trip(sorted);
        lemma_order_in_range(entries@);
    }
    let mut out: Vec<u8> = Vec::new();
    out.push(0x54);
    out.push(0x56);
    out.push(0x46);
    out.push(0x52);
    out.push(FORMAT_VERSION);
    out.push(0);
    out.push(0);
    out.push(0);
    push_u64(&mut out, n as u64);
    assert(out@ =~= run_header(n as u64));
    let mut k: usize = 0;
    assert(sorted.take(0) =~= Seq::<RunEntry>::empty());
    assert(out@ =~= run_header(n as u64) + entries_bytes(sorted.take(0)));
    while k < order.len()
        invariant
            k <= order@.len(),
            order@.len() == n,
            n == entries@.len(),
            sorted.len() == n,
            forall|j: int|
                0 <= j < n ==> (#[trigger] order@[j]).1 < n && sorted[j] == entries@[order@[j].1 as int],
            out@ == run_header(n as u64) + entries_bytes(sorted.take(k as int)),
        decreases order.len() - k,
    {
        assert(order@[k as int].1 < n);
        let e: RunEntry = entries[order[k].1 as usize];
        push_entry(&mut out, e);
        proof {
            assert(sorted.take(k + 1).drop_last() =~= sorted.take(k as int));
            assert(sorted.take(k + 1).last() == e);
            assert(out@ =~= run_header(n as u64) + entries_bytes(sorted.take(k + 1)));
        }
        k = k + 1;
    }
    assert(sorted.take(k as int) =~= sorted);
    out
}

proof fn lemma_order_in_range(entries: Seq<RunEntry>)
    requires
        entries.len() <= u64::MAX,
    ensures
        ({
            let order = sorted_pairs(id_slots(entry_ids(entries)));
            &&& order.len() == entries.len()
            &&& forall|j: int|
                0 <= j < order.len() ==> (#[trigger] order[j]).1 < entries.len() && by_id(entries)[j]
                    == entries[order[j].1 as int]
        }),
{
    let pairs = id_slots(entry_ids(entries));
    let order = sorted_pairs(pairs);
    lemma_sorted_pairs(pairs);
    lemma_same_elements(order, pairs);
    assert forall|j: int| 0 <= j < order.len() implies (#[trigger] order[j]).1 < entries.len() && by_id(
        entries,
    )[j] == entries[order[j].1 as int] by {
        assert(order.contains(order[j]));
        assert(pairs.contains(order[j]));
    }
}

/// The entries of `id`, in order.
pub open spec fn of_id(entries: Seq<RunEntry>, id: u64) -> Seq<RunEntry>
    decreases entries.len(),
{
    if entries.len() == 0 {
        Seq::empty()
    } else if entries.last().id == id {
        of_id(entries.drop_last(), id).push(entries.last())
    } else {
        of_id(entries.drop_last(), id)
    }
}

/// Entries of other ids do not count.
proof fn lemma_of_id_none(entries: Seq<RunEntry>, id: u64)
    requires
        forall|i: int| 0 <= i < entries.len() ==> (#[trigger] entries[i]).id != id,
    ensures
        of_id(entries, id) == Seq::<RunEntry>::empty(),
    decreases entries.len(),
{
    if entries.len() > 0 {
        let init = entries.drop_last();
        assert forall|i: int| 0 <= i < init.len() implies (#[trigger] init[i]).id != id by {
            assert(init[i] == entries[i]);
        }
        lemma_of_id_none(init, id);
    }
}

/// The entries of an id over two parts.
pub proof fn lemma_of_id_split(a: Seq<RunEntry>, b: Seq<RunEntry>, id: u64)
    ensures
        of_id(a + b, id) == of_id(a, id) + of_id(b, id),
    decreases b.len(),
{
    if b.len() == 0 {
        assert(a + b =~= a);
        assert(of_id(a, id) + Seq::<RunEntry>::empty() =~= of_id(a, id));
    } else {
        assert((a + b).drop_last() =~= a + b.drop_last());
        lemma_of_id_split(a, b.drop_last(), id);
        assert(of_id(a + b, id) =~= of_id(a, id) + of_id(b, id));
    }
}

/// The entries of `id` in a table, by binary search.
pub fn run_lookup(run: &[u8], id: u64) -> (r: Vec<RunEntry>)
    requires
        is_run(run@),
    ensures
        r@ == of_id(entries_in(run@), id),
{
    let len: usize = run.len();
    proof {
        lemma_run_fits(run@);
    }
    let ghost all = entries_in(run@);
    let count: usize = run_entry_count(run);
    let mut lo: usize = 0;
    let mut hi: usize = count;
    while lo < hi
        invariant
            is_run(run@),
            len == run@.len(),
            all == entries_in(run@),
            count == all.len(),
            lo <= hi <= count,
            forall|k: int| 0 <= k < lo ==> (#[trigger] all[k]).id < id,
            forall|k: int| hi <= k < count ==> (#[trigger] all[k]).id >= id,
        decreases hi - lo,
    {
        let mid: usize = lo + (hi - lo) / 2;
        let here: u64 = run_entry_id(run, mid);
        assert(all[mid as int].id == here);
        if here < id {
            lo = mid + 1;
        } else {
            hi = mid;
        }
    }
    let mut r: Vec<RunEntry> = Vec::new();
    let mut k: usize = lo;
    proof {
        lemma_of_id_none(all.take(lo as int), id);
    }
    while k < count && run_entry_id(run, k) == id
        invariant
            is_run(run@),
            len == run@.len(),
            all == entries_in(run@),
            count == all.len(),
            lo <= k <= count,
            r@ == of_id(all.take(k as int), id),
        decreases count - k,
    {
        let e: RunEntry = run_entry(run, k);
        r.push(e);
        proof {
            assert(all.take(k + 1).drop_last() =~= all.take(k as int));
            assert(all.take(k + 1).last() == all[k as int]);
        }
        k = k + 1;
    }
    proof {
        let rest = all.skip(k as int);
        assert forall|i: int| 0 <= i < rest.len() implies (#[trigger] rest[i]).id != id by {
            assert(rest[i] == all[k + i]);
            assert(all[k as int].id <= all[k + i].id);
            assert(all[k as int].id >= id);
            assert(all[k as int].id != id);
        }
        lemma_of_id_none(rest, id);
        lemma_of_id_split(all.take(k as int), rest, id);
        assert(all =~= all.take(k as int) + rest);
        assert(r@ + Seq::<RunEntry>::empty() =~= r@);
    }
    r
}

} // verus!
