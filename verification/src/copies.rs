//! Finding the copies of an id through the runs, and merging runs.
use std::collections::HashSet;
use vstd::prelude::*;
use vstd::seq_lib::lemma_multiset_commutative;
use crate::bits::marked;
use crate::partition::PartitionState;
use crate::runs::{
    by_id, encode_run, entries_in, is_run, lemma_of_id_split, lemma_run_fits, of_id, run_bytes, run_count, run_entry,
    run_entry_count, run_lookup, RunEntry, ENTRY_FLAG_REPLICA,
};
use crate::tier::{carry_from, lemma_reaches_unique, reaches};

verus! {

broadcast use vstd::std_specs::hash::group_hash_axioms;

/// Runs beyond which a flush merges.
pub const MAX_RUNS: usize = 6;

/// Runs beyond which all of them are merged.
pub const RUN_TIER_BACKSTOP: usize = 24;

/// A copy of a row.
#[derive(Clone, Copy, PartialEq, Eq, Structural)]
pub struct CopyLocation {
    pub partition_id: u32,
    pub row: u32,
    pub is_replica: bool,
}

/// One run.
pub struct Run {
    /// Number in the run's file name.
    pub generation: u64,
    pub bytes: Vec<u8>,
}

/// The entries of each run, oldest run first.
pub open spec fn tables(runs: Seq<Run>) -> Seq<Seq<RunEntry>> {
    Seq::new(runs.len(), |k: int| entries_in(runs[k].bytes@))
}

/// The generations of runs.
pub open spec fn generations(runs: Seq<Run>) -> Seq<u64> {
    Seq::new(runs.len(), |k: int| runs[k].generation)
}

/// Every run is complete and sorted.
pub open spec fn all_runs(runs: Seq<Run>) -> bool {
    forall|k: int| 0 <= k < runs.len() ==> is_run(#[trigger] runs[k].bytes@)
}

/// All entries, those of newer runs first.
pub open spec fn newest_first(tables: Seq<Seq<RunEntry>>) -> Seq<RunEntry>
    decreases tables.len(),
{
    if tables.len() == 0 {
        Seq::empty()
    } else {
        newest_first(tables.drop_first()) + tables[0]
    }
}

/// The first of the partitions from `k` on that has this id, or their number.
pub open spec fn place_from(parts: Seq<PartitionState>, partition_id: u32, k: int) -> int
    decreases parts.len() - k,
{
    if k >= parts.len() {
        parts.len() as int
    } else if parts[k].partition_id == partition_id {
        k
    } else {
        place_from(parts, partition_id, k + 1)
    }
}

/// The place of a partition, or the number of partitions.
pub open spec fn place(parts: Seq<PartitionState>, partition_id: u32) -> int {
    place_from(parts, partition_id, 0)
}

/// Facts of a place.
pub proof fn lemma_place(parts: Seq<PartitionState>, partition_id: u32, k: int)
    requires
        0 <= k <= parts.len(),
    ensures
        k <= place_from(parts, partition_id, k) <= parts.len(),
        place_from(parts, partition_id, k) < parts.len() ==> parts[place_from(
            parts,
            partition_id,
            k,
        )].partition_id == partition_id,
        forall|j: int|
            k <= j < place_from(parts, partition_id, k) ==> (#[trigger] parts[j]).partition_id
                != partition_id,
    decreases parts.len() - k,
{
    if k < parts.len() && parts[k].partition_id != partition_id {
        lemma_place(parts, partition_id, k + 1);
    }
}

/// The place of a partition that no earlier one shares its id with.
pub proof fn lemma_place_is(parts: Seq<PartitionState>, partition_id: u32, k: int)
    requires
        0 <= k < parts.len(),
        parts[k].partition_id == partition_id,
        forall|j: int| 0 <= j < k ==> (#[trigger] parts[j]).partition_id != partition_id,
    ensures
        place(parts, partition_id) == k,
{
    lemma_place(parts, partition_id, 0);
    let p = place(parts, partition_id);
    if p < k {
        assert(parts[p].partition_id != partition_id);
    }
}

/// The entry names a row that still exists and is alive.
pub open spec fn current(parts: Seq<PartitionState>, e: RunEntry) -> bool {
    let p = place(parts, e.partition_id);
    &&& p < parts.len()
    &&& parts[p].generation == e.generation
    &&& e.row < parts[p].n_rows
    &&& !marked(parts[p].dead@, e.row as int)
}

/// Some entry names the same row as `e`.
pub open spec fn names_row(entries: Seq<RunEntry>, partition_id: u32, row: u32) -> bool {
    exists|i: int|
        0 <= i < entries.len() && (#[trigger] entries[i]).partition_id == partition_id && entries[i].row
            == row
}

/// The current entries, the first for each row.
pub open spec fn surviving(parts: Seq<PartitionState>, entries: Seq<RunEntry>) -> Seq<RunEntry>
    decreases entries.len(),
{
    if entries.len() == 0 {
        Seq::empty()
    } else {
        let kept = surviving(parts, entries.drop_last());
        let e = entries.last();
        if current(parts, e) && !names_row(kept, e.partition_id, e.row) {
            kept.push(e)
        } else {
            kept
        }
    }
}

/// The copy that an entry names.
pub open spec fn copy_of(e: RunEntry) -> CopyLocation {
    CopyLocation {
        partition_id: e.partition_id,
        row: e.row,
        is_replica: e.flags % 2 == ENTRY_FLAG_REPLICA,
    }
}

/// The live copies of `id`, those of newer runs first.
pub open spec fn copies_of(parts: Seq<PartitionState>, runs: Seq<Run>, id: u64) -> Seq<CopyLocation> {
    let kept = surviving(parts, of_id(newest_first(tables(runs)), id));
    Seq::new(kept.len(), |k: int| copy_of(kept[k]))
}

/// The place of the partition with this id.
pub fn partition_position(parts: &Vec<PartitionState>, partition_id: u32) -> (r: Option<usize>)
    ensures
        match r {
            Some(p) => p == place(parts@, partition_id) && p < parts@.len(),
            None => place(parts@, partition_id) == parts@.len(),
        },
{
    let mut k: usize = 0;
    while k < parts.len()
        invariant
            k <= parts@.len(),
            place(parts@, partition_id) == place_from(parts@, partition_id, k as int),
        decreases parts.len() - k,
    {
        if parts[k].partition_id == partition_id {
            return Some(k);
        }
        k = k + 1;
    }
    None
}

/// Whether the entry names a row that still exists and is alive.
pub fn is_current(parts: &Vec<PartitionState>, e: RunEntry) -> (r: bool)
    ensures
        r == current(parts@, e),
{
    proof {
        lemma_place(parts@, e.partition_id, 0);
    }
    match partition_position(parts, e.partition_id) {
        None => false,
        Some(p) => parts[p].generation == e.generation && (e.row as u64) < parts[p].n_rows
            && !parts[p].is_dead(e.row as u64),
    }
}

/// One number per row.
spec fn row_key(partition_id: u32, row: u32) -> u64 {
    (partition_id * 0x1_0000_0000 + row) as u64
}

/// The set holds the rows that are named.
spec fn keyed(kept: Seq<RunEntry>, seen: Set<u64>) -> bool {
    forall|p: u32, r: u32| #[trigger] seen.contains(row_key(p, r)) <==> names_row(kept, p, r)
}

proof fn lemma_row_key(p: u32, r: u32, q: u32, s: u32)
    ensures
        row_key(p, r) == row_key(q, s) <==> p == q && r == s,
{
}

/// Keeps the current entries of `entries` that name a new row.
fn keep_current(
    parts: &Vec<PartitionState>,
    entries: &Vec<RunEntry>,
    seen: &mut HashSet<u64>,
    kept: &mut Vec<RunEntry>,
    before: Ghost<Seq<RunEntry>>,
)
    requires
        old(kept)@ == surviving(parts@, before@),
        keyed(old(kept)@, old(seen)@),
    ensures
        final(kept)@ == surviving(parts@, before@ + entries@),
        keyed(final(kept)@, final(seen)@),
{
    let mut k: usize = 0;
    assert(before@ + entries@.take(0) =~= before@);
    while k < entries.len()
        invariant
            k <= entries@.len(),
            kept@ == surviving(parts@, before@ + entries@.take(k as int)),
            keyed(kept@, seen@),
        decreases entries.len() - k,
    {
        let e: RunEntry = entries[k];
        let key: u64 = e.partition_id as u64 * 0x1_0000_0000 + e.row as u64;
        let ghost next = before@ + entries@.take(k + 1);
        proof {
            assert(next.drop_last() =~= before@ + entries@.take(k as int));
            assert(next.last() == e);
            assert(key == row_key(e.partition_id, e.row));
        }
        if is_current(parts, e) && !seen.contains(&key) {
            let ghost old_kept = kept@;
            let ghost old_seen = seen@;
            seen.insert(key);
            kept.push(e);
            proof {
                assert forall|p: u32, r: u32| #[trigger] seen@.contains(row_key(p, r)) <==> names_row(
                    kept@,
                    p,
                    r,
                ) by {
                    lemma_row_key(p, r, e.partition_id, e.row);
                    assert(old_seen.contains(row_key(p, r)) <==> names_row(old_kept, p, r));
                    if names_row(old_kept, p, r) {
                        let i = choose|i: int|
                            0 <= i < old_kept.len() && (#[trigger] old_kept[i]).partition_id == p
                                && old_kept[i].row == r;
                        assert(kept@[i] == old_kept[i]);
                    }
                    if p == e.partition_id && r == e.row {
                        assert(kept@[old_kept.len() as int] == e);
                    }
                    if names_row(kept@, p, r) && !(p == e.partition_id && r == e.row) {
                        let i = choose|i: int|
                            0 <= i < kept@.len() && (#[trigger] kept@[i]).partition_id == p && kept@[i].row
                                == r;
                        assert(old_kept[i] == kept@[i]);
                    }
                }
            }
        }
        k = k + 1;
    }
    assert(entries@.take(k as int) =~= entries@);
}

/// The live copies of `id`: the entries of the runs, newest run first, whose
/// row still exists under its generation and is not dead, one per row.
pub fn live_copies(parts: &Vec<PartitionState>, runs: &Vec<Run>, id: u64) -> (r: Vec<CopyLocation>)
    requires
        all_runs(runs@),
    ensures
        r@ == copies_of(parts@, runs@, id),
{
    let mut kept: Vec<RunEntry> = Vec::new();
    let mut seen: HashSet<u64> = HashSet::new();
    let mut k: usize = runs.len();
    let ghost all = tables(runs@);
    proof {
        assert(all.skip(k as int) =~= Seq::<Seq<RunEntry>>::empty());
    }
    while k > 0
        invariant
            all_runs(runs@),
            k <= runs@.len(),
            all == tables(runs@),
            kept@ == surviving(parts@, of_id(newest_first(all.skip(k as int)), id)),
            keyed(kept@, seen@),
        decreases k,
    {
        k = k - 1;
        let ghost newer = newest_first(all.skip(k + 1));
        proof {
            let here = all.skip(k as int);
            assert(here.drop_first() =~= all.skip(k + 1));
            assert(here[0] == all[k as int]);
            assert(newest_first(here) == newer + all[k as int]);
            lemma_of_id_split(newer, all[k as int], id);
            assert(is_run(runs@[k as int].bytes@));
        }
        let found: Vec<RunEntry> = run_lookup(runs[k].bytes.as_slice(), id);
        keep_current(parts, &found, &mut seen, &mut kept, Ghost(of_id(newer, id)));
    }
    assert(all.skip(0) =~= all);
    let mut out: Vec<CopyLocation> = Vec::new();
    let mut i: usize = 0;
    while i < kept.len()
        invariant
            i <= kept@.len(),
            kept@ == surviving(parts@, of_id(newest_first(all), id)),
            all == tables(runs@),
            out@ == copies_of(parts@, runs@, id).take(i as int),
        decreases kept.len() - i,
    {
        let e: RunEntry = kept[i];
        out.push(
            CopyLocation { partition_id: e.partition_id, row: e.row, is_replica: e.flags % 2 == 1 },
        );
        i = i + 1;
        assert(out@ =~= copies_of(parts@, runs@, id).take(i as int));
    }
    assert(out@ =~= copies_of(parts@, runs@, id));
    out
}

/// The entries of a run.
pub fn run_entries(run: &[u8]) -> (r: Vec<RunEntry>)
    requires
        is_run(run@),
    ensures
        r@ == entries_in(run@),
{
    let len: usize = run.len();
    proof {
        lemma_run_fits(run@);
    }
    let n: usize = run_entry_count(run);
    let mut r: Vec<RunEntry> = Vec::new();
    let mut k: usize = 0;
    while k < n
        invariant
            is_run(run@),
            len == run@.len(),
            n == run_count(run@),
            k <= n,
            r@ == entries_in(run@).take(k as int),
        decreases n - k,
    {
        r.push(run_entry(run, k));
        k = k + 1;
        assert(r@ =~= entries_in(run@).take(k as int));
    }
    assert(r@ =~= entries_in(run@));
    r
}

/// The runs `from..to` merged into one that takes their place.
pub open spec fn merged_range(
    parts: Seq<PartitionState>,
    all: Seq<Seq<RunEntry>>,
    from: int,
    to: int,
) -> Seq<Seq<RunEntry>> {
    all.take(from).push(by_id(surviving(parts, newest_first(all.subrange(from, to))))) + all.skip(to)
}

/// No more entries survive than there were.
pub proof fn lemma_surviving_len(parts: Seq<PartitionState>, entries: Seq<RunEntry>)
    ensures
        surviving(parts, entries).len() <= entries.len(),
    decreases entries.len(),
{
    if entries.len() > 0 {
        lemma_surviving_len(parts, entries.drop_last());
    }
}

/// The current entries of `runs`, those of newer runs first, one per row.
fn current_entries(parts: &Vec<PartitionState>, runs: &Vec<Run>) -> (kept: Vec<RunEntry>)
    requires
        all_runs(runs@),
    ensures
        kept@ == surviving(parts@, newest_first(tables(runs@))),
{
    let mut kept: Vec<RunEntry> = Vec::new();
    let mut seen: HashSet<u64> = HashSet::new();
    let mut k: usize = runs.len();
    let ghost all = tables(runs@);
    proof {
        assert(all.skip(k as int) =~= Seq::<Seq<RunEntry>>::empty());
    }
    while k > 0
        invariant
            all_runs(runs@),
            k <= runs@.len(),
            all == tables(runs@),
            kept@ == surviving(parts@, newest_first(all.skip(k as int))),
            keyed(kept@, seen@),
        decreases k,
    {
        k = k - 1;
        let ghost newer = newest_first(all.skip(k + 1));
        proof {
            let here = all.skip(k as int);
            assert(here.drop_first() =~= all.skip(k + 1));
            assert(here[0] == all[k as int]);
            assert(newest_first(here) == newer + all[k as int]);
            assert(is_run(runs@[k as int].bytes@));
        }
        let found: Vec<RunEntry> = run_entries(runs[k].bytes.as_slice());
        keep_current(parts, &found, &mut seen, &mut kept, Ghost(newer));
    }
    assert(all.skip(0) =~= all);
    kept
}

/// `n` generations from `first` on.
pub open spec fn fresh_generations(first: u64, n: int) -> Seq<u64> {
    Seq::new(n as nat, |i: int| (first + i) as u64)
}

/// Every generation that was in use, and each of `made` new ones from `first`
/// on, is either in use or dropped, and none twice over.
pub open spec fn accounted(
    used: Seq<u64>,
    dropped: Seq<u64>,
    used_now: Seq<u64>,
    dropped_now: Seq<u64>,
    first: u64,
    made: int,
) -> bool {
    used_now.to_multiset().add(dropped_now.to_multiset()) == used.to_multiset().add(
        dropped.to_multiset(),
    ).add(fresh_generations(first, made).to_multiset())
}

proof fn lemma_accounted(used: Seq<u64>, dropped: Seq<u64>, from: int, to: int, g: u64)
    requires
        0 <= from <= to <= used.len(),
    ensures
        accounted(
            used,
            dropped,
            used.take(from).push(g) + used.skip(to),
            dropped + used.subrange(from, to),
            g,
            1,
        ),
{
    let a = used.take(from);
    let b = used.subrange(from, to);
    let c = used.skip(to);
    let one = seq![g];
    assert(used =~= a + (b + c));
    assert(used.take(from).push(g) =~= a + one);
    assert(fresh_generations(g, 1) =~= one);
    lemma_multiset_commutative(a, b + c);
    lemma_multiset_commutative(b, c);
    lemma_multiset_commutative(a + one, c);
    lemma_multiset_commutative(a, one);
    lemma_multiset_commutative(dropped, b);
    assert((a + one + c).to_multiset().add((dropped + b).to_multiset()) =~= used.to_multiset().add(
        dropped.to_multiset(),
    ).add(one.to_multiset()));
}

proof fn lemma_accounted_step(
    used: Seq<u64>,
    dropped: Seq<u64>,
    used_mid: Seq<u64>,
    dropped_mid: Seq<u64>,
    used_now: Seq<u64>,
    dropped_now: Seq<u64>,
    first: u64,
    made: int,
)
    requires
        0 <= made,
        first + made <= u64::MAX,
        accounted(used, dropped, used_mid, dropped_mid, first, made),
        accounted(used_mid, dropped_mid, used_now, dropped_now, (first + made) as u64, 1),
    ensures
        accounted(used, dropped, used_now, dropped_now, first, made + 1),
{
    let a = fresh_generations(first, made);
    let b = fresh_generations((first + made) as u64, 1);
    assert(fresh_generations(first, made + 1) =~= a + b);
    lemma_multiset_commutative(a, b);
    assert(used_now.to_multiset().add(dropped_now.to_multiset()) =~= used.to_multiset().add(
        dropped.to_multiset(),
    ).add((a + b).to_multiset()));
}

/// What stands after the runs `from..to` have given way to `merged`.
proof fn lemma_spliced(
    parts: Seq<PartitionState>,
    start: Seq<Run>,
    from: int,
    to: int,
    merged: Run,
    kept: Seq<RunEntry>,
)
    requires
        all_runs(start),
        0 <= from <= to <= start.len(),
        is_run(merged.bytes@),
        kept == surviving(parts, newest_first(tables(start).subrange(from, to))),
        entries_in(merged.bytes@) == by_id(kept),
    ensures
        all_runs(start.take(from).push(merged) + start.skip(to)),
        tables(start.take(from).push(merged) + start.skip(to)) == merged_range(parts, tables(start), from, to),
        generations(start.take(from).push(merged) + start.skip(to)) == generations(start).take(from).push(
            merged.generation,
        ) + generations(start).skip(to),
{
    let end = start.take(from).push(merged) + start.skip(to);
    assert forall|k: int| 0 <= k < end.len() implies is_run(#[trigger] end[k].bytes@) by {
        if k < from {
            assert(end[k] == start[k]);
        } else if k > from {
            assert(end[k] == start[to + (k - from - 1)]);
        }
    }
    assert(tables(end) =~= merged_range(parts, tables(start), from, to));
    assert(generations(end) =~= generations(start).take(from).push(merged.generation) + generations(start).skip(
        to,
    ));
}

/// The run's bytes are those of its entries.
pub open spec fn plain(run: Run) -> bool {
    run.bytes@ == run_bytes(entries_in(run.bytes@))
}

/// Every run of `b` is one of `a`, or was made of its entries.
#[verifier::opaque]
pub open spec fn kept_or_made(a: Seq<Run>, b: Seq<Run>) -> bool {
    forall|k: int| 0 <= k < b.len() ==> a.contains(#[trigger] b[k]) || plain(b[k])
}

/// Runs that stay are kept.
pub proof fn lemma_all_kept(a: Seq<Run>)
    ensures
        kept_or_made(a, a),
{
    reveal(kept_or_made);
    assert forall|k: int| 0 <= k < a.len() implies a.contains(#[trigger] a[k]) by {}
}

/// A run that was made behind others.
pub proof fn lemma_one_made(a: Seq<Run>, b: Seq<Run>)
    requires
        b.len() == a.len() + 1,
        forall|k: int| 0 <= k < a.len() ==> #[trigger] b[k] == a[k],
        plain(b.last()),
    ensures
        kept_or_made(a, b),
{
    reveal(kept_or_made);
    assert forall|k: int| 0 <= k < b.len() implies a.contains(#[trigger] b[k]) || plain(b[k]) by {
        if k < a.len() {
            assert(b[k] == a[k]);
        }
    }
}

/// What is kept or made of runs that were kept or made is so too.
pub proof fn lemma_kept_or_made(a: Seq<Run>, b: Seq<Run>, c: Seq<Run>)
    requires
        kept_or_made(a, b),
        kept_or_made(b, c),
    ensures
        kept_or_made(a, c),
{
    reveal(kept_or_made);
    assert forall|k: int| 0 <= k < c.len() implies a.contains(#[trigger] c[k]) || plain(c[k]) by {
        if b.contains(c[k]) {
            let j = choose|j: int| 0 <= j < b.len() && b[j] == c[k];
            assert(a.contains(b[j]) || plain(b[j]));
        }
    }
}

/// Merges the runs `from..to` into one, of generation `*next_generation`, that
/// takes their place; the generations of the merged runs go to `dropped`.
pub fn merge_run_range(
    parts: &Vec<PartitionState>,
    runs: &mut Vec<Run>,
    from: usize,
    to: usize,
    next_generation: &mut u64,
    dropped: &mut Vec<u64>,
)
    requires
        all_runs(old(runs)@),
        from <= to <= old(runs)@.len(),
        *old(next_generation) < u64::MAX,
    ensures
        all_runs(final(runs)@),
        tables(final(runs)@) == merged_range(parts@, tables(old(runs)@), from as int, to as int),
        final(runs)@ == old(runs)@.take(from as int).push(final(runs)@[from as int]) + old(runs)@.skip(to as int),
        plain(final(runs)@[from as int]),
        generations(final(runs)@) == generations(old(runs)@).take(from as int).push(
            *old(next_generation),
        ) + generations(old(runs)@).skip(to as int),
        *final(next_generation) == *old(next_generation) + 1,
        accounted(
            generations(old(runs)@),
            old(dropped)@,
            generations(final(runs)@),
            final(dropped)@,
            *old(next_generation),
            1,
        ),
        final(dropped)@ == old(dropped)@ + generations(old(runs)@).subrange(from as int, to as int),
{
    let ghost start = runs@;
    let mut tail: Vec<Run> = runs.split_off(to);
    let range: Vec<Run> = runs.split_off(from);
    proof {
        assert forall|k: int| 0 <= k < range@.len() implies is_run(#[trigger] range@[k].bytes@) by {
            assert(range@[k] == start[from + k]);
        }
        assert(tables(range@) =~= tables(start).subrange(from as int, to as int));
    }
    let kept: Vec<RunEntry> = current_entries(parts, &range);
    let bytes: Vec<u8> = encode_run(&kept);
    let mut i: usize = 0;
    let ghost gone = generations(start).subrange(from as int, to as int);
    assert(dropped@ =~= old(dropped)@ + gone.take(0));
    while i < range.len()
        invariant
            i <= range@.len(),
            range@.len() == to - from,
            from <= to <= start.len(),
            forall|k: int| 0 <= k < range@.len() ==> #[trigger] range@[k] == start[from + k],
            gone == generations(start).subrange(from as int, to as int),
            dropped@ == old(dropped)@ + gone.take(i as int),
        decreases range.len() - i,
    {
        assert(range@[i as int] == start[from + i]);
        dropped.push(range[i].generation);
        i = i + 1;
        assert(dropped@ =~= old(dropped)@ + gone.take(i as int));
    }
    assert(gone.take(i as int) =~= gone);
    let generation: u64 = *next_generation;
    *next_generation = generation + 1;
    let ghost merged = Run { generation, bytes };
    runs.push(Run { generation, bytes });
    runs.append(&mut tail);
    proof {
        assert(runs@ =~= start.take(from as int).push(merged) + start.skip(to as int));
        assert(runs@[from as int] == merged);
        lemma_spliced(parts@, start, from as int, to as int, merged, kept@);
        lemma_accounted(generations(start), old(dropped)@, from as int, to as int, generation);
    }
}

proof fn lemma_spliced_runs(a: Seq<Run>, b: Seq<Run>, from: int, to: int)
    requires
        0 <= from <= to <= a.len(),
        b == a.take(from).push(b[from]) + a.skip(to),
        plain(b[from]),
    ensures
        kept_or_made(a, b),
{
    reveal(kept_or_made);
    assert forall|k: int| 0 <= k < b.len() implies a.contains(#[trigger] b[k]) || plain(b[k]) by {
        if k < from {
            assert(b[k] == a[k]);
        } else if k > from {
            assert(b[k] == a[to + (k - from - 1)]);
        }
    }
}

/// The sizes of tables.
pub open spec fn sizes_of(all: Seq<Seq<RunEntry>>) -> Seq<u64> {
    Seq::new(all.len(), |k: int| all[k].len() as u64)
}

/// How far back a merge of the newest tables reaches.
pub open spec fn carry(all: Seq<Seq<RunEntry>>) -> int {
    choose|r: int| reaches(sizes_of(all), r)
}

/// Merging as long as the newest tables together are at least as large as the
/// one in front of them.
pub open spec fn tier_merged(parts: Seq<PartitionState>, all: Seq<Seq<RunEntry>>) -> Seq<Seq<RunEntry>>
    decreases all.len(),
{
    let from = carry(all);
    if all.len() < 2 || from < 0 || from >= all.len() - 1 {
        all
    } else {
        tier_merged(parts, merged_range(parts, all, from, all.len() as int))
    }
}

/// What a flush leaves of the runs.
pub open spec fn tidied(parts: Seq<PartitionState>, all: Seq<Seq<RunEntry>>) -> Seq<Seq<RunEntry>> {
    let t = tier_merged(parts, all);
    if t.len() > RUN_TIER_BACKSTOP {
        merged_range(parts, t, 0, t.len() as int)
    } else {
        t
    }
}

/// The sizes of the runs.
fn run_sizes(runs: &Vec<Run>) -> (r: Vec<u64>)
    requires
        all_runs(runs@),
    ensures
        r@ == sizes_of(tables(runs@)),
{
    let mut r: Vec<u64> = Vec::new();
    let mut k: usize = 0;
    while k < runs.len()
        invariant
            all_runs(runs@),
            k <= runs@.len(),
            r@ == sizes_of(tables(runs@)).take(k as int),
        decreases runs.len() - k,
    {
        let len: usize = runs[k].bytes.len();
        proof {
            assert(is_run(runs@[k as int].bytes@));
            lemma_run_fits(runs@[k as int].bytes@);
        }
        r.push(run_entry_count(runs[k].bytes.as_slice()) as u64);
        k = k + 1;
        assert(r@ =~= sizes_of(tables(runs@)).take(k as int));
    }
    assert(r@ =~= sizes_of(tables(runs@)));
    r
}

/// Merges runs in size tiers, and all of them if too many are left. Returns
/// the number of merges.
pub fn tier_merge_runs(
    parts: &Vec<PartitionState>,
    runs: &mut Vec<Run>,
    next_generation: &mut u64,
    dropped: &mut Vec<u64>,
) -> (merges: u64)
    requires
        all_runs(old(runs)@),
        *old(next_generation) + old(runs)@.len() <= u64::MAX,
    ensures
        all_runs(final(runs)@),
        tables(final(runs)@) == tidied(parts@, tables(old(runs)@)),
        kept_or_made(old(runs)@, final(runs)@),
        *final(next_generation) == *old(next_generation) + merges,
        accounted(
            generations(old(runs)@),
            old(dropped)@,
            generations(final(runs)@),
            final(dropped)@,
            *old(next_generation),
            merges as int,
        ),
{
    let ghost start = tables(runs@);
    let ghost first = *next_generation;
    let ghost room = runs@.len();
    let mut merges: u64 = 0;
    let mut more: bool = true;
    proof {
        let none = fresh_generations(first, 0);
        assert(none =~= Seq::<u64>::empty());
        none.to_multiset_ensures();
        assert(generations(runs@).to_multiset().add(dropped@.to_multiset()) =~= generations(
            runs@,
        ).to_multiset().add(dropped@.to_multiset()).add(none.to_multiset()));
    }
    proof {
        lemma_all_kept(runs@);
    }
    while more
        invariant
            kept_or_made(old(runs)@, runs@),
            accounted(
                generations(old(runs)@),
                old(dropped)@,
                generations(runs@),
                dropped@,
                first,
                merges as int,
            ),
            all_runs(runs@),
            tier_merged(parts@, tables(runs@)) == tier_merged(parts@, start),
            !more ==> tables(runs@) == tier_merged(parts@, start),
            *next_generation == first + merges,
            merges + runs@.len() <= room,
            merges > 0 ==> runs@.len() >= 1,
            first + room <= u64::MAX,
        decreases runs@.len() + (if more {
            1int
        } else {
            0
        }),
    {
        let n: usize = runs.len();
        if n < 2 {
            more = false;
        } else {
            let sizes: Vec<u64> = run_sizes(runs);
            let from: usize = carry_from(&sizes);
            proof {
                lemma_reaches_unique(sizes@, from as int, carry(tables(runs@)));
            }
            if from == n - 1 {
                more = false;
            } else {
                let ghost was = tables(runs@);
                let ghost had = runs@;
                let ghost used = generations(runs@);
                let ghost gone = dropped@;
                merge_run_range(parts, runs, from, n, next_generation, dropped);
                proof {
                    lemma_spliced_runs(had, runs@, from as int, n as int);
                    lemma_kept_or_made(old(runs)@, had, runs@);
                    lemma_accounted_step(
                        generations(old(runs)@),
                        old(dropped)@,
                        used,
                        gone,
                        generations(runs@),
                        dropped@,
                        first,
                        merges as int,
                    );
                }
                merges = merges + 1;
                proof {
                    let now = tables(runs@);
                    assert(now.len() == from + 1);
                    assert(tier_merged(parts@, was) == tier_merged(parts@, now));
                }
            }
        }
    }
    if runs.len() > RUN_TIER_BACKSTOP {
        let n: usize = runs.len();
        let ghost had = runs@;
        let ghost used = generations(runs@);
        let ghost gone = dropped@;
        merge_run_range(parts, runs, 0, n, next_generation, dropped);
        proof {
            lemma_spliced_runs(had, runs@, 0, n as int);
            lemma_kept_or_made(old(runs)@, had, runs@);
            lemma_accounted_step(
                generations(old(runs)@),
                old(dropped)@,
                used,
                gone,
                generations(runs@),
                dropped@,
                first,
                merges as int,
            );
        }
        merges = merges + 1;
    }
    merges
}

} // verus!
