//! What is kept of rows when they are gathered, written, removed and looked up,
//! and which files stay.
use vstd::prelude::*;
use crate::compact::{slots_of, GatheredRows, Placement, SegmentParams, NO_PARTITION, NO_SLOT};
use crate::contents::{replicas_in, rows_in, u32_section};
use crate::copies::{carry, sizes_of, tier_merged};
use crate::delta::{plane_row_bytes, Delta};
use crate::disk::{row_of, DiskIndex};
use crate::fresh::FreshIndex;
use crate::gather::{lemma_survivors, survivors};
use crate::ingest::runs_after;
use crate::math::{lemma_flat_bound, lemma_flat_index};
use crate::move_laws::increasing;
use crate::names::{file_named, manifest_name, wal_name, Fate};
use crate::pack::{groups, plane_code, row_code};
use crate::partition::PartitionState;
use crate::retirement::{past, without, StoredFile};
use crate::runs::{by_id, entries_in, of_id, run_lookup, RunEntry};
use crate::segment::Segment;
use crate::tier::{reaches, sum_from};
use crate::tvdm::{hdr_calib, hdr_nlist, hdr_slots, u64_section};
use crate::write_laws::{lemma_picked_row, lemma_slot_of_written};

verus! {

/// Every copy of a row that is written has the row's scale, codes and vector.
pub proof fn law_written_copies_repeat_their_row(
    s: Segment,
    params: SegmentParams,
    g: GatheredRows,
    p: Placement,
    a: int,
    i: int,
)
    requires
        s.wf(),
        s.places(params, g, p),
        g.wf(params),
        p.wf(g.ids@.len() as int, params.dim as int),
        0 <= a < s.ids@.len(),
        0 <= i < g.ids@.len(),
        s.ids@[a] == g.ids@[i],
    ensures
        s.scales@[a] == g.scales@[i],
        ({
            let ng = groups(params.bit_width as int, params.dim as int);
            row_of(s.rows@, ng, a) == row_of(g.rows@, ng, i)
        }),
        params.has_vectors ==> row_of(s.vectors@, params.dim as int, a) == row_of(g.vectors@, params.dim as int, i),
{
    let e = slots_of(p);
    let idx = crate::compact::rows_of(e);
    let n = g.ids@.len() as int;
    let ng = groups(params.bit_width as int, params.dim as int);
    lemma_slot_of_written(s, params, g, p, a);
    assert(idx[a] == e[a].row);
    assert(s.ids@[a] == g.ids@[idx[a] as int]);
    assert(idx[a] == i);
    lemma_picked_row(g.rows@, ng, idx, n, a);
    if params.has_vectors {
        lemma_picked_row(g.vectors@, params.dim as int, idx, n, a);
    }
}

/// Gathered row `k` is that of base slot `slot`.
pub open spec fn is_base_row(x: DiskIndex, file: Seq<u8>, g: GatheredRows, k: int, slot: int) -> bool {
    let ng = groups(x.bit_width as int, x.delta.width());
    &&& 0 <= slot < hdr_slots(file)
    &&& g.ids@[k] == u64_section(file, 7)[slot]
    &&& g.scales@[k] == u32_section(file, 4, hdr_slots(file) as int)[slot]
    &&& g.base_slot@[k] == slot
    &&& forall|b: int|
        0 <= b < ng ==> g.rows@[k * ng + b] == #[trigger] rows_in(file, x.flavor, hdr_nlist(file) as int)[slot * ng + b]
}

/// Gathered row `k` is added row `j`.
pub open spec fn is_added_row(x: DiskIndex, g: GatheredRows, k: int, j: int) -> bool {
    &&& 0 <= j < x.delta.ids@.len()
    &&& g.ids@[k] == x.delta.ids@[j]
    &&& g.scales@[k] == x.delta.scales@[j]
    &&& g.base_slot@[k] == NO_SLOT
    &&& g.source_partition@[k] == NO_PARTITION
    &&& forall|d: int|
        0 <= d < x.delta.width() ==> row_code(g.rows@, k, d, x.bit_width as int, x.delta.width())
            == #[trigger] plane_code(x.delta.codes@, j, d, x.bit_width as int, x.delta.width())
}

/// Added row `j` comes behind `n` others.
pub open spec fn added_behind(x: DiskIndex, g: GatheredRows, n: int, j: int) -> bool {
    is_added_row(x, g, n + j, j)
}

/// Gathering keeps, of the base, the rows that are first copies of ids that are
/// not removed, and behind them all added rows, each with its scale and codes.
pub proof fn law_live_rows_are_gathered(x: DiskIndex, file: Seq<u8>, g: GatheredRows)
    requires
        x.wf(file),
        x.gathers(file, g),
        g.wf(x.segment_params()),
    ensures
        exists|at: Seq<int>|
            #![trigger increasing(at)]
            {
                &&& increasing(at)
                &&& g.ids@.len() == at.len() + x.delta.ids@.len()
                &&& forall|k: int| 0 <= k < at.len() ==> is_base_row(x, file, g, k, #[trigger] at[k])
                &&& forall|j: int| 0 <= j < x.delta.ids@.len() ==> #[trigger] added_behind(x, g, at.len() as int, j)
                &&& x.base is None ==> at.len() == 0
                &&& x.base is Some ==> forall|slot: int|
                    at.contains(slot) <==> 0 <= slot < hdr_slots(file) && !replicas_in(file)[slot]
                        && !x.tombstones@.contains(#[trigger] u64_section(file, 7)[slot])
            },
{
    let at = x.kept_slots(file);
    let bits = x.bit_width as int;
    let d = x.delta.width();
    let ng = groups(bits, d);
    let m = x.delta.ids@.len() as int;
    let n = at.len() as int;
    let total = hdr_slots(file) as int;
    lemma_survivors(file, x.tombstones@, total);
    assert(increasing(at));
    assert(0 <= ng);
    assert(0 <= n * ng && 0 <= m * ng && (n + m) * ng == n * ng + m * ng) by (nonlinear_arith)
        requires
            0 <= n,
            0 <= m,
            0 <= ng,
    ;
    assert forall|k: int| 0 <= k < n implies is_base_row(x, file, g, k, #[trigger] at[k]) by {
        assert forall|b: int| 0 <= b < ng implies g.rows@[k * ng + b] == #[trigger] rows_in(
            file,
            x.flavor,
            hdr_nlist(file) as int,
        )[at[k] * ng + b] by {
            lemma_flat_bound(k, b, n, ng);
            lemma_flat_index(k, b, ng);
        }
        assert(g.base_slot@[k] == at[k]);
    }
    assert forall|j: int| 0 <= j < m implies #[trigger] added_behind(x, g, n, j) by {
        let more = crate::pack::group_rows(x.delta.codes@, m, bits, d);
        assert(g.base_slot@[n + j] == NO_SLOT);
        assert forall|c: int| 0 <= c < d implies row_code(g.rows@, n + j, c, bits, d) == #[trigger] plane_code(
            x.delta.codes@,
            j,
            c,
            bits,
            d,
        ) by {
            crate::pack::law_group_rows_keep_codes(x.delta.codes@, m, j, c, bits, d);
            let b = c / crate::pack::codes_per_byte(bits);
            lemma_group_of_coordinate(bits, d, c);
            lemma_flat_bound(j, b, m, ng);
            assert((n + j) * ng == n * ng + j * ng) by (nonlinear_arith);
            assert(g.rows@[(n + j) * ng + b] == more[j * ng + b]);
        }
    }
    if x.base is Some {
        assert forall|slot: int| at.contains(slot) <==> 0 <= slot < hdr_slots(file) && !replicas_in(file)[slot]
            && !x.tombstones@.contains(#[trigger] u64_section(file, 7)[slot]) by {
            if at.contains(slot) {
                let k = choose|k: int| 0 <= k < at.len() && at[k] == slot;
                assert(survivors(file, x.tombstones@, total)[k] == slot);
            }
        }
    }
}

proof fn lemma_group_of_coordinate(bits: int, d: int, c: int)
    requires
        2 <= bits <= 4,
        d % 8 == 0,
        0 <= c < d,
    ensures
        0 <= c / crate::pack::codes_per_byte(bits) < groups(bits, d),
{
    if bits == 2 {
        assert(crate::pack::codes_per_byte(bits) == 4);
        assert(0 <= c / 4 < d / 4);
    } else {
        assert(crate::pack::codes_per_byte(bits) == 2);
        assert(0 <= c / 2 < d / 2);
    }
}

/// Rows that are added come behind those that were there, each with its id,
/// scale, codes and vector, and the others keep theirs.
pub proof fn law_added_rows_come_behind(
    a: Delta,
    b: Delta,
    bits: int,
    dim: usize,
    ids: Seq<u64>,
    codes: Seq<u8>,
    scales: Seq<u32>,
    vectors: Seq<u32>,
    store: bool,
    k: int,
)
    requires
        a.wf(bits, store),
        b.wf(bits, store),
        b.with_rows(a, dim, ids, codes, scales, vectors, store),
        a.dim is None || a.dim == Some(dim),
        1 <= bits <= 8,
        ids.len() == scales.len(),
        0 <= k < b.ids@.len(),
    ensures
        ({
            let n = a.ids@.len() as int;
            let w = plane_row_bytes(bits, dim as int);
            let d = dim as int;
            &&& b.ids@.len() == n + ids.len()
            &&& k < n ==> b.ids@[k] == a.ids@[k] && b.scales@[k] == a.scales@[k] && row_of(b.codes@, w, k) == row_of(
                a.codes@,
                w,
                k,
            ) && (store ==> row_of(b.vectors@, d, k) == row_of(a.vectors@, d, k))
            &&& k >= n ==> b.ids@[k] == ids[k - n] && b.scales@[k] == scales[k - n] && row_of(b.codes@, w, k)
                == row_of(codes, w, k - n) && (store ==> row_of(b.vectors@, d, k) == row_of(vectors, d, k - n))
        }),
{
    let n = a.ids@.len() as int;
    let m = ids.len() as int;
    let d = dim as int;
    let w = plane_row_bytes(bits, d);
    assert(0 <= bits * (d / 8)) by (nonlinear_arith)
        requires
            1 <= bits,
            0 <= d,
    ;
    assert(n > 0 ==> a.width() == d);
    if n == 0 {
        let u = plane_row_bytes(bits, a.width());
        assert(0 * u == 0 && 0 * w == 0 && 0 * d == 0) by (nonlinear_arith);
        let v = a.width();
        assert(0 * v == 0) by (nonlinear_arith);
    }
    lemma_joined_row(a.codes@, codes, w, n, m, k);
    if store {
        lemma_joined_row(a.vectors@, vectors, d, n, m, k);
    }
}

proof fn lemma_joined_row<T>(a: Seq<T>, b: Seq<T>, w: int, n: int, m: int, k: int)
    requires
        0 <= w,
        0 <= n,
        0 <= k < n + m,
        a.len() == n * w,
        (a + b).len() == (n + m) * w,
    ensures
        k < n ==> row_of(a + b, w, k) == row_of(a, w, k),
        k >= n ==> row_of(a + b, w, k) == row_of(b, w, k - n),
{
    assert((k + 1) * w == k * w + w && (k - n) * w == k * w - n * w && (k - n + 1) * w == k * w - n * w + w)
        by (nonlinear_arith);
    assert(0 <= k * w && (k + 1) * w <= (n + m) * w) by (nonlinear_arith)
        requires
            0 <= k < n + m,
            0 <= w,
    ;
    if k < n {
        assert((k + 1) * w <= n * w) by (nonlinear_arith)
            requires
                k < n,
                0 <= w,
        ;
        assert(row_of(a + b, w, k) =~= row_of(a, w, k));
    } else {
        assert(n * w <= k * w) by (nonlinear_arith)
            requires
                n <= k,
                0 <= w,
        ;
        assert(row_of(a + b, w, k) =~= row_of(b, w, k - n));
    }
}

/// Removing a row from the memtable leaves every other row with its id, scale,
/// codes and vector.
pub proof fn law_removal_leaves_other_rows(a: Delta, b: Delta, bits: int, store: bool, i: int, k: int)
    requires
        a.wf(bits, store),
        b.without_row(a, bits, store, i),
        1 <= bits <= 8,
        0 <= k < b.ids@.len(),
    ensures
        b.ids@.len() == a.ids@.len() - 1,
        ({
            let j = if k == i {
                a.ids@.len() - 1
            } else {
                k
            };
            let w = plane_row_bytes(bits, a.width());
            &&& b.ids@[k] == a.ids@[j]
            &&& b.scales@[k] == a.scales@[j]
            &&& row_of(b.codes@, w, k) == row_of(a.codes@, w, j)
            &&& store ==> row_of(b.vectors@, a.width(), k) == row_of(a.vectors@, a.width(), j)
        }),
{
    let n = a.ids@.len() as int;
    let d = a.width();
    let w = plane_row_bytes(bits, d);
    assert(0 <= bits * (d / 8)) by (nonlinear_arith)
        requires
            1 <= bits,
            0 <= d,
    ;
    lemma_swapped_row(a.codes@, w, n, i, k);
    if store {
        lemma_swapped_row(a.vectors@, d, n, i, k);
    }
}

proof fn lemma_swapped_row<T>(s: Seq<T>, w: int, n: int, i: int, k: int)
    requires
        0 <= w,
        0 <= i < n,
        0 <= k < n - 1,
        s.len() == n * w,
    ensures
        row_of(crate::delta::swap_removed_rows(s, w, n, i), w, k) == row_of(
            s,
            w,
            if k == i {
                n - 1
            } else {
                k
            },
        ),
{
    let t = crate::delta::swap_removed_rows(s, w, n, i);
    let j = if k == i {
        n - 1
    } else {
        k
    };
    assert((k + 1) * w == k * w + w && (j + 1) * w == j * w + w) by (nonlinear_arith);
    assert(0 <= k * w && (k + 1) * w <= (n - 1) * w && 0 <= j * w && (j + 1) * w <= n * w) by (nonlinear_arith)
        requires
            0 <= k,
            k + 1 <= n - 1,
            0 <= j,
            j + 1 <= n,
            0 <= w,
    ;
    assert forall|b: int| 0 <= b < w implies row_of(t, w, k)[b] == #[trigger] row_of(s, w, j)[b] by {
        lemma_flat_index(k, b, w);
    }
    assert(row_of(t, w, k) =~= row_of(s, w, j));
}

proof fn lemma_of_id(entries: Seq<RunEntry>, id: u64) -> (at: Seq<int>)
    ensures
        increasing(at),
        of_id(entries, id).len() == at.len(),
        forall|k: int| 0 <= k < at.len() ==> 0 <= #[trigger] at[k] < entries.len() && of_id(entries, id)[k] == entries[at[k]],
        forall|i: int| #[trigger] at.contains(i) <==> 0 <= i < entries.len() && entries[i].id == id,
    decreases entries.len(),
{
    if entries.len() == 0 {
        Seq::empty()
    } else {
        let init = entries.drop_last();
        let n = entries.len() - 1;
        let a = lemma_of_id(init, id);
        let at = if entries[n].id == id {
            a.push(n)
        } else {
            a
        };
        assert forall|i: int| #[trigger] at.contains(i) <==> 0 <= i < entries.len() && entries[i].id == id by {
            assert(a.contains(i) <==> 0 <= i < init.len() && init[i].id == id);
            if a.contains(i) {
                let k = choose|k: int| 0 <= k < a.len() && a[k] == i;
                assert(at[k] == i);
            }
            if i == n && entries[n].id == id {
                assert(at[a.len() as int] == i);
            }
            if at.contains(i) && !a.contains(i) {
                let k = choose|k: int| 0 <= k < at.len() && at[k] == i;
                if k < a.len() {
                    assert(a[k] == i);
                }
            }
        }
        at
    }
}

/// A look-up in a run gives all entries of the id, in order.
pub proof fn law_lookup_gives_all_entries(run: &[u8], id: u64, r: Vec<RunEntry>)
    requires
        run_lookup.ensures((run, id), r),
    ensures
        exists|at: Seq<int>|
            #![trigger increasing(at)]
            {
                &&& increasing(at)
                &&& at.len() == r@.len()
                &&& forall|k: int| 0 <= k < at.len() ==> r@[k] == entries_in(run@)[#[trigger] at[k]]
                &&& forall|i: int|
                    #[trigger] at.contains(i) <==> 0 <= i < entries_in(run@).len() && entries_in(run@)[i].id == id
            },
{
    let at = lemma_of_id(entries_in(run@), id);
    assert(increasing(at));
}

proof fn lemma_carry(all: Seq<Seq<RunEntry>>)
    requires
        all.len() > 0,
    ensures
        reaches(sizes_of(all), carry(all)),
{
    let sizes = sizes_of(all);
    crate::gauge_laws::lemma_reach(sizes, sizes.len() - 1);
}

proof fn lemma_settled(parts: Seq<PartitionState>, all: Seq<Seq<RunEntry>>)
    ensures
        ({
            let t = tier_merged(parts, all);
            &&& t.len() <= all.len()
            &&& t.len() >= 2 ==> sizes_of(t)[t.len() - 1] < sizes_of(t)[t.len() - 2]
        }),
    decreases all.len(),
{
    let from = carry(all);
    if all.len() >= 2 {
        lemma_carry(all);
        let sizes = sizes_of(all);
        let n = all.len() as int;
        if from >= n - 1 {
            assert(sum_from(sizes, n) == 0);
            assert(sum_from(sizes, n - 1) == sizes[n - 1] + sum_from(sizes, n));
        } else {
            lemma_settled(parts, crate::copies::merged_range(parts, all, from, n));
        }
    }
}

/// A flush adds its entries, if there are any, as one run sorted by id. Up to
/// six runs stay as they are; of more at most 24 are left, and the newest is
/// smaller than the one in front of it, or all are merged into one.
pub proof fn law_runs_are_tidied(parts: Seq<PartitionState>, all: Seq<Seq<RunEntry>>, entries: Seq<RunEntry>)
    ensures
        ({
            let after = runs_after(parts, all, entries);
            let grown = if entries.len() == 0 {
                all
            } else {
                all.push(by_id(entries))
            };
            &&& grown.len() <= 6 ==> after == grown
            &&& grown.len() > 6 ==> after.len() <= 24 && after.len() <= grown.len() && (after.len() <= 1
                || sizes_of(after)[after.len() - 1] < sizes_of(after)[after.len() - 2])
        }),
{
    let grown = if entries.len() == 0 {
        all
    } else {
        all.push(by_id(entries))
    };
    lemma_settled(parts, grown);
}

/// A file may go exactly if every live snapshot is newer than the last one that
/// names it, and a released snapshot is alive no longer.
pub proof fn law_old_snapshots_hold_files(live: Seq<u64>, seq: u64, other: u64)
    ensures
        past(live, seq) <==> forall|s: u64| #[trigger] live.contains(s) ==> s > seq,
        without(live, seq).contains(other) <==> live.contains(other) && other != seq,
    decreases live.len(),
{
    if past(live, seq) {
        assert forall|s: u64| #[trigger] live.contains(s) implies s > seq by {
            let i = choose|i: int| 0 <= i < live.len() && live[i] == s;
            assert(seq < live[i]);
        }
    }
    if forall|s: u64| #[trigger] live.contains(s) ==> s > seq {
        assert forall|i: int| 0 <= i < live.len() implies seq < #[trigger] live[i] by {
            assert(live.contains(live[i]));
        }
    }
    let w = without(live, seq);
    if live.len() > 0 {
        let init = live.drop_last();
        law_old_snapshots_hold_files(init, seq, other);
        let a = without(init, seq);
        if init.contains(other) {
            let k = choose|k: int| 0 <= k < init.len() && init[k] == other;
            assert(live[k] == other);
        }
        if a.contains(other) {
            let k = choose|k: int| 0 <= k < a.len() && a[k] == other;
            assert(w[k] == other);
        }
        if live.contains(other) && !init.contains(other) {
            let k = choose|k: int| 0 <= k < live.len() && live[k] == other;
            if k < init.len() {
                assert(init[k] == other);
            }
            if other != seq {
                assert(w[a.len() as int] == other);
            }
        }
        if w.contains(other) && !a.contains(other) {
            let k = choose|k: int| 0 <= k < w.len() && w[k] == other;
            if k < a.len() {
                assert(a[k] == other);
            }
            assert(live[live.len() - 1] == other);
        }
    }
}

/// The index names this file.
pub open spec fn names_file(x: FreshIndex, f: StoredFile) -> bool {
    match f {
        StoredFile::Centroids(g) => g == x.centroids_generation,
        StoredFile::Run(g) => exists|k: int| 0 <= k < x.runs@.len() && (#[trigger] x.runs@[k]).generation == g,
        StoredFile::Segment(id, g) => exists|k: int|
            0 <= k < x.partitions@.len() && (#[trigger] x.partitions@[k]).partition_id == id
                && x.partitions@[k].generation == g,
    }
}

proof fn lemma_owner_exists(x: FreshIndex, id: u32, g: u32, k: int)
    requires
        0 <= k <= x.partitions@.len(),
    ensures
        match x.owner(id, g, k) {
            Some(i) => k <= i < x.partitions@.len() && x.partitions@[i].partition_id == id
                && x.partitions@[i].generation == g,
            None => true,
        },
    decreases x.partitions@.len() - k,
{
    if k < x.partitions@.len() && x.partitions@[k].partition_id != id {
        lemma_owner_exists(x, id, g, k + 1);
    }
}

/// A file is deleted unless it is the manifest, the log or one that the index
/// names; a segment file is kept up to the length that the index knows.
pub proof fn law_other_files_go(x: &FreshIndex, name: &[u8], r: Fate)
    requires
        FreshIndex::file_fate.ensures((x, name), r),
    ensures
        name@ == manifest_name() || name@ == wal_name() ==> r == Fate::Keep,
        r != Fate::Delete && name@ != manifest_name() && name@ != wal_name() ==> file_named(name@) is Some
            && names_file(*x, file_named(name@)->0),
        r is KeepUpTo ==> exists|k: int|
            0 <= k < x.partitions@.len() && file_named(name@) == Some(
                StoredFile::Segment((#[trigger] x.partitions@[k]).partition_id, x.partitions@[k].generation),
            ) && r->KeepUpTo_0 == x.partitions@[k].file_bytes,
{
    if file_named(name@) is Some {
        match file_named(name@)->0 {
            StoredFile::Segment(id, g) => {
                lemma_owner_exists(*x, id, g, 0);
            },
            StoredFile::Run(g) => {
                let gens = crate::copies::generations(x.runs@);
                if gens.contains(g) {
                    let k = choose|k: int| 0 <= k < gens.len() && gens[k] == g;
                    assert(x.runs@[k].generation == g);
                }
            },
            StoredFile::Centroids(g) => {},
        }
    }
}

/// A log goes on exactly if it opens with the log's header and the epoch in it
/// is that of the index.
pub proof fn law_logs_go_on_in_their_epoch(x: &FreshIndex, bytes: &[u8], r: bool)
    requires
        FreshIndex::continues_log.ensures((x, bytes), r),
    ensures
        r ==> {
            &&& bytes@.len() >= 24
            &&& bytes@[0] == 0x54 && bytes@[1] == 0x56 && bytes@[2] == 0x46 && bytes@[3] == 0x57 && bytes@[4] == 3
            &&& crate::bytes::u64_at(bytes@, 16) == x.epoch
        },
        forall|dim: u32, records: Seq<crate::wal::Logged>|
            bytes@ == #[trigger] crate::wal::log_of(dim, x.epoch, records) ==> r,
        forall|dim: u32, epoch: u64, records: Seq<crate::wal::Logged>|
            epoch != x.epoch && bytes@ == #[trigger] crate::wal::log_of(dim, epoch, records) ==> !r,
{
    assert forall|dim: u32, epoch: u64, records: Seq<crate::wal::Logged>|
        bytes@ == #[trigger] crate::wal::log_of(dim, epoch, records) implies r == (epoch == x.epoch) by {
        let h = crate::wal::header_bytes(dim, epoch);
        assert(h.len() == 24);
        assert(bytes@.take(24) =~= h);
        assert(h.subrange(16, 24) =~= crate::bytes::u64_bytes(epoch));
        assert forall|i: int| 0 <= i < 8 implies bytes@[16 + i] == crate::bytes::u64_bytes(epoch)[i] by {
            assert(bytes@.take(24)[16 + i] == h[16 + i]);
            assert(h.subrange(16, 24)[i] == h[16 + i]);
        }
        assert(bytes@.subrange(16, 24) =~= crate::bytes::u64_bytes(epoch));
        crate::bytes::lemma_u64_round_trip(epoch, bytes@, 16);
        assert(bytes@[0] == h[0] && bytes@[1] == h[1] && bytes@[2] == h[2] && bytes@[3] == h[3] && bytes@[4] == h[4]);
    }
}

/// The calibration of an index, once there is one, stays; before, it becomes
/// that of the rows in memory or, where they have none, no shift and unit scale.
pub proof fn law_calibration_stays(x: FreshIndex, i: int)
    ensures
        x.tqplus_shift@.len() > 0 ==> x.shift_to_commit() == x.tqplus_shift@ && x.scale_to_commit() == x.tqplus_scale@,
        x.tqplus_shift@.len() == 0 && x.memtable.tqplus_shift@.len() > 0 ==> x.shift_to_commit()
            == x.memtable.tqplus_shift@ && x.scale_to_commit() == x.memtable.tqplus_scale@,
        x.tqplus_shift@.len() == 0 && x.memtable.tqplus_shift@.len() == 0 && 0 <= i < x.memtable.width() ==> {
            &&& x.shift_to_commit().len() == x.memtable.width()
            &&& x.scale_to_commit().len() == x.memtable.width()
            &&& x.shift_to_commit()[i] == 0
            &&& x.scale_to_commit()[i] == 0x3F80_0000
        },
{
}

/// Rows of a disk index are calibrated as those of its file or, where it has
/// none, as the added ones, or else not at all.
pub proof fn law_file_calibration_wins(x: DiskIndex, file: Seq<u8>, i: int)
    ensures
        x.base is Some && x.base->0.n_calib > 0 ==> x.calibration(file) == (
            u32_section(file, 5, hdr_calib(file) as int),
            u32_section(file, 6, hdr_calib(file) as int),
        ),
        !(x.base is Some && x.base->0.n_calib > 0) && x.delta.tqplus_shift@.len() > 0 ==> x.calibration(file) == (
            x.delta.tqplus_shift@,
            x.delta.tqplus_scale@,
        ),
        !(x.base is Some && x.base->0.n_calib > 0) && x.delta.tqplus_shift@.len() == 0 && 0 <= i < x.delta.width()
            ==> x.calibration(file).0[i] == 0 && x.calibration(file).1[i] == 0x3F80_0000,
{
}

} // verus!
