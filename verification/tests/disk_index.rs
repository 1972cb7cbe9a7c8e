use turbovec::answer::Scan;
use turbovec::compact::Placement;
use turbovec::convert::IdMapRows;
use turbovec::disk::{AddError, ConstructError, DiskIndex};
use turbovec::pack::Layout;
use turbovec::search::{finish_query, flatten_results, merge_query, plan_search, QueryError, SearchOptions};
use turbovec::segment::Segment;
use turbovec::tvdm::{BaseSegment, OpenError};
use turbovec::write::{partitioning_active, place_flat};

const DIM: usize = 8;

fn bits(v: f32) -> u32 {
    v.to_bits()
}

fn vectors(n: usize, seed: u32) -> Vec<u32> {
    (0..n * DIM).map(|i| bits((i as f32 + seed as f32) * 0.25 - 1.0)).collect()
}

fn codes(n: usize, seed: u8) -> Vec<u8> {
    (0..n * 4).map(|i| (i as u8).wrapping_mul(29).wrapping_add(seed)).collect()
}

fn scales(n: usize) -> Vec<u32> {
    (0..n).map(|i| bits(1.0 + i as f32)).collect()
}

fn add(index: &mut DiskIndex, file: &[u8], ids: &[u64], seed: u8) {
    let n = ids.len();
    index
        .add_with_ids_2d(file, &vectors(n, seed as u32), DIM, ids, &codes(n, seed), &scales(n))
        .unwrap();
}

fn write(index: &DiskIndex, file: &[u8], placement: impl Fn(usize) -> Placement) -> (Segment, Vec<u8>) {
    let g = index.gather_rows(file);
    let p = placement(g.ids.len());
    let seg = index.write_compacted(file, &g, p).unwrap();
    let bytes = seg.encode();
    (seg, bytes)
}

fn two_partitions(n: usize) -> Placement {
    Placement {
        centroids: (0..2 * DIM).map(|i| bits(i as f32)).collect(),
        nlist: 2,
        assignments: (0..n).map(|i| (i % 2) as u32).collect(),
        replicas: (0..n).map(|i| if i == 0 { vec![1] } else { Vec::new() }).collect(),
    }
}

fn sample_file(store: bool) -> (DiskIndex, Vec<u8>) {
    let mut index = DiskIndex::new(Some(DIM), 4, Layout::Sequential).unwrap();
    index.set_store_vectors(store);
    add(&mut index, &[], &[7, 3, 11, 5, 9], 1);
    let (_, bytes) = write(&index, &[], two_partitions);
    (index, bytes)
}

#[test]
fn parameters_are_checked() {
    assert_eq!(
        DiskIndex::new(Some(8), 5, Layout::Sequential).err(),
        Some(ConstructError::InvalidBitWidth(5)),
    );
    assert_eq!(
        DiskIndex::new(Some(12), 4, Layout::Sequential).err(),
        Some(ConstructError::InvalidDim(12)),
    );
    assert_eq!(DiskIndex::new(Some(0), 4, Layout::Sequential).err(), Some(ConstructError::InvalidDim(0)));
    let lazy = DiskIndex::new(None, 2, Layout::Interleaved).unwrap();
    assert_eq!(lazy.dim_opt(), None);
    assert_eq!(lazy.dim(), 0);
    assert_eq!(lazy.bit_width(), 2);
    assert!(lazy.is_empty(&[]));
}

#[test]
fn lazy_add_with_ids_2d_length_error_does_not_commit_dim() {
    let mut index = DiskIndex::new(None, 4, Layout::Sequential).unwrap();
    let err = index
        .add_with_ids_2d(&[], &vec![bits(0.5); 100], 64, &[1, 2], &[], &[])
        .unwrap_err();
    assert!(matches!(err, AddError::VectorBufferNotMultipleOfDim { .. }));
    assert_eq!(index.dim_opt(), None);

    index
        .add_with_ids_2d(&[], &vec![bits(0.5); 16], 8, &[1, 2], &codes(2, 0), &scales(2))
        .expect("fresh add with a different dim must succeed after the failed add");
    assert_eq!(index.dim_opt(), Some(8));
}

#[test]
fn refused_adds_name_the_reason() {
    let mut index = DiskIndex::new(Some(DIM), 4, Layout::Sequential).unwrap();
    add(&mut index, &[], &[1, 2], 0);
    let v = vectors(1, 0);
    assert_eq!(index.check_add(&[], &v, 0, &[3]), Some(AddError::InvalidDim(0)));
    assert_eq!(index.check_add(&[], &v, 12, &[3]), Some(AddError::InvalidDim(12)));
    assert_eq!(
        index.check_add(&[], &v[..7], DIM, &[3]),
        Some(AddError::VectorBufferNotMultipleOfDim { len: 7, dim: DIM }),
    );
    assert_eq!(
        index.check_add(&[], &v, DIM, &[3, 4]),
        Some(AddError::IdCountMismatch { vectors: 1, ids: 2 }),
    );
    assert_eq!(
        index.check_add(&[], &vectors(2, 0), 16, &[3]),
        Some(AddError::DimMismatch { existing: DIM, got: 16 }),
    );
    let mut bad = vectors(2, 0);
    bad[DIM + 3] = bits(f32::NAN);
    assert_eq!(
        index.check_add(&[], &bad, DIM, &[3, 4]),
        Some(AddError::InvalidValue { vector: 1, coord: 3 }),
    );
    bad[DIM + 3] = bits(1e16);
    assert_eq!(
        index.check_add(&[], &bad, DIM, &[3, 4]),
        Some(AddError::InvalidValue { vector: 1, coord: 3 }),
    );
    bad[DIM + 3] = bits(-9.9e15);
    assert_eq!(index.check_add(&[], &bad, DIM, &[3, 4]), None);
    assert_eq!(index.check_add(&[], &vectors(2, 0), DIM, &[3, 2]), Some(AddError::IdAlreadyPresent(2)));
    assert_eq!(index.check_add(&[], &vectors(2, 0), DIM, &[3, 3]), Some(AddError::IdRepeated(3)));
    assert_eq!(index.len(&[]), 2);
}

#[test]
fn written_rows_come_back() {
    for store in [false, true] {
        let (index, bytes) = sample_file(store);
        assert_eq!(bytes.len() % 64, 0);
        let base = BaseSegment::open(&bytes, Layout::Sequential).unwrap();
        assert_eq!((base.n, base.n_unique, base.dim), (6, 5, DIM));
        assert_eq!(base.has_vectors, store);
        assert!(base.is_consistent(&bytes));
        let contents = base.contents(&bytes);
        assert_eq!(contents.ids, vec![7, 11, 9, 7, 3, 5]);
        assert_eq!(contents.replica, vec![false, false, false, true, false, false]);
        assert_eq!(contents.counts, vec![3, 3]);
        assert_eq!(contents.scales[0], bits(1.0));
        assert_eq!(contents.scales[4], bits(2.0));
        assert_eq!(contents.vectors.len(), if store { 6 * DIM } else { 0 });
        assert_eq!(contents.encode(), bytes);
        let back = DiskIndex::open(base, &bytes);
        assert_eq!(back.len(&bytes), index.len(&[]));
        assert_eq!(back.nlist(), 2);
        assert_eq!(back.base_replica_count(&bytes), 1);
        for id in [7, 3, 11, 5, 9] {
            assert!(back.contains(&bytes, id));
        }
        assert!(!back.contains(&bytes, 4));
    }
}

#[test]
fn stored_vectors_are_given_back() {
    let (index, bytes) = sample_file(true);
    let back = DiskIndex::open(BaseSegment::open(&bytes, Layout::Sequential).unwrap(), &bytes);
    let all = vectors(5, 1);
    for (i, id) in [7u64, 3, 11, 5, 9].into_iter().enumerate() {
        let want = all[i * DIM..(i + 1) * DIM].to_vec();
        assert_eq!(index.get_vector(&[], id), Some(want.clone()));
        assert_eq!(back.get_vector(&bytes, id), Some(want));
    }
    assert_eq!(back.get_vector(&bytes, 1), None);
}

#[test]
fn removed_rows_stay_removed_across_a_write() {
    let (_, bytes) = sample_file(false);
    let mut index = DiskIndex::open(BaseSegment::open(&bytes, Layout::Sequential).unwrap(), &bytes);
    assert!(index.remove(&bytes, 7));
    assert!(!index.remove(&bytes, 7));
    assert!(!index.remove(&bytes, 1000));
    assert_eq!(index.tombstone_count(), 1);
    assert_eq!(index.len(&bytes), 4);
    assert_eq!(
        index.check_add(&bytes, &vectors(1, 0), DIM, &[3]),
        Some(AddError::IdAlreadyPresent(3)),
    );
    add(&mut index, &bytes, &[7, 40], 5);
    assert_eq!(index.delta_len(), 2);
    assert!(index.remove(&bytes, 40));
    assert_eq!(index.delta_len(), 1);
    let (seg, again) = write(&index, &bytes, |n| place_flat(n, DIM));
    assert_eq!(seg.ids, vec![11, 9, 3, 5, 7]);
    let base = BaseSegment::open(&again, Layout::Sequential).unwrap();
    index.install(base, &again);
    assert_eq!((index.len(&again), index.tombstone_count(), index.delta_len()), (5, 0, 0));
    assert!(index.contains(&again, 7));
    assert!(!index.contains(&again, 40));
}

#[test]
fn an_index_that_lost_all_rows_can_be_written_and_opened() {
    let mut index = DiskIndex::new(Some(DIM), 4, Layout::Interleaved).unwrap();
    add(&mut index, &[], &[1], 0);
    assert!(index.remove(&[], 1));
    let (_, bytes) = write(&index, &[], |n| place_flat(n, DIM));
    let base = BaseSegment::open(&bytes, Layout::Interleaved).unwrap();
    assert_eq!((base.n, base.dim, base.n_calib), (0, DIM, 0));
}

#[test]
fn flat_rows_leave_replicas_out() {
    let (index, bytes) = sample_file(false);
    let back = DiskIndex::open(BaseSegment::open(&bytes, Layout::Sequential).unwrap(), &bytes);
    let flat = back.flat_rows(&bytes);
    assert_eq!(flat.ids, vec![7, 11, 9, 3, 5]);
    let source = index.flat_rows(&[]);
    assert_eq!(source.ids, vec![7, 3, 11, 5, 9]);
    assert_eq!(flat.packed[..4], source.packed[..4]);
    assert_eq!(flat.packed[12..16], source.packed[4..8]);
    assert_eq!(source.packed, codes(5, 1));
}

#[test]
fn damaged_files_are_refused() {
    let (_, good) = sample_file(false);
    let open = |b: &[u8]| BaseSegment::open(b, Layout::Sequential).err();
    let with = |at: usize, v: u8| {
        let mut b = good.clone();
        b[at] = v;
        open(&b)
    };
    assert_eq!(open(&good), None);
    assert_eq!(open(&good[..63]), Some(OpenError::TooShort));
    assert_eq!(with(0, 0), Some(OpenError::WrongMagic));
    assert_eq!(with(4, 2), Some(OpenError::UnsupportedVersion(2)));
    assert_eq!(with(5, 5), Some(OpenError::InvalidBitWidth(5)));
    assert_eq!(with(6, 1), Some(OpenError::ForeignLayout(1)));
    assert_eq!(with(7, 2), Some(OpenError::UnknownFlags(2)));
    assert_eq!(with(43, 0x80 | 0x3F), Some(OpenError::InvalidReplicaEpsilon(0xBF00_0000)));
    assert_eq!(with(32, 7), Some(OpenError::UniqueExceedsSlots));
    assert_eq!(with(8, 0), Some(OpenError::LazyWithRows));
    assert_eq!(with(8, 4), Some(OpenError::InvalidDim(4)));
    assert_eq!(with(12, 0), Some(OpenError::InvalidCalibration));
    assert_eq!(with(24, 0), Some(OpenError::NoPartitions));
    assert_eq!(with(26, 1), Some(OpenError::TruncatedTable));
    assert_eq!(with(64 + 8, 1), Some(OpenError::TableNotContiguous));
    assert_eq!(with(64 + 24, 4), Some(OpenError::PartitionSumMismatch));
    let mut longer = good.clone();
    longer.extend_from_slice(&[0; 64]);
    assert_eq!(open(&longer), Some(OpenError::LengthMismatch));
    assert_eq!(with(32, 4), Some(OpenError::DistinctIdsMismatch));
    let seg = BaseSegment::open(&good, Layout::Sequential).unwrap();
    let ids = seg.layout.sorted_ids.0;
    let slots = seg.layout.sorted_slots.0;
    let flags = seg.layout.replica_flags.0;
    assert_eq!(with(ids, 200), Some(OpenError::IdsNotSorted));
    assert_eq!(with(slots, 6), Some(OpenError::SlotOutOfRange));
    assert_eq!(with(flags, 0), Some(OpenError::PrimaryCountMismatch));
}

#[test]
fn a_file_with_two_first_copies_is_not_consistent() {
    let (_, mut bytes) = sample_file(false);
    let seg = BaseSegment::open(&bytes, Layout::Sequential).unwrap();
    // The replica flag moves from slot 3 to slot 1: id 7 has two first copies,
    // id 11 none.
    bytes[seg.layout.replica_flags.0] = 0b10;
    let seg = BaseSegment::open(&bytes, Layout::Sequential).unwrap();
    assert!(!seg.is_consistent(&bytes));
}

#[test]
fn partitioning_engages_at_twice_the_target() {
    assert!(!partitioning_active(None, 1000));
    assert!(!partitioning_active(Some(10), 19));
    assert!(partitioning_active(Some(10), 20));
}

#[test]
fn settings_are_kept() {
    let mut index = DiskIndex::new(None, 3, Layout::Sequential).unwrap();
    index.set_partitioning(Some(100));
    index.set_replication(Some(bits(0.1)));
    index.set_replica_prune(false);
    assert_eq!(index.partition_target(), Some(100));
    assert_eq!(index.replica_epsilon(), Some(bits(0.1)));
    assert!(!index.replica_prune());
    assert!(!index.stores_vectors());
}

#[test]
fn removed_ids_do_not_reach_results() {
    let (_, bytes) = sample_file(false);
    let mut index = DiskIndex::open(BaseSegment::open(&bytes, Layout::Sequential).unwrap(), &bytes);
    index.remove(&bytes, 11);
    let plan = plan_search(index.len(&bytes), index.tombstone_count(), index.nlist(), false, 3, SearchOptions::default());
    assert_eq!((plan.k_eff, plan.fetch_k, plan.k_base, plan.nprobe), (3, 3, 4, 2));
    let mut candidates = Vec::new();
    index.collect_partition(&bytes, 0, &vec![bits(3.0), bits(2.0), bits(1.0)], &vec![1, 0, 2], &mut candidates);
    index.collect_partition(&bytes, 1, &vec![bits(2.5), bits(0.5)], &vec![0, 1], &mut candidates);
    assert_eq!(
        candidates,
        vec![(bits(2.0), 7), (bits(1.0), 9), (bits(2.5), 7), (bits(0.5), 3)],
    );
    let scans = vec![
        Scan { partition: 0, scores: vec![bits(3.0), bits(2.0), bits(1.0)], slots: vec![1, 0, 2] },
        Scan { partition: 1, scores: vec![bits(2.5), bits(0.5)], slots: vec![0, 1] },
    ];
    let merged = merge_query(plan, candidates, &vec![bits(1.5)], &vec![50]);
    assert_eq!(index.answer(&bytes, plan, &scans, &vec![bits(1.5)], &vec![50]), merged);
    assert_eq!(merged, vec![(bits(2.5), 7), (bits(1.5), 50), (bits(1.0), 9)]);
    let row = finish_query(plan, &merged, None);
    assert_eq!(row, merged);
    let flat = flatten_results(&vec![row.clone(), row]);
    assert_eq!(flat.1, vec![7, 50, 9, 7, 50, 9]);
}

/// Rows of a flat file come back out of the segment file that they went into.
#[test]
fn conversions_are_inverse() {
    let ids = vec![7u64, 3, 11];
    let rows = || IdMapRows {
        bit_width: 4,
        dim: DIM,
        codes: (0..3 * DIM / 2).map(|i| (i * 37 + 5) as u8).collect(),
        scales: vec![bits(1.0), bits(2.0), bits(3.0)],
        ids: ids.clone(),
        tqplus_shift: vec![bits(0.25); DIM],
        tqplus_scale: vec![bits(2.0); DIM],
    };
    let x = DiskIndex::from_id_map(rows(), Layout::Interleaved).unwrap();
    let (_, file) = write(&x, &[], |n| place_flat(n, DIM));
    let seg = BaseSegment::open(&file, Layout::Interleaved).unwrap();
    let y = DiskIndex::open(seg, &file);
    let back = y.to_id_map(&file);
    let want = rows();
    assert_eq!((back.bit_width, back.dim), (4, DIM));
    assert_eq!(back.ids, want.ids);
    assert_eq!(back.codes, want.codes);
    assert_eq!(back.scales, want.scales);
    assert_eq!(back.tqplus_shift, want.tqplus_shift);
    assert_eq!(back.tqplus_scale, want.tqplus_scale);
    let twice = IdMapRows { ids: vec![7, 3, 7], ..rows() };
    assert_eq!(DiskIndex::from_id_map(twice, Layout::Sequential).err(), Some(7));
}

/// Vectors survive other adds, removals and writes.
#[test]
fn vectors_outlive_other_changes() {
    let mut index = DiskIndex::new(Some(DIM), 4, Layout::Sequential).unwrap();
    index.set_store_vectors(true);
    add(&mut index, &[], &[7, 3, 11, 5], 1);
    let before: Vec<_> = [3u64, 11, 5].iter().map(|&i| index.get_vector(&[], i)).collect();
    assert!(index.remove(&[], 7));
    add(&mut index, &[], &[20], 9);
    let after: Vec<_> = [3u64, 11, 5].iter().map(|&i| index.get_vector(&[], i)).collect();
    assert_eq!(before, after);
    assert_eq!(index.get_vector(&[], 7), None);
    let (_, file) = write(&index, &[], two_partitions);
    let seg = BaseSegment::open(&file, Layout::Sequential).unwrap();
    index.install(seg, &file);
    assert_eq!((index.dim_opt(), index.bit_width()), (Some(DIM), 4));
    assert!(index.remove(&file, 3));
    add(&mut index, &file, &[30], 4);
    let now: Vec<_> = [11u64, 5].iter().map(|&i| index.get_vector(&file, i)).collect();
    assert_eq!(now, before[1..]);
    assert_eq!(index.get_vector(&file, 3), None);
}

/// With a depth that covers the index the best exact scores win, whatever the
/// scanned ones say.
#[test]
fn full_depth_ranks_by_exact_scores() {
    let plan = plan_search(4, 0, 1, true, 2, SearchOptions { rescore_k: Some(9), ..SearchOptions::default() });
    assert_eq!((plan.k_eff, plan.fetch_k, plan.rescore), (2, 4, true));
    let merged = merge_query(plan, vec![(bits(9.0), 1), (bits(8.0), 2), (bits(1.0), 3)], &vec![bits(0.5)], &vec![4]);
    assert_eq!(merged.iter().map(|c| c.1).collect::<Vec<u64>>(), vec![1, 2, 3, 4]);
    let exact = vec![bits(0.1), bits(0.2), bits(0.3), bits(0.4)];
    assert_eq!(finish_query(plan, &merged, Some(exact)), vec![(bits(0.4), 4), (bits(0.3), 3)]);
}

#[test]
fn disk_search_requests_are_checked() {
    let (index, file) = sample_file(false);
    let seg = BaseSegment::open(&file, Layout::Sequential).unwrap();
    let opened = DiskIndex::open(seg, &file);
    let none = SearchOptions::default();
    let q = vec![bits(0.5); 3 * DIM];
    assert_eq!(opened.begin_search(&file, &q, 2, none), Ok(Some(3)));
    assert_eq!(index.begin_search(&[], &q[1..], 2, none), Err(QueryError::Length));
    let negative = SearchOptions { probe_epsilon: Some(bits(-1.0)), ..none };
    assert_eq!(opened.begin_search(&file, &q, 2, negative), Err(QueryError::ProbeEpsilon));
    let mut bad = q.clone();
    bad[2 * DIM] = bits(f32::NEG_INFINITY);
    assert_eq!(opened.begin_search(&file, &bad, 2, negative), Err(QueryError::Coord { query: 2, coord: 0 }));
    let deep = SearchOptions { rescore_k: Some(1), ..none };
    assert_eq!(opened.begin_search(&file, &q, 2, deep), Err(QueryError::RescoreNeedsVectors));
    assert_eq!(opened.begin_search(&file, &q, 2, SearchOptions { rescore_k: Some(0), ..none }), Ok(Some(3)));
    let empty = DiskIndex::new(None, 4, Layout::Sequential).unwrap();
    assert_eq!(empty.begin_search(&[], &bad, 2, negative), Ok(None));
}

#[test]
fn an_index_without_rows_keeps_its_settings() {
    let mut index = DiskIndex::new(None, 3, Layout::Sequential).unwrap();
    index.set_partitioning(Some(40));
    index.set_replication(Some(bits(0.5)));
    let (_, file) = write(&index, &[], |n| place_flat(n, 0));
    let open = || BaseSegment::open(&file, Layout::Sequential).unwrap();
    let again = DiskIndex::open(open(), &file);
    index.install(open(), &file);
    for x in [&index, &again] {
        assert_eq!((x.dim_opt(), x.bit_width(), x.stores_vectors()), (None, 3, false));
        assert_eq!((x.partition_target(), x.replica_epsilon()), (Some(40), Some(bits(0.5))));
        assert!(x.is_empty(&file));
    }
}

#[test]
fn probed_codes_are_announced() {
    let (_, bytes) = sample_file(false);
    let seg = BaseSegment::open(&bytes, Layout::Sequential).unwrap();
    let ranges = seg.prefetch(&bytes, &vec![1, 0, 5]);
    let codes = |p: usize| seg.partition_codes(&bytes, p).to_vec();
    let read: Vec<Vec<u8>> = ranges.iter().map(|&(start, len)| bytes[start..start + len].to_vec()).collect();
    assert_eq!(read, vec![codes(1), codes(0)]);
    assert_ne!(codes(0), codes(1));
    assert!(seg.prefetch(&bytes, &vec![1]).is_empty());
}
