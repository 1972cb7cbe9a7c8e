use std::collections::HashMap;
use turbovec::answer::ChunkScan;
use turbovec::copies::Run;
use turbovec::disk::{AddError, ConstructError};
use turbovec::flush::ChunkWrite;
use turbovec::fresh::FreshIndex;
use turbovec::fresh_write::Removed;
use turbovec::ingest::{Routing, HIERARCHY_MIN_NLIST};
use turbovec::manifest::decode_manifest;
use turbovec::names::{file_name, parse_name, temp_sibling, Fate};
use turbovec::pack::{repack, Layout};
use turbovec::reassign::plan_moves;
use turbovec::reopen::{check_run, ReopenError};
use turbovec::retirement::{Retirement, StoredFile};
use turbovec::runs::RunEntry;
use turbovec::search::{QueryError, SearchOptions};
use turbovec::session::{log_adds, log_removes};
use turbovec::segment::Segment;
use turbovec::transfer::export_codes;
use turbovec::tuning::{Event, MaintenanceTuning};
use turbovec::tvdm::BaseSegment;
use turbovec::upkeep::{primary_copy, Action, Pass};
use turbovec::wal::{parse_wal, wal_header, wal_record, WAL_ADD, WAL_REMOVE};

const DIM: usize = 8;

type Files = HashMap<(u32, u32), Vec<u8>>;

fn b(v: f32) -> u32 {
    v.to_bits()
}

fn vector(id: u64) -> Vec<u32> {
    (0..DIM).map(|c| b(id as f32 + c as f32 * 0.125)).collect()
}

fn code(id: u64) -> Vec<u8> {
    (0..4).map(|g| (id as u8).wrapping_mul(37).wrapping_add(g * 11)).collect()
}

fn add(x: &mut FreshIndex, ids: &[u64]) {
    let vectors: Vec<u32> = ids.iter().flat_map(|&i| vector(i)).collect();
    let codes: Vec<u8> = ids.iter().flat_map(|&i| code(i)).collect();
    let scales: Vec<u32> = ids.iter().map(|&i| b(i as f32)).collect();
    x.add_with_ids_2d(&vectors, DIM, ids, &codes, &scales).unwrap();
}

fn store(files: &mut Files, writes: Vec<ChunkWrite>) {
    for w in writes {
        let file = files.entry((w.partition_id, w.generation)).or_default();
        assert_eq!(file.len() as u64, w.offset);
        file.extend(w.bytes);
    }
}

fn file_of<'a>(x: &FreshIndex, files: &'a Files, position: usize) -> &'a [u8] {
    let p = &x.partitions[position];
    files.get(&(p.partition_id, p.generation)).map_or(&[], |f| f.as_slice())
}

/// Distributes the memtable; the row with id `i` goes to the partitions that
/// `lists` names.
fn flush(x: &mut FreshIndex, files: &mut Files, lists: impl Fn(u64) -> Vec<u32>) {
    let mut entries = Vec::new();
    let batch = x.begin_flush().unwrap();
    let lists = batch.ids.iter().map(|&i| lists(i)).collect();
    let writes = x.append_batch(&batch, &lists, &mut entries);
    store(files, writes);
    x.seal_flush(&entries, true);
}

fn ids_in(x: &FreshIndex, files: &Files, position: usize) -> Vec<u64> {
    let (rows, _) = x.partitions[position].read_live(x.flavor, file_of(x, files, position), 4, 0, false);
    rows.ids
}

/// An index with partitions of the ids 1 to 6 and 7 to 10, with 3 also in the
/// second.
fn two_partitions() -> (FreshIndex, Files) {
    let mut x = FreshIndex::new(Some(DIM), 4, Layout::Sequential).unwrap();
    let mut files = Files::new();
    add(&mut x, &(1..=10).collect::<Vec<u64>>());
    let batch = x.begin_flush().unwrap();
    let lists = (1..=10u64).map(|i| if i == 3 { vec![0, 1] } else { vec![(i > 6) as u32] }).collect();
    let mut entries = Vec::new();
    let centroids: Vec<u32> = (0..2 * DIM as u32).map(|c| b(c as f32)).collect();
    let (_, writes) = x.rebuild(&batch, &centroids, 2, &lists, &mut entries);
    store(&mut files, writes);
    x.seal_flush(&entries, true);
    (x, files)
}

#[test]
fn new_indexes_are_checked_and_empty() {
    assert_eq!(FreshIndex::new(Some(8), 1, Layout::Sequential).err(), Some(ConstructError::InvalidBitWidth(1)));
    assert_eq!(FreshIndex::new(Some(9), 2, Layout::Sequential).err(), Some(ConstructError::InvalidDim(9)));
    let mut x = FreshIndex::new(None, 2, Layout::Sequential).unwrap();
    assert!(x.is_empty());
    assert_eq!((x.dim_opt(), x.nlist(), x.run_count(), x.chunk_count()), (None, 0, 0, 0));
    x.set_partitioning(Some(50));
    x.set_replication(Some(b(0.25)));
    x.set_store_vectors(true);
    assert_eq!((x.partition_target(), x.replica_epsilon(), x.stores_vectors()), (Some(50), Some(b(0.25)), true));
    assert_eq!(x.tuning().reassign_neighbors, 8);
    assert!(!x.needs_maintenance());
}

#[test]
fn adds_are_checked_before_anything_changes() {
    let mut x = FreshIndex::new(None, 4, Layout::Sequential).unwrap();
    assert_eq!(
        x.add_with_ids_2d(&vec![0; 100], 64, &[1, 2], &[], &[]),
        Err(AddError::VectorBufferNotMultipleOfDim { len: 100, dim: 64 }),
    );
    assert_eq!(x.dim_opt(), None);
    add(&mut x, &[1, 2]);
    assert_eq!(x.dim_opt(), Some(DIM));
    assert_eq!(x.check_add(&vector(2), DIM, &[2]), Some(AddError::IdAlreadyPresent(2)));
    assert_eq!(x.check_add(&vector(2), DIM, &[3, 4]), Some(AddError::IdCountMismatch { vectors: 1, ids: 2 }));
    assert_eq!(x.check_add(&vec![0; 16], DIM, &[3, 3]), Some(AddError::IdRepeated(3)));
    assert_eq!(x.check_add(&vec![0; 16], 16, &[3]), Some(AddError::DimMismatch { existing: 8, got: 16 }));
    assert_eq!(x.check_add(&vector(3), DIM, &[3]), None);
    assert_eq!(x.len(), 2);
}

#[test]
fn flushed_rows_stay_found() {
    let (x, files) = two_partitions();
    assert_eq!((x.len(), x.base_len(), x.memtable_len()), (10, 11, 0));
    assert_eq!((x.nlist(), x.replica_count(), x.epoch), (2, 1, 1));
    assert_eq!(x.partition_sizes(), vec![6, 4]);
    assert_eq!(ids_in(&x, &files, 0), vec![1, 2, 3, 4, 5, 6]);
    assert_eq!(ids_in(&x, &files, 1), vec![3, 7, 8, 9, 10]);
    for id in 1..=10 {
        assert!(x.contains(id));
    }
    assert!(!x.contains(11));
    let copies = x.live_copies(3);
    assert_eq!(copies.len(), 2);
    assert_eq!(primary_copy(&copies).unwrap().partition_id, x.partitions[0].partition_id);
    assert_eq!(x.missing_replicas(&x.live_copies(4), &vec![1]), vec![1]);
    assert_eq!(x.missing_replicas(&copies, &vec![1]), Vec::<u32>::new());
    let row = x.copy_row_data(primary_copy(&copies).unwrap(), file_of(&x, &files, 0)).unwrap();
    assert_eq!((row.ids[0], row.scales[0]), (3, b(3.0)));
    assert_eq!(export_codes(&row, 4, DIM), repack(&code(3), 1, 4, DIM, Layout::Sequential).0);
}

#[test]
fn removal_takes_every_copy() {
    let (mut x, files) = two_partitions();
    add(&mut x, &[20]);
    assert_eq!(x.remove_internal(3), Removed::Partitions);
    assert_eq!(x.remove_internal(3), Removed::No);
    assert_eq!(x.remove_internal(20), Removed::Memtable);
    assert!(!x.contains(3) && !x.contains(20));
    assert_eq!(x.dead_count(), 2);
    assert_eq!(ids_in(&x, &files, 1), vec![7, 8, 9, 10]);
    assert_eq!(x.remove_many(&[1, 99, 8, 1]), (vec![1, 8], true));
    assert!(!x.remove(1));
    assert_eq!(x.len(), 7);
    add(&mut x, &[3]);
    assert!(x.contains(3));
}

#[test]
fn staged_rows_wait_below_the_threshold() {
    let mut x = FreshIndex::new(Some(DIM), 4, Layout::Sequential).unwrap();
    let mut t = x.tuning();
    t.staging_threshold = 3;
    x.set_tuning(t);
    add(&mut x, &[1, 2]);
    assert!(x.begin_flush().is_none());
    assert_eq!(x.maintenance_stats().staged_saves, 1);
    let dropped = x.seal_flush(&Vec::<RunEntry>::new(), false);
    assert_eq!((x.epoch, x.memtable_len(), dropped.len()), (0, 2, 0));
    add(&mut x, &[3]);
    let mut files = Files::new();
    flush(&mut x, &mut files, |_| vec![0]);
    assert_eq!((x.epoch, x.memtable_len(), x.len()), (1, 0, 3));
}

#[test]
fn logged_rows_are_replayed_over_the_manifest() {
    let (x, files) = two_partitions();
    let m = x.manifest();
    let mut log = wal_header(DIM as u32, m.epoch);
    log.extend(wal_record(WAL_ADD, 30, &vector(30)));
    log.extend(wal_record(WAL_REMOVE, 5, &[]));
    assert!(!x.continues_log(&log[..20]));
    assert!(!x.continues_log(&wal_header(DIM as u32, m.epoch + 1)));
    let records = parse_wal(&log, m.epoch, DIM);
    let centroids: Vec<u8> = x.centroids.iter().flat_map(|c| c.to_le_bytes()).collect();
    let bytes = m.encode();
    let m = decode_manifest(&bytes).unwrap();
    let mut back = FreshIndex::reopen(Layout::Sequential, m, x.runs, &centroids).unwrap();
    assert_eq!(back.len(), 10);
    assert!(back.continues_log(&log));
    let codes: Vec<Vec<u8>> = records.iter().map(|r| if r.kind == WAL_ADD { code(r.id) } else { Vec::new() }).collect();
    let scales: Vec<u32> = records.iter().map(|r| b(r.id as f32)).collect();
    assert_eq!(back.replay(&records, &codes, &scales), Ok(()));
    assert!(!back.contains(5));
    assert_eq!(back.len(), 10);
    // The same records do not fit a second time.
    assert_eq!(back.replay(&records, &codes, &scales), Err(AddError::IdAlreadyPresent(30)));
    assert!(back.contains(30) && back.contains(3));
    assert_eq!(ids_in(&back, &files, 1), vec![3, 7, 8, 9, 10]);
}

#[test]
fn reopening_reports_what_does_not_fit() {
    let (x, _) = two_partitions();
    let centroids: Vec<u8> = x.centroids.iter().flat_map(|c| c.to_le_bytes()).collect();
    assert!(check_run(&x.runs[0].bytes));
    let r = FreshIndex::reopen(Layout::Sequential, x.manifest(), Vec::new(), &centroids[4..]);
    assert!(matches!(r, Err(ReopenError::Centroids { len: 60, want: 64 })));
    let mut m = x.manifest();
    m.dim = 4;
    let r = FreshIndex::reopen(Layout::Sequential, m, Vec::new(), &centroids[..32]);
    assert!(matches!(r, Err(ReopenError::Parameters(ConstructError::InvalidDim(4)))));
    let mut m = x.manifest();
    m.partitions[0].n_rows = 7;
    let r = FreshIndex::reopen(Layout::Sequential, m, Vec::new(), &centroids);
    assert!(matches!(r, Err(ReopenError::Inconsistent)));
}

#[test]
fn compaction_keeps_live_rows() {
    let (mut x, mut files) = two_partitions();
    x.remove(2);
    x.remove(5);
    let file = file_of(&x, &files, 0).to_vec();
    let mut entries = Vec::new();
    assert!(x.can_rewrite(0));
    let (old_generation, w) = x.compact(0, &file, &mut entries);
    assert_eq!((old_generation, x.partitions[0].generation), (0, 1));
    store(&mut files, w.into_iter().collect());
    x.seal_flush(&entries, false);
    assert_eq!(ids_in(&x, &files, 0), vec![1, 3, 4, 6]);
    assert_eq!(x.live_copies(3).len(), 2);
    assert!(!x.contains(2));
    assert_eq!(x.dead_count(), 0);
    assert_eq!(x.maintenance_stats().rows_compact, 4);
}

#[test]
fn trailing_chunks_are_merged() {
    let (mut x, mut files) = two_partitions();
    for id in 40..44 {
        add(&mut x, &[id]);
        flush(&mut x, &mut files, |_| vec![0]);
    }
    assert_eq!(x.partitions[0].chunks.len(), 5);
    let from = x.merge_point(0).unwrap();
    let file = file_of(&x, &files, 0).to_vec();
    let w = x.tier_merge(0, from, &file);
    store(&mut files, vec![w]);
    assert!(x.partitions[0].chunks.len() <= 2);
    assert_eq!(ids_in(&x, &files, 0), vec![1, 2, 3, 4, 5, 6, 40, 41, 42, 43]);
    for id in 40..44 {
        assert_eq!(x.live_copies(id).len(), 1);
    }
    assert_eq!((x.len(), x.maintenance_stats().tier_merges), (14, 1));
}

/// An id that was removed from the merged chunks does not come back, and no
/// other one goes.
#[test]
fn removed_rows_stay_removed_in_a_merge() {
    let (mut x, mut files) = two_partitions();
    for id in 40..44 {
        add(&mut x, &[id]);
        flush(&mut x, &mut files, |_| vec![0]);
    }
    assert!(x.remove(41));
    let from = x.merge_point(0).unwrap();
    let file = file_of(&x, &files, 0).to_vec();
    let w = x.tier_merge(0, from, &file);
    store(&mut files, vec![w]);
    assert!(!x.contains(41));
    assert_eq!(x.live_copies(41).len(), 0);
    assert_eq!(ids_in(&x, &files, 0), vec![1, 2, 3, 4, 5, 6, 40, 42, 43]);
    for id in [40, 42, 43] {
        assert_eq!(x.live_copies(id).len(), 1);
    }
    assert_eq!((x.len(), x.dead_count()), (13, 1));
    // The id can be added again.
    add(&mut x, &[41]);
    flush(&mut x, &mut files, |_| vec![0]);
    assert_eq!(x.live_copies(41).len(), 1);
    assert_eq!(x.len(), 14);
}

#[test]
fn the_length_counts_the_live_ids() {
    let (mut x, mut files) = two_partitions();
    assert_eq!(x.len(), 10);
    let (gone, touched) = x.remove_many(&[3, 99, 3, 7]);
    assert_eq!((gone, touched), (vec![3, 7], true));
    assert_eq!(x.len(), 8);
    assert!(!x.contains(3) && !x.contains(7) && x.contains(4));
    assert_eq!(x.remove_many(&[3]).0.len(), 0);
    assert!(!x.remove(3));
    assert!(x.remove(4));
    assert_eq!(x.len(), 7);
    add(&mut x, &[3]);
    assert_eq!(x.len(), 8);
    flush(&mut x, &mut files, |_| vec![1, 0]);
    assert_eq!((x.len(), x.live_copies(3).len()), (8, 2));
    // Splitting, dissolving and moving rows leave the number of ids.
    let (rows, _) = x.partition_primaries(0, file_of(&x, &files, 0));
    let mut entries = Vec::new();
    let children: Vec<u32> = (0..rows.len() as u32).map(|i| i % 2).collect();
    let ones = children.iter().filter(|&&c| c == 1).count();
    let out = x.split_partition(0, &rows, &vec![b(1.0); 2 * DIM], &children, ones, &mut entries).unwrap();
    store(&mut files, out.writes);
    x.seal_flush(&entries, false);
    assert_eq!(x.len(), 8);
    let (rows, _) = x.partition_primaries(1, file_of(&x, &files, 1));
    let mut entries = Vec::new();
    let places = vec![0u32; rows.len()];
    let out = x.dissolve_partition(1, &rows, &places, &mut entries);
    store(&mut files, out.writes);
    x.seal_flush(&entries, false);
    assert_eq!(x.len(), 8);
    for id in [1, 2, 3, 5, 6, 8, 9, 10] {
        assert!(x.contains(id));
    }
}

#[test]
fn only_sizes_call_for_maintenance() {
    let (mut x, mut files) = two_partitions();
    x.set_partitioning(Some(6));
    for id in 40..46 {
        add(&mut x, &[id]);
        flush(&mut x, &mut files, |_| vec![0]);
    }
    // Seven chunks, but twelve rows are no more than twice the target.
    assert!(x.partitions[0].chunks.len() > x.tuning().gc_max_chunks);
    assert!(!x.needs_maintenance());
    x.set_partitioning(Some(5));
    assert!(x.needs_maintenance());
}

#[test]
fn fresh_vectors_are_given_back() {
    let mut x = FreshIndex::new(Some(DIM), 4, Layout::Sequential).unwrap();
    x.set_store_vectors(true);
    let mut files = Files::new();
    add(&mut x, &[1, 2, 3, 4]);
    assert_eq!(x.get_vector(&vec![], 3), Some(vector(3)));
    x.remove(2);
    assert_eq!(x.get_vector(&vec![], 2), None);
    assert_eq!(x.get_vector(&vec![], 4), Some(vector(4)));
    flush(&mut x, &mut files, |_| vec![0]);
    add(&mut x, &[5]);
    let all = |x: &FreshIndex, files: &Files, id: u64| {
        let contents: Vec<&[u8]> = (0..x.nlist()).map(|p| file_of(x, files, p)).collect();
        x.get_vector(&contents, id)
    };
    for id in [1, 3, 4, 5] {
        assert_eq!(all(&x, &files, id), Some(vector(id)));
    }
    assert_eq!(all(&x, &files, 2), None);
    x.remove(1);
    flush(&mut x, &mut files, |_| vec![0]);
    let file = file_of(&x, &files, 0).to_vec();
    let mut entries = Vec::new();
    let (_, w) = x.compact(0, &file, &mut entries);
    store(&mut files, w.into_iter().collect());
    x.seal_flush(&entries, false);
    for id in [3, 4, 5] {
        assert_eq!(all(&x, &files, id), Some(vector(id)));
    }
    assert_eq!(all(&x, &files, 1), None);
}

#[test]
fn a_logged_session_is_restored() {
    let (mut x, files) = two_partitions();
    let start = x.manifest().encode();
    let centroids: Vec<u8> = x.centroids.iter().flat_map(|c| c.to_le_bytes()).collect();
    let runs: Vec<Vec<u8>> = x.runs.iter().map(|r| r.bytes.clone()).collect();
    let generations: Vec<u64> = x.runs.iter().map(|r| r.generation).collect();
    let mut log = wal_header(DIM as u32, x.epoch);
    let vectors: Vec<u32> = [50u64, 51].iter().flat_map(|&i| vector(i)).collect();
    add(&mut x, &[50, 51]);
    log.extend(log_adds(&vectors, DIM, &[50, 51]));
    let (gone, _) = x.remove_many(&[51, 2, 99]);
    log.extend(log_removes(&gone));
    assert_eq!(log, {
        let mut want = wal_header(DIM as u32, x.epoch);
        want.extend(wal_record(WAL_ADD, 50, &vector(50)));
        want.extend(wal_record(WAL_ADD, 51, &vector(51)));
        want.extend(wal_record(WAL_REMOVE, 51, &[]));
        want.extend(wal_record(WAL_REMOVE, 2, &[]));
        want
    });
    // A record that was cut off is ignored.
    log.extend(&wal_record(WAL_REMOVE, 3, &[])[..10]);
    let m = decode_manifest(&start).unwrap();
    let runs = runs.into_iter().zip(generations).map(|(bytes, generation)| Run { generation, bytes }).collect();
    let mut y = FreshIndex::reopen(Layout::Sequential, m, runs, &centroids).unwrap();
    assert_eq!(y.tuning(), MaintenanceTuning::default());
    assert!(y.continues_log(&log));
    let records = parse_wal(&log, y.epoch, DIM);
    assert_eq!(records.len(), 4);
    let codes: Vec<Vec<u8>> = records.iter().map(|r| if r.kind == WAL_ADD { code(r.id) } else { vec![] }).collect();
    y.replay(&records, &codes, &vec![0; 4]).unwrap();
    assert_eq!(y.len(), x.len());
    for id in 0..60 {
        assert_eq!(y.contains(id), x.contains(id));
    }
    assert_eq!(ids_in(&y, &files, 0), ids_in(&x, &files, 0));
}

#[test]
fn search_requests_are_checked() {
    let (x, _) = two_partitions();
    let none = SearchOptions::default();
    let q = vec![b(0.5); 2 * DIM];
    assert_eq!(x.begin_search(&q, 3, none), Ok(Some(2)));
    assert_eq!(x.begin_search(&q[..9], 3, none), Err(QueryError::Length));
    let mut bad = q.clone();
    bad[DIM + 3] = b(1e16);
    assert_eq!(x.begin_search(&bad, 3, none), Err(QueryError::Coord { query: 1, coord: 3 }));
    bad[DIM + 3] = b(f32::NAN);
    assert_eq!(x.begin_search(&bad, 3, none), Err(QueryError::Coord { query: 1, coord: 3 }));
    for e in [-0.5f32, f32::INFINITY, f32::NAN] {
        let options = SearchOptions { probe_epsilon: Some(b(e)), ..none };
        assert_eq!(x.begin_search(&q, 3, options), Err(QueryError::ProbeEpsilon));
    }
    assert_eq!(x.begin_search(&q, 3, SearchOptions { probe_epsilon: Some(b(-0.0)), ..none }), Ok(Some(2)));
    let exact = SearchOptions { rescore_k: Some(5), ..none };
    assert_eq!(x.begin_search(&q, 3, exact), Err(QueryError::RescoreNeedsVectors));
    assert_eq!(x.begin_search(&q, 0, exact), Err(QueryError::RescoreNeedsVectors));
    // Nothing to find.
    assert_eq!(x.begin_search(&q, 0, none), Ok(None));
    assert_eq!(x.begin_search(&[], 3, none), Ok(None));
    // Without a dimensionality nothing is looked at.
    let empty = FreshIndex::new(None, 4, Layout::Sequential).unwrap();
    assert_eq!(empty.begin_search(&bad, 3, none), Ok(None));
}

#[test]
fn victims_of_garbage_collection() {
    let (mut x, _) = two_partitions();
    x.remove(1);
    assert_eq!(x.garbage_victims(&[true, false], &[false, false]), vec![0]);
    assert_eq!(x.garbage_victims(&[false, false], &[false, false]), Vec::<usize>::new());
}

#[test]
fn a_split_puts_rows_into_two_partitions() {
    let (mut x, mut files) = two_partitions();
    let mut t = x.tuning();
    t.staging_threshold = 0;
    x.set_tuning(t);
    assert_eq!(x.first_oversized(2), Some(0));
    assert_eq!(x.first_oversized(3), None);
    // Two partitions are never too many.
    assert_eq!(x.first_undersized(20), None);
    let (rows, _) = x.partition_primaries(0, file_of(&x, &files, 0));
    let centroids: Vec<u32> = vec![b(1.0); 2 * DIM];
    let mut entries = Vec::new();
    let none = x.split_partition(0, &rows, &centroids, &vec![1; 6], 6, &mut entries);
    assert!(none.is_none());
    assert_eq!((x.nlist(), x.maintenance_stats().splits_degenerate), (2, 1));
    let out = x.split_partition(0, &rows, &centroids, &vec![0, 1, 0, 1, 0, 1], 3, &mut entries).unwrap();
    store(&mut files, out.writes);
    x.seal_flush(&entries, false);
    assert_eq!(out.dropped, (1, 0));
    assert_eq!((x.nlist(), x.maintenance_stats().splits_done), (3, 1));
    assert_eq!(ids_in(&x, &files, 1), vec![1, 3, 5]);
    assert_eq!(ids_in(&x, &files, 2), vec![2, 4, 6]);
    assert_eq!(x.centroids.len(), 3 * DIM);
    assert_eq!(x.first_undersized(16), Some(1));
    assert_eq!(x.first_undersized(12), None);
    for id in 1..=10 {
        assert!(x.contains(id));
    }
}

#[test]
fn a_dissolved_partition_is_spread_out() {
    let (mut x, mut files) = two_partitions();
    let (rows, _) = x.partition_primaries(1, file_of(&x, &files, 1));
    assert_eq!(rows.ids, vec![7, 8, 9, 10]);
    let mut entries = Vec::new();
    let out = x.dissolve_partition(1, &rows, &[0, 0, 0, 0], &mut entries);
    store(&mut files, out.writes);
    x.seal_flush(&entries, false);
    assert_eq!(out.dropped, (2, 0));
    assert_eq!(x.nlist(), 1);
    assert_eq!(ids_in(&x, &files, 0), (1..=10).collect::<Vec<u64>>());
    assert_eq!(x.live_copies(3).len(), 1);
}

#[test]
fn reassigned_rows_move() {
    let (mut x, mut files) = two_partitions();
    let (rows, numbers) = x.partitions[0].read_live(x.flavor, file_of(&x, &files, 0), 4, 0, true);
    let plan = plan_moves(0, &rows, &numbers, &[0, 1, 1, 0, 1, 0], &[true, true, false, true, true, true]);
    assert_eq!((plan.examined, plan.ids.clone(), plan.source_rows.clone()), (6, vec![2, 5], vec![1, 4]));
    let mut entries = Vec::new();
    let writes = x.apply_reassignment(0, &plan, &mut entries);
    store(&mut files, writes);
    x.seal_flush(&entries, false);
    assert_eq!(ids_in(&x, &files, 0), vec![1, 3, 4, 6]);
    assert_eq!(ids_in(&x, &files, 1), vec![3, 7, 8, 9, 10, 2, 5]);
    assert_eq!(x.live_copies(2).len(), 1);
    assert_eq!(x.maintenance_stats().reassign_rows_moved, 2);
}

#[test]
fn the_pool_holds_changed_partitions_and_neighbours() {
    let (mut x, _) = two_partitions();
    let ids: Vec<u32> = x.partitions.iter().map(|p| p.partition_id).collect();
    assert_eq!(x.changed_positions(&vec![ids[1], 77]), vec![1]);
    let pool = x.reassign_pool(&vec![1], &vec![vec![b(4.0), b(0.0)]]);
    assert_eq!(pool, vec![0, 1]);
}

#[test]
fn dead_rows_displace_no_live_ones() {
    let (mut x, files) = two_partitions();
    x.remove(1);
    x.remove(4);
    let plan = x.plan(3, SearchOptions::default());
    assert_eq!((plan.k_eff, plan.nprobe), (3, 2));
    let (k, base) = x.chunk_fetch(0, 0, 3);
    assert_eq!((k, base), (5, 0));
    let mut out = Vec::new();
    let scores = vec![b(9.0), b(8.0), b(7.0), b(6.0), b(5.0)];
    x.collect_chunk(0, 0, base, file_of(&x, &files, 0), &scores, &vec![0, 1, 2, 3, 4], &mut out);
    assert_eq!(out, vec![(b(8.0), 2), (b(7.0), 3), (b(5.0), 5)]);
    let segments = vec![file_of(&x, &files, 0).to_vec(), file_of(&x, &files, 1).to_vec()];
    let scans = vec![
        ChunkScan { position: 0, chunk: 0, scores, slots: vec![0, 1, 2, 3, 4] },
        ChunkScan { position: 1, chunk: 0, scores: vec![b(7.5), b(6.5)], slots: vec![0, 1] },
    ];
    assert_eq!(
        x.answer(&segments, plan, &scans, &vec![b(1.0)], &vec![60]),
        vec![(b(8.0), 2), (b(7.5), 3), (b(6.5), 7)],
    );
    assert_eq!(x.probe(&vec![b(2.0), b(1.0)], 1, None), vec![1]);
}

#[test]
fn files_of_an_import_hold_every_row() {
    let (mut d, file) = (turbovec::disk::DiskIndex::new(Some(DIM), 4, Layout::Sequential).unwrap(), Vec::new());
    let vectors: Vec<u32> = [5u64, 6].iter().flat_map(|&i| vector(i)).collect();
    let codes: Vec<u8> = [5u64, 6].iter().flat_map(|&i| code(i)).collect();
    d.add_with_ids_2d(&file, &vectors, DIM, &[5, 6], &codes, &[b(5.0), b(6.0)]).unwrap();
    let g = d.gather_rows(&file);
    let seg: Segment = d.write_compacted(&file, &g, turbovec::write::place_flat(2, DIM)).unwrap();
    let bytes = seg.encode();
    let base = BaseSegment::open(&bytes, Layout::Sequential).unwrap();
    let (x, writes) = FreshIndex::import(base.contents(&bytes));
    let mut files = Files::new();
    store(&mut files, writes);
    assert_eq!(x.len(), 2);
    assert!(x.contains(5) && x.contains(6));
    let (rows, _) = x.partitions[0].read_live(x.flavor, file_of(&x, &files, 0), 4, 0, false);
    assert_eq!(export_codes(&rows, 4, DIM), repack(&codes, 2, 4, DIM, Layout::Sequential).0);
}

#[test]
fn names_of_files() {
    assert_eq!(file_name(StoredFile::Run(17)), b"ids-0000000000000017".to_vec());
    for f in [StoredFile::Segment(4_000_000_000, 12), StoredFile::Run(u64::MAX), StoredFile::Centroids(0)] {
        assert_eq!(parse_name(&file_name(f)), Some(f));
    }
    assert_eq!(parse_name(b"ids-x"), None);
    assert_eq!(parse_name(b"notes.txt"), None);
    assert_eq!(temp_sibling(Some(b"a.tvdm")), b"a.tvdm.tmp".to_vec());
    assert_eq!(temp_sibling(None), b"index.tmp".to_vec());
}

#[test]
fn unknown_files_are_swept() {
    let (x, files) = two_partitions();
    assert_eq!(x.file_fate(b"manifest"), Fate::Keep);
    assert_eq!(x.file_fate(b"wal"), Fate::Keep);
    assert_eq!(x.file_fate(b"wal.tmp"), Fate::Delete);
    let n = files[&(1, 0)].len() as u64;
    assert_eq!(x.file_fate(&file_name(StoredFile::Segment(1, 0))), Fate::KeepUpTo(n));
    assert_eq!(x.file_fate(&file_name(StoredFile::Segment(1, 1))), Fate::Delete);
    let run = x.runs[0].generation;
    assert_eq!(x.file_fate(&file_name(StoredFile::Run(run))), Fate::Keep);
    assert_eq!(x.file_fate(&file_name(StoredFile::Run(run + 1))), Fate::Delete);
    assert_eq!(x.file_fate(&file_name(StoredFile::Centroids(x.centroids_generation))), Fate::Keep);
    assert_eq!(x.file_fate(&file_name(StoredFile::Centroids(x.centroids_generation + 1))), Fate::Delete);
}

#[test]
fn files_wait_for_their_readers() {
    let mut r = Retirement::new();
    r.register(1);
    r.register(2);
    assert_eq!(r.retire(1, &vec![StoredFile::Run(5)]), vec![]);
    assert_eq!(r.pending_len(), 1);
    assert_eq!(r.release(2), vec![]);
    assert_eq!(r.release(1), vec![StoredFile::Run(5)]);
    assert_eq!(r.pending_len(), 0);
    r.register(3);
    assert_eq!(r.retire(2, &vec![StoredFile::Run(6)]), vec![StoredFile::Run(6)]);
}

#[test]
fn a_pass_goes_through_its_stages() {
    let (mut x, _) = two_partitions();
    let mut pass = Pass::new();
    assert_eq!(pass.next(&x, false, false), Action::CollectGarbage);
    assert_eq!(pass.next(&x, false, false), Action::Stop);
    x.set_partitioning(Some(2));
    x.clustered = true;
    x.set_replication(Some(b(0.1)));
    let mut pass = Pass::new();
    assert_eq!(pass.next(&x, false, false), Action::Split(0));
    pass.stop_splitting();
    assert_eq!(pass.next(&x, true, true), Action::Reassign);
    let mut seen = Vec::new();
    loop {
        let a = pass.next(&x, true, true);
        seen.push(a);
        if a == Action::Stop {
            break;
        }
        if matches!(a, Action::Split(_)) {
            pass.stop_splitting();
        }
    }
    assert_eq!(
        seen[seen.len() - 4..],
        [Action::RefreshReplicas, Action::CollectGarbage, Action::Test, Action::Stop],
    );
}

#[test]
fn clustering_again_is_tested_after_a_quarter_changed() {
    let (mut x, _) = two_partitions();
    x.churn_since_check = 2;
    assert!(!x.rebootstrap_due());
    x.churn_since_check = 3;
    assert!(x.rebootstrap_due());
    assert_eq!(x.churn_since_check, 0);
    assert_eq!(x.total_primaries(), 10);
}

#[test]
fn centroids_are_written_when_they_changed() {
    let (mut x, _) = two_partitions();
    let before = x.centroids_generation;
    assert!(x.centroids_dirty);
    assert_eq!(x.renew_centroids(true), Some(before));
    assert_eq!(x.centroids_generation, before + 1);
    assert_eq!(x.renew_centroids(true), None);
    assert_eq!(x.centroids_generation, before + 1);
}

#[test]
fn memtable_rows_keep_their_vectors() {
    let mut x = FreshIndex::new(Some(DIM), 4, Layout::Sequential).unwrap();
    x.set_store_vectors(true);
    add(&mut x, &[4, 6]);
    assert_eq!(x.memtable_vector(6), Some(vector(6)));
    assert_eq!(x.memtable_vector(5), None);
    let batch = x.begin_flush().unwrap();
    assert!(x.fits(0, batch.len()));
}

#[test]
fn missing_replicas_are_written_behind() {
    let (mut x, mut files) = two_partitions();
    let copies = x.live_copies(4);
    let rows = x.copy_row_data(primary_copy(&copies).unwrap(), file_of(&x, &files, 0)).unwrap();
    let missing = x.missing_replicas(&copies, &vec![1]);
    let mut entries = Vec::new();
    let writes = x.append_replicas(&rows, &vec![missing], &mut entries);
    store(&mut files, writes);
    x.seal_flush(&entries, false);
    assert_eq!(ids_in(&x, &files, 1), vec![3, 7, 8, 9, 10, 4]);
    let copies = x.live_copies(4);
    assert_eq!(copies.iter().filter(|c| c.is_replica).count(), 1);
    assert_eq!(x.len(), 10);
    assert_eq!((x.replica_count(), x.maintenance_stats().rows_replica), (2, 1));
}

#[test]
fn refreshed_centroids_are_marked() {
    let (mut x, _) = two_partitions();
    x.renew_centroids(true);
    let first = x.centroids[..DIM].to_vec();
    x.set_centroid(1, &[7; DIM]);
    assert!(x.centroids_dirty);
    assert_eq!(x.centroids, [first, vec![7; DIM]].concat());
}

#[test]
fn churn_counts_new_and_removed_rows() {
    let (mut x, mut files) = two_partitions();
    assert_eq!(x.churn_since_check, 0);
    add(&mut x, &[40, 41]);
    flush(&mut x, &mut files, |_| vec![0]);
    assert_eq!(x.churn_since_check, 2);
    x.remove(40);
    assert_eq!(x.churn_since_check, 3);
    x.stats.record_event(Event::Rebootstrap);
    assert_eq!(x.maintenance_stats().rebootstraps, 1);
}

#[test]
fn a_log_replays_over_a_state_that_it_has_reached_in_part() {
    let (mut x, _) = two_partitions();
    let mut t = x.tuning();
    t.staging_threshold = 100;
    x.set_tuning(t);
    let mut log = wal_header(DIM as u32, x.epoch);
    add(&mut x, &[30]);
    log.extend(wal_record(WAL_ADD, 30, &vector(30)));
    x.remove(5);
    log.extend(wal_record(WAL_REMOVE, 5, &[]));
    // The rows are held back: the manifest knows of the removal only.
    assert!(x.begin_flush().is_none());
    x.seal_flush(&Vec::<RunEntry>::new(), false);
    let m = x.manifest();
    let centroids: Vec<u8> = x.centroids.iter().flat_map(|c| c.to_le_bytes()).collect();
    let live: Vec<bool> = (0..40).map(|i| x.contains(i)).collect();
    let mut back = FreshIndex::reopen(Layout::Sequential, m, x.runs, &centroids).unwrap();
    assert!(back.continues_log(&log) && !back.contains(5) && !back.contains(30));
    for r in &parse_wal(&log, back.epoch, DIM) {
        back.replay_record(r, &code(r.id), b(r.id as f32)).unwrap();
    }
    assert_eq!((0..40).map(|i| back.contains(i)).collect::<Vec<bool>>(), live);
}

fn centroid_bytes(x: &FreshIndex) -> Vec<u8> {
    x.centroids.iter().flat_map(|c| c.to_le_bytes()).collect()
}

fn copied_runs(x: &FreshIndex) -> Vec<Run> {
    x.runs.iter().map(|r| Run { generation: r.generation, bytes: r.bytes.clone() }).collect()
}

#[test]
fn an_import_without_rows_has_a_partition() {
    let d = turbovec::disk::DiskIndex::new(None, 4, Layout::Sequential).unwrap();
    let g = d.gather_rows(&[]);
    let bytes = d.write_compacted(&[], &g, turbovec::write::place_flat(0, 0)).unwrap().encode();
    let contents = BaseSegment::open(&bytes, Layout::Sequential).unwrap().contents(&bytes);
    assert!(contents.is_importable());
    let (x, writes) = FreshIndex::import(contents);
    assert!(writes.is_empty() && x.runs.is_empty() && x.centroids.is_empty());
    assert_eq!((x.nlist(), x.dim_opt(), x.len(), x.epoch), (1, None, 0, 1));
    assert_eq!((x.next_partition_id, x.churn_since_check, x.centroids_generation), (1, 0, 0));
    // The manifest opens again, and rows can follow.
    let m = decode_manifest(&x.manifest().encode()).unwrap();
    assert_eq!((m.dim, m.partitions.len()), (0, 1));
    let mut y = FreshIndex::reopen(Layout::Sequential, m, Vec::new(), &[]).unwrap();
    assert_eq!(y.nlist(), 1);
    y.flush_bare();
    assert_eq!((y.nlist(), y.epoch), (1, 2));
    let mut files = Files::new();
    add(&mut y, &[1, 2]);
    assert_eq!(y.centroids, vec![0; DIM]);
    flush(&mut y, &mut files, |_| vec![0]);
    assert_eq!((y.nlist(), y.len(), y.epoch), (1, 2, 3));
    assert_eq!(ids_in(&y, &files, 0), vec![1, 2]);
    let m = decode_manifest(&y.manifest().encode()).unwrap();
    let z = FreshIndex::reopen(Layout::Sequential, m, copied_runs(&y), &centroid_bytes(&y)).unwrap();
    assert!(z.contains(1) && z.contains(2));
}

#[test]
fn rows_without_a_dimensionality_do_not_reopen() {
    let (x, _) = two_partitions();
    let mut m = x.manifest();
    m.dim = 0;
    m.tqplus_shift.clear();
    m.tqplus_scale.clear();
    let r = FreshIndex::reopen(Layout::Sequential, m, Vec::new(), &[]);
    assert!(matches!(r, Err(ReopenError::Inconsistent)));
}

#[test]
fn a_replayed_row_gives_bare_partitions_centroids() {
    let mut x = FreshIndex::new(None, 4, Layout::Sequential).unwrap();
    x.flush_bare();
    let mut m = x.manifest();
    m.partitions.push(turbovec::partition::PartitionState::new(0));
    m.next_partition_id = 1;
    let mut y = FreshIndex::reopen(Layout::Sequential, m, Vec::new(), &[]).unwrap();
    let mut log = wal_header(DIM as u32, y.epoch);
    log.extend(wal_record(WAL_ADD, 7, &vector(7)));
    let records = parse_wal(&log, y.epoch, DIM);
    y.replay_record(&records[0], &code(7), b(7.0)).unwrap();
    assert_eq!((y.dim_opt(), y.centroids.clone(), y.nlist()), (Some(DIM), vec![0; DIM], 1));
    assert!(y.contains(7));
}

#[test]
fn assignment_gauges_are_of_the_latest_flush() {
    let (mut x, mut files) = two_partitions();
    x.stats.record_assignment(10, 2);
    assert_eq!((x.maintenance_stats().assign_rows, x.maintenance_stats().assign_nlist), (10, 2));
    add(&mut x, &[20]);
    flush(&mut x, &mut files, |_| vec![1]);
    assert_eq!((x.maintenance_stats().assign_rows, x.maintenance_stats().assign_nlist), (0, 0));
}

#[test]
fn many_partitions_are_searched_through_groups() {
    let (mut x, _) = two_partitions();
    assert_eq!(x.routing(), Routing::Nearest);
    x.clustered = false;
    assert_eq!(x.routing(), Routing::First);
    let mut y = FreshIndex::new(Some(DIM), 4, Layout::Sequential).unwrap();
    y.clustered = true;
    for _ in 0..HIERARCHY_MIN_NLIST {
        y.create_partition(&vector(1));
    }
    y.set_tuning(MaintenanceTuning { hierarchical_assign: true, ..MaintenanceTuning::default() });
    assert_eq!(y.routing(), Routing::Coarse);
    y.set_replication(Some(b(0.25)));
    assert_eq!(y.routing(), Routing::Nearest);
}

#[test]
fn a_run_file_holds_the_entries_by_id() {
    let mut x = FreshIndex::new(Some(DIM), 4, Layout::Sequential).unwrap();
    let entry = |id: u64, row: u32| RunEntry { id, partition_id: 2, generation: 1, row, flags: 0 };
    x.write_run(&vec![entry(9, 0), entry(3, 1)]);
    let bytes = &x.runs[0].bytes;
    assert!(check_run(bytes));
    let nine: Vec<usize> = (0..bytes.len() - 7).filter(|&i| bytes[i..i + 8] == 9u64.to_le_bytes()).collect();
    let three: Vec<usize> = (0..bytes.len() - 7).filter(|&i| bytes[i..i + 8] == 3u64.to_le_bytes()).collect();
    assert!(three.last() < nine.last());
}

#[test]
fn centroids_follow_the_rows_that_moved() {
    let (mut x, mut files) = two_partitions();
    x.create_partition(&vector(0));
    x.create_partition(&vector(0));
    let (rows, numbers) = x.partitions[0].read_live(x.flavor, file_of(&x, &files, 0), 4, 0, true);
    let still = plan_moves(0, &rows, &numbers, &[0; 6], &[true; 6]);
    assert_eq!(x.refreshed(&vec![2], &vec![(0, still)]), vec![2]);
    let plan = plan_moves(0, &rows, &numbers, &[0, 1, 1, 0, 1, 0], &[true, true, false, true, true, true]);
    let plans = vec![(0, plan)];
    let positions = x.refreshed(&vec![2], &plans);
    assert_eq!(positions, vec![0, 1, 2]);
    let mut entries = Vec::new();
    let writes = x.apply_reassignment(0, &plans[0].1, &mut entries);
    store(&mut files, writes);
    let before = x.centroids.clone();
    x.centroids_dirty = false;
    // Partition 2 has no rows, so its centroid stays.
    x.refresh_centroids(&positions, &vec![Some(vector(4)), Some(vector(8)), None]);
    assert_eq!(x.centroids[..DIM], vector(4));
    assert_eq!(x.centroids[DIM..2 * DIM], vector(8));
    assert_eq!(x.centroids[2 * DIM..], before[2 * DIM..]);
    assert!(x.centroids_dirty);
    x.centroids_dirty = false;
    x.refresh_centroids(&vec![2], &vec![None]);
    assert!(!x.centroids_dirty);
}

#[test]
fn maintenance_between_saves_loses_no_logged_call() {
    let (mut x, mut files) = two_partitions();
    let mut log = wal_header(DIM as u32, x.epoch);
    add(&mut x, &[50, 51]);
    log.extend(log_adds(&[50u64, 51].iter().flat_map(|&i| vector(i)).collect::<Vec<u32>>(), DIM, &[50, 51]));
    let (gone, _) = x.remove_many(&[2, 51]);
    log.extend(log_removes(&gone));
    // Upkeep rewrites a partition and seals without draining the memtable.
    let mut entries = Vec::new();
    let file = file_of(&x, &files, 0).to_vec();
    let (_, w) = x.compact(0, &file, &mut entries);
    store(&mut files, w.into_iter().collect());
    x.seal_flush(&entries, false);
    let (m, runs, centroids) = (x.manifest().encode(), copied_runs(&x), centroid_bytes(&x));
    // More calls come before the crash, and the last record is torn.
    let (gone, _) = x.remove_many(&[7]);
    log.extend(log_removes(&gone));
    add(&mut x, &[51]);
    log.extend(log_adds(&vector(51), DIM, &[51]));
    log.extend(&wal_record(WAL_REMOVE, 3, &[])[..5]);
    let mut y = FreshIndex::reopen(Layout::Sequential, decode_manifest(&m).unwrap(), runs, &centroids).unwrap();
    assert!(y.continues_log(&log));
    for r in &parse_wal(&log, y.epoch, DIM) {
        y.replay_record(r, &code(r.id), b(r.id as f32)).unwrap();
    }
    for id in 0..60 {
        assert_eq!(y.contains(id), x.contains(id), "id {id}");
    }
    assert_eq!((y.len(), y.contains(51), y.contains(2), y.contains(7)), (10, true, false, false));
}

#[test]
fn reads_are_announced_before_a_scan() {
    let (mut x, files) = two_partitions();
    let sizes: Vec<u64> = (0..2).map(|p| file_of(&x, &files, p).len() as u64).collect();
    assert_eq!(x.prefetch(&vec![1, 0, 9]), vec![(1, sizes[1]), (0, sizes[0])]);
    assert!(x.prefetch(&vec![1]).is_empty());
    for id in 1..=6 {
        x.remove(id);
    }
    assert_eq!(x.prefetch(&vec![0, 1]), vec![(1, sizes[1])]);
}
