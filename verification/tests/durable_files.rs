use turbovec::batch::RowBatch;
use turbovec::bits::{count_marks, cover, is_marked, mark};
use turbovec::bytes::read_u32;
use turbovec::chunk::{chunk_layout, encode_chunk, layout_for, push_chunk_row};
use turbovec::copies::{is_current, live_copies, merge_run_range, tier_merge_runs, CopyLocation, Run, MAX_RUNS};
use turbovec::crc::crc32;
use turbovec::manifest::{decode_manifest, Manifest, ManifestError};
use turbovec::pack::Layout;
use turbovec::partition::{ChunkMeta, PartitionState};
use turbovec::runs::{encode_run, run_entry, run_entry_count, run_lookup, RunEntry, ENTRY_FLAG_REPLICA};
use turbovec::tier::carry_from;
use turbovec::wal::{parse_wal, parse_wal_dim, parse_wal_epoch, wal_header, wal_record, WAL_ADD, WAL_REMOVE};

fn partition(id: u32, n: u64) -> PartitionState {
    let mut p = PartitionState::new(id);
    if n > 0 {
        p.chunks.push(ChunkMeta { offset: 0, n_rows: n as u32 });
        p.n_rows = n;
        p.live_rows = n;
        p.live_primary = n;
        p.dead = vec![0; (n as usize + 7) / 8];
        p.file_bytes = 64;
    }
    p
}

#[test]
fn checksum_of_the_check_string() {
    assert_eq!(crc32(b"123456789"), 0xCBF4_3926);
    assert_eq!(crc32(b""), 0);
}

#[test]
fn a_changed_byte_changes_the_checksum() {
    let text = b"the quick brown fox".to_vec();
    let want = crc32(&text);
    for i in 0..text.len() {
        let mut other = text.clone();
        other[i] ^= 0x40;
        assert_ne!(crc32(&other), want);
    }
}

fn log() -> Vec<u8> {
    let mut log = wal_header(2, 5);
    log.extend(wal_record(WAL_ADD, 10, &[1, 2]));
    log.extend(wal_record(WAL_REMOVE, 11, &[]));
    log.extend(wal_record(WAL_ADD, 12, &[3, 4]));
    log
}

#[test]
fn a_log_gives_back_its_records() {
    let bytes = log();
    assert_eq!(parse_wal_epoch(&bytes), Some(5));
    assert_eq!(parse_wal_dim(&bytes), Some(2));
    let records = parse_wal(&bytes, 5, 2);
    let got: Vec<(u8, u64, Vec<u32>)> = records.into_iter().map(|r| (r.kind, r.id, r.vector)).collect();
    assert_eq!(
        got,
        vec![(WAL_ADD, 10, vec![1, 2]), (WAL_REMOVE, 11, vec![]), (WAL_ADD, 12, vec![3, 4])],
    );
}

#[test]
fn another_log_is_ignored() {
    let bytes = log();
    assert_eq!(parse_wal(&bytes, 6, 2).len(), 0);
    assert_eq!(parse_wal(&bytes, 5, 3).len(), 0);
    assert_eq!(parse_wal(&bytes, 5, 0).len(), 3);
    assert_eq!(parse_wal(&bytes[..20], 5, 2).len(), 0);
    assert_eq!(parse_wal_epoch(&bytes[..20]), None);
    let mut other = bytes;
    other[0] = b'X';
    assert_eq!(parse_wal_dim(&other), None);
}

#[test]
fn a_torn_record_is_dropped() {
    let bytes = log();
    let intact = 24 + 24 + 16;
    for end in intact..bytes.len() {
        assert_eq!(parse_wal(&bytes[..end], 5, 2).len(), 2);
    }
}

#[test]
fn a_damaged_record_ends_the_log() {
    let mut bytes = log();
    bytes[24 + 24 + 8] ^= 1;
    assert_eq!(parse_wal(&bytes, 5, 2).len(), 1);
    bytes[24 + 16] ^= 1;
    assert_eq!(parse_wal(&bytes, 5, 2).len(), 0);
}

fn entry(id: u64, partition_id: u32, row: u32, flags: u32) -> RunEntry {
    RunEntry { id, partition_id, generation: 0, row, flags }
}

#[test]
fn a_run_is_sorted_by_id() {
    let run = encode_run(&vec![entry(9, 0, 0, 0), entry(4, 1, 2, 1), entry(9, 1, 3, 1), entry(1, 0, 1, 0)]);
    assert_eq!(run.len(), 16 + 4 * 24);
    assert_eq!(run_entry_count(&run), 4);
    assert_eq!((0..4).map(|k| run_entry(&run, k).id).collect::<Vec<u64>>(), vec![1, 4, 9, 9]);
    let found = run_lookup(&run, 9);
    assert_eq!(found.iter().map(|e| (e.partition_id, e.row, e.flags)).collect::<Vec<_>>(), vec![(0, 0, 0), (1, 3, 1)]);
    assert_eq!(run_lookup(&run, 5).len(), 0);
    assert_eq!(run_entry_count(&encode_run(&Vec::new())), 0);
}

#[test]
fn dead_rows_are_not_found() {
    let mut parts = vec![partition(0, 3), partition(5, 4)];
    let runs = vec![
        Run { generation: 0, bytes: encode_run(&vec![entry(9, 0, 1, 0), entry(8, 7, 0, 0)]) },
        Run { generation: 1, bytes: encode_run(&vec![entry(9, 5, 2, ENTRY_FLAG_REPLICA)]) },
    ];
    let all = live_copies(&parts, &runs, 9);
    assert_eq!(all.len(), 2);
    // Newest run first.
    let key = |c: &CopyLocation| (c.partition_id, c.row, c.is_replica);
    assert_eq!(all.iter().map(key).collect::<Vec<_>>(), vec![(5, 2, true), (0, 1, false)]);
    assert!(live_copies(&parts, &runs, 8).is_empty());
    parts[0].mark_dead(1, false);
    assert_eq!(live_copies(&parts, &runs, 9).iter().map(key).collect::<Vec<_>>(), vec![(5, 2, true)]);
    parts[1].generation = 1;
    assert!(!is_current(&parts, entry(9, 5, 2, ENTRY_FLAG_REPLICA)));
    assert!(live_copies(&parts, &runs, 9).is_empty());
}

#[test]
fn merging_drops_what_is_no_longer_current() {
    let mut parts = vec![partition(0, 4)];
    parts[0].mark_dead(0, false);
    let mut runs: Vec<Run> = (0..4u64)
        .map(|i| Run { generation: i, bytes: encode_run(&vec![entry(10 + i, 0, i as u32, 0)]) })
        .collect();
    let mut next = 4;
    let mut dropped = Vec::new();
    merge_run_range(&parts, &mut runs, 0, 3, &mut next, &mut dropped);
    assert_eq!(runs.iter().map(|r| r.generation).collect::<Vec<u64>>(), vec![4, 3]);
    assert_eq!(dropped, vec![0, 1, 2]);
    assert_eq!(run_entry_count(&runs[0].bytes), 2);
    assert_eq!(next, 5);
    assert_eq!(live_copies(&parts, &runs, 11).len(), 1);
}

#[test]
fn runs_are_tidied_in_tiers() {
    let parts = vec![partition(0, 64)];
    let mut runs = Vec::new();
    let mut next = 0;
    let mut dropped = Vec::new();
    for i in 0..64u64 {
        runs.push(Run { generation: next, bytes: encode_run(&vec![entry(i, 0, i as u32, 0)]) });
        next += 1;
        tier_merge_runs(&parts, &mut runs, &mut next, &mut dropped);
    }
    assert!(runs.len() <= MAX_RUNS + 1);
    for i in 0..64 {
        assert_eq!(live_copies(&parts, &runs, i).len(), 1);
    }
}

#[test]
fn sizes_carry_like_digits() {
    assert_eq!(carry_from(&vec![1, 1]), 0);
    assert_eq!(carry_from(&vec![4, 2, 1]), 2);
    assert_eq!(carry_from(&vec![8, 3, 2, 1]), 3);
    assert_eq!(carry_from(&vec![8, 3, 2, 2]), 1);
    assert_eq!(carry_from(&vec![5]), 0);
}

#[test]
fn dead_in_matches_per_row_counting() {
    for n_rows in [1u64, 7, 8, 9, 63, 64, 65, 100] {
        let mut p = partition(0, n_rows);
        for r in 0..n_rows {
            if r % 3 == 0 || r == n_rows - 1 {
                p.mark_dead(r, false);
            }
        }
        for base in 0..n_rows {
            for len in 0..=(n_rows - base) as usize {
                let want = (base..base + len as u64).filter(|&r| p.is_dead(r)).count();
                assert_eq!(p.dead_in(base, len), want, "n_rows={n_rows} base={base} len={len}");
            }
        }
    }
}

#[test]
fn bitmaps_cover_rows() {
    let mut map: Vec<u8> = Vec::new();
    cover(&mut map, 20);
    assert_eq!(map.len(), 3);
    mark(&mut map, 3);
    mark(&mut map, 17);
    assert!(is_marked(&map, 17) && !is_marked(&map, 16) && !is_marked(&map, 1000));
    assert_eq!(count_marks(&map, 0, 20), 2);
    assert_eq!(count_marks(&map, 0, map.len() * 8), 2);
}

#[test]
fn booked_and_folded_chunks() {
    let mut p = PartitionState::new(3);
    p.book_chunk(10, 8, 128);
    p.book_chunk(5, 5, 64);
    assert_eq!((p.n_rows, p.live_rows, p.live_primary, p.file_bytes), (15, 15, 13, 192));
    assert_eq!(p.chunks[1].offset, 128);
    assert!(p.mark_dead(11, false));
    assert!(!p.mark_dead(11, false));
    assert!(p.mark_dead(2, true));
    assert_eq!((p.live_rows, p.live_primary), (13, 12));
    p.fold(1, 64);
    assert_eq!((p.n_rows, p.live_rows, p.live_primary, p.file_bytes), (15, 13, 12, 256));
    assert_eq!((p.chunks.len(), p.chunks[1].offset, p.chunks[1].n_rows), (2, 192, 5));
    assert!(p.is_dead(2) && p.is_dead(11) && !p.is_dead(12));
    p.restart();
    assert_eq!((p.n_rows, p.live_rows, p.live_primary, p.file_bytes, p.generation), (0, 0, 0, 0, 1));
}

fn batch(n: usize, width: usize) -> RowBatch {
    let mut b = RowBatch::new(4, width);
    for i in 0..n {
        let codes: Vec<u8> = (0..4).map(|g| (i * 31 + g * 7) as u8).collect();
        let vector: Vec<u32> = (0..width).map(|c| (i * 100 + c) as u32).collect();
        b.push_row(&codes, 1000 + i as u32, 50 + i as u64, i % 4 == 3, &vector);
    }
    b
}

#[test]
fn a_chunk_gives_back_its_rows() {
    for flavor in [Layout::Sequential, Layout::Interleaved] {
        for (n, width) in [(1, 0), (33, 0), (40, 8)] {
            let b = batch(n, width);
            let bytes = encode_chunk(flavor, &b);
            let layout = layout_for(4, width, n);
            assert_eq!(bytes.len(), layout.total_len);
            assert_eq!(bytes.len() % 64, 0);
            let mut back = RowBatch::new(4, width);
            for i in 0..n {
                push_chunk_row(flavor, &bytes, 0, &layout, n, i, &mut back);
            }
            assert_eq!(back.group_rows, b.group_rows);
            assert_eq!(back.scales, b.scales);
            assert_eq!(back.ids, b.ids);
            assert_eq!(back.replica, b.replica);
            assert_eq!(back.vectors, b.vectors);
        }
    }
}

#[test]
fn chunk_sections_are_laid_out_in_order() {
    let l = chunk_layout(4, 8, 40, true);
    // Two blocks of 32 rows, four bytes of codes per row.
    assert_eq!(l.codes, (64, 256));
    assert_eq!(l.scales, (320, 160));
    assert_eq!(l.ids, (480, 320));
    assert_eq!(l.replica_bits, (800, 5));
    assert_eq!(l.vectors, (808, 1280));
    assert_eq!(l.total_len, 2112);
}

#[test]
fn rows_are_distributed_with_their_replicas() {
    let b = batch(5, 2);
    let parts = b.distribute(&[0, 2, 0, 2, 1], 3);
    assert_eq!(parts.iter().map(|p| p.ids.clone()).collect::<Vec<_>>(), vec![vec![50, 52], vec![54], vec![51, 53]]);
    let copies = b.distribute_copies(&vec![vec![0, 1], vec![1], vec![2, 0], vec![0], vec![1]], 3);
    assert_eq!(copies[0].ids, vec![50, 52, 53]);
    assert_eq!(copies[0].replica, vec![false, true, false]);
    assert_eq!(copies[1].ids, vec![50, 51, 54]);
    let (primary, replicas) = b.part_replicas();
    assert_eq!(primary.ids, vec![50, 51, 52, 54]);
    assert_eq!(replicas, vec![53]);
}

#[test]
fn live_rows_are_read_back() {
    let b = batch(6, 0);
    let mut file = encode_chunk(Layout::Sequential, &b);
    let mut p = PartitionState::new(0);
    p.book_chunk(6, 5, file.len() as u64);
    let more = batch(2, 0);
    let second = encode_chunk(Layout::Sequential, &more);
    p.book_chunk(2, 2, second.len() as u64);
    file.extend(second);
    p.mark_dead(1, false);
    let (rows, numbers) = p.read_live(Layout::Sequential, &file, 4, 0, false);
    assert_eq!(rows.ids, vec![50, 52, 53, 54, 55, 50, 51]);
    assert_eq!(numbers, vec![0, 2, 3, 4, 5, 6, 7]);
    let (rows, numbers) = p.read_live(Layout::Sequential, &file, 4, 0, true);
    assert_eq!(rows.ids, vec![50, 52, 54, 55, 50, 51]);
    assert_eq!(numbers, vec![0, 2, 4, 5, 6, 7]);
    let (rows, _) = p.read_live_from(Layout::Sequential, &file, 4, 0, 1, false);
    assert_eq!(rows.ids, vec![50, 51]);
    // A chunk of six rows and one of two, each rounded up.
    assert_eq!(p.live_bytes(4, 8, false), 320 + 256);
    assert_eq!(p.garbage_bytes(4, 8, false), 0);
}

fn manifest() -> Manifest {
    Manifest {
        bit_width: 4,
        store_vectors: true,
        clustered: true,
        dim: 2,
        epoch: 9,
        partition_target: Some(100),
        replica_epsilon: Some(0x3DCC_CCCD),
        next_partition_id: 7,
        next_run_generation: 3,
        churn_since_check: 44,
        tqplus_shift: vec![1, 2],
        tqplus_scale: vec![3, 4],
        runs: vec![1, 2],
        partitions: vec![partition(2, 10), partition(6, 0)],
        centroids_generation: 5,
    }
}

#[test]
fn a_manifest_gives_back_what_it_holds() {
    let m = manifest();
    let back = decode_manifest(&m.encode()).unwrap();
    assert_eq!((back.bit_width, back.store_vectors, back.clustered, back.dim), (4, true, true, 2));
    assert_eq!((back.epoch, back.partition_target, back.replica_epsilon), (9, Some(100), Some(0x3DCC_CCCD)));
    assert_eq!((back.next_partition_id, back.next_run_generation, back.churn_since_check), (7, 3, 44));
    assert_eq!((back.tqplus_shift, back.tqplus_scale, back.runs), (vec![1, 2], vec![3, 4], vec![1, 2]));
    assert_eq!(back.centroids_generation, 5);
    assert_eq!(back.partitions.len(), 2);
    assert_eq!((back.partitions[0].partition_id, back.partitions[0].n_rows), (2, 10));
    assert_eq!(back.partitions[0].chunks.len(), 1);
    assert_eq!(back.partitions[0].dead, vec![0, 0]);
    assert_eq!(back.partitions[1].partition_id, 6);
}

fn sealed(mut bytes: Vec<u8>) -> Vec<u8> {
    let n = bytes.len() - 4;
    let crc = crc32(&bytes[..n]).to_le_bytes();
    bytes[n..].copy_from_slice(&crc);
    bytes
}

#[test]
fn damaged_manifests_are_refused() {
    let good = manifest().encode();
    let n = good.len();
    assert_eq!(read_u32(&good, n - 4), crc32(&good[..n - 4]));
    for i in 5..n {
        let mut bad = good.clone();
        bad[i] ^= 0x10;
        assert_eq!(decode_manifest(&bad).err(), Some(ManifestError::Checksum));
    }
    let mut bad = good.clone();
    bad[0] = 0;
    assert_eq!(decode_manifest(&bad).err(), Some(ManifestError::NotAManifest));
    assert_eq!(decode_manifest(&good[..55]).err(), Some(ManifestError::NotAManifest));
    let mut bad = good.clone();
    bad[4] = 2;
    assert_eq!(decode_manifest(&bad).err(), Some(ManifestError::Version(2)));
    let mut bad = good.clone();
    bad[5] = 5;
    assert_eq!(decode_manifest(&sealed(bad)).err(), Some(ManifestError::BitWidth(5)));
    let mut bad = good.clone();
    bad[36] = 3;
    assert_eq!(decode_manifest(&sealed(bad)).err(), Some(ManifestError::Truncated));
    assert_eq!(decode_manifest(&sealed(good[..n - 8].to_vec())).err(), Some(ManifestError::Truncated));
}
