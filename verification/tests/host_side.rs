use std::sync::atomic::{AtomicUsize, Ordering};
use turbovec::delta::Delta;
use turbovec::host::{
    caller_stacklevel, check_allowlist, check_search_args, check_settings, count_unique, current_pool, desired_threads,
    empty_result_width, extract_index, extract_membership_id, extract_size, join_vectors, mask_bytes, rayon_thread_cap, retain_snap,
    unknown_ids, AllowlistError, ArgError, IndexError, IntArg, PoolIdentity, SearchArgError, SettingError, VectorsError, WarningQueue,
};

/// One `add`'s worth of buffer handling: the snapshot is refilled to the
/// input length, then cut as the library decides.
fn one_add(snap: &mut Vec<f32>, prev: &AtomicUsize, len: usize) {
    snap.clear();
    snap.reserve(len);
    snap.resize(len, 0.0);
    let before = prev.swap(len, Ordering::Relaxed);
    if let Some(target) = retain_snap(snap.capacity(), before) {
        snap.truncate(target);
        snap.shrink_to(target);
    }
}

#[test]
fn one_shot_bulk_add_releases_the_snapshot() {
    let big = 8 << 20;
    let prev = AtomicUsize::new(0);
    let mut snap = Vec::new();
    one_add(&mut snap, &prev, big);
    assert!(
        snap.capacity() < big / 4,
        "one-shot bulk add retained {} snapshot elements (input was {big})",
        snap.capacity(),
    );
}

#[test]
fn repeated_same_size_adds_keep_the_snapshot_warm() {
    let big = 8 << 20;
    let prev = AtomicUsize::new(0);
    let mut snap = Vec::new();
    for _ in 0..3 {
        one_add(&mut snap, &prev, big);
    }
    assert!(
        snap.capacity() >= big,
        "steady same-size adds dropped the warm snapshot to {} elements (need {big})",
        snap.capacity(),
    );
}

#[test]
fn growing_batch_sizes_keep_their_growth_headroom() {
    let prev = AtomicUsize::new(0);
    let mut snap = Vec::new();
    let mut len = 1 << 20;
    let mut last = 0;
    for _ in 0..6 {
        one_add(&mut snap, &prev, len);
        last = len;
        len += len / 20; // +5% per batch
    }
    assert!(
        snap.capacity() >= last,
        "a growing batch size left only {} snapshot elements after a \
         {last}-element add",
        snap.capacity(),
    );
}

#[test]
fn a_step_up_in_batch_size_is_not_shrunk_back() {
    let small = 2 << 20;
    let big = 3 * small;
    let prev = AtomicUsize::new(0);
    let mut snap = Vec::new();
    one_add(&mut snap, &prev, small);
    one_add(&mut snap, &prev, big);
    assert!(
        snap.capacity() >= big,
        "a {small}->{big} step left only {} snapshot elements",
        snap.capacity(),
    );
}

#[test]
fn a_one_off_spike_does_not_stay_pinned() {
    let n = 2 << 20;
    let prev = AtomicUsize::new(0);
    let mut snap = Vec::new();
    one_add(&mut snap, &prev, n);
    one_add(&mut snap, &prev, 4 * n);
    one_add(&mut snap, &prev, n);
    assert!(
        snap.capacity() < 4 * n,
        "a 4x spike left {} snapshot elements pinned after the batch \
         size dropped back to {n}",
        snap.capacity(),
    );
}

#[test]
fn jittering_batch_sizes_keep_their_growth_headroom() {
    let prev = AtomicUsize::new(0);
    let mut snap = Vec::new();
    let sizes = [
        7_200_000, 8_800_000, 7_600_000, 8_640_000, 7_360_000, 8_320_000,
    ];
    for len in sizes {
        one_add(&mut snap, &prev, len);
    }
    assert!(
        snap.capacity() >= 8_320_000,
        "a jittering batch size left only {} snapshot elements",
        snap.capacity(),
    );
}

#[test]
fn retention_has_a_threshold() {
    assert_eq!(retain_snap(30, 10), None);
    assert_eq!(retain_snap(31, 10), Some(15));
    assert_eq!(retain_snap(1, 0), Some(0));
    assert_eq!(retain_snap(0, 0), None);
    assert_eq!(retain_snap(usize::MAX, usize::MAX), None);
}

#[test]
fn sizes_and_ids_from_integers() {
    assert_eq!(extract_size(IntArg::Small(7)), Ok(7));
    assert_eq!(extract_size(IntArg::Small(-1)), Err(ArgError::Negative));
    assert_eq!(extract_size(IntArg::Small(1i128 << 64)), Err(ArgError::TooLarge));
    assert_eq!(extract_size(IntArg::Huge(true)), Err(ArgError::Negative));
    assert_eq!(extract_size(IntArg::Huge(false)), Err(ArgError::TooLarge));
    assert_eq!(extract_size(IntArg::NotAnInteger), Err(ArgError::NotAnInteger));
    assert_eq!(extract_membership_id(IntArg::Small(u64::MAX as i128)), Ok(Some(u64::MAX)));
    assert_eq!(extract_membership_id(IntArg::Small(1i128 << 64)), Ok(None));
    assert_eq!(extract_membership_id(IntArg::Small(-1)), Ok(None));
    assert_eq!(extract_membership_id(IntArg::Huge(false)), Ok(None));
    assert_eq!(extract_membership_id(IntArg::NotAnInteger), Err(ArgError::NotAnInteger));
}

#[test]
fn any_byte_but_zero_selects() {
    assert_eq!(mask_bytes(&[0, 1, 2, 255, 0]), vec![false, true, true, true, false]);
}

#[test]
fn allowlists_name_something_that_is_there() {
    let mut index = Delta::empty(Some(8), vec![], vec![]);
    index.append(8, &[10, 20], &[0; 8], &[0; 2], &[], 4, false);
    assert_eq!(check_allowlist(&index, None), None);
    assert_eq!(check_allowlist(&index, Some(&[])), Some(AllowlistError::Empty));
    assert_eq!(check_allowlist(&index, Some(&[20, 20])), None);
    assert_eq!(
        check_allowlist(&index, Some(&[20, 5])),
        Some(AllowlistError::Unknown { ids: vec![5], more: false }),
    );
}

#[test]
fn unknown_ids_are_previewed() {
    let mut index = Delta::empty(Some(8), Vec::new(), Vec::new());
    index.append(8, &[10, 20], &[0; 8], &[0, 0], &[], 4, false);
    assert_eq!(unknown_ids(&index, &[20, 10]), None);
    assert_eq!(unknown_ids(&index, &[20, 1, 10, 2]), Some((vec![1, 2], false)));
    assert_eq!(unknown_ids(&index, &[1, 2, 3, 4, 5]), Some((vec![1, 2, 3, 4, 5], false)));
    assert_eq!(unknown_ids(&index, &[1, 1, 3, 4, 5, 6, 7]), Some((vec![1, 1, 3, 4, 5], true)));
}

#[test]
fn empty_results_have_the_width_of_full_ones() {
    assert_eq!(count_unique(&[1, 1, 2]), 2);
    assert_eq!(empty_result_width(10, 4, None), 4);
    assert_eq!(empty_result_width(3, 4, None), 3);
    assert_eq!(empty_result_width(10, 4, Some(&[1, 1, 1])), 1);
}

#[test]
fn search_arguments_are_checked_in_order() {
    let eps = Some((-1.0f32).to_bits());
    assert_eq!(
        check_search_args(8, Some(16), Some(0), eps, Some(1), false),
        Some(SearchArgError::Dim { query: 8, index: 16 }),
    );
    assert_eq!(check_search_args(8, Some(8), Some(0), eps, Some(1), false), Some(SearchArgError::Nprobe));
    assert_eq!(check_search_args(8, None, Some(1), eps, Some(1), false), Some(SearchArgError::ProbeEpsilon));
    assert_eq!(
        check_search_args(8, None, None, Some(f32::NAN.to_bits()), None, true),
        Some(SearchArgError::ProbeEpsilon),
    );
    assert_eq!(
        check_search_args(8, None, None, Some(0), Some(1), false),
        Some(SearchArgError::RescoreNeedsVectors),
    );
    assert_eq!(check_search_args(8, None, None, Some((-0.0f32).to_bits()), Some(0), false), None);
    assert_eq!(check_search_args(8, Some(8), Some(3), Some(0.5f32.to_bits()), Some(9), true), None);
}

#[test]
fn settings_are_checked() {
    let one = Some(1.0f32.to_bits());
    assert_eq!(check_settings(Some(0), None, None), Some(SettingError::TargetPartitionSize));
    assert_eq!(check_settings(Some(5), Some(0), None), Some(SettingError::ReplicaEpsilon));
    assert_eq!(
        check_settings(None, Some(f32::INFINITY.to_bits()), Some(0)),
        Some(SettingError::ReplicaEpsilon),
    );
    assert_eq!(check_settings(None, one, Some(0)), Some(SettingError::ReassignNeighbors));
    assert_eq!(check_settings(Some(1), one, Some(1)), None);
}

#[test]
fn thread_counts() {
    assert_eq!(rayon_thread_cap(Some(8)), 32);
    assert_eq!(rayon_thread_cap(Some(usize::MAX)), usize::MAX);
    assert_eq!(rayon_thread_cap(None), 1024);
    assert_eq!(desired_threads(Some(100), Some(8)), 32);
    assert_eq!(desired_threads(Some(3), Some(8)), 3);
    assert_eq!(desired_threads(Some(0), Some(8)), 8);
    assert_eq!(desired_threads(None, None), 1);
    assert_eq!(desired_threads(Some(5000), None), 1024);
}

#[test]
fn a_fork_rebuilds_the_pool_with_the_same_threads() {
    let pool = PoolIdentity { generation: 3, pid: 100, threads: 6 };
    assert_eq!(current_pool(Some(pool), 3, 100, 9), (pool, false));
    assert_eq!(
        current_pool(Some(pool), 4, 101, 9),
        (PoolIdentity { generation: 4, pid: 101, threads: 6 }, true),
    );
    assert_eq!(
        current_pool(None, 0, 7, 9),
        (PoolIdentity { generation: 0, pid: 7, threads: 9 }, true),
    );
}

#[test]
fn warnings_wait_while_a_region_is_open() {
    let mut q = WarningQueue::new();
    assert!(q.emit(1));
    q.defer();
    q.defer();
    assert!(!q.emit(2));
    q.resume();
    assert!(!q.emit(3));
    q.resume();
    assert_eq!(q.flush(), vec![2, 3]);
    assert_eq!(q.flush(), Vec::<u64>::new());
    assert!(q.emit(4));
}

#[test]
fn warnings_name_the_first_frame_outside() {
    let inside = b"/lib/turbovec/a.py".to_vec();
    let outside = b"/home/user.py".to_vec();
    let package = b"/lib/turbovec/".to_vec();
    assert_eq!(caller_stacklevel(&vec![inside.clone(), inside.clone(), outside.clone()], &package), 3);
    assert_eq!(caller_stacklevel(&vec![outside.clone()], &package), 1);
    assert_eq!(caller_stacklevel(&vec![inside.clone()], &package), 1);
    let mut deep = vec![inside.clone(); 16];
    deep.push(outside);
    assert_eq!(caller_stacklevel(&deep, &package), 1);
}

#[test]
fn row_numbers_do_not_count_from_the_end() {
    assert_eq!(extract_index(IntArg::Small(2), 3), Ok(2));
    assert_eq!(extract_index(IntArg::Small(3), 3), Err(IndexError::OutOfRange));
    assert_eq!(extract_index(IntArg::Small(-1), 3), Err(IndexError::OutOfRange));
    assert_eq!(extract_index(IntArg::Huge(false), 3), Err(IndexError::OutOfRange));
    assert_eq!(extract_index(IntArg::NotAnInteger, 3), Err(IndexError::NotAnInteger));
}

#[test]
fn the_first_missing_vector_is_reported() {
    let found = vec![Some(vec![1, 2]), None, Some(vec![3, 4]), None];
    assert_eq!(join_vectors(true, &[7, 8, 9, 6], &found), Err(VectorsError::Missing(8)));
    assert_eq!(join_vectors(false, &[7, 8, 9, 6], &found), Err(VectorsError::NotStored));
    assert_eq!(join_vectors(true, &[7, 9], &vec![Some(vec![1, 2]), Some(vec![3, 4])]), Ok(vec![1, 2, 3, 4]));
    assert_eq!(join_vectors(true, &[], &Vec::new()), Ok(vec![]));
}
