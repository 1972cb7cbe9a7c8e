use turbovec::rank::{dedup_by_id, finish_row, merge_candidates, rank, NEG_INFINITY_BITS};
use turbovec::search::{default_nprobe, nprobe_cap, plan_search, route_query, SearchOptions};
use turbovec::sort::sort_pairs;

fn b(v: f32) -> u32 {
    v.to_bits()
}

#[test]
fn scores_rank_from_high_to_low() {
    let got = rank(&vec![(b(-1.0), 1), (b(2.0), 2), (b(0.0), 3), (b(-5.0), 4), (b(2.5), 5)]);
    let ids: Vec<u64> = got.iter().map(|c| c.1).collect();
    assert_eq!(ids, vec![5, 2, 3, 1, 4]);
    assert_eq!(NEG_INFINITY_BITS, f32::NEG_INFINITY.to_bits());
}

#[test]
fn the_best_copy_of_an_id_stays() {
    let ranked = rank(&vec![(b(1.0), 9), (b(3.0), 8), (b(2.0), 9)]);
    assert_eq!(dedup_by_id(&ranked), vec![(b(3.0), 8), (b(2.0), 9)]);
    assert_eq!(
        merge_candidates(&vec![(b(1.0), 9), (b(3.0), 8), (b(2.0), 9), (b(0.5), 7)], 2),
        vec![(b(3.0), 8), (b(2.0), 9)],
    );
}

#[test]
fn short_rows_are_filled_up() {
    let merged = vec![(b(3.0), 8)];
    assert_eq!(finish_row(&merged, None, 3), vec![(b(3.0), 8), (NEG_INFINITY_BITS, 0), (NEG_INFINITY_BITS, 0)]);
    let two = vec![(b(3.0), 8), (b(2.0), 4)];
    assert_eq!(finish_row(&two, Some(vec![b(0.5), b(0.75)]), 1), vec![(b(0.75), 4)]);
}

#[test]
fn plans_follow_the_options() {
    let none = SearchOptions::default();
    let p = plan_search(100, 5, 40, true, 10, none);
    assert_eq!((p.k_eff, p.rescore, p.fetch_k, p.k_base, p.nprobe), (10, true, 40, 45, 5));
    let p = plan_search(7, 0, 1, false, 10, none);
    assert_eq!((p.k_eff, p.rescore, p.fetch_k, p.nprobe), (7, false, 7, 1));
    let p = plan_search(100, 0, 40, true, 10, SearchOptions { rescore_k: Some(0), ..none });
    assert_eq!((p.rescore, p.fetch_k), (false, 10));
    let p = plan_search(100, 0, 40, true, 10, SearchOptions { rescore_k: Some(3), ..none });
    assert_eq!((p.rescore, p.fetch_k), (true, 10));
    let p = plan_search(100, 0, 40, true, 10, SearchOptions { rescore_k: Some(500), ..none });
    assert_eq!(p.fetch_k, 100);
}

#[test]
fn probe_counts() {
    let none = SearchOptions::default();
    assert_eq!(default_nprobe(40), 5);
    assert_eq!(default_nprobe(10), 4);
    assert_eq!(default_nprobe(3), 3);
    assert_eq!(nprobe_cap(SearchOptions { nprobe: Some(0), ..none }, 10), 1);
    assert_eq!(nprobe_cap(SearchOptions { nprobe: Some(99), ..none }, 10), 10);
    assert_eq!(nprobe_cap(SearchOptions { probe_epsilon: Some(0), ..none }, 40), 20);
}

#[test]
fn routes_take_the_nearest_within_the_bound() {
    let d = vec![b(4.0), b(1.0), b(2.0), b(1.5)];
    assert_eq!(route_query(&d, 3, None), vec![1, 3, 2]);
    assert_eq!(route_query(&d, 3, Some(b(1.6))), vec![1, 3]);
    // The nearest is scanned even where it lies beyond the bound.
    assert_eq!(route_query(&d, 3, Some(b(0.5))), vec![1]);
}

#[test]
fn pairs_sort_by_both_parts() {
    assert_eq!(
        sort_pairs(&vec![(3, 1), (1, 9), (3, 0), (2, 5), (1, 9)]),
        vec![(1, 9), (1, 9), (2, 5), (3, 0), (3, 1)],
    );
    let many: Vec<(u64, u64)> = (0..1000u64).map(|i| (i * 7919 % 1009, i)).collect();
    let mut want = many.clone();
    want.sort();
    assert_eq!(sort_pairs(&many), want);
}

#[test]
fn a_row_beaten_by_a_full_list_is_left_out() {
    let all = vec![(b(5.0), 1), (b(4.0), 2), (b(4.0), 2), (b(3.0), 3), (b(2.0), 4)];
    assert_eq!(merge_candidates(&all, 3), vec![(b(5.0), 1), (b(4.0), 2), (b(3.0), 3)]);
    assert_eq!(merge_candidates(&all, 9).len(), 4);
}
