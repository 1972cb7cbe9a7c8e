//! Sorting of pairs of integers.
use vstd::prelude::*;
use vstd::relations::{sorted_by, total_ordering};
use vstd::seq_lib::{group_to_multiset_ensures, lemma_multiset_commutative, lemma_sorted_unique};

verus! {

/// The lexicographic order of pairs.
pub open spec fn pair_leq(a: (u64, u64), b: (u64, u64)) -> bool {
    a.0 < b.0 || (a.0 == b.0 && a.1 <= b.1)
}

/// [`pair_leq`] as a function value.
pub open spec fn pair_order() -> spec_fn((u64, u64), (u64, u64)) -> bool {
    |a: (u64, u64), b: (u64, u64)| pair_leq(a, b)
}

/// The pairs in ascending order.
pub open spec fn ascending(s: Seq<(u64, u64)>) -> bool {
    forall|i: int, j: int| 0 <= i < j < s.len() ==> pair_leq(#[trigger] s[i], #[trigger] s[j])
}

/// The pairs of `s` in ascending order.
pub open spec fn sorted_pairs(s: Seq<(u64, u64)>) -> Seq<(u64, u64)> {
    s.sort_by(pair_order())
}

/// What sorting gives: the same pairs, in ascending order.
pub proof fn lemma_sorted_pairs(s: Seq<(u64, u64)>)
    ensures
        ascending(sorted_pairs(s)),
        sorted_pairs(s).to_multiset() == s.to_multiset(),
        sorted_pairs(s).len() == s.len(),
{
    assert(total_ordering(pair_order()));
    s.lemma_sort_by_ensures(pair_order());
    let t = sorted_pairs(s);
    assert forall|i: int, j: int| 0 <= i < j < t.len() implies pair_leq(#[trigger] t[i], #[trigger] t[j]) by {
        assert(pair_order()(t[i], t[j]));
    }
    s.to_multiset_ensures();
    t.to_multiset_ensures();
}

/// There is only one way to sort.
pub proof fn lemma_sorted_pairs_unique(s: Seq<(u64, u64)>, t: Seq<(u64, u64)>)
    requires
        ascending(t),
        t.to_multiset() == s.to_multiset(),
    ensures
        t == sorted_pairs(s),
{
    assert(total_ordering(pair_order()));
    s.lemma_sort_by_ensures(pair_order());
    assert(sorted_by(t, pair_order()));
    lemma_sorted_unique(t, sorted_pairs(s), pair_order());
}

fn merge(a: &Vec<(u64, u64)>, b: &Vec<(u64, u64)>) -> (out: Vec<(u64, u64)>)
    requires
        ascending(a@),
        ascending(b@),
        a@.len() + b@.len() <= usize::MAX,
    ensures
        ascending(out@),
        out@.to_multiset() == (a@ + b@).to_multiset(),
        out@.len() == a@.len() + b@.len(),
{
    let mut out: Vec<(u64, u64)> = Vec::new();
    let mut i: usize = 0;
    let mut j: usize = 0;
    proof {
        assert(a@.take(0) + b@.take(0) =~= Seq::<(u64, u64)>::empty());
        assert(out@ =~= Seq::<(u64, u64)>::empty());
    }
    while i < a.len() || j < b.len()
        invariant
            i <= a.len(),
            j <= b.len(),
            a@.len() + b@.len() <= usize::MAX,
            ascending(a@),
            ascending(b@),
            ascending(out@),
            out@.len() == i + j,
            out@.to_multiset() == (a@.take(i as int) + b@.take(j as int)).to_multiset(),
            forall|k: int, m: int| 0 <= k < out@.len() && i <= m < a@.len() ==> pair_leq(#[trigger] out@[k], #[trigger] a@[m]),
            forall|k: int, m: int| 0 <= k < out@.len() && j <= m < b@.len() ==> pair_leq(#[trigger] out@[k], #[trigger] b@[m]),
        decreases a.len() - i + b.len() - j,
    {
        let from_a: bool = if i == a.len() {
            false
        } else if j == b.len() {
            true
        } else {
            a[i].0 < b[j].0 || (a[i].0 == b[j].0 && a[i].1 <= b[j].1)
        };
        let ghost before = out@;
        if from_a {
            let x: (u64, u64) = a[i];
            out.push(x);
            proof {
                let s = a@.take(i as int);
                let t = b@.take(j as int);
                assert(a@.take(i + 1) =~= s.push(x));
                lemma_multiset_commutative(s.push(x), t);
                lemma_multiset_commutative(s, t);
                broadcast use group_to_multiset_ensures;
                assert(out@ =~= before.push(x));
                assert(out@.to_multiset() =~= (a@.take(i + 1) + t).to_multiset());
            }
            i = i + 1;
        } else {
            let x: (u64, u64) = b[j];
            out.push(x);
            proof {
                let s = a@.take(i as int);
                let t = b@.take(j as int);
                assert(b@.take(j + 1) =~= t.push(x));
                lemma_multiset_commutative(s, t.push(x));
                lemma_multiset_commutative(s, t);
                broadcast use group_to_multiset_ensures;
                assert(out@ =~= before.push(x));
                assert(out@.to_multiset() =~= (s + b@.take(j + 1)).to_multiset());
            }
            j = j + 1;
        }
    }
    proof {
        assert(a@.take(i as int) =~= a@);
        assert(b@.take(j as int) =~= b@);
    }
    out
}

fn sort_range(v: &Vec<(u64, u64)>, lo: usize, hi: usize) -> (out: Vec<(u64, u64)>)
    requires
        lo <= hi <= v.len(),
    ensures
        ascending(out@),
        out@.to_multiset() == v@.subrange(lo as int, hi as int).to_multiset(),
        out@.len() == hi - lo,
    decreases hi - lo,
{
    if hi - lo <= 1 {
        let mut out: Vec<(u64, u64)> = Vec::new();
        if lo < hi {
            out.push(v[lo]);
        }
        assert(out@ =~= v@.subrange(lo as int, hi as int));
        return out;
    }
    let mid: usize = lo + (hi - lo) / 2;
    let left: Vec<(u64, u64)> = sort_range(v, lo, mid);
    let right: Vec<(u64, u64)> = sort_range(v, mid, hi);
    let out: Vec<(u64, u64)> = merge(&left, &right);
    proof {
        let l = v@.subrange(lo as int, mid as int);
        let r = v@.subrange(mid as int, hi as int);
        lemma_multiset_commutative(left@, right@);
        lemma_multiset_commutative(l, r);
        assert(l + r =~= v@.subrange(lo as int, hi as int));
    }
    out
}

/// The pairs of `v` in ascending order.
pub fn sort_pairs(v: &Vec<(u64, u64)>) -> (out: Vec<(u64, u64)>)
    ensures
        out@ == sorted_pairs(v@),
{
    let out: Vec<(u64, u64)> = sort_range(v, 0, v.len());
    proof {
        assert(v@.subrange(0, v@.len() as int) =~= v@);
        lemma_sorted_pairs_unique(v@, out@);
    }
    out
}

/// `s` with `f` applied to every element.
pub open spec fn mapped<A, B>(s: Seq<A>, f: spec_fn(A) -> B) -> Seq<B> {
    Seq::new(s.len(), |i: int| f(s[i]))
}

/// Applying a function keeps equal multisets equal.
pub proof fn lemma_map_multiset<A, B>(a: Seq<A>, b: Seq<A>, f: spec_fn(A) -> B)
    requires
        a.to_multiset() == b.to_multiset(),
    ensures
        mapped(a, f).to_multiset() == mapped(b, f).to_multiset(),
    decreases a.len(),
{
    a.to_multiset_ensures();
    b.to_multiset_ensures();
    assert(a.len() == b.len());
    if a.len() == 0 {
        assert(mapped(a, f) =~= mapped(b, f));
    } else {
        let x = a.last();
        assert(a.contains(x));
        assert(b.to_multiset().count(x) > 0);
        assert(b.contains(x));
        let k = choose|k: int| 0 <= k < b.len() && b[k] == x;
        let a1 = a.drop_last();
        let b1 = b.remove(k);
        assert(a =~= a1.push(x));
        a1.to_multiset_ensures();
        assert(a.to_multiset() =~= a1.to_multiset().insert(x));
        assert(b1.to_multiset() =~= b.to_multiset().remove(x));
        assert(a1.to_multiset() =~= b1.to_multiset());
        lemma_map_multiset(a1, b1, f);
        let ua = mapped(a, f);
        let ub = mapped(b, f);
        assert(ua =~= mapped(a1, f).push(f(x)));
        assert(ub.remove(k) =~= mapped(b1, f));
        mapped(a1, f).to_multiset_ensures();
        ub.to_multiset_ensures();
        assert(ub[k] == f(x));
        assert(mapped(b1, f).to_multiset() =~= ub.to_multiset().remove(ub[k]));
        assert(ub.contains(ub[k]));
        assert(ub.to_multiset().count(ub[k]) > 0);
        assert(ub.to_multiset() =~= mapped(b1, f).to_multiset().insert(ub[k]));
    }
}

/// Equal multisets hold the same elements.
pub proof fn lemma_same_elements<A>(a: Seq<A>, b: Seq<A>)
    requires
        a.to_multiset() == b.to_multiset(),
    ensures
        a.len() == b.len(),
        forall|x: A| a.contains(x) <==> b.contains(x),
        a.to_set() == b.to_set(),
{
    a.to_multiset_ensures();
    b.to_multiset_ensures();
    assert forall|x: A| a.contains(x) <==> b.contains(x) by {
        assert(a.contains(x) <==> a.to_multiset().count(x) > 0);
        assert(b.contains(x) <==> b.to_multiset().count(x) > 0);
    }
    assert(a.to_set() =~= b.to_set());
}

} // verus!
