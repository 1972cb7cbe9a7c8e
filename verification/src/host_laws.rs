//! What a host language gets for its arguments.
use vstd::prelude::*;
use crate::delta::Delta;
use crate::host::{
    absent, caller_stacklevel, check_allowlist, check_search_args, check_settings, current_pool, desired_threads,
    empty_result_width, extract_index, extract_membership_id, extract_size, join_vectors, joined, mask_bytes,
    outside_from, retain_snap, AllowlistError, ArgError, IndexError, IntArg, PoolIdentity, SearchArgError,
    SettingError, VectorsError,
};
use crate::names::starts;

verus! {

/// A size is the integer that is given, if a size can be that; a negative one
/// and one that is too large are told apart.
pub proof fn law_sizes_are_read(arg: IntArg, r: Result<usize, ArgError>)
    requires
        extract_size.ensures((arg,), r),
    ensures
        match arg {
            IntArg::Small(v) => {
                &&& r is Ok <==> 0 <= v <= usize::MAX
                &&& r is Ok ==> r->Ok_0 == v
                &&& v < 0 ==> r == Err::<usize, ArgError>(ArgError::Negative)
                &&& v > usize::MAX ==> r == Err::<usize, ArgError>(ArgError::TooLarge)
            },
            IntArg::Huge(true) => r == Err::<usize, ArgError>(ArgError::Negative),
            IntArg::Huge(false) => r == Err::<usize, ArgError>(ArgError::TooLarge),
            IntArg::NotAnInteger => r == Err::<usize, ArgError>(ArgError::NotAnInteger),
        },
{
}

/// A row number is accepted exactly if there is a row with it.
pub proof fn law_row_numbers_are_read(arg: IntArg, len: usize, r: Result<usize, IndexError>)
    requires
        extract_index.ensures((arg, len), r),
    ensures
        r is Ok <==> (arg matches IntArg::Small(v) && 0 <= v < len),
        r is Ok ==> arg == IntArg::Small(r->Ok_0 as i128) && r->Ok_0 < len,
        r == Err::<usize, IndexError>(IndexError::NotAnInteger) <==> arg == IntArg::NotAnInteger,
{
}

/// An integer is looked for as the id that it is; one that no id can be is not
/// an error.
pub proof fn law_ids_are_read(arg: IntArg, r: Result<Option<u64>, ArgError>)
    requires
        extract_membership_id.ensures((arg,), r),
    ensures
        r is Err <==> arg == IntArg::NotAnInteger,
        r is Ok && r->Ok_0 is Some ==> arg == IntArg::Small((r->Ok_0)->0 as i128),
        forall|v: u64| arg == IntArg::Small(v as i128) ==> r == Ok::<Option<u64>, ArgError>(Some(v)),
{
}

/// A mask is true exactly where a byte is not zero.
pub proof fn law_masks_are_read(bytes: &[u8], r: Vec<bool>, i: int)
    requires
        mask_bytes.ensures((bytes,), r),
        0 <= i < bytes@.len(),
    ensures
        r@.len() == bytes@.len(),
        r@[i] <==> bytes@[i] != 0,
{
}

/// A scratch buffer is cut only if its capacity is more than three times what
/// the call before needed, and then to half again as much.
pub proof fn law_scratch_is_cut(capacity: usize, prev: usize, r: Option<usize>)
    requires
        retain_snap.ensures((capacity, prev), r),
        3 * prev + 3 <= usize::MAX,
    ensures
        r is Some <==> capacity > 2 * (prev + prev / 2),
        r is Some ==> r->0 == prev + prev / 2 && r->0 < capacity && r->0 >= prev,
{
}

proof fn lemma_absent(ids: Set<u64>, allow: Seq<u64>, id: u64)
    ensures
        absent(ids, allow).contains(id) <==> allow.contains(id) && !ids.contains(id),
    decreases allow.len(),
{
    let s = absent(ids, allow);
    if allow.len() > 0 {
        let init = allow.drop_last();
        lemma_absent(ids, init, id);
        let a = absent(ids, init);
        if init.contains(id) {
            let k = choose|k: int| 0 <= k < init.len() && init[k] == id;
            assert(allow[k] == id);
        }
        if a.contains(id) {
            let k = choose|k: int| 0 <= k < a.len() && a[k] == id;
            assert(s[k] == id);
        }
        if allow.contains(id) && !init.contains(id) {
            let k = choose|k: int| 0 <= k < allow.len() && allow[k] == id;
            if k < init.len() {
                assert(init[k] == id);
            }
            assert(id == allow.last());
            if !ids.contains(id) {
                assert(s[a.len() as int] == id);
            }
        }
        if s.contains(id) && !a.contains(id) {
            let k = choose|k: int| 0 <= k < s.len() && s[k] == id;
            if k < a.len() {
                assert(a[k] == id);
            }
            assert(allow[allow.len() - 1] == id);
        }
    }
}

/// An allowlist is accepted exactly if it names ids, and only ids that the
/// index holds; otherwise up to five that it does not hold are named.
pub proof fn law_allowlists_name_held_ids(index: &Delta, allow: &[u64], r: Option<AllowlistError>)
    requires
        check_allowlist.ensures((index, Some(allow)), r),
    ensures
        r is None <==> allow@.len() > 0 && forall|i: int|
            0 <= i < allow@.len() ==> index.ids@.contains(#[trigger] allow@[i]),
        r is Some && r->0 is Empty ==> allow@.len() == 0,
        r is Some && r->0 is Unknown ==> {
            let ids = r->0->ids@;
            &&& 1 <= ids.len() <= 5
            &&& forall|i: int|
                0 <= i < ids.len() ==> allow@.contains(#[trigger] ids[i]) && !index.ids@.contains(ids[i])
            &&& r->0->more ==> ids.len() == 5
        },
{
    let held = index.ids@.to_set();
    let all = absent(held, allow@);
    assert forall|i: int| 0 <= i < all.len() implies allow@.contains(#[trigger] all[i]) && !index.ids@.contains(all[i]) by {
        lemma_absent(held, allow@, all[i]);
        assert(all.contains(all[i]));
    }
    if all.len() == 0 {
        assert forall|i: int| 0 <= i < allow@.len() implies index.ids@.contains(#[trigger] allow@[i]) by {
            lemma_absent(held, allow@, allow@[i]);
            assert(allow@.contains(allow@[i]));
        }
    } else {
        let k = choose|k: int| 0 <= k < allow@.len() && allow@[k] == all[0];
        assert(allow@.contains(all[0]));
        assert(!index.ids@.contains(allow@[k]));
    }
    if r is Some && r->0 is Unknown {
        let ids = r->0->ids@;
        assert forall|i: int| 0 <= i < ids.len() implies allow@.contains(#[trigger] ids[i]) && !index.ids@.contains(ids[i]) by {
            assert(ids[i] == all[i]);
        }
    }
}

/// An empty result is as wide as a full one would be at most: no wider than
/// what is asked for, what is there and what is allowed, and as wide as one of
/// these.
pub proof fn law_empty_results_have_a_width(k: usize, len: usize, r: usize, allow: &[u64], s: usize)
    requires
        empty_result_width.ensures((k, len, None), r),
        empty_result_width.ensures((k, len, Some(allow)), s),
    ensures
        r <= k && r <= len && (r == k || r == len),
        s <= r && s <= allow@.to_set().len() && (s == r || s == allow@.to_set().len()),
{
}

/// Search arguments are accepted exactly if the dimensionality is that of the
/// index, some partition is probed, the bound is a finite number that is not
/// negative, and exact scores come from stored vectors.
pub proof fn law_search_arguments_are_checked(
    query_dim: usize,
    index_dim: Option<usize>,
    nprobe: Option<usize>,
    probe_epsilon: Option<u32>,
    rescore_k: Option<usize>,
    stores_vectors: bool,
    r: Option<SearchArgError>,
)
    requires
        check_search_args.ensures((query_dim, index_dim, nprobe, probe_epsilon, rescore_k, stores_vectors), r),
    ensures
        r is None <==> {
            &&& index_dim is None || index_dim == Some(query_dim)
            &&& nprobe is None || nprobe->0 >= 1
            &&& probe_epsilon is None || crate::request_laws::bounds_distance(probe_epsilon->0)
            &&& rescore_k is None || rescore_k->0 == 0 || stores_vectors
        },
        r is Some ==> match r->0 {
            SearchArgError::Dim { query, index } => query == query_dim && index_dim == Some(index) && index != query,
            SearchArgError::Nprobe => nprobe == Some(0usize),
            SearchArgError::ProbeEpsilon => probe_epsilon is Some && !crate::request_laws::bounds_distance(
                probe_epsilon->0,
            ),
            SearchArgError::RescoreNeedsVectors => rescore_k is Some && rescore_k->0 > 0 && !stores_vectors,
        },
{
}

/// Settings are accepted exactly if the target and the number of neighbours are
/// not zero and the replica epsilon is a finite number above zero.
pub proof fn law_settings_are_checked(
    target: Option<u32>,
    replica_epsilon: Option<u32>,
    reassign_neighbors: Option<usize>,
    r: Option<SettingError>,
)
    requires
        check_settings.ensures((target, replica_epsilon, reassign_neighbors), r),
    ensures
        r is None <==> {
            &&& target is None || target->0 >= 1
            &&& replica_epsilon is None || 1 <= replica_epsilon->0 < 0x7F80_0000
            &&& reassign_neighbors is None || reassign_neighbors->0 >= 1
        },
        r is Some ==> match r->0 {
            SettingError::TargetPartitionSize => target == Some(0u32),
            SettingError::ReplicaEpsilon => replica_epsilon is Some && !(1 <= replica_epsilon->0 < 0x7F80_0000),
            SettingError::ReassignNeighbors => reassign_neighbors == Some(0usize),
        },
{
}

/// A pool has the threads that are asked for, up to four for each unit of the
/// hardware, or 1024 where that is unknown; unasked it has one for each, or one.
pub proof fn law_threads_are_bounded(requested: Option<usize>, available: Option<usize>, r: usize)
    requires
        desired_threads.ensures((requested, available), r),
        available is Some ==> 4 * available->0 <= usize::MAX,
    ensures
        ({
            let cap = match available {
                Some(n) => 4 * n,
                None => 1024int,
            };
            let asked = requested is Some && requested->0 > 0;
            &&& asked ==> r <= cap && r <= requested->0 && (r == cap || r == requested->0)
            &&& !asked && available is Some ==> r == available->0
            &&& !asked && available is None ==> r == 1
        }),
{
}

/// A pool is built anew exactly if there is none of this process, and then it
/// has the threads of the one before it.
pub proof fn law_pools_outlive_no_fork(
    published: Option<PoolIdentity>,
    generation: u64,
    pid: u32,
    desired: usize,
    r: (PoolIdentity, bool),
)
    requires
        current_pool.ensures((published, generation, pid, desired), r),
    ensures
        !r.1 ==> published == Some(r.0),
        r.0.generation == generation && r.0.pid == pid,
        r.1 <==> published is None || published->0.generation != generation || published->0.pid != pid,
        published is None ==> r.0.threads == desired,
        published is Some ==> r.0.threads == published->0.threads,
{
}

proof fn lemma_joined(found: Seq<Option<Vec<u32>>>, d: int)
    requires
        forall|i: int| 0 <= i < found.len() ==> (#[trigger] found[i]) is Some && found[i]->0@.len() == d,
    ensures
        joined(found).len() == found.len() * d,
        forall|i: int, j: int|
            0 <= i < found.len() && 0 <= j < d ==> joined(found)[i * d + j] == #[trigger] found[i]->0@[j],
    decreases found.len(),
{
    if found.len() > 0 {
        let init = found.drop_last();
        let n = found.len() as int;
        assert forall|i: int| 0 <= i < init.len() implies (#[trigger] init[i]) is Some && init[i]->0@.len() == d by {
            assert(init[i] == found[i]);
        }
        lemma_joined(init, d);
        assert(found[n - 1]->0@.len() == d);
        assert(n * d == (n - 1) * d + d) by (nonlinear_arith);
        assert forall|i: int, j: int| 0 <= i < n && 0 <= j < d implies joined(found)[i * d + j]
            == #[trigger] found[i]->0@[j] by {
            if i < n - 1 {
                crate::math::lemma_flat_bound(i, j, n - 1, d);
                assert(init[i]->0@[j] == joined(init)[i * d + j]);
            }
        }
    } else {
        assert(0 * d == 0) by (nonlinear_arith);
    }
}

/// Vectors are handed out exactly if they are stored and every id is there,
/// row by row; else the first id that is not there is named.
pub proof fn law_vectors_are_joined(
    stored: bool,
    ids: &[u64],
    found: &Vec<Option<Vec<u32>>>,
    r: Result<Vec<u32>, VectorsError>,
    d: int,
)
    requires
        join_vectors.ensures((stored, ids, found), r),
        found@.len() == ids@.len(),
        forall|i: int| 0 <= i < found@.len() && (#[trigger] found@[i]) is Some ==> found@[i]->0@.len() == d,
    ensures
        r is Ok <==> stored && forall|i: int| 0 <= i < found@.len() ==> (#[trigger] found@[i]) is Some,
        r is Ok ==> {
            &&& r->Ok_0@.len() == ids@.len() * d
            &&& forall|i: int, j: int|
                0 <= i < found@.len() && 0 <= j < d ==> r->Ok_0@[i * d + j] == #[trigger] found@[i]->0@[j]
        },
        !stored ==> r == Err::<Vec<u32>, VectorsError>(VectorsError::NotStored),
{
    if r is Ok {
        lemma_joined(found@, d);
    }
}

proof fn lemma_outside(files: Seq<Vec<u8>>, package: Seq<u8>, k: int)
    requires
        0 <= k,
        forall|j: int| 0 <= j < k && j < files.len() ==> starts(#[trigger] files[j]@, package),
    ensures
        match outside_from(files, package, k) {
            Some(i) => 0 <= i < files.len() && i < 16 && !starts(files[i]@, package) && forall|j: int|
                0 <= j < i ==> starts(#[trigger] files[j]@, package),
            None => forall|j: int| 0 <= j < files.len() && j < 16 ==> starts(#[trigger] files[j]@, package),
        },
    decreases files.len() - k,
{
    if k < files.len() && k < 16 && starts(files[k]@, package) {
        lemma_outside(files, package, k + 1);
    }
}

/// A warning points to the innermost of the first sixteen frames outside the
/// package, or to the innermost of all.
pub proof fn law_warnings_point_outside(files: &Vec<Vec<u8>>, package: &Vec<u8>, level: usize)
    requires
        caller_stacklevel.ensures((files, package), level),
    ensures
        level >= 1,
        level > 1 ==> level <= files@.len() && level <= 16 && !starts(files@[level - 1]@, package@),
        forall|j: int| 0 <= j < level - 1 ==> starts(#[trigger] files@[j]@, package@),
        level == 1 ==> files@.len() == 0 || !starts(files@[0]@, package@) || forall|j: int|
            0 <= j < files@.len() && j < 16 ==> starts(#[trigger] files@[j]@, package@),
{
    lemma_outside(files@, package@, 0);
}

} // verus!
