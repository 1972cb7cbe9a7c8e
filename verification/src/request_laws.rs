//! Which requests are served, and what is wrong with the others.
use vstd::prelude::*;
use crate::delta::{first_invalid, first_repeat, first_taken, lemma_first_repeat_none, lemma_first_taken_none, Delta};
use crate::disk::{add_error, check_rows, AddError, ConstructError, DiskIndex};
use crate::fresh::FreshIndex;
use crate::pack::Layout;
use crate::search::{begin_search, QueryError, SearchOptions};
use crate::write::partitioning_active;

verus! {

/// A coordinate of a magnitude below 1e16, by bit pattern.
pub open spec fn usable(bits: u32) -> bool {
    bits < 0x5A0E_1BCA || 0x8000_0000 <= bits < 0xDA0E_1BCA
}

/// All coordinates are usable.
pub open spec fn all_usable(values: Seq<u32>) -> bool {
    forall|i: int| 0 <= i < values.len() ==> usable(#[trigger] values[i])
}

/// `at` is the first coordinate that is not usable.
pub open spec fn first_unusable(values: Seq<u32>, at: int) -> bool {
    &&& 0 <= at < values.len()
    &&& !usable(values[at])
    &&& forall|i: int| 0 <= i < at ==> usable(#[trigger] values[i])
}

proof fn lemma_first_invalid(values: Seq<u32>)
    ensures
        match first_invalid(values) {
            Some(at) => first_unusable(values, at),
            None => all_usable(values),
        },
    decreases values.len(),
{
    if values.len() > 0 {
        let init = values.drop_last();
        lemma_first_invalid(init);
        assert forall|i: int| 0 <= i < init.len() implies #[trigger] values[i] == init[i] by {}
        match first_invalid(init) {
            Some(at) => {
                assert forall|i: int| 0 <= i < at implies usable(#[trigger] values[i]) by {
                    assert(usable(init[i]));
                }
            },
            None => {
                assert forall|i: int| 0 <= i < init.len() implies usable(#[trigger] values[i]) by {
                    assert(usable(init[i]));
                }
            },
        }
    }
}

/// A finite number that is not negative, or negative zero, by bit pattern.
pub open spec fn bounds_distance(bits: u32) -> bool {
    bits < 0x7F80_0000 || bits == 0x8000_0000
}

/// The request makes whole queries of usable coordinates, with a bound that
/// bounds and exact scores only where there are vectors.
pub open spec fn servable(queries: Seq<u32>, d: int, stores_vectors: bool, options: SearchOptions) -> bool {
    &&& queries.len() as int % d == 0
    &&& all_usable(queries)
    &&& options.probe_epsilon is Some ==> bounds_distance(options.probe_epsilon->0)
    &&& options.rescore_k is Some && options.rescore_k->0 > 0 ==> stores_vectors
}

/// A search request over an index with a dimensionality is refused exactly if
/// it is not servable, with an error that names what is wrong; the queries are
/// run exactly if there are any, and rows to return.
pub proof fn law_requests_are_checked(
    queries: &[u32],
    dim: Option<usize>,
    len: usize,
    stores_vectors: bool,
    k: usize,
    options: SearchOptions,
    r: Result<Option<usize>, QueryError>,
)
    requires
        begin_search.ensures((queries, dim, len, stores_vectors, k, options), r),
        dim is Some ==> dim->0 > 0,
        queries@.len() <= usize::MAX,
    ensures
        dim is None ==> r == Ok::<Option<usize>, QueryError>(None),
        dim is Some ==> {
            let d = dim->0 as int;
            &&& r is Err <==> !servable(queries@, d, stores_vectors, options)
            &&& r is Ok && r->Ok_0 is Some <==> servable(queries@, d, stores_vectors, options) && queries@.len() > 0
                && k > 0 && len > 0
            &&& r is Ok && r->Ok_0 is Some ==> (r->Ok_0)->0 * d == queries@.len()
            &&& r is Err ==> match r->Err_0 {
                QueryError::Length => queries@.len() as int % d != 0,
                QueryError::Coord { query, coord } => coord < d && first_unusable(queries@, query * d + coord),
                QueryError::ProbeEpsilon => options.probe_epsilon is Some && !bounds_distance(
                    options.probe_epsilon->0,
                ),
                QueryError::RescoreNeedsVectors => options.rescore_k is Some && options.rescore_k->0 > 0
                    && !stores_vectors,
            }
        },
{
    lemma_first_invalid(queries@);
    if dim is Some {
        let d = dim->0 as int;
        let n = queries@.len() as int;
        vstd::arithmetic::div_mod::lemma_fundamental_div_mod(n, d);
        assert(0 <= n / d <= n) by (nonlinear_arith)
            requires
                n == d * (n / d) + n % d,
                0 <= n % d < d,
                0 <= n,
        ;
        assert((n / d) * d == d * (n / d)) by (nonlinear_arith);
        if first_invalid(queries@) is Some {
            let at = first_invalid(queries@)->0;
            crate::math::lemma_flat_split(at, d);
            assert(0 <= at / d <= at) by (nonlinear_arith)
                requires
                    at == (at / d) * d + at % d,
                    0 <= at % d < d,
                    0 <= at,
            ;
        }
    }
}

/// Some id occurs at two places.
pub open spec fn occurs_twice(ids: Seq<u64>, id: u64) -> bool {
    exists|i: int, k: int| 0 <= i < k < ids.len() && #[trigger] ids[i] == id && #[trigger] ids[k] == id
}

proof fn lemma_first_repeat(ids: Seq<u64>)
    ensures
        first_repeat(ids) is Some ==> occurs_twice(ids, first_repeat(ids)->0),
    decreases ids.len(),
{
    if ids.len() > 0 {
        let init = ids.drop_last();
        lemma_first_repeat(init);
        if first_repeat(init) is Some {
            let id = first_repeat(init)->0;
            let (i, k) = choose|i: int, k: int|
                0 <= i < k < init.len() && #[trigger] init[i] == id && #[trigger] init[k] == id;
            assert(ids[i] == id && ids[k] == id);
        } else if init.contains(ids.last()) {
            let i = choose|i: int| 0 <= i < init.len() && init[i] == ids.last();
            assert(ids[i] == ids.last() && ids[ids.len() - 1] == ids.last());
        }
    }
}

proof fn lemma_first_taken(ids: Seq<u64>, taken: Set<u64>)
    ensures
        first_taken(ids, taken) is Some ==> ids.contains(first_taken(ids, taken)->0) && taken.contains(
            first_taken(ids, taken)->0,
        ),
    decreases ids.len(),
{
    if ids.len() > 0 {
        let init = ids.drop_last();
        lemma_first_taken(init, taken);
        if first_taken(init, taken) is Some {
            let id = first_taken(init, taken)->0;
            let i = choose|i: int| 0 <= i < init.len() && init[i] == id;
            assert(ids[i] == id);
        } else {
            assert(ids[ids.len() - 1] == ids.last());
        }
    }
}

/// A dimensionality that an index can have.
pub open spec fn possible_dim(dim: int) -> bool {
    0 < dim <= 0xFFFF_FFFF && dim % 8 == 0
}

/// Rows are taken exactly if their dimensionality is possible and that of the
/// index, there is a usable vector for each id, and no id is there already or
/// comes twice; an error names what is wrong.
pub proof fn law_rows_are_checked(delta: &Delta, vectors: &[u32], dim: usize, ids: &[u64], r: Option<AddError>)
    requires
        check_rows.ensures((delta, vectors, dim, ids), r),
        vectors@.len() <= usize::MAX,
        ids@.len() <= usize::MAX,
    ensures
        r is None <==> {
            &&& possible_dim(dim as int)
            &&& vectors@.len() == ids@.len() * dim
            &&& delta.dim is None || delta.dim == Some(dim)
            &&& all_usable(vectors@)
            &&& forall|i: int| 0 <= i < ids@.len() ==> !delta.ids@.contains(#[trigger] ids@[i])
            &&& ids@.no_duplicates()
        },
        r is Some ==> match r->0 {
            AddError::InvalidDim(d) => d == dim && !possible_dim(dim as int),
            AddError::VectorBufferNotMultipleOfDim { len, dim: d } => len == vectors@.len() && d == dim && len as int
                % dim as int != 0,
            AddError::IdCountMismatch { vectors: v, ids: n } => v * dim == vectors@.len() && n == ids@.len() && v != n,
            AddError::DimMismatch { existing, got } => delta.dim == Some(existing) && got == dim && existing != dim,
            AddError::InvalidValue { vector, coord } => coord < dim && first_unusable(vectors@, vector * dim + coord),
            AddError::IdAlreadyPresent(id) => ids@.contains(id) && delta.ids@.contains(id),
            AddError::IdRepeated(id) => occurs_twice(ids@, id),
        },
{
    lemma_first_invalid(vectors@);
    lemma_first_repeat(ids@);
    lemma_first_repeat_none(ids@);
    lemma_first_taken(ids@, delta.ids@.to_set());
    lemma_first_taken_none(ids@, delta.ids@.to_set());
    assert forall|i: int| 0 <= i < ids@.len() implies (delta.ids@.to_set().contains(#[trigger] ids@[i])
        <==> delta.ids@.contains(ids@[i])) by {}
    if possible_dim(dim as int) {
        let d = dim as int;
        let n = vectors@.len() as int;
        let m = ids@.len() as int;
        vstd::arithmetic::div_mod::lemma_fundamental_div_mod(n, d);
        assert((n / d) * d == d * (n / d)) by (nonlinear_arith);
        assert(0 <= n / d <= n) by (nonlinear_arith)
            requires
                n == d * (n / d) + n % d,
                0 <= n % d < d,
                0 <= n,
        ;
        if n == m * d {
            vstd::arithmetic::div_mod::lemma_fundamental_div_mod_converse(n, d, m, 0);
        }
        if first_invalid(vectors@) is Some {
            let at = first_invalid(vectors@)->0;
            crate::math::lemma_flat_split(at, d);
            assert(0 <= at / d <= at) by (nonlinear_arith)
                requires
                    at == (at / d) * d + at % d,
                    0 <= at % d < d,
                    0 <= at,
            ;
        }
    }
}

/// With rows in a file or in partitions, an add is refused exactly if one of
/// its ids is live there or the rows themselves are refused.
pub proof fn law_live_ids_are_refused(
    base_live: Set<u64>,
    delta: Delta,
    vectors: Seq<u32>,
    dim: usize,
    ids: Seq<u64>,
)
    ensures
        add_error(base_live, delta, vectors, dim, ids) is None <==> {
            &&& forall|i: int| 0 <= i < ids.len() ==> !base_live.contains(#[trigger] ids[i])
            &&& crate::disk::rows_error(delta, vectors, dim, ids) is None
        },
        add_error(base_live, delta, vectors, dim, ids) is Some && crate::disk::rows_error(
            delta,
            vectors,
            dim,
            ids,
        ) is None ==> {
            &&& add_error(base_live, delta, vectors, dim, ids)->0 is IdAlreadyPresent
            &&& ids.contains(add_error(base_live, delta, vectors, dim, ids)->0->IdAlreadyPresent_0)
            &&& base_live.contains(add_error(base_live, delta, vectors, dim, ids)->0->IdAlreadyPresent_0)
        },
{
    lemma_first_taken(ids, base_live);
    lemma_first_taken_none(ids, base_live);
}

/// An index has codes of two to four bits, and a possible dimensionality or
/// none yet.
pub proof fn law_parameters_are_checked(
    dim: Option<usize>,
    bit_width: usize,
    flavor: Layout,
    r: Result<DiskIndex, ConstructError>,
    s: Result<FreshIndex, ConstructError>,
)
    requires
        DiskIndex::new.ensures((dim, bit_width, flavor), r),
        FreshIndex::new.ensures((dim, bit_width, flavor), s),
    ensures
        r is Ok <==> 2 <= bit_width <= 4 && (dim is None || possible_dim(dim->0 as int)),
        s is Ok <==> 2 <= bit_width <= 4 && (dim is None || possible_dim(dim->0 as int)),
        r is Err ==> match r->Err_0 {
            ConstructError::InvalidBitWidth(b) => b == bit_width && !(2 <= b <= 4),
            ConstructError::InvalidDim(d) => dim == Some(d) && !possible_dim(d as int),
        },
        s is Err ==> match s->Err_0 {
            ConstructError::InvalidBitWidth(b) => b == bit_width && !(2 <= b <= 4),
            ConstructError::InvalidDim(d) => dim == Some(d) && !possible_dim(d as int),
        },
        r is Ok ==> r->Ok_0.delta.dim == dim && r->Ok_0.bit_width == bit_width,
        s is Ok ==> s->Ok_0.memtable.dim == dim && s->Ok_0.bit_width == bit_width && s->Ok_0.partitions@.len() == 0,
{
}

/// Rows are partitioned exactly if there is a target and they make two
/// partitions of it.
pub proof fn law_rows_for_two_are_partitioned(target: Option<u32>, n: usize, r: bool)
    requires
        partitioning_active.ensures((target, n), r),
    ensures
        target is None ==> !r,
        target is Some ==> (r <==> n >= 2 * target->0),
{
}

} // verus!
