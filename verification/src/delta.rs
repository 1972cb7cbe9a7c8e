//! The in-RAM rows of an index: encoded rows addressed by external id.
use std::collections::HashMap;
use vstd::prelude::*;
use crate::math::{lemma_flat_bound, lemma_flat_index, lemma_flat_row};

verus! {

broadcast use vstd::std_specs::hash::group_hash_axioms;

/// Magnitudes from this bit pattern (1e16) on are refused, infinities and
/// NaNs among them.
pub const MAGNITUDE_LIMIT_BITS: u32 = 0x5A0E_1BCA;

/// A coordinate that is finite and below 1e16 in magnitude.
pub open spec fn valid_value(bits: u32) -> bool {
    bits % 0x8000_0000 < MAGNITUDE_LIMIT_BITS
}

/// The first coordinate that is refused.
pub open spec fn first_invalid(values: Seq<u32>) -> Option<int>
    decreases values.len(),
{
    if values.len() == 0 {
        None
    } else if first_invalid(values.drop_last()) is Some {
        first_invalid(values.drop_last())
    } else if valid_value(values.last()) {
        None
    } else {
        Some(values.len() - 1)
    }
}

/// The vector and coordinate of the first value that is refused.
pub fn first_invalid_coord(values: &[u32], dim: usize) -> (r: Option<(usize, usize)>)
    requires
        dim > 0,
    ensures
        match r {
            Some(at) => first_invalid(values@) == Some(at.0 * dim + at.1) && at.1 < dim,
            None => first_invalid(values@) is None,
        },
{
    let mut i: usize = 0;
    assert(values@.take(0) =~= Seq::<u32>::empty());
    while i < values.len()
        invariant
            i <= values.len(),
            dim > 0,
            first_invalid(values@.take(i as int)) is None,
        decreases values.len() - i,
    {
        assert(values@.take(i + 1).drop_last() =~= values@.take(i as int));
        if values[i] % 0x8000_0000 >= MAGNITUDE_LIMIT_BITS {
            proof {
                lemma_first_invalid_prefix(values@, i + 1);
                crate::math::lemma_flat_split(i as int, dim as int);
            }
            return Some((i / dim, i % dim));
        }
        i = i + 1;
    }
    assert(values@.take(i as int) =~= values@);
    None
}

proof fn lemma_first_invalid_prefix(values: Seq<u32>, n: int)
    requires
        0 <= n <= values.len(),
        first_invalid(values.take(n)) is Some,
    ensures
        first_invalid(values) == first_invalid(values.take(n)),
    decreases values.len() - n,
{
    if n < values.len() {
        assert(values.take(n + 1).drop_last() =~= values.take(n));
        lemma_first_invalid_prefix(values, n + 1);
    } else {
        assert(values.take(n) =~= values);
    }
}

/// `s` without element `i`; the last element takes its place.
pub open spec fn swap_removed<T>(s: Seq<T>, i: int) -> Seq<T> {
    s.update(i, s.last()).drop_last()
}

/// Rows of width `w` without row `i`; the last row takes its place.
pub open spec fn swap_removed_rows<T>(s: Seq<T>, w: int, n: int, i: int) -> Seq<T> {
    Seq::new(
        ((n - 1) * w) as nat,
        |q: int|
            if q / w == i {
                s[(n - 1) * w + q % w]
            } else {
                s[q]
            },
    )
}

/// Removes row `i`; the last row takes its place.
pub fn swap_remove_row<T: Copy>(s: &mut Vec<T>, w: usize, n: usize, i: usize)
    requires
        i < n,
        old(s)@.len() == n * w,
    ensures
        final(s)@ == swap_removed_rows(old(s)@, w as int, n as int, i as int),
        final(s)@.len() == (n - 1) * w,
{
    let total: usize = s.len();
    let ghost start = s@;
    let ghost last = (n - 1) * w;
    proof {
        assert(last + w == n * w) by (nonlinear_arith)
            requires
                last == (n - 1) * w,
        ;
        assert(0 <= last) by (nonlinear_arith)
            requires
                last == (n - 1) * w,
                1 <= n,
        ;
    }
    if i < n - 1 {
        let mut k: usize = 0;
        while k < w
            invariant
                k <= w,
                i < n - 1,
                total == n * w,
                start.len() == total,
                last == (n - 1) * w,
                last + w == total,
                0 <= last,
                s@.len() == total,
                forall|q: int| last <= q < total ==> s@[q] == start[q],
                forall|q: int|
                    0 <= q < last ==> s@[q] == (if q / (w as int) == i && q % (w as int) < k {
                        start[last + q % (w as int)]
                    } else {
                        start[q]
                    }),
            decreases w - k,
        {
            proof {
                lemma_flat_bound(i as int, k as int, n - 1, w as int);
                lemma_flat_index(i as int, k as int, w as int);
                lemma_flat_bound(n - 1, k as int, n as int, w as int);
            }
            let v: T = s[(n - 1) * w + k];
            s.set(i * w + k, v);
            proof {
                assert forall|q: int| 0 <= q < last implies s@[q] == (if q / (w as int) == i && q % (w as int)
                    < k + 1 {
                    start[last + q % (w as int)]
                } else {
                    start[q]
                }) by {
                    lemma_flat_row(q, n - 1, w as int);
                    if q / (w as int) == i && q % (w as int) == k {
                        assert(q == i * w + k);
                    }
                }
            }
            k = k + 1;
        }
    }
    s.truncate((n - 1) * w);
    proof {
        let want = swap_removed_rows(start, w as int, n as int, i as int);
        assert forall|q: int| 0 <= q < last implies s@[q] == want[q] by {
            assert(0 < w) by (nonlinear_arith)
                requires
                    0 <= q < last,
                    last == (n - 1) * w,
            ;
            lemma_flat_row(q, n - 1, w as int);
        }
        assert(s@ =~= want);
    }
}

/// Encoded rows added since the last write.
pub struct Delta {
    /// The committed dimensionality.
    pub dim: Option<usize>,
    /// External id of each row.
    pub ids: Vec<u64>,
    /// Row of each id.
    pub slots: HashMap<u64, usize>,
    /// Bit planes, row-major.
    pub codes: Vec<u8>,
    /// Bit patterns, one per row.
    pub scales: Vec<u32>,
    /// Bit patterns, `dim` per row, if the index stores vectors.
    pub vectors: Vec<u32>,
    /// Calibration that the rows are encoded with, empty for none.
    pub tqplus_shift: Vec<u32>,
    pub tqplus_scale: Vec<u32>,
}

/// Bytes of one row of bit planes.
pub open spec fn plane_row_bytes(bits: int, dim: int) -> int {
    bits * (dim / 8)
}

/// The slot map inverts the id list.
pub open spec fn slots_match(ids: Seq<u64>, slots: Map<u64, usize>) -> bool {
    &&& ids.no_duplicates()
    &&& slots.dom() == ids.to_set()
    &&& forall|i: int| 0 <= i < ids.len() ==> slots[#[trigger] ids[i]] == i
}

impl Delta {
    /// The committed dimensionality, or 0.
    pub open spec fn width(self) -> int {
        match self.dim {
            Some(d) => d as int,
            None => 0,
        }
    }

    /// The columns agree.
    pub open spec fn wf(self, bits: int, store: bool) -> bool {
        let n = self.ids@.len();
        let d = self.width();
        &&& slots_match(self.ids@, self.slots@)
        &&& self.dim is Some ==> 0 < d <= 0xFFFF_FFFF && d % 8 == 0
        &&& self.dim is None ==> n == 0
        &&& self.codes@.len() == n * plane_row_bytes(bits, d)
        &&& self.scales@.len() == n
        &&& self.vectors@.len() == if store {
            n * d
        } else {
            0
        }
        &&& self.tqplus_shift@.len() == self.tqplus_scale@.len()
        &&& self.tqplus_shift@.len() == 0 || self.tqplus_shift@.len() == d
    }

    /// No rows, with a dimensionality and a calibration.
    pub fn empty(dim: Option<usize>, tqplus_shift: Vec<u32>, tqplus_scale: Vec<u32>) -> (d: Delta)
        requires
            dim is Some ==> 0 < dim->0 <= 0xFFFF_FFFF && dim->0 % 8 == 0,
            tqplus_shift@.len() == tqplus_scale@.len(),
            tqplus_shift@.len() == 0 || (dim is Some && tqplus_shift@.len() == dim->0),
        ensures
            forall|bits: int, store: bool| d.wf(bits, store),
            d.dim == dim,
            d.ids@.len() == 0,
            d.tqplus_shift@ == tqplus_shift@,
            d.tqplus_scale@ == tqplus_scale@,
    {
        let d = Delta {
            dim,
            ids: Vec::new(),
            slots: HashMap::new(),
            codes: Vec::new(),
            scales: Vec::new(),
            vectors: Vec::new(),
            tqplus_shift,
            tqplus_scale,
        };
        assert(d.ids@.to_set() =~= Set::<u64>::empty());
        assert forall|bits: int, store: bool| d.wf(bits, store) by {
            assert(0 * plane_row_bytes(bits, d.width()) == 0) by (nonlinear_arith);
            assert(0 * d.width() == 0) by (nonlinear_arith);
        }
        d
    }

    /// Whether a row has this id.
    pub fn contains(&self, id: u64) -> (r: bool)
        requires
            slots_match(self.ids@, self.slots@),
        ensures
            r == self.ids@.contains(id),
    {
        self.slots.contains_key(&id)
    }

    /// The row of an id.
    pub fn position(&self, id: u64) -> (r: Option<usize>)
        requires
            slots_match(self.ids@, self.slots@),
        ensures
            match r {
                Some(i) => i < self.ids@.len() && self.ids@[i as int] == id,
                None => !self.ids@.contains(id),
            },
    {
        match self.slots.get(&id) {
            Some(i) => {
                proof {
                    assert(self.ids@.to_set().contains(id));
                    let k = choose|k: int| 0 <= k < self.ids@.len() && self.ids@[k] == id;
                    assert(self.slots@[self.ids@[k]] == k);
                }
                Some(*i)
            },
            None => {
                assert(!self.ids@.to_set().contains(id));
                None
            },
        }
    }
}

/// Removing one id from a matched list and map.
proof fn lemma_slots_remove(ids: Seq<u64>, slots: Map<u64, usize>, i: int)
    requires
        slots_match(ids, slots),
        0 <= i < ids.len(),
        ids.len() <= usize::MAX,
    ensures
        slots_match(
            swap_removed(ids, i),
            if i == ids.len() - 1 {
                slots.remove(ids[i])
            } else {
                slots.remove(ids[i]).insert(ids.last(), i as usize)
            },
        ),
        swap_removed(ids, i).to_set() == ids.to_set().remove(ids[i]),
{
    let n = ids.len();
    let out = swap_removed(ids, i);
    let last = ids.last();
    let m = if i == n - 1 {
        slots.remove(ids[i])
    } else {
        slots.remove(ids[i]).insert(last, i as usize)
    };
    assert forall|k: int| 0 <= k < out.len() implies #[trigger] out[k] == (if k == i {
        last
    } else {
        ids[k]
    }) by {}
    assert forall|x: u64| out.to_set().contains(x) <==> ids.to_set().remove(ids[i]).contains(x) by {
        if out.contains(x) {
            let k = choose|k: int| 0 <= k < out.len() && out[k] == x;
            if k == i {
                assert(ids[n - 1] == x);
            } else {
                assert(ids[k] == x);
            }
        }
        if ids.contains(x) && x != ids[i] {
            let k = choose|k: int| 0 <= k < ids.len() && ids[k] == x;
            if k == n - 1 {
                assert(out[i] == x);
            } else {
                assert(out[k] == x);
            }
        }
    }
    assert(out.to_set() =~= ids.to_set().remove(ids[i]));
    assert(ids.to_set().contains(last));
    assert(m.dom() =~= out.to_set());
    assert forall|k: int| 0 <= k < out.len() implies m[#[trigger] out[k]] == k by {
        if k != i {
            assert(ids[k] != ids[i] && ids[k] != ids[n - 1]);
        }
    }
}

impl Delta {
    /// Removes the row of `id`; the last row takes its place. True if there
    /// was one.
    pub fn remove(&mut self, id: u64, bits: usize, store: bool) -> (r: bool)
        requires
            old(self).wf(bits as int, store),
            1 <= bits <= 8,
        ensures
            final(self).wf(bits as int, store),
            r == old(self).ids@.contains(id),
            final(self).ids@.to_set() == old(self).ids@.to_set().remove(id),
            !r ==> *final(self) == *old(self),
            r ==> exists|i: int| #[trigger] final(self).without_row(*old(self), bits as int, store, i) && old(
                self,
            ).ids@[i] == id,
            final(self).dim == old(self).dim,
            final(self).tqplus_shift@ == old(self).tqplus_shift@,
            final(self).tqplus_scale@ == old(self).tqplus_scale@,
    {
        let i: usize = match self.position(id) {
            Some(i) => i,
            None => {
                assert(self.ids@.to_set().remove(id) =~= self.ids@.to_set());
                return false;
            },
        };
        let n: usize = self.ids.len();
        let codes_len: usize = self.codes.len();
        let d: usize = match self.dim {
            Some(d) => d,
            None => 0,
        };
        proof {
            lemma_slots_remove(self.ids@, self.slots@, i as int);
            assert(self.ids@.to_set().contains(id));
            let w = plane_row_bytes(bits as int, d as int);
            assert(0 <= w) by (nonlinear_arith)
                requires
                    w == bits * (d / 8),
                    0 <= bits,
                    0 <= d,
            ;
            assert(w <= n * w) by (nonlinear_arith)
                requires
                    1 <= n,
                    0 <= w,
            ;
            assert(codes_len == n * w);
        }
        let last: u64 = self.ids[n - 1];
        self.slots.remove(&id);
        if i != n - 1 {
            self.slots.insert(last, i);
        }
        self.ids.swap_remove(i);
        self.scales.swap_remove(i);
        swap_remove_row(&mut self.codes, bits * (d / 8), n, i);
        if store {
            swap_remove_row(&mut self.vectors, d, n, i);
        }
        assert(self.ids@ =~= swap_removed(old(self).ids@, i as int));
        assert(self.scales@ =~= swap_removed(old(self).scales@, i as int));
        assert(self.without_row(*old(self), bits as int, store, i as int));
        true
    }

    /// This is `before` with rows of dimensionality `dim` behind its own; the
    /// calibration is the same.
    pub open spec fn with_rows(
        self,
        before: Delta,
        dim: usize,
        ids: Seq<u64>,
        codes: Seq<u8>,
        scales: Seq<u32>,
        vectors: Seq<u32>,
        store: bool,
    ) -> bool {
        &&& self.dim == Some(dim)
        &&& self.ids@ == before.ids@ + ids
        &&& self.codes@ == before.codes@ + codes
        &&& self.scales@ == before.scales@ + scales
        &&& self.vectors@ == if store {
            before.vectors@ + vectors
        } else {
            before.vectors@
        }
        &&& self.tqplus_shift@ == before.tqplus_shift@
        &&& self.tqplus_scale@ == before.tqplus_scale@
    }

    /// This is `before` without row `i`, whose place the last row took.
    pub open spec fn without_row(self, before: Delta, bits: int, store: bool, i: int) -> bool {
        let n = before.ids@.len() as int;
        &&& 0 <= i < n
        &&& self.dim == before.dim
        &&& self.tqplus_shift@ == before.tqplus_shift@
        &&& self.tqplus_scale@ == before.tqplus_scale@
        &&& self.ids@ == swap_removed(before.ids@, i)
        &&& self.scales@ == swap_removed(before.scales@, i)
        &&& self.codes@ == swap_removed_rows(before.codes@, plane_row_bytes(bits, before.width()), n, i)
        &&& self.vectors@ == if store {
            swap_removed_rows(before.vectors@, before.width(), n, i)
        } else {
            before.vectors@
        }
    }
}

/// The first of `ids` that lies in `taken`.
pub open spec fn first_taken(ids: Seq<u64>, taken: Set<u64>) -> Option<u64>
    decreases ids.len(),
{
    if ids.len() == 0 {
        None
    } else if first_taken(ids.drop_last(), taken) is Some {
        first_taken(ids.drop_last(), taken)
    } else if taken.contains(ids.last()) {
        Some(ids.last())
    } else {
        None
    }
}

/// The first of `ids` that repeats an earlier one.
pub open spec fn first_repeat(ids: Seq<u64>) -> Option<u64>
    decreases ids.len(),
{
    if ids.len() == 0 {
        None
    } else if first_repeat(ids.drop_last()) is Some {
        first_repeat(ids.drop_last())
    } else if ids.drop_last().contains(ids.last()) {
        Some(ids.last())
    } else {
        None
    }
}

/// The first id found in a prefix is the first of all.
pub proof fn lemma_first_taken_prefix(ids: Seq<u64>, taken: Set<u64>, n: int)
    requires
        0 <= n <= ids.len(),
        first_taken(ids.take(n), taken) is Some,
    ensures
        first_taken(ids, taken) == first_taken(ids.take(n), taken),
    decreases ids.len() - n,
{
    if n < ids.len() {
        assert(ids.take(n + 1).drop_last() =~= ids.take(n));
        lemma_first_taken_prefix(ids, taken, n + 1);
    } else {
        assert(ids.take(n) =~= ids);
    }
}

proof fn lemma_first_repeat_prefix(ids: Seq<u64>, n: int)
    requires
        0 <= n <= ids.len(),
        first_repeat(ids.take(n)) is Some,
    ensures
        first_repeat(ids) == first_repeat(ids.take(n)),
    decreases ids.len() - n,
{
    if n < ids.len() {
        assert(ids.take(n + 1).drop_last() =~= ids.take(n));
        lemma_first_repeat_prefix(ids, n + 1);
    } else {
        assert(ids.take(n) =~= ids);
    }
}

/// None of `ids` is taken exactly if no first one is.
pub proof fn lemma_first_taken_none(ids: Seq<u64>, taken: Set<u64>)
    ensures
        first_taken(ids, taken) is None <==> (forall|i: int|
            0 <= i < ids.len() ==> !taken.contains(#[trigger] ids[i])),
    decreases ids.len(),
{
    if ids.len() > 0 {
        let a = ids.drop_last();
        lemma_first_taken_none(a, taken);
        assert(forall|i: int| 0 <= i < a.len() ==> #[trigger] a[i] == ids[i]);
        if first_taken(ids, taken) is None {
            assert forall|i: int| 0 <= i < ids.len() implies !taken.contains(#[trigger] ids[i]) by {
                if i < a.len() {
                    assert(!taken.contains(a[i]));
                }
            }
        } else if forall|i: int| 0 <= i < ids.len() ==> !taken.contains(#[trigger] ids[i]) {
            assert forall|i: int| 0 <= i < a.len() implies !taken.contains(#[trigger] a[i]) by {
                assert(!taken.contains(ids[i]));
            }
            assert(!taken.contains(ids[ids.len() - 1]));
        }
    }
}

/// No id repeats exactly if no first repetition exists.
pub proof fn lemma_first_repeat_none(ids: Seq<u64>)
    ensures
        first_repeat(ids) is None <==> ids.no_duplicates(),
    decreases ids.len(),
{
    if ids.len() > 0 {
        let a = ids.drop_last();
        let n = ids.len() - 1;
        lemma_first_repeat_none(a);
        if first_repeat(ids) is None {
            assert forall|i: int, j: int| 0 <= i < ids.len() && 0 <= j < ids.len() && i != j implies ids[i]
                != ids[j] by {
                if i < n && j < n {
                    assert(a[i] == ids[i] && a[j] == ids[j]);
                } else if i < n {
                    assert(a[i] == ids[i]);
                } else {
                    assert(a[j] == ids[j]);
                }
            }
        } else if ids.no_duplicates() {
            assert forall|i: int, j: int| 0 <= i < a.len() && 0 <= j < a.len() && i != j implies a[i] != a[j] by {
                assert(ids[i] != ids[j]);
            }
            if a.contains(ids.last()) {
                let k = choose|k: int| 0 <= k < a.len() && a[k] == ids.last();
                assert(ids[k] == ids[n]);
            }
        }
    }
}

/// The first of `ids` that repeats an earlier one.
pub fn find_repeat(ids: &[u64]) -> (r: Option<u64>)
    ensures
        r == first_repeat(ids@),
{
    let mut seen: HashMap<u64, usize> = HashMap::new();
    let mut i: usize = 0;
    assert(ids@.take(0) =~= Seq::<u64>::empty());
    assert(seen@.dom() =~= ids@.take(0).to_set());
    while i < ids.len()
        invariant
            i <= ids.len(),
            seen@.dom() == ids@.take(i as int).to_set(),
            first_repeat(ids@.take(i as int)) is None,
        decreases ids.len() - i,
    {
        let ghost before = ids@.take(i as int);
        let ghost after = ids@.take(i + 1);
        assert(after.drop_last() =~= before);
        assert(after =~= before.push(ids@[i as int]));
        if seen.contains_key(&ids[i]) {
            proof {
                assert(before.to_set().contains(ids@[i as int]));
                lemma_first_repeat_prefix(ids@, i + 1);
            }
            return Some(ids[i]);
        }
        assert(!before.to_set().contains(ids@[i as int]));
        seen.insert(ids[i], i);
        proof {
            lemma_push_set(before, ids@[i as int]);
        }
        i = i + 1;
    }
    assert(ids@.take(i as int) =~= ids@);
    None
}

/// Pushing an element adds it to the set of elements.
pub proof fn lemma_push_set(s: Seq<u64>, x: u64)
    ensures
        s.push(x).to_set() == s.to_set().insert(x),
{
    assert forall|y: u64| s.push(x).to_set().contains(y) <==> s.to_set().insert(x).contains(y) by {
        if s.contains(y) {
            let k = choose|k: int| 0 <= k < s.len() && s[k] == y;
            assert(s.push(x)[k] == y);
        }
        if s.push(x).contains(y) {
            let k = choose|k: int| 0 <= k < s.len() + 1 && s.push(x)[k] == y;
            if k < s.len() {
                assert(s[k] == y);
            }
        }
        assert(s.push(x)[s.len() as int] == x);
    }
    assert(s.push(x).to_set() =~= s.to_set().insert(x));
}

/// Matched list and map after one more id.
proof fn lemma_slots_push(ids: Seq<u64>, slots: Map<u64, usize>, id: u64)
    requires
        slots_match(ids, slots),
        !ids.contains(id),
        ids.len() <= usize::MAX,
    ensures
        slots_match(ids.push(id), slots.insert(id, ids.len() as usize)),
{
    let m = slots.insert(id, ids.len() as usize);
    let s = ids.push(id);
    lemma_push_set(ids, id);
    assert(m.dom() =~= s.to_set());
    assert forall|i: int| 0 <= i < s.len() implies m[#[trigger] s[i]] == i by {
        if i < ids.len() {
            assert(s[i] == ids[i]);
            assert(ids.contains(ids[i]));
        }
    }
    assert forall|i: int, j: int| 0 <= i < s.len() && 0 <= j < s.len() && i != j implies s[i] != s[j] by {
        if i < ids.len() {
            assert(ids.contains(ids[i]));
        }
        if j < ids.len() {
            assert(ids.contains(ids[j]));
        }
    }
}

impl Delta {
    /// Appends encoded rows.
    pub fn append(
        &mut self,
        dim: usize,
        ids: &[u64],
        codes: &[u8],
        scales: &[u32],
        vectors: &[u32],
        bits: usize,
        store: bool,
    )
        requires
            old(self).wf(bits as int, store),
            0 < dim <= 0xFFFF_FFFF,
            dim % 8 == 0,
            old(self).dim is Some ==> old(self).dim == Some(dim),
            ids@.no_duplicates(),
            forall|i: int| 0 <= i < ids@.len() ==> !old(self).ids@.contains(#[trigger] ids@[i]),
            codes@.len() == ids@.len() * plane_row_bytes(bits as int, dim as int),
            scales@.len() == ids@.len(),
            store ==> vectors@.len() == ids@.len() * dim,
        ensures
            final(self).wf(bits as int, store),
            final(self).with_rows(*old(self), dim, ids@, codes@, scales@, vectors@, store),
    {
        let ghost base = self.ids@;
        let n: usize = self.ids.len();
        let mut i: usize = 0;
        assert(self.ids@ =~= base + ids@.take(0));
        while i < ids.len()
            invariant
                i <= ids.len(),
                slots_match(self.ids@, self.slots@),
                self.ids@ == base + ids@.take(i as int),
                ids@.no_duplicates(),
                forall|k: int| 0 <= k < ids@.len() ==> !base.contains(#[trigger] ids@[k]),
                self.dim == old(self).dim,
                self.codes == old(self).codes,
                self.scales == old(self).scales,
                self.vectors == old(self).vectors,
                self.tqplus_shift == old(self).tqplus_shift,
                self.tqplus_scale == old(self).tqplus_scale,
            decreases ids.len() - i,
        {
            let id: u64 = ids[i];
            let at: usize = self.ids.len();
            proof {
                assert(!self.ids@.contains(id)) by {
                    if self.ids@.contains(id) {
                        let k = choose|k: int| 0 <= k < self.ids@.len() && self.ids@[k] == id;
                        if k < base.len() {
                            assert(base[k] == id);
                            assert(base.contains(ids@[i as int]));
                        } else {
                            assert(ids@[k - base.len()] == ids@[i as int]);
                        }
                    }
                }
                lemma_slots_push(self.ids@, self.slots@, id);
            }
            self.slots.insert(id, at);
            self.ids.push(id);
            i = i + 1;
            assert(self.ids@ =~= base + ids@.take(i as int));
        }
        assert(ids@.take(i as int) =~= ids@);
        self.codes.extend_from_slice(codes);
        self.scales.extend_from_slice(scales);
        if store {
            self.vectors.extend_from_slice(vectors);
        }
        self.dim = Some(dim);
        proof {
            let m = ids@.len() as int;
            let w = plane_row_bytes(bits as int, dim as int);
            assert((n + m) * w == n * w + m * w) by (nonlinear_arith);
            assert((n + m) * dim == n * dim + m * dim) by (nonlinear_arith);
            if old(self).dim is None {
                assert(0 * plane_row_bytes(bits as int, 0) == 0) by (nonlinear_arith);
                assert(n * w == 0 && n * dim == 0) by (nonlinear_arith)
                    requires
                        n == 0,
                ;
            }
            assert(self.codes@ =~= old(self).codes@ + codes@);
            assert(self.scales@ =~= old(self).scales@ + scales@);
            assert(self.vectors@ =~= if store {
                old(self).vectors@ + vectors@
            } else {
                old(self).vectors@
            });
            assert(self.ids@ == old(self).ids@ + ids@);
        }
    }
}

} // verus!
