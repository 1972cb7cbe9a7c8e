//! A stored vector outlives whatever else happens to a one-file index.
use vstd::prelude::*;
use crate::compact::{GatheredRows, Placement};
use crate::contents::{ids_in, vectors_in};
use crate::disk::{holds_slot, row_of, DiskIndex};
use crate::segment::Segment;
use crate::tvdm::{hdr_dim, BaseSegment};
use crate::vectors::{law_add_keeps_vectors, law_remove_keeps_vectors};
use crate::write::{
    consistent, law_write_keeps_ids, law_written_file_is_consistent, lemma_gathered_ids, lemma_gathered_wf,
};
use crate::write_laws::{
    faithful, law_write_keeps_vectors, law_written_file_is_faithful, lemma_listed_vectors_agree,
};

verus! {

/// An index over its file.
pub struct DiskStage {
    pub x: DiskIndex,
    pub file: Seq<u8>,
}

impl DiskStage {
    /// The index stores vectors, and its file lists every copy under its id.
    pub open spec fn sound(self) -> bool {
        &&& self.x.wf(self.file)
        &&& self.x.store_vectors
        &&& self.x.base is Some ==> consistent(self.file) && faithful(self.file)
    }

    /// The id is live, with this vector.
    pub open spec fn has(self, id: u64, v: Seq<u32>) -> bool {
        self.x.live(self.file).contains(id) && self.x.is_vector_of(self.file, id, v)
    }
}

/// One change, with what it is told and what it makes.
pub enum DiskStep {
    Add { dim: usize, ids: Seq<u64>, codes: Seq<u8>, scales: Seq<u32>, vectors: Seq<u32> },
    Remove { id: u64 },
    Write { g: GatheredRows, p: Placement, s: Segment, seg: BaseSegment },
}

/// The change leads from `a` to `b`.
pub open spec fn disk_leads(a: DiskStage, b: DiskStage, step: DiskStep) -> bool {
    match step {
        DiskStep::Add { dim, ids, codes, scales, vectors } => {
            &&& b.file == a.file
            &&& b.x.wf(b.file)
            &&& b.x == (DiskIndex { delta: b.x.delta, ..a.x })
            &&& b.x.delta.with_rows(a.x.delta, dim, ids, codes, scales, vectors, true)
            &&& a.x.delta.dim is Some ==> a.x.delta.dim == Some(dim)
            &&& b.x.live(b.file) == a.x.live(a.file).union(ids.to_set())
        },
        DiskStep::Remove { id } => {
            &&& b.file == a.file
            &&& b.x.wf(b.file)
            &&& b.x == (DiskIndex { delta: b.x.delta, tombstones: b.x.tombstones, ..a.x })
            &&& !a.x.delta.ids@.contains(id) ==> b.x.delta == a.x.delta
            &&& a.x.delta.ids@.contains(id) ==> exists|i: int|
                #[trigger] b.x.delta.without_row(a.x.delta, a.x.bit_width as int, true, i) && a.x.delta.ids@[i]
                    == id
            &&& b.x.live(b.file) == a.x.live(a.file).remove(id)
        },
        DiskStep::Write { g, p, s, seg } => {
            &&& a.x.gathers(a.file, g)
            &&& p.wf(g.ids@.len() as int, a.x.delta.width())
            &&& s.wf()
            &&& s.places(a.x.segment_params(), g, p)
            &&& b.file == s.file()
            &&& b.x.wf(b.file)
            &&& b.x == (DiskIndex {
                base: Some(seg),
                delta: b.x.delta,
                tombstones: b.x.tombstones,
                ..a.x
            })
            &&& b.x.delta.ids@.len() == 0
            &&& b.x.live(b.file) == ids_in(b.file)
        },
    }
}

/// No change but the removal of an id takes its vector, and adding gives each
/// new id its own.
pub proof fn law_changes_keep_vectors(a: DiskStage, b: DiskStage, step: DiskStep)
    requires
        a.sound(),
        disk_leads(a, b, step),
    ensures
        b.sound(),
        forall|id: u64, v: Seq<u32>|
            step != (DiskStep::Remove { id }) && #[trigger] a.has(id, v) ==> b.has(id, v),
        match step {
            DiskStep::Add { dim, ids, codes, scales, vectors } => forall|i: int|
                0 <= i < ids.len() ==> b.has(#[trigger] ids[i], row_of(vectors, dim as int, i)),
            _ => true,
        },
{
    match step {
        DiskStep::Add { dim, ids, codes, scales, vectors } => {
            law_add_keeps_vectors(a.x, b.x, a.file, dim, ids, codes, scales, vectors);
            assert forall|i: int| 0 <= i < ids.len() implies b.has(
                #[trigger] ids[i],
                row_of(vectors, dim as int, i),
            ) by {
                assert(ids.contains(ids[i]));
                assert(ids.to_set().contains(ids[i]));
                assert(b.x.is_vector_of(a.file, ids[i], row_of(vectors, dim as int, i)));
            }
        },
        DiskStep::Remove { id } => {
            law_remove_keeps_vectors(a.x, b.x, a.file, id);
            assert forall|other: u64, v: Seq<u32>|
                step != (DiskStep::Remove { id: other }) && #[trigger] a.has(other, v) implies b.has(other, v) by {
                assert(other != id);
                assert(b.x.is_vector_of(a.file, other, v));
            }
        },
        DiskStep::Write { g, p, s, seg } => {
            law_write_keeps_ids(a.x, a.file, g, p, s);
            lemma_gathered_ids(a.x, a.file, g);
            lemma_gathered_wf(a.x, a.file, g);
            law_written_file_is_consistent(s, a.x.segment_params(), g, p);
            law_written_file_is_faithful(s, a.x.segment_params(), g, p);
            assert forall|id: u64, v: Seq<u32>| #[trigger] a.has(id, v) implies b.has(id, v) by {
                law_write_keeps_vectors(a.x, a.file, g, p, s, b.x, id, v);
            }
        },
    }
}

/// An id has one vector.
pub proof fn law_vector_is_unique(a: DiskStage, id: u64, v: Seq<u32>, w: Seq<u32>)
    requires
        a.sound(),
        a.has(id, v),
        a.has(id, w),
    ensures
        v == w,
{
    let d = a.x.delta;
    if d.ids@.contains(id) {
        let i = choose|i: int| 0 <= i < d.ids@.len() && #[trigger] d.ids@[i] == id && v == row_of(d.vectors@, d.width(), i);
        let j = choose|j: int| 0 <= j < d.ids@.len() && #[trigger] d.ids@[j] == id && w == row_of(d.vectors@, d.width(), j);
        assert(d.ids@[i] == d.ids@[j]);
    } else {
        assert(a.x.base is Some);
        a.x.base->0.lemma_describes(a.file);
        let i = choose|i: int|
            #[trigger] holds_slot(a.file, id, i) && v == row_of(
                vectors_in(a.file),
                hdr_dim(a.file) as int,
                i,
            );
        let j = choose|j: int|
            #[trigger] holds_slot(a.file, id, j) && w == row_of(
                vectors_in(a.file),
                hdr_dim(a.file) as int,
                j,
            );
        lemma_listed_vectors_agree(a.file, id, i, j);
    }
}

/// An id that was added keeps its vector, whatever other ids are added and
/// removed and however often the index is written, until it is removed itself.
pub proof fn law_vector_outlives_changes(
    stages: Seq<DiskStage>,
    steps: Seq<DiskStep>,
    id: u64,
    v: Seq<u32>,
    n: int,
)
    requires
        stages.len() == steps.len() + 1,
        forall|k: int| 0 <= k < steps.len() ==> disk_leads(#[trigger] stages[k], stages[k + 1], steps[k]),
        forall|k: int| 0 <= k < steps.len() ==> #[trigger] steps[k] != (DiskStep::Remove { id }),
        stages[0].sound(),
        stages[0].has(id, v),
        0 <= n < stages.len(),
    ensures
        stages[n].sound(),
        stages[n].has(id, v),
        forall|w: Seq<u32>| stages[n].x.is_vector_of(stages[n].file, id, w) ==> w == v,
    decreases n,
{
    if n > 0 {
        law_vector_outlives_changes(stages, steps, id, v, n - 1);
        assert(disk_leads(stages[n - 1], stages[(n - 1) + 1], steps[n - 1]));
        assert(steps[n - 1] != (DiskStep::Remove { id }));
        law_changes_keep_vectors(stages[n - 1], stages[n], steps[n - 1]);
        assert(stages[n - 1].has(id, v));
    }
    assert forall|w: Seq<u32>| stages[n].x.is_vector_of(stages[n].file, id, w) implies w == v by {
        assert(stages[n].has(id, w));
        law_vector_is_unique(stages[n], id, v, w);
    }
}

} // verus!
