//! Files that readers of older snapshots may still open are deleted later.
use vstd::prelude::*;

verus! {

/// A file of an index directory.
#[derive(Clone, Copy, PartialEq, Eq, Debug, Structural)]
pub enum StoredFile {
    /// The segment of a partition, of a generation.
    Segment(u32, u32),
    /// A run.
    Run(u64),
    /// Centroids.
    Centroids(u64),
}

/// Live snapshots, and files that wait for them.
pub struct Retirement {
    /// Sequence numbers of the snapshots that are alive.
    pub live: Vec<u64>,
    /// Files that no longer belong to the index, each with the sequence number
    /// of the last snapshot that names it.
    pub pending: Vec<(u64, StoredFile)>,
}

/// No live snapshot is as old as `seq`.
pub open spec fn past(live: Seq<u64>, seq: u64) -> bool {
    forall|i: int| 0 <= i < live.len() ==> seq < #[trigger] live[i]
}

/// The files that may be deleted, in order.
pub open spec fn freed(live: Seq<u64>, pending: Seq<(u64, StoredFile)>) -> Seq<StoredFile>
    decreases pending.len(),
{
    if pending.len() == 0 {
        Seq::empty()
    } else if past(live, pending.last().0) {
        freed(live, pending.drop_last()).push(pending.last().1)
    } else {
        freed(live, pending.drop_last())
    }
}

/// The files that still wait, in order.
pub open spec fn waiting(live: Seq<u64>, pending: Seq<(u64, StoredFile)>) -> Seq<(u64, StoredFile)>
    decreases pending.len(),
{
    if pending.len() == 0 {
        Seq::empty()
    } else if past(live, pending.last().0) {
        waiting(live, pending.drop_last())
    } else {
        waiting(live, pending.drop_last()).push(pending.last())
    }
}

/// `live` without `seq`.
pub open spec fn without(live: Seq<u64>, seq: u64) -> Seq<u64>
    decreases live.len(),
{
    if live.len() == 0 {
        Seq::empty()
    } else if live.last() == seq {
        without(live.drop_last(), seq)
    } else {
        without(live.drop_last(), seq).push(live.last())
    }
}

/// `files`, all last named by the snapshot `seq`.
pub open spec fn queued(seq: u64, files: Seq<StoredFile>) -> Seq<(u64, StoredFile)> {
    Seq::new(files.len(), |i: int| (seq, files[i]))
}

impl Retirement {
    /// No snapshots and no files.
    pub fn new() -> (r: Retirement)
        ensures
            r.live@.len() == 0,
            r.pending@.len() == 0,
    {
        Retirement { live: Vec::new(), pending: Vec::new() }
    }

    /// A snapshot comes to life.
    pub fn register(&mut self, seq: u64)
        ensures
            final(self).live@ == if old(self).live@.contains(seq) {
                old(self).live@
            } else {
                old(self).live@.push(seq)
            },
            final(self).pending@ == old(self).pending@,
    {
        let mut i: usize = 0;
        while i < self.live.len()
            invariant
                *self == *old(self),
                i <= self.live@.len(),
                forall|k: int| 0 <= k < i ==> self.live@[k] != seq,
            decreases self.live.len() - i,
        {
            if self.live[i] == seq {
                assert(self.live@.contains(seq));
                return;
            }
            i = i + 1;
        }
        self.live.push(seq);
    }

    /// The last reference to a snapshot is gone. Returns the files that may be
    /// deleted.
    pub fn release(&mut self, seq: u64) -> (files: Vec<StoredFile>)
        ensures
            final(self).live@ == without(old(self).live@, seq),
            files@ == freed(final(self).live@, old(self).pending@),
            final(self).pending@ == waiting(final(self).live@, old(self).pending@),
    {
        let mut live: Vec<u64> = Vec::new();
        let mut i: usize = 0;
        assert(self.live@.take(0) =~= Seq::<u64>::empty());
        while i < self.live.len()
            invariant
                *self == *old(self),
                i <= self.live@.len(),
                live@ == without(self.live@.take(i as int), seq),
            decreases self.live.len() - i,
        {
            assert(self.live@.take(i + 1).drop_last() =~= self.live@.take(i as int));
            if self.live[i] != seq {
                live.push(self.live[i]);
            }
            i = i + 1;
        }
        assert(self.live@.take(i as int) =~= self.live@);
        self.live = live;
        self.sweep()
    }

    /// Queues files that the snapshot `seq` is the last to name. Returns the
    /// files that may be deleted at once.
    pub fn retire(&mut self, seq: u64, files: &Vec<StoredFile>) -> (r: Vec<StoredFile>)
        ensures
            final(self).live@ == old(self).live@,
            files@.len() == 0 ==> r@.len() == 0 && final(self).pending@ == old(self).pending@,
            files@.len() > 0 ==> {
                &&& r@ == freed(old(self).live@, old(self).pending@ + queued(seq, files@))
                &&& final(self).pending@ == waiting(
                    old(self).live@,
                    old(self).pending@ + queued(seq, files@),
                )
            },
    {
        if files.len() == 0 {
            return Vec::new();
        }
        let ghost start = self.pending@;
        let mut i: usize = 0;
        assert(self.pending@ =~= start + queued(seq, files@).take(0));
        while i < files.len()
            invariant
                i <= files@.len(),
                self.live == old(self).live,
                self.pending@ == start + queued(seq, files@).take(i as int),
            decreases files.len() - i,
        {
            self.pending.push((seq, files[i]));
            i = i + 1;
            assert(self.pending@ =~= start + queued(seq, files@).take(i as int));
        }
        assert(queued(seq, files@).take(i as int) =~= queued(seq, files@));
        self.sweep()
    }

    /// Files that wait.
    pub fn pending_len(&self) -> (n: usize)
        ensures
            n == self.pending@.len(),
    {
        self.pending.len()
    }

    fn sweep(&mut self) -> (files: Vec<StoredFile>)
        ensures
            final(self).live@ == old(self).live@,
            files@ == freed(old(self).live@, old(self).pending@),
            final(self).pending@ == waiting(old(self).live@, old(self).pending@),
    {
        let mut oldest: Option<u64> = None;
        let mut i: usize = 0;
        while i < self.live.len()
            invariant
                *self == *old(self),
                i <= self.live@.len(),
                match oldest {
                    None => i == 0,
                    Some(x) => (exists|k: int| 0 <= k < i && #[trigger] self.live@[k] == x) && forall|k: int|
                        0 <= k < i ==> x <= #[trigger] self.live@[k],
                },
            decreases self.live.len() - i,
        {
            let s: u64 = self.live[i];
            let lower: bool = match oldest {
                None => true,
                Some(x) => s < x,
            };
            if lower {
                oldest = Some(s);
                assert(self.live@[i as int] == s);
            }
            i = i + 1;
        }
        let mut files: Vec<StoredFile> = Vec::new();
        let mut rest: Vec<(u64, StoredFile)> = Vec::new();
        let mut j: usize = 0;
        assert(self.pending@.take(0) =~= Seq::<(u64, StoredFile)>::empty());
        while j < self.pending.len()
            invariant
                *self == *old(self),
                j <= self.pending@.len(),
                match oldest {
                    None => self.live@.len() == 0,
                    Some(x) => (exists|k: int| 0 <= k < self.live@.len() && #[trigger] self.live@[k] == x)
                        && forall|k: int| 0 <= k < self.live@.len() ==> x <= #[trigger] self.live@[k],
                },
                files@ == freed(self.live@, self.pending@.take(j as int)),
                rest@ == waiting(self.live@, self.pending@.take(j as int)),
            decreases self.pending.len() - j,
        {
            assert(self.pending@.take(j + 1).drop_last() =~= self.pending@.take(j as int));
            let (seq, file) = self.pending[j];
            let free: bool = match oldest {
                None => true,
                Some(x) => seq < x,
            };
            proof {
                if oldest is Some {
                    let k = choose|k: int| 0 <= k < self.live@.len() && #[trigger] self.live@[k] == oldest->0;
                    assert(past(self.live@, seq) ==> seq < self.live@[k]);
                }
                assert(free == past(self.live@, seq));
            }
            if free {
                files.push(file);
            } else {
                rest.push((seq, file));
            }
            j = j + 1;
        }
        assert(self.pending@.take(j as int) =~= self.pending@);
        self.pending = rest;
        files
    }
}

/// A file is deleted only when every snapshot that could name it is gone, and
/// no file is forgotten.
pub proof fn law_files_outlive_their_readers(
    live: Seq<u64>,
    pending: Seq<(u64, StoredFile)>,
    i: int,
)
    requires
        0 <= i < pending.len(),
    ensures
        past(live, pending[i].0) ==> freed(live, pending).contains(pending[i].1),
        !past(live, pending[i].0) ==> waiting(live, pending).contains(pending[i]),
        freed(live, pending).len() + waiting(live, pending).len() == pending.len(),
        forall|k: int|
            0 <= k < waiting(live, pending).len() ==> !past(live, (#[trigger] waiting(live, pending)[k]).0),
        forall|k: int|
            0 <= k < freed(live, pending).len() ==> exists|j: int|
                0 <= j < pending.len() && (#[trigger] pending[j]).1 == #[trigger] freed(live, pending)[k]
                    && past(live, pending[j].0),
    decreases pending.len(),
{
    let init = pending.drop_last();
    let n = pending.len() - 1;
    if n > 0 {
        law_files_outlive_their_readers(live, init, if i < n {
            i
        } else {
            0
        });
    }
    let f = freed(live, pending);
    let w = waiting(live, pending);
    let fi = freed(live, init);
    let wi = waiting(live, init);
    if i < n {
        assert(init[i] == pending[i]);
        if past(live, pending[i].0) {
            let k = choose|k: int| 0 <= k < fi.len() && fi[k] == pending[i].1;
            assert(f[k] == pending[i].1);
        } else {
            let k = choose|k: int| 0 <= k < wi.len() && wi[k] == pending[i];
            assert(w[k] == pending[i]);
        }
    } else if past(live, pending[n].0) {
        assert(f[f.len() - 1] == pending[n].1);
    } else {
        assert(w[w.len() - 1] == pending[n]);
    }
    assert forall|k: int| 0 <= k < w.len() implies !past(live, (#[trigger] w[k]).0) by {
        if k < wi.len() {
            assert(w[k] == wi[k]);
        }
    }
    assert forall|k: int| 0 <= k < f.len() implies exists|j: int|
        0 <= j < pending.len() && (#[trigger] pending[j]).1 == #[trigger] f[k] && past(live, pending[j].0) by {
        if k < fi.len() {
            assert(f[k] == fi[k]);
            let j = choose|j: int|
                0 <= j < init.len() && (#[trigger] init[j]).1 == fi[k] && past(live, init[j].0);
            assert(pending[j] == init[j]);
        } else {
            assert(pending[n].1 == f[k]);
        }
    }
}

} // verus!
