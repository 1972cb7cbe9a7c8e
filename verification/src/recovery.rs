//! What a log restores after a crash: the writes since the last manifest.
use vstd::prelude::*;
use crate::bytes::u64_at;
use crate::copies::{copies_of, current, newest_first, place, tables};
use crate::copies_laws::{agreeing, has_copy, law_lookup_finds_all_copies};
use crate::delta::{
    first_invalid, lemma_first_repeat_none, lemma_first_taken_none, lemma_push_set, plane_row_bytes,
};
use crate::disk::{check_rows, rows_error, valid_dim, AddError};
use crate::fresh::{base_ids, FreshIndex};
use crate::fresh_write::{lemma_grown_wf, memtable_grown, removal, zero_centroids, Removed};
use crate::partition::PartitionState;
use crate::runs::RunEntry;
use crate::wal::{
    is_log, law_log_round_trip, law_torn_record_is_dropped, log_of, loggable, logged, parse_wal_epoch,
    record_bytes, records_of, Logged, WalRecord, WAL_ADD, WAL_REMOVE,
};

verus! {

/// The live ids after the write that a record stands for.
pub open spec fn applied(live: Set<u64>, r: Logged) -> Set<u64> {
    if r.kind == WAL_ADD {
        live.insert(r.id)
    } else {
        live.remove(r.id)
    }
}

/// The live ids after all the writes of a log.
pub open spec fn replayed(live: Set<u64>, records: Seq<Logged>) -> Set<u64>
    decreases records.len(),
{
    if records.len() == 0 {
        live
    } else {
        applied(replayed(live, records.drop_last()), records.last())
    }
}

/// Records of writes that were accepted, one after the other, from the live
/// ids `live` on, with vectors of `dim` coordinates.
pub open spec fn accepted(live: Set<u64>, dim: usize, records: Seq<Logged>) -> bool {
    forall|i: int|
        #![trigger records[i]]
        0 <= i < records.len() && records[i].kind == WAL_ADD ==> {
            &&& records[i].vector.len() == dim
            &&& first_invalid(records[i].vector) is None
            &&& !replayed(live, records.take(i)).contains(records[i].id)
        }
}

/// `b` is `a` after one record is replayed. `codes` and `scale` are the
/// encoded row of a record that adds one.
pub open spec fn replay_step(a: FreshIndex, b: FreshIndex, r: Logged, codes: Seq<u8>, scale: u32) -> bool {
    if r.kind == WAL_ADD {
        &&& rows_error(a.memtable, r.vector, r.vector.len() as usize, seq![r.id]) is None
        &&& memtable_grown(a, b)
        &&& b.memtable.dim == Some(r.vector.len() as usize)
        &&& b.memtable.ids@ == a.memtable.ids@.push(r.id)
        &&& b.memtable.codes@ == a.memtable.codes@ + codes
        &&& b.memtable.scales@ == a.memtable.scales@.push(scale)
        &&& b.memtable.vectors@ == if a.store_vectors {
            a.memtable.vectors@ + r.vector
        } else {
            a.memtable.vectors@
        }
    } else {
        exists|o: Removed| removal(a, b, r.id, o)
    }
}

/// The index goes through `states` as `records` are replayed.
pub open spec fn replays(
    states: Seq<FreshIndex>,
    records: Seq<Logged>,
    codes: Seq<Vec<u8>>,
    scales: Seq<u32>,
) -> bool {
    &&& states.len() == records.len() + 1
    &&& forall|k: int| 0 <= k < states.len() ==> (#[trigger] states[k]).wf()
    &&& forall|k: int|
        0 <= k < records.len() ==> replay_step(
            #[trigger] states[k],
            states[k + 1],
            records[k],
            codes[k]@,
            scales[k],
        )
}

impl FreshIndex {
    /// No id lies both in the memtable and in a partition, and no row number
    /// of a partition stands for two ids.
    pub open spec fn tidy(self) -> bool {
        &&& agreeing(self.partitions@, newest_first(tables(self.runs@)))
        &&& self.memtable.ids@.to_set().disjoint(base_ids(self.partitions@, self.runs@))
    }

    /// Whether a log belongs to this state of the index, so that its records
    /// are replayed and writing goes on behind them. Any other log is replaced
    /// by an empty one.
    pub fn continues_log(&self, bytes: &[u8]) -> (r: bool)
        ensures
            r == (is_log(bytes@) && u64_at(bytes@, 16) == self.epoch),
    {
        match parse_wal_epoch(bytes) {
            Some(epoch) => epoch == self.epoch,
            None => false,
        }
    }

    /// Replays one record. `codes` and `scale` are the encoded row of a record
    /// that adds one. A refused record changes nothing.
    pub fn replay_record(&mut self, record: &WalRecord, codes: &[u8], scale: u32) -> (r: Result<(), AddError>)
        requires
            old(self).wf(),
            old(self).churn_since_check < u64::MAX,
            record.kind == WAL_ADD || record.kind == WAL_REMOVE,
            record.kind == WAL_ADD ==> codes@.len() == plane_row_bytes(
                old(self).bit_width as int,
                record.vector@.len() as int,
            ),
        ensures
            final(self).wf(),
            match r {
                Err(e) => {
                    &&& record.kind == WAL_ADD
                    &&& rows_error(
                        old(self).memtable,
                        record.vector@,
                        record.vector@.len() as usize,
                        seq![record.id],
                    ) == Some(e)
                    &&& *final(self) == *old(self)
                },
                Ok(_) => replay_step(*old(self), *final(self), record@, codes@, scale),
            },
            r is Ok && old(self).tidy() && !(record.kind == WAL_ADD && base_ids(
                old(self).partitions@,
                old(self).runs@,
            ).contains(record.id)) ==> final(self).tidy() && final(self).live() == applied(
                old(self).live(),
                record@,
            ),
            final(self).bit_width == old(self).bit_width,
            final(self).churn_since_check <= old(self).churn_since_check + 1,
    {
        let ghost before = *self;
        if record.kind == WAL_ADD {
            let dim: usize = record.vector.len();
            let ids: Vec<u64> = vec![record.id];
            let scales: Vec<u32> = vec![scale];
            assert(ids@ =~= seq![record.id]);
            assert(scales@ =~= seq![scale]);
            if let Some(e) = check_rows(&self.memtable, record.vector.as_slice(), dim, ids.as_slice()) {
                return Err(e);
            }
            proof {
                lemma_first_taken_none(ids@, self.memtable.ids@.to_set());
                lemma_first_repeat_none(ids@);
                assert(!self.memtable.ids@.to_set().contains(ids@[0]));
                assert(1 * plane_row_bytes(self.bit_width as int, dim as int) == codes@.len());
                assert(1 * dim == dim);
            }
            let first: bool = self.memtable.dim.is_none() && self.partitions.len() > 0;
            self.memtable.append(
                dim,
                ids.as_slice(),
                codes,
                scales.as_slice(),
                record.vector.as_slice(),
                self.bit_width,
                self.store_vectors,
            );
            if first {
                self.centroids = zero_centroids(self.partitions.len(), dim);
                self.centroids_dirty = true;
            }
            proof {
                lemma_grown_wf(before, *self, dim);
                assert(self.memtable.ids@ =~= before.memtable.ids@.push(record.id));
                assert(self.memtable.scales@ =~= before.memtable.scales@.push(scale));
                lemma_push_set(before.memtable.ids@, record.id);
                assert(self.live() =~= before.live().insert(record.id));
            }
            return Ok(());
        }
        let outcome: Removed = self.remove_internal(record.id);
        proof {
            assert(removal(before, *self, record.id, outcome));
            if before.tidy() {
                let base = base_ids(before.partitions@, before.runs@);
                let mem = before.memtable.ids@.to_set();
                if outcome == Removed::Memtable {
                    assert(mem.contains(record.id));
                    assert(!base.contains(record.id));
                    assert(self.live() =~= before.live().remove(record.id));
                } else if outcome == Removed::No {
                    assert(!mem.contains(record.id));
                    assert(!base.contains(record.id));
                    assert(self.live() =~= before.live().remove(record.id));
                }
            }
        }
        Ok(())
    }

    /// Replays the records of a log, up to the first that is refused.
    /// `codes[i]` and `scales[i]` are the encoded row of record `i`, if it adds
    /// one.
    pub fn replay(&mut self, records: &Vec<WalRecord>, codes: &Vec<Vec<u8>>, scales: &[u32]) -> (r: Result<
        (),
        AddError,
    >)
        requires
            old(self).wf(),
            old(self).churn_since_check + records@.len() <= u64::MAX,
            codes@.len() == records@.len(),
            scales@.len() == records@.len(),
            forall|i: int|
                0 <= i < records@.len() ==> (#[trigger] records@[i]).kind == WAL_ADD || records@[i].kind
                    == WAL_REMOVE,
            forall|i: int|
                0 <= i < records@.len() && (#[trigger] records@[i]).kind == WAL_ADD ==> codes@[i]@.len()
                    == plane_row_bytes(old(self).bit_width as int, records@[i].vector@.len() as int),
        ensures
            final(self).wf(),
            exists|states: Seq<FreshIndex>, n: int|
                {
                    &&& #[trigger] replays(states, logged(records@).take(n), codes@, scales@)
                    &&& 0 <= n <= records@.len()
                    &&& states[0] == *old(self)
                    &&& states.last() == *final(self)
                    &&& match r {
                        Ok(_) => n == records@.len(),
                        Err(e) => n < records@.len() && records@[n].kind == WAL_ADD && rows_error(
                            final(self).memtable,
                            records@[n].vector@,
                            records@[n].vector@.len() as usize,
                            seq![records@[n].id],
                        ) == Some(e),
                    }
                },
            forall|dim: usize| #[trigger]
                old(self).replayable(dim, logged(records@)) ==> r is Ok && final(self).tidy() && final(self).live()
                    == replayed(old(self).live(), logged(records@)),
    {
        let ghost all = logged(records@);
        let ghost start = *self;
        let ghost mut states: Seq<FreshIndex> = seq![*self];
        let mut i: usize = 0;
        assert(all.take(0) =~= Seq::<Logged>::empty());
        while i < records.len()
            invariant
                self.wf(),
                i <= records@.len(),
                all == logged(records@),
                start == *old(self),
                self.churn_since_check + (records@.len() - i) <= u64::MAX,
                self.bit_width == start.bit_width,
                codes@.len() == records@.len(),
                scales@.len() == records@.len(),
                forall|k: int|
                    0 <= k < records@.len() ==> (#[trigger] records@[k]).kind == WAL_ADD || records@[k].kind
                        == WAL_REMOVE,
                forall|k: int|
                    0 <= k < records@.len() && (#[trigger] records@[k]).kind == WAL_ADD ==> codes@[k]@.len()
                        == plane_row_bytes(start.bit_width as int, records@[k].vector@.len() as int),
                replays(states, all.take(i as int), codes@, scales@),
                states[0] == start,
                states.last() == *self,
                forall|dim: usize|
                    #[trigger] start.replayable(dim, all) ==> self.tidy() && self.live() == replayed(
                        start.live(),
                        all.take(i as int),
                    ) && (self.memtable.dim is Some ==> self.memtable.dim->0 == dim),
            decreases records.len() - i,
        {
            let ghost before = *self;
            let ghost n = i as int;
            let step: Result<(), AddError> = self.replay_record(&records[i], codes[i].as_slice(), scales[i]);
            proof {
                assert(all[n] == records@[n]@);
                assert forall|dim: usize| #[trigger] start.replayable(dim, all) implies step is Ok by {
                    before.lemma_next_is_accepted(start, dim, all, n);
                }
            }
            if let Err(e) = step {
                assert(replays(states, all.take(n), codes@, scales@));
                return Err(e);
            }
            proof {
                states = states.push(*self);
                assert forall|k: int| 0 <= k < n + 1 implies replay_step(
                    #[trigger] states[k],
                    states[k + 1],
                    all.take(n + 1)[k],
                    codes@[k]@,
                    scales@[k],
                ) by {
                    if k < n {
                        assert(all.take(n + 1)[k] == all.take(n)[k]);
                    }
                }
                assert forall|dim: usize| #[trigger] start.replayable(dim, all) implies self.tidy() && self.live()
                    == replayed(start.live(), all.take(n + 1)) && (self.memtable.dim is Some
                    ==> self.memtable.dim->0 == dim) by {
                    before.lemma_next_is_accepted(start, dim, all, n);
                    assert(all.take(n + 1).drop_last() =~= all.take(n));
                    assert(all.take(n + 1).last() == all[n]);
                }
            }
            i = i + 1;
        }
        proof {
            assert(all.take(i as int) =~= all);
            assert(replays(states, all.take(records@.len() as int), codes@, scales@));
        }
        Ok(())
    }

    /// The records are those of writes that were accepted in this state.
    pub open spec fn replayable(self, dim: usize, records: Seq<Logged>) -> bool {
        &&& self.tidy()
        &&& valid_dim(dim as int)
        &&& self.memtable.dim is Some ==> self.memtable.dim->0 == dim
        &&& accepted(self.live(), dim, records)
    }

    /// Record `n` of an accepted log is accepted by the state that the ones in
    /// front of it lead to.
    proof fn lemma_next_is_accepted(self, start: FreshIndex, dim: usize, records: Seq<Logged>, n: int)
        requires
            start.replayable(dim, records),
            0 <= n < records.len(),
            self.live() == replayed(start.live(), records.take(n)),
            self.memtable.dim is Some ==> self.memtable.dim->0 == dim,
        ensures
            records[n].kind == WAL_ADD ==> {
                &&& rows_error(self.memtable, records[n].vector, dim, seq![records[n].id]) is None
                &&& records[n].vector.len() == dim
                &&& !base_ids(self.partitions@, self.runs@).contains(records[n].id)
            },
    {
        let r = records[n];
        if r.kind == WAL_ADD {
            let ids = seq![r.id];
            assert(!self.live().contains(r.id));
            lemma_first_taken_none(ids, self.memtable.ids@.to_set());
            lemma_first_repeat_none(ids);
            assert(!self.memtable.ids@.to_set().contains(r.id));
            assert(r.vector.len() == dim);
            assert(r.vector.len() % (dim as nat) == 0 && r.vector.len() / (dim as nat) == 1) by (nonlinear_arith)
                requires
                    r.vector.len() == dim,
                    dim > 0,
            ;
        }
    }
}

/// A write that returned is not lost. Where the live ids went through `states`
/// as writes were accepted and logged, the log, also one that stops inside a
/// further record, leads from the first of these states to the last.
pub proof fn law_acknowledged_writes_survive(
    dim: u32,
    epoch: u64,
    records: Seq<Logged>,
    states: Seq<Set<u64>>,
    torn: Logged,
    kept: int,
)
    requires
        forall|i: int| 0 <= i < records.len() ==> loggable(#[trigger] records[i], dim),
        states.len() == records.len() + 1,
        forall|i: int|
            0 <= i < records.len() ==> #[trigger] states[i + 1] == if records[i].kind == WAL_ADD {
                states[i].insert(records[i].id)
            } else {
                states[i].remove(records[i].id)
            },
        loggable(torn, dim),
        0 <= kept < record_bytes(torn).len(),
    ensures
        replayed(states[0], records_of(log_of(dim, epoch, records), epoch, dim as int)) == states.last(),
        replayed(
            states[0],
            records_of(
                log_of(dim, epoch, records) + record_bytes(torn).take(kept),
                epoch,
                dim as int,
            ),
        ) == states.last(),
{
    law_log_round_trip(dim, epoch, records);
    law_torn_record_is_dropped(dim, epoch, records, torn, kept);
    lemma_replayed(records, states, records.len() as int);
    assert(records.take(records.len() as int) =~= records);
}

proof fn lemma_replayed(records: Seq<Logged>, states: Seq<Set<u64>>, n: int)
    requires
        0 <= n <= records.len(),
        states.len() == records.len() + 1,
        forall|i: int|
            0 <= i < records.len() ==> #[trigger] states[i + 1] == if records[i].kind == WAL_ADD {
                states[i].insert(records[i].id)
            } else {
                states[i].remove(records[i].id)
            },
    ensures
        replayed(states[0], records.take(n)) == states[n],
    decreases n,
{
    if n > 0 {
        lemma_replayed(records, states, n - 1);
        assert(records.take(n).drop_last() =~= records.take(n - 1));
        assert(states[(n - 1) + 1] == states[n]);
    }
}

/// The last record of an id decides.
proof fn lemma_last_record(live: Set<u64>, records: Seq<Logged>, id: u64)
    ensures
        (forall|i: int| 0 <= i < records.len() ==> (#[trigger] records[i]).id != id) ==> replayed(
            live,
            records,
        ).contains(id) == live.contains(id),
    decreases records.len(),
{
    if records.len() > 0 {
        let init = records.drop_last();
        lemma_last_record(live, init, id);
        if forall|i: int| 0 <= i < records.len() ==> (#[trigger] records[i]).id != id {
            assert(records[records.len() - 1].id != id);
            assert forall|i: int| 0 <= i < init.len() implies (#[trigger] init[i]).id != id by {
                assert(records[i].id != id);
            }
        }
    }
}

/// Where a record names an id, it does not matter whether the id was live
/// before.
proof fn lemma_recorded_id(a: Set<u64>, b: Set<u64>, records: Seq<Logged>, id: u64)
    requires
        exists|i: int| 0 <= i < records.len() && (#[trigger] records[i]).id == id,
    ensures
        replayed(a, records).contains(id) == replayed(b, records).contains(id),
    decreases records.len(),
{
    let init = records.drop_last();
    let i = choose|i: int| 0 <= i < records.len() && (#[trigger] records[i]).id == id;
    if records.last().id != id {
        assert(i < init.len());
        assert(init[i].id == id);
        lemma_recorded_id(a, b, init, id);
    }
}

/// Replaying a log reaches the same live ids from two states that differ in
/// nothing but ids that the log names. So a log may be replayed over a state
/// that some or all of its writes have already reached.
pub proof fn law_replay_is_idempotent(a: Set<u64>, b: Set<u64>, records: Seq<Logged>)
    requires
        forall|id: u64| #[trigger]
            a.contains(id) != b.contains(id) ==> exists|i: int|
                0 <= i < records.len() && (#[trigger] records[i]).id == id,
    ensures
        replayed(a, records) == replayed(b, records),
        replayed(replayed(a, records), records) == replayed(a, records),
{
    assert forall|id: u64| replayed(a, records).contains(id) == replayed(b, records).contains(id) by {
        if exists|i: int| 0 <= i < records.len() && (#[trigger] records[i]).id == id {
            lemma_recorded_id(a, b, records, id);
        } else {
            lemma_last_record(a, records, id);
            lemma_last_record(b, records, id);
            assert(a.contains(id) == b.contains(id));
        }
    }
    assert(replayed(a, records) =~= replayed(b, records));
    let c = replayed(a, records);
    assert forall|id: u64| replayed(c, records).contains(id) == c.contains(id) by {
        if exists|i: int| 0 <= i < records.len() && (#[trigger] records[i]).id == id {
            lemma_recorded_id(a, c, records, id);
        } else {
            lemma_last_record(c, records, id);
        }
    }
    assert(replayed(c, records) =~= c);
}

/// Entries are current in a state that was read back exactly if they were in
/// the one that was written.
proof fn lemma_same_current(a: Seq<PartitionState>, b: Seq<PartitionState>, e: RunEntry)
    requires
        a.len() == b.len(),
        forall|j: int| 0 <= j < a.len() ==> (#[trigger] b[j]).same(a[j]),
    ensures
        current(b, e) == current(a, e),
{
    assert forall|i: int| 0 <= i < a.len() implies (#[trigger] a[i]).partition_id == b[i].partition_id by {
        assert(b[i].same(a[i]));
    }
    crate::copies_laws::lemma_place_same(a, b, e.partition_id, 0);
    let p = place(a, e.partition_id);
    if p < a.len() {
        crate::copies::lemma_place(a, e.partition_id, 0);
        assert(b[p].same(a[p]));
    }
}

/// An index that is opened again finds in its partitions what it found when its
/// manifest was written.
pub proof fn law_reopen_keeps_ids(x: FreshIndex, y: FreshIndex)
    requires
        y.partitions@.len() == x.partitions@.len(),
        forall|j: int| 0 <= j < x.partitions@.len() ==> (#[trigger] y.partitions@[j]).same(x.partitions@[j]),
        tables(y.runs@) == tables(x.runs@),
        y.memtable.ids@.len() == 0,
    ensures
        y.live() == base_ids(x.partitions@, x.runs@),
{
    let a = x.partitions@;
    let b = y.partitions@;
    let s = newest_first(tables(x.runs@));
    assert forall|id: u64| base_ids(b, y.runs@).contains(id) == base_ids(a, x.runs@).contains(id) by {
        law_lookup_finds_all_copies(a, x.runs@, id);
        law_lookup_finds_all_copies(b, y.runs@, id);
        let in_a = copies_of(a, x.runs@, id);
        let in_b = copies_of(b, y.runs@, id);
        assert forall|p: u32, r: u32| #[trigger] has_copy(b, s, id, p, r) == has_copy(a, s, id, p, r) by {
            if has_copy(a, s, id, p, r) {
                let k = choose|k: int|
                    0 <= k < s.len() && (#[trigger] s[k]).id == id && s[k].partition_id == p && s[k].row == r
                        && current(a, s[k]);
                lemma_same_current(a, b, s[k]);
            }
            if has_copy(b, s, id, p, r) {
                let k = choose|k: int|
                    0 <= k < s.len() && (#[trigger] s[k]).id == id && s[k].partition_id == p && s[k].row == r
                        && current(b, s[k]);
                lemma_same_current(a, b, s[k]);
            }
        }
        if in_a.len() > 0 {
            assert(has_copy(a, s, id, in_a[0].partition_id, in_a[0].row));
            assert(has_copy(b, s, id, in_a[0].partition_id, in_a[0].row));
        }
        if in_b.len() > 0 {
            assert(has_copy(b, s, id, in_b[0].partition_id, in_b[0].row));
            assert(has_copy(a, s, id, in_b[0].partition_id, in_b[0].row));
        }
    }
    assert(y.memtable.ids@.to_set() =~= Set::<u64>::empty());
    assert(y.live() =~= base_ids(a, x.runs@));
}

} // verus!
