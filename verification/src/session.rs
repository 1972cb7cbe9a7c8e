//! The calls made since the last save, and what a log restores of them.
use vstd::prelude::*;
use crate::batch::{lemma_row_bounds, Row};
use crate::copies::{newest_first, tables};
use crate::delta::{
    first_invalid, lemma_first_repeat_none, lemma_first_taken_none, lemma_push_set, valid_value,
};
use crate::disk::{add_error, row_of, valid_dim};
use crate::flush_laws::all_ids;
use crate::fresh::FreshIndex;
use crate::fresh_write::{memtable_grown, removals, removed_ids, Removed};
use crate::indexed::law_indexed_entries_agree;
use crate::integrity::{law_add_keeps_intact, law_removing_many};
use crate::recovery::{accepted, replayed};
use crate::wal::{
    body, law_log_round_trip, law_torn_record_is_dropped, log_of, loggable, record_bytes, records_of,
    wal_record, Logged, WAL_ADD, WAL_REMOVE,
};

verus! {

/// The records of added vectors.
pub open spec fn add_records(ids: Seq<u64>, vectors: Seq<u32>, dim: int) -> Seq<Logged> {
    Seq::new(ids.len(), |i: int| Logged { kind: WAL_ADD, id: ids[i], vector: row_of(vectors, dim, i) })
}

/// The records of removed ids.
pub open spec fn remove_records(ids: Seq<u64>) -> Seq<Logged> {
    Seq::new(ids.len(), |i: int| Logged { kind: WAL_REMOVE, id: ids[i], vector: Seq::empty() })
}

/// One more record.
proof fn lemma_body_push(records: Seq<Logged>, r: Logged)
    ensures
        body(records.push(r)) == body(records) + record_bytes(r),
    decreases records.len(),
{
    let all = records.push(r);
    if records.len() == 0 {
        assert(all.drop_first() =~= Seq::<Logged>::empty());
        assert(body(all.drop_first()) =~= Seq::<u8>::empty());
        assert(body(records) =~= Seq::<u8>::empty());
        assert(all[0] == r);
        assert(body(all) == record_bytes(r) + body(all.drop_first()));
        assert(body(all) =~= body(records) + record_bytes(r));
    } else {
        assert(all.drop_first() =~= records.drop_first().push(r));
        lemma_body_push(records.drop_first(), r);
        assert(body(all) =~= body(records) + record_bytes(r));
    }
}

/// What the log gets for added vectors.
pub fn log_adds(vectors: &[u32], dim: usize, ids: &[u64]) -> (out: Vec<u8>)
    requires
        vectors@.len() == ids@.len() * dim,
    ensures
        out@ == body(add_records(ids@, vectors@, dim as int)),
{
    let ghost all = add_records(ids@, vectors@, dim as int);
    let mut out: Vec<u8> = Vec::new();
    let mut i: usize = 0;
    assert(all.take(0) =~= Seq::<Logged>::empty());
    while i < ids.len()
        invariant
            i <= ids@.len(),
            vectors@.len() == ids@.len() * dim,
            all == add_records(ids@, vectors@, dim as int),
            out@ == body(all.take(i as int)),
        decreases ids.len() - i,
    {
        assert(vectors.len() == vectors@.len());
        proof {
            lemma_row_bounds(i as int, ids@.len() as int, dim as int);
            lemma_body_push(all.take(i as int), all[i as int]);
            assert(all.take(i + 1) =~= all.take(i as int).push(all[i as int]));
        }
        let row: &[u32] = vstd::slice::slice_subrange(vectors, i * dim, i * dim + dim);
        let mut record: Vec<u8> = wal_record(WAL_ADD, ids[i], row);
        assert(row@ =~= row_of(vectors@, dim as int, i as int));
        out.append(&mut record);
        i = i + 1;
    }
    assert(all.take(i as int) =~= all);
    out
}

/// What the log gets for removed ids.
pub fn log_removes(ids: &[u64]) -> (out: Vec<u8>)
    ensures
        out@ == body(remove_records(ids@)),
{
    let ghost all = remove_records(ids@);
    let none: Vec<u32> = Vec::new();
    let mut out: Vec<u8> = Vec::new();
    let mut i: usize = 0;
    assert(all.take(0) =~= Seq::<Logged>::empty());
    while i < ids.len()
        invariant
            i <= ids@.len(),
            none@.len() == 0,
            all == remove_records(ids@),
            out@ == body(all.take(i as int)),
        decreases ids.len() - i,
    {
        proof {
            lemma_body_push(all.take(i as int), all[i as int]);
            assert(all.take(i + 1) =~= all.take(i as int).push(all[i as int]));
            assert(none@ =~= Seq::<u32>::empty());
        }
        let mut record: Vec<u8> = wal_record(WAL_REMOVE, ids[i], none.as_slice());
        out.append(&mut record);
        i = i + 1;
    }
    assert(all.take(i as int) =~= all);
    out
}

/// A call that changes which ids are live.
pub enum Call {
    Add { ids: Seq<u64>, vectors: Seq<u32> },
    /// `gone` are the ids that the call found live.
    Remove { ids: Seq<u64>, gone: Seq<u64> },
}

/// What the log gets for a call.
pub open spec fn records_for(call: Call, dim: int) -> Seq<Logged> {
    match call {
        Call::Add { ids, vectors } => add_records(ids, vectors, dim),
        Call::Remove { ids, gone } => remove_records(gone),
    }
}

/// The call takes the index from `x` to `y` and returns without an error.
pub open spec fn returned(x: FreshIndex, y: FreshIndex, call: Call, dim: usize) -> bool {
    match call {
        Call::Add { ids, vectors } => {
            &&& add_error(x.base_only(), x.memtable, vectors, dim, ids) is None
            &&& memtable_grown(x, y)
            &&& y.memtable.dim == Some(dim)
            &&& y.memtable.ids@ == x.memtable.ids@ + ids
            &&& y.live() == x.live().union(ids.to_set())
        },
        Call::Remove { ids, gone } => exists|states: Seq<FreshIndex>, outcomes: Seq<Removed>| #[trigger]
            removals(states, ids, outcomes) && states[0] == x && states.last() == y && gone == removed_ids(
                ids,
                outcomes,
            ),
    }
}

/// The index goes through `states` as `calls` return.
pub open spec fn session(states: Seq<FreshIndex>, calls: Seq<Call>, dim: usize) -> bool {
    &&& states.len() == calls.len() + 1
    &&& forall|k: int| 0 <= k < states.len() ==> (#[trigger] states[k]).wf()
    &&& forall|k: int| 0 <= k < calls.len() ==> returned(#[trigger] states[k], states[k + 1], calls[k], dim)
}

/// What the log gets for all calls.
pub open spec fn session_records(calls: Seq<Call>, dim: int) -> Seq<Logged>
    decreases calls.len(),
{
    if calls.len() == 0 {
        Seq::empty()
    } else {
        session_records(calls.drop_last(), dim) + records_for(calls.last(), dim)
    }
}

/// Replaying two logs one after the other.
pub proof fn lemma_replayed_add(live: Set<u64>, a: Seq<Logged>, b: Seq<Logged>)
    ensures
        replayed(live, a + b) == replayed(replayed(live, a), b),
    decreases b.len(),
{
    if b.len() == 0 {
        assert(a + b =~= a);
    } else {
        assert((a + b).drop_last() =~= a + b.drop_last());
        lemma_replayed_add(live, a, b.drop_last());
    }
}

/// What is accepted behind an accepted log.
pub proof fn lemma_accepted_add(live: Set<u64>, dim: usize, a: Seq<Logged>, b: Seq<Logged>)
    requires
        accepted(live, dim, a),
        accepted(replayed(live, a), dim, b),
    ensures
        accepted(live, dim, a + b),
{
    let all = a + b;
    assert forall|i: int|
        #![trigger all[i]]
        0 <= i < all.len() && all[i].kind == WAL_ADD implies {
        &&& all[i].vector.len() == dim
        &&& first_invalid(all[i].vector) is None
        &&& !replayed(live, all.take(i)).contains(all[i].id)
    } by {
        if i < a.len() {
            assert(all[i] == a[i]);
            assert(all.take(i) =~= a.take(i));
        } else {
            let j = i - a.len();
            assert(all[i] == b[j]);
            assert(all.take(i) =~= a + b.take(j));
            lemma_replayed_add(live, a, b.take(j));
        }
    }
}

/// Values are accepted one by one.
proof fn lemma_all_valid(values: Seq<u32>)
    ensures
        first_invalid(values) is None <==> forall|i: int| 0 <= i < values.len() ==> valid_value(#[trigger] values[i]),
    decreases values.len(),
{
    if values.len() > 0 {
        let init = values.drop_last();
        lemma_all_valid(init);
        if first_invalid(values) is None {
            assert forall|i: int| 0 <= i < values.len() implies valid_value(#[trigger] values[i]) by {
                if i < init.len() {
                    assert(init[i] == values[i]);
                }
            }
        }
        if forall|i: int| 0 <= i < values.len() ==> valid_value(#[trigger] values[i]) {
            assert forall|i: int| 0 <= i < init.len() implies valid_value(#[trigger] init[i]) by {
                assert(init[i] == values[i]);
            }
            assert(valid_value(values[values.len() - 1]));
        }
    }
}

/// The records of added vectors are accepted, and lead to the ids that are
/// live then.
pub proof fn lemma_adds(live: Set<u64>, ids: Seq<u64>, vectors: Seq<u32>, dim: usize, n: int)
    requires
        0 <= n <= ids.len(),
        0 < dim,
        vectors.len() == ids.len() * dim,
        first_invalid(vectors) is None,
        ids.no_duplicates(),
        forall|i: int| 0 <= i < ids.len() ==> !live.contains(#[trigger] ids[i]),
    ensures
        replayed(live, add_records(ids, vectors, dim as int).take(n)) == live.union(ids.take(n).to_set()),
        accepted(live, dim, add_records(ids, vectors, dim as int).take(n)),
    decreases n,
{
    let all = add_records(ids, vectors, dim as int);
    if n == 0 {
        assert(ids.take(0).to_set() =~= Set::<u64>::empty());
        assert(live.union(ids.take(0).to_set()) =~= live);
    } else {
        let before = all.take(n - 1);
        let id = ids[n - 1];
        lemma_adds(live, ids, vectors, dim, n - 1);
        assert(all.take(n).drop_last() =~= before);
        assert(ids.take(n) =~= ids.take(n - 1).push(id));
        lemma_push_set(ids.take(n - 1), id);
        assert(live.union(ids.take(n).to_set()) =~= live.union(ids.take(n - 1).to_set()).insert(id));
        assert forall|i: int|
            #![trigger all.take(n)[i]]
            0 <= i < n && all.take(n)[i].kind == WAL_ADD implies {
            &&& all.take(n)[i].vector.len() == dim
            &&& first_invalid(all.take(n)[i].vector) is None
            &&& !replayed(live, all.take(n).take(i)).contains(all.take(n)[i].id)
        } by {
            if i < n - 1 {
                assert(before[i] == all.take(n)[i]);
                assert(all.take(n).take(i) =~= before.take(i));
            } else {
                let row = row_of(vectors, dim as int, i);
                lemma_row_bounds(i, ids.len() as int, dim as int);
                lemma_all_valid(vectors);
                assert forall|q: int| 0 <= q < row.len() implies valid_value(#[trigger] row[q]) by {
                    assert(row[q] == vectors[i * dim + q]);
                }
                lemma_all_valid(row);
                assert(all.take(n).take(i) =~= before);
                assert(!ids.take(n - 1).to_set().contains(id)) by {
                    if ids.take(n - 1).contains(id) {
                        let j = choose|j: int| 0 <= j < ids.take(n - 1).len() && #[trigger] ids.take(n - 1)[j] == id;
                        assert(ids[j] == ids[n - 1]);
                    }
                }
                assert(!live.contains(ids[n - 1]));
            }
        }
    }
}

/// The records of removed ids lead to the ids that are live then.
pub proof fn lemma_removes(live: Set<u64>, ids: Seq<u64>)
    ensures
        replayed(live, remove_records(ids)) == live.difference(ids.to_set()),
    decreases ids.len(),
{
    if ids.len() == 0 {
        assert(ids.to_set() =~= Set::<u64>::empty());
        assert(live.difference(ids.to_set()) =~= live);
    } else {
        let init = ids.drop_last();
        lemma_removes(live, init);
        assert(remove_records(ids).drop_last() =~= remove_records(init));
        assert(init.push(ids.last()) =~= ids);
        lemma_push_set(init, ids.last());
        assert(live.difference(init.to_set()).remove(ids.last()) =~= live.difference(ids.to_set()));
    }
}

/// The calls of a session keep an index intact; replaying what the log got for
/// them is accepted from the first state on, and leads to the ids that are live
/// in the last.
pub proof fn law_session_is_recovered(states: Seq<FreshIndex>, calls: Seq<Call>, dim: usize, rows: Seq<Seq<Row>>)
    requires
        session(states, calls, dim),
        states[0].intact(rows),
        valid_dim(dim as int),
        states[0].memtable.dim is Some ==> states[0].memtable.dim == Some(dim),
    ensures
        states.last().intact(rows),
        replayed(states[0].live(), session_records(calls, dim as int)) == states.last().live(),
        states[0].replayable(dim, session_records(calls, dim as int)),
        forall|i: int|
            0 <= i < session_records(calls, dim as int).len() ==> loggable(
                #[trigger] session_records(calls, dim as int)[i],
                dim as u32,
            ),
    decreases calls.len(),
{
    let n = calls.len() as int;
    let x = states[0];
    law_indexed_entries_agree(x.partitions@, x.next_partition_id, all_ids(rows), newest_first(tables(x.runs@)));
    if n > 0 {
        let before = states.drop_last();
        let some = calls.drop_last();
        assert forall|k: int| 0 <= k < some.len() implies returned(#[trigger] before[k], before[k + 1], some[k], dim) by {
            assert(returned(states[k], states[k + 1], calls[k], dim));
        }
        assert forall|k: int| 0 <= k < before.len() implies (#[trigger] before[k]).wf() by {
            assert(states[k].wf());
        }
        law_session_is_recovered(before, some, dim, rows);
        let y = states[n - 1];
        let z = states[n];
        let call = calls[n - 1];
        let old = session_records(some, dim as int);
        let more = records_for(call, dim as int);
        assert(before.last() == y);
        assert(returned(states[n - 1], states[n], calls[n - 1], dim));
        match call {
            Call::Add { ids, vectors } => {
                let taken = y.base_only();
                lemma_first_taken_none(ids, taken);
                lemma_first_taken_none(ids, y.memtable.ids@.to_set());
                lemma_first_repeat_none(ids);
                assert forall|i: int| 0 <= i < ids.len() implies !y.live().contains(#[trigger] ids[i]) by {
                    assert(!taken.contains(ids[i]));
                    assert(!y.memtable.ids@.to_set().contains(ids[i]));
                }
                vstd::arithmetic::div_mod::lemma_fundamental_div_mod(vectors.len() as int, dim as int);
                assert(vectors.len() == ids.len() * dim) by (nonlinear_arith)
                    requires
                        vectors.len() == dim * (vectors.len() / (dim as nat)) + vectors.len() % (dim as nat),
                        vectors.len() % (dim as nat) == 0,
                        vectors.len() / (dim as nat) == ids.len(),
                ;
                lemma_adds(y.live(), ids, vectors, dim, ids.len() as int);
                assert(more.take(ids.len() as int) =~= more);
                assert(ids.take(ids.len() as int) =~= ids);
                law_add_keeps_intact(y, z, rows, ids);
                assert forall|i: int| 0 <= i < more.len() implies loggable(#[trigger] more[i], dim as u32) by {
                    lemma_row_bounds(i, ids.len() as int, dim as int);
                }
            },
            Call::Remove { ids, gone } => {
                let (path, outcomes) = choose|path: Seq<FreshIndex>, outcomes: Seq<Removed>| #[trigger]
                    removals(path, ids, outcomes) && path[0] == y && path.last() == z && gone == removed_ids(
                        ids,
                        outcomes,
                    );
                law_removing_many(path, ids, outcomes, rows);
                lemma_removes(y.live(), gone);
                assert(y.live().difference(gone.to_set()) =~= y.live().difference(ids.to_set()));
            },
        }
        lemma_replayed_add(x.live(), old, more);
        lemma_accepted_add(x.live(), dim, old, more);
        assert forall|i: int| 0 <= i < (old + more).len() implies loggable(#[trigger] (old + more)[i], dim as u32) by {
            if i < old.len() {
                assert((old + more)[i] == old[i]);
            } else {
                assert((old + more)[i] == more[i - old.len()]);
            }
        }
    }
}

/// A call that returned is not lost. Where an intact index went through
/// `states` as calls returned and were logged, what is read from the log, also
/// from one that stops inside a further record, leads from the first of these
/// states to the live ids of the last, and replaying it meets no error.
pub proof fn law_returned_calls_survive(
    states: Seq<FreshIndex>,
    calls: Seq<Call>,
    dim: usize,
    epoch: u64,
    rows: Seq<Seq<Row>>,
    torn: Logged,
    kept: int,
)
    requires
        session(states, calls, dim),
        states[0].intact(rows),
        valid_dim(dim as int),
        states[0].memtable.dim is Some ==> states[0].memtable.dim == Some(dim),
        loggable(torn, dim as u32),
        0 <= kept < record_bytes(torn).len(),
    ensures
        ({
            let log = log_of(dim as u32, epoch, session_records(calls, dim as int));
            let whole = records_of(log, epoch, dim as int);
            let cut = records_of(log + record_bytes(torn).take(kept), epoch, dim as int);
            &&& whole == session_records(calls, dim as int)
            &&& cut == whole
            &&& states[0].replayable(dim, whole)
            &&& replayed(states[0].live(), whole) == states.last().live()
        }),
{
    law_session_is_recovered(states, calls, dim, rows);
    let records = session_records(calls, dim as int);
    law_log_round_trip(dim as u32, epoch, records);
    law_torn_record_is_dropped(dim as u32, epoch, records, torn, kept);
}

} // verus!
