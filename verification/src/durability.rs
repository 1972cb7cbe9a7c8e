//! Whatever happens between two saves, the manifest written last and the log
//! restore every add and remove that returned.
use vstd::prelude::*;
use crate::batch::{lemma_row_bounds, Row};
use crate::bits::marked;
use crate::copies::copies_of;
use crate::delta::lemma_push_set;
use crate::disk::valid_dim;
use crate::flush_laws::all_ids;
use crate::fresh::FreshIndex;
use crate::fresh_write::{copy_at, marked_from, removal, removals, removed_ids, Removed};
use crate::history::{history, law_rest_is_intact, law_steps_keep_sound, leads, Stage, Step};
use crate::indexed::{alive, stored, stored_ids};
use crate::integrity::{law_add_keeps_intact, law_length, law_removal_keeps_intact, law_removing_many};
use crate::recovery::{accepted, law_replay_is_idempotent, replay_step, replayed, replays};
use crate::session::{
    add_records, lemma_accepted_add, lemma_adds, lemma_removes, lemma_replayed_add, remove_records,
};
use crate::wal::{
    law_log_round_trip, law_torn_record_is_dropped, log_of, loggable, record_bytes, records_of, Logged, WAL_ADD,
};

verus! {

/// What the log gets for an operation.
pub open spec fn step_records(step: Step, dim: usize) -> Seq<Logged> {
    match step {
        Step::Add { ids, vectors } => add_records(ids, vectors, dim as int),
        Step::Remove { ids, states, outcomes } => remove_records(removed_ids(ids, outcomes)),
        _ => Seq::empty(),
    }
}

/// What the log gets for the first `n` operations.
pub open spec fn records_upto(steps: Seq<Step>, dim: usize, n: int) -> Seq<Logged>
    decreases n,
{
    if n <= 0 {
        Seq::empty()
    } else {
        records_upto(steps, dim, n - 1) + step_records(steps[n - 1], dim)
    }
}

/// The log goes on: the memtable is not drained, and the index is not opened
/// again.
pub open spec fn log_goes_on(steps: Seq<Step>) -> bool {
    forall|k: int| 0 <= k < steps.len() ==> !((#[trigger] steps[k]) is Drain) && !(steps[k] is Reopen)
}

/// Vectors have `dim` coordinates, from the first on.
pub open spec fn of_dim(stages: Seq<Stage>, dim: usize) -> bool {
    &&& valid_dim(dim as int)
    &&& forall|k: int|
        0 <= k < stages.len() ==> ((#[trigger] stages[k]).x.memtable.dim is Some ==> stages[k].x.memtable.dim == Some(
            dim,
        ))
}

/// Replaying the log over the partitions meets no error and gives all ids.
pub open spec fn covers(a: Stage, dim: usize, log: Seq<Logged>) -> bool {
    &&& replayed(a.stored(), log) == a.ids()
    &&& accepted(a.stored(), dim, log)
}

/// Fewer ids before a replay are fewer after it.
proof fn lemma_replayed_subset(a: Set<u64>, b: Set<u64>, log: Seq<Logged>)
    requires
        a.subset_of(b),
    ensures
        replayed(a, log).subset_of(replayed(b, log)),
    decreases log.len(),
{
    if log.len() > 0 {
        lemma_replayed_subset(a, b, log.drop_last());
    }
}

proof fn lemma_accepted_subset(a: Set<u64>, b: Set<u64>, dim: usize, log: Seq<Logged>)
    requires
        a.subset_of(b),
        accepted(b, dim, log),
    ensures
        accepted(a, dim, log),
{
    assert forall|i: int|
        #![trigger log[i]]
        0 <= i < log.len() && log[i].kind == WAL_ADD implies {
        &&& log[i].vector.len() == dim
        &&& crate::delta::first_invalid(log[i].vector) is None
        &&& !replayed(a, log.take(i)).contains(log[i].id)
    } by {
        lemma_replayed_subset(a, b, log.take(i));
    }
}

/// Removing ids brings no row back to life.
proof fn lemma_removals_alive(states: Seq<FreshIndex>, ids: Seq<u64>, outcomes: Seq<Removed>, n: int)
    requires
        removals(states, ids, outcomes),
        0 <= n < states.len(),
    ensures
        states[n].partitions@.len() == states[0].partitions@.len(),
        forall|k: int, r: int|
            0 <= k < states[0].partitions@.len() && #[trigger] alive(states[n].partitions@[k], r) ==> alive(
                states[0].partitions@[k],
                r,
            ),
    decreases n,
{
    if n > 0 {
        lemma_removals_alive(states, ids, outcomes, n - 1);
        assert(removal(states[n - 1], states[(n - 1) + 1], ids[n - 1], outcomes[n - 1]));
        lemma_removal_alive(states[n - 1], states[n], ids[n - 1], outcomes[n - 1]);
        assert forall|k: int, r: int| 0 <= k < states[0].partitions@.len() && #[trigger] alive(
            states[n].partitions@[k],
            r,
        ) implies alive(states[0].partitions@[k], r) by {
            assert(alive(states[n - 1].partitions@[k], r));
        }
    }
}

proof fn lemma_removal_alive(x: FreshIndex, y: FreshIndex, id: u64, r: Removed)
    requires
        removal(x, y, id, r),
    ensures
        y.partitions@.len() == x.partitions@.len(),
        forall|k: int, i: int|
            0 <= k < x.partitions@.len() && #[trigger] alive(y.partitions@[k], i) ==> alive(x.partitions@[k], i),
{
    let p = x.partitions@;
    let q = y.partitions@;
    let copies = copies_of(p, x.runs@, id);
    assert forall|k: int, i: int| 0 <= k < p.len() && #[trigger] alive(q[k], i) implies alive(p[k], i) by {
        if r == Removed::Partitions {
            assert(marked_from(p[k], q[k]));
            assert(marked(q[k].dead@, i) == (marked(p[k].dead@, i) || copy_at(
                p,
                copies,
                copies.len() as int,
                k,
                i,
            )));
        }
    }
}

/// Fewer live rows are fewer ids in the partitions.
proof fn lemma_fewer_stored(x: FreshIndex, y: FreshIndex, rows: Seq<Seq<Row>>)
    requires
        y.partitions@.len() == x.partitions@.len(),
        forall|k: int, r: int|
            0 <= k < x.partitions@.len() && #[trigger] alive(y.partitions@[k], r) ==> alive(x.partitions@[k], r),
    ensures
        stored_ids(y.partitions@, all_ids(rows)).subset_of(stored_ids(x.partitions@, all_ids(rows))),
{
    let p = x.partitions@;
    let q = y.partitions@;
    let ids = all_ids(rows);
    assert forall|id: u64| stored_ids(q, ids).contains(id) implies stored_ids(p, ids).contains(id) by {
        let (k, r) = choose|k: int, r: int| 0 <= k < q.len() && #[trigger] alive(q[k], r) && ids[k][r] == id;
        assert(alive(p[k], r) && ids[k][r] == id);
        assert(stored(p, ids, id));
    }
}

/// One operation, and what the log gets for it, over any set of ids that the
/// log so far leads from to those of the stage.
proof fn lemma_step_is_logged(a: Stage, b: Stage, step: Step, dim: usize, base: Set<u64>, log: Seq<Logged>)
    requires
        a.sound(),
        !a.draining,
        leads(a, b, step),
        !(step is Drain),
        !(step is Reopen),
        valid_dim(dim as int),
        b.x.memtable.dim is Some ==> b.x.memtable.dim == Some(dim),
        replayed(base, log) == a.ids(),
        accepted(base, dim, log),
    ensures
        b.sound(),
        !b.draining,
        replayed(base, log + step_records(step, dim)) == b.ids(),
        accepted(base, dim, log + step_records(step, dim)),
{
    let rec = step_records(step, dim);
    law_steps_keep_sound(a, b, step);
    lemma_replayed_add(base, log, rec);
    match step {
        Step::Add { ids, vectors } => {
            law_rest_is_intact(a);
            lemma_adds(a.ids(), ids, vectors, dim, ids.len() as int);
            assert(rec.take(ids.len() as int) =~= rec);
            assert(ids.take(ids.len() as int) =~= ids);
            lemma_accepted_add(base, dim, log, rec);
        },
        Step::Remove { ids, states, outcomes } => {
            let gone = removed_ids(ids, outcomes);
            law_rest_is_intact(a);
            law_removing_many(states, ids, outcomes, a.rows);
            lemma_removes(a.ids(), gone);
            assert(a.ids().difference(gone.to_set()) =~= a.ids().difference(ids.to_set()));
            lemma_accepted_add(base, dim, log, rec);
        },
        _ => {
            assert(log + rec =~= log);
        },
    }
}

/// Upkeep leaves the memtable, and so the ids in the partitions.
proof fn lemma_same_ids(a: Stage, b: Stage, step: Step)
    requires
        a.sound(),
        b.sound(),
        !a.draining,
        !b.draining,
        leads(a, b, step),
        !(step is Drain),
        !(step is Reopen),
        !(step is Add),
        !(step is Remove),
    ensures
        b.stored() == a.stored(),
{
    let m = a.x.memtable.ids@.to_set();
    let p = a.stored();
    let q = b.stored();
    assert(m.union(q) == m.union(p) && b.x.memtable.ids@.to_set() == m) by {
        law_steps_keep_sound(a, b, step);
        lemma_memtable_stays(a, b, step);
    }
    lemma_rest_of_union(m, p, q);
}

proof fn lemma_rest_of_union(m: Set<u64>, p: Set<u64>, q: Set<u64>)
    requires
        m.disjoint(p),
        m.disjoint(q),
        m.union(p) == m.union(q),
    ensures
        p == q,
{
    assert forall|x: u64| #[trigger] p.contains(x) implies q.contains(x) by {
        assert(m.union(p).contains(x));
        assert(m.union(q).contains(x));
        assert(!m.contains(x));
    }
    assert forall|x: u64| #[trigger] q.contains(x) implies p.contains(x) by {
        assert(m.union(q).contains(x));
        assert(m.union(p).contains(x));
        assert(!m.contains(x));
    }
    assert(p =~= q);
}

proof fn lemma_memtable_stays(a: Stage, b: Stage, step: Step)
    requires
        !a.draining,
        leads(a, b, step),
        !(step is Drain),
        !(step is Reopen),
        !(step is Add),
        !(step is Remove),
    ensures
        b.x.memtable.ids@ == a.x.memtable.ids@,
{
}

/// The ids that a removal takes out of the partitions are in the log.
proof fn lemma_removal_is_covered(
    a: Stage,
    b: Stage,
    ids: Seq<u64>,
    states: Seq<FreshIndex>,
    outcomes: Seq<Removed>,
    dim: usize,
    log: Seq<Logged>,
)
    requires
        a.sound(),
        b.sound(),
        a.x.wf(),
        a.at_rest(),
        b.at_rest(),
        removals(states, ids, outcomes),
        states[0] == a.x,
        states.last() == b.x,
        b.rows == a.rows,
        replayed(a.stored(), log + remove_records(removed_ids(ids, outcomes))) == b.ids(),
        accepted(a.stored(), dim, log + remove_records(removed_ids(ids, outcomes))),
    ensures
        covers(b, dim, log + remove_records(removed_ids(ids, outcomes))),
{
    let gone = removed_ids(ids, outcomes);
    let all = log + remove_records(gone);
    let n = states.len() - 1;
    law_rest_is_intact(a);
    assert(states[n].wf());
    law_rest_is_intact(b);
    law_removing_many(states, ids, outcomes, a.rows);
    lemma_removals_alive(states, ids, outcomes, n);
    lemma_fewer_stored(a.x, b.x, a.rows);
    lemma_memtable_shrinks(states, ids, outcomes, n);
    assert forall|id: u64| #[trigger] a.stored().contains(id) != b.stored().contains(id) implies exists|i: int|
        0 <= i < all.len() && (#[trigger] all[i]).id == id by {
        assert(gone.to_set().contains(id)) by {
            if !gone.to_set().contains(id) {
                assert(a.ids().contains(id));
                assert(b.ids().contains(id));
                assert(b.x.memtable.ids@.to_set().contains(id));
            }
        }
        let j = choose|j: int| 0 <= j < gone.len() && gone[j] == id;
        assert(all[log.len() + j].id == id);
    }
    law_replay_is_idempotent(a.stored(), b.stored(), all);
    lemma_accepted_subset(b.stored(), a.stored(), dim, all);
}

/// What an operation takes out of the partitions is in the log.
proof fn lemma_step_is_covered(a: Stage, b: Stage, step: Step, dim: usize, log: Seq<Logged>)
    requires
        a.sound(),
        !a.draining,
        leads(a, b, step),
        !(step is Drain),
        !(step is Reopen),
        valid_dim(dim as int),
        b.x.memtable.dim is Some ==> b.x.memtable.dim == Some(dim),
        covers(a, dim, log),
    ensures
        b.sound(),
        !b.draining,
        covers(b, dim, log + step_records(step, dim)),
{
    lemma_step_is_logged(a, b, step, dim, a.stored(), log);
    match step {
        Step::Remove { ids, states, outcomes } => {
            lemma_removal_is_covered(a, b, ids, states, outcomes, dim, log);
        },
        Step::Add { ids, vectors } => {
            assert(b.stored() =~= a.stored());
        },
        _ => {
            lemma_same_ids(a, b, step);
        },
    }
}

/// Removing ids adds none to the memtable.
proof fn lemma_memtable_shrinks(states: Seq<FreshIndex>, ids: Seq<u64>, outcomes: Seq<Removed>, n: int)
    requires
        removals(states, ids, outcomes),
        0 <= n < states.len(),
    ensures
        states[n].memtable.ids@.to_set().subset_of(states[0].memtable.ids@.to_set()),
    decreases n,
{
    if n > 0 {
        lemma_memtable_shrinks(states, ids, outcomes, n - 1);
        assert(removal(states[n - 1], states[(n - 1) + 1], ids[n - 1], outcomes[n - 1]));
    }
}

/// Every stage is covered by the log so far.
proof fn lemma_covered(stages: Seq<Stage>, steps: Seq<Step>, dim: usize, log: Seq<Logged>, n: int)
    requires
        history(stages, steps),
        log_goes_on(steps),
        of_dim(stages, dim),
        stages[0].sound(),
        !stages[0].draining,
        covers(stages[0], dim, log),
        0 <= n < stages.len(),
    ensures
        stages[n].sound(),
        !stages[n].draining,
        covers(stages[n], dim, log + records_upto(steps, dim, n)),
        stages[n].x.epoch == stages[0].x.epoch,
    decreases n,
{
    if n == 0 {
        assert(log + records_upto(steps, dim, 0) =~= log);
    } else {
        lemma_covered(stages, steps, dim, log, n - 1);
        let a = stages[n - 1];
        let b = stages[n];
        let so_far = log + records_upto(steps, dim, n - 1);
        assert(leads(stages[n - 1], stages[(n - 1) + 1], steps[n - 1]));
        assert(!(steps[n - 1] is Drain) && !(steps[n - 1] is Reopen));
        assert(b.x.memtable.dim is Some ==> stages[n].x.memtable.dim == Some(dim));
        lemma_step_is_covered(a, b, steps[n - 1], dim, so_far);
        lemma_epoch(a, b, steps[n - 1]);
        assert(so_far + step_records(steps[n - 1], dim) =~= log + records_upto(steps, dim, n));
    }
}

/// Only draining the memtable raises the epoch.
proof fn lemma_epoch(a: Stage, b: Stage, step: Step)
    requires
        leads(a, b, step),
        !a.draining,
    ensures
        b.x.epoch == a.x.epoch,
{
    match step {
        Step::Remove { ids, states, outcomes } => {
            lemma_removals_epoch(states, ids, outcomes, states.len() - 1);
        },
        _ => {},
    }
}

proof fn lemma_removals_epoch(states: Seq<FreshIndex>, ids: Seq<u64>, outcomes: Seq<Removed>, n: int)
    requires
        removals(states, ids, outcomes),
        0 <= n < states.len(),
    ensures
        states[n].epoch == states[0].epoch,
    decreases n,
{
    if n > 0 {
        lemma_removals_epoch(states, ids, outcomes, n - 1);
        assert(removal(states[n - 1], states[(n - 1) + 1], ids[n - 1], outcomes[n - 1]));
    }
}

/// From the partitions of stage `m` the log leads to the ids of every later
/// one.
proof fn lemma_restored(stages: Seq<Stage>, steps: Seq<Step>, dim: usize, log: Seq<Logged>, m: int, n: int)
    requires
        history(stages, steps),
        log_goes_on(steps),
        of_dim(stages, dim),
        stages[0].sound(),
        !stages[0].draining,
        covers(stages[0], dim, log),
        0 <= m <= n < stages.len(),
    ensures
        replayed(stages[m].stored(), log + records_upto(steps, dim, n)) == stages[n].ids(),
        accepted(stages[m].stored(), dim, log + records_upto(steps, dim, n)),
    decreases n,
{
    lemma_covered(stages, steps, dim, log, n);
    if m < n {
        lemma_restored(stages, steps, dim, log, m, n - 1);
        lemma_covered(stages, steps, dim, log, n - 1);
        let so_far = log + records_upto(steps, dim, n - 1);
        assert(leads(stages[n - 1], stages[(n - 1) + 1], steps[n - 1]));
        assert(!(steps[n - 1] is Drain) && !(steps[n - 1] is Reopen));
        assert(stages[n].x.memtable.dim is Some ==> stages[n].x.memtable.dim == Some(dim));
        lemma_step_is_logged(stages[n - 1], stages[n], steps[n - 1], dim, stages[m].stored(), so_far);
        assert(so_far + step_records(steps[n - 1], dim) =~= log + records_upto(steps, dim, n));
    }
}

/// A log that covers an index goes on covering it, whatever upkeep, staged
/// saves, adds and removes follow: over the partitions of any manifest that was
/// written on the way, of stage `m`, it leads to the ids of the last stage, and
/// replaying it meets no error. The epoch stays, so that the log belongs to
/// every one of these manifests.
pub proof fn law_log_restores_every_call(
    stages: Seq<Stage>,
    steps: Seq<Step>,
    dim: usize,
    log: Seq<Logged>,
    m: int,
)
    requires
        history(stages, steps),
        log_goes_on(steps),
        of_dim(stages, dim),
        stages[0].sound(),
        !stages[0].draining,
        covers(stages[0], dim, log),
        0 <= m < stages.len(),
    ensures
        ({
            let records = log + records_upto(steps, dim, steps.len() as int);
            &&& replayed(stages[m].stored(), records) == stages.last().ids()
            &&& accepted(stages[m].stored(), dim, records)
            &&& covers(stages.last(), dim, records)
            &&& stages[m].x.epoch == stages[0].x.epoch
        }),
{
    lemma_restored(stages, steps, dim, log, m, steps.len() as int);
    lemma_covered(stages, steps, dim, log, steps.len() as int);
    lemma_covered(stages, steps, dim, log, m);
}

/// After a save that drained the memtable the empty log covers the index.
pub proof fn law_saved_index_is_covered(a: Stage, dim: usize)
    requires
        a.x.memtable.ids@.len() == 0,
    ensures
        covers(a, dim, Seq::empty()),
{
    assert(a.x.memtable.ids@.to_set() =~= Set::<u64>::empty());
    assert(a.ids() =~= a.stored());
}

proof fn lemma_records_loggable(stages: Seq<Stage>, steps: Seq<Step>, dim: usize, n: int)
    requires
        history(stages, steps),
        log_goes_on(steps),
        of_dim(stages, dim),
        0 <= n <= steps.len(),
    ensures
        forall|i: int|
            0 <= i < records_upto(steps, dim, n).len() ==> loggable(
                #[trigger] records_upto(steps, dim, n)[i],
                dim as u32,
            ),
    decreases n,
{
    if n > 0 {
        lemma_records_loggable(stages, steps, dim, n - 1);
        let before = records_upto(steps, dim, n - 1);
        let more = step_records(steps[n - 1], dim);
        assert(leads(stages[n - 1], stages[(n - 1) + 1], steps[n - 1]));
        assert(stages[n].x.memtable.dim is Some ==> stages[n].x.memtable.dim == Some(dim));
        assert forall|i: int| 0 <= i < more.len() implies loggable(#[trigger] more[i], dim as u32) by {
            match steps[n - 1] {
                Step::Add { ids, vectors } => {
                    lemma_row_bounds(i, ids.len() as int, dim as int);
                },
                _ => {},
            }
        }
        assert forall|i: int| 0 <= i < (before + more).len() implies loggable(
            #[trigger] (before + more)[i],
            dim as u32,
        ) by {
            if i < before.len() {
                assert((before + more)[i] == before[i]);
            } else {
                assert((before + more)[i] == more[i - before.len()]);
            }
        }
    }
}

/// A crash loses no call that returned. An index was saved, and then anything
/// was done to it but a save that drains the memtable; stage `m` is the last
/// whose manifest was written. What is read from the log under that manifest's
/// epoch, also from a log that stops inside a further record, is replayed over
/// that manifest's partitions without an error, and gives the ids of the last
/// stage.
pub proof fn law_crash_loses_no_returned_call(
    stages: Seq<Stage>,
    steps: Seq<Step>,
    dim: usize,
    m: int,
    torn: Logged,
    kept: int,
)
    requires
        history(stages, steps),
        log_goes_on(steps),
        of_dim(stages, dim),
        stages[0].sound(),
        stages[0].at_rest(),
        stages[0].x.memtable.ids@.len() == 0,
        0 <= m < stages.len(),
        loggable(torn, dim as u32),
        0 <= kept < record_bytes(torn).len(),
    ensures
        ({
            let records = records_upto(steps, dim, steps.len() as int);
            let log = log_of(dim as u32, stages[0].x.epoch, records);
            let whole = records_of(log, stages[m].x.epoch, dim as int);
            let cut = records_of(log + record_bytes(torn).take(kept), stages[m].x.epoch, dim as int);
            &&& whole == records
            &&& cut == records
            &&& replayed(stages[m].stored(), whole) == stages.last().ids()
            &&& accepted(stages[m].stored(), dim, whole)
        }),
{
    let none = Seq::<Logged>::empty();
    let records = records_upto(steps, dim, steps.len() as int);
    law_saved_index_is_covered(stages[0], dim);
    law_log_restores_every_call(stages, steps, dim, none, m);
    assert(none + records =~= records);
    lemma_records_loggable(stages, steps, dim, steps.len() as int);
    law_log_round_trip(dim as u32, stages[0].x.epoch, records);
    law_torn_record_is_dropped(dim as u32, stages[0].x.epoch, records, torn, kept);
}

/// The first `n` records of an accepted log, replayed one after the other.
proof fn lemma_replaying(
    a: Stage,
    states: Seq<FreshIndex>,
    records: Seq<Logged>,
    codes: Seq<Vec<u8>>,
    scales: Seq<u32>,
    dim: usize,
    n: int,
)
    requires
        a.x.intact(a.rows),
        states[0] == a.x,
        accepted(a.x.live(), dim, records),
        replays(states, records, codes, scales),
        0 <= n < states.len(),
    ensures
        states[n].intact(a.rows),
        states[n].live() == replayed(a.x.live(), records.take(n)),
        states[n].partitions@.len() == a.x.partitions@.len(),
        states[n].epoch == a.x.epoch,
        forall|k: int, r: int|
            0 <= k < a.x.partitions@.len() && #[trigger] alive(states[n].partitions@[k], r) ==> alive(
                a.x.partitions@[k],
                r,
            ),
    decreases n,
{
    if n == 0 {
        assert(records.take(0) =~= Seq::<Logged>::empty());
    } else {
        lemma_replaying(a, states, records, codes, scales, dim, n - 1);
        let x = states[n - 1];
        let y = states[n];
        let r = records[n - 1];
        assert(states[n - 1].wf() && states[n].wf());
        assert(replay_step(states[n - 1], states[(n - 1) + 1], records[n - 1], codes[n - 1]@, scales[n - 1]));
        assert(records.take(n).drop_last() =~= records.take(n - 1));
        assert(records.take(n).last() == r);
        if r.kind == WAL_ADD {
            let one = seq![r.id];
            assert(!replayed(a.x.live(), records.take(n - 1)).contains(records[n - 1].id));
            assert(y.memtable.ids@ =~= x.memtable.ids@ + one);
            law_add_keeps_intact(x, y, a.rows, one);
            lemma_push_set(x.memtable.ids@, r.id);
            assert(y.live() =~= x.live().insert(r.id));
        } else {
            let o = choose|o: Removed| removal(x, y, r.id, o);
            law_removal_keeps_intact(x, y, a.rows, r.id, o);
            lemma_removal_alive(x, y, r.id, o);
            assert forall|k: int, i: int| 0 <= k < a.x.partitions@.len() && #[trigger] alive(
                y.partitions@[k],
                i,
            ) implies alive(a.x.partitions@[k], i) by {
                assert(alive(x.partitions@[k], i));
            }
        }
    }
}

/// An id whose standing a replay changed has a record.
proof fn lemma_unrecorded_stays(live: Set<u64>, records: Seq<Logged>, id: u64)
    requires
        forall|i: int| 0 <= i < records.len() ==> (#[trigger] records[i]).id != id,
    ensures
        replayed(live, records).contains(id) == live.contains(id),
    decreases records.len(),
{
    if records.len() > 0 {
        let init = records.drop_last();
        assert forall|i: int| 0 <= i < init.len() implies (#[trigger] init[i]).id != id by {
            assert(init[i] == records[i]);
        }
        lemma_unrecorded_stays(live, init, id);
        assert(records[records.len() - 1].id != id);
    }
}

/// An index that was opened again and has replayed its log is intact, holds the
/// ids that the log leads to, and is covered by that same log, so that it can
/// go on with it.
pub proof fn law_replayed_index_is_covered(
    a: Stage,
    b: Stage,
    states: Seq<FreshIndex>,
    records: Seq<Logged>,
    codes: Seq<Vec<u8>>,
    scales: Seq<u32>,
    dim: usize,
)
    requires
        a.sound(),
        a.at_rest(),
        a.x.memtable.ids@.len() == 0,
        accepted(a.stored(), dim, records),
        replays(states, records, codes, scales),
        states[0] == a.x,
        states.last() == b.x,
        b.rows == a.rows,
        b.at_rest(),
    ensures
        b.sound(),
        b.ids() == replayed(a.stored(), records),
        b.x.live() == b.ids(),
        b.x.live().finite(),
        b.x.length() == b.x.live().len(),
        covers(b, dim, records),
        b.x.epoch == a.x.epoch,
{
    let n = records.len() as int;
    assert(states[0].wf() && states[n].wf());
    law_saved_index_is_covered(a, dim);
    law_rest_is_intact(a);
    assert(a.x.live() == a.stored());
    lemma_replaying(a, states, records, codes, scales, dim, n);
    assert(records.take(n) =~= records);
    law_rest_is_intact(b);
    law_length(b.x, b.rows);
    lemma_fewer_stored(a.x, b.x, a.rows);
    assert forall|id: u64| #[trigger] a.stored().contains(id) != b.stored().contains(id) implies exists|i: int|
        0 <= i < records.len() && (#[trigger] records[i]).id == id by {
        if forall|i: int| 0 <= i < records.len() ==> (#[trigger] records[i]).id != id {
            lemma_unrecorded_stays(a.stored(), records, id);
            lemma_memtable_recorded(states, records, codes, scales, n, id);
        }
    }
    law_replay_is_idempotent(a.stored(), b.stored(), records);
    lemma_accepted_subset(b.stored(), a.stored(), dim, records);
}

/// What a replay puts into the memtable is in the log.
proof fn lemma_memtable_recorded(
    states: Seq<FreshIndex>,
    records: Seq<Logged>,
    codes: Seq<Vec<u8>>,
    scales: Seq<u32>,
    n: int,
    id: u64,
)
    requires
        replays(states, records, codes, scales),
        0 <= n < states.len(),
        states[0].memtable.ids@.len() == 0,
        forall|i: int| 0 <= i < records.len() ==> (#[trigger] records[i]).id != id,
    ensures
        !states[n].memtable.ids@.to_set().contains(id),
    decreases n,
{
    if n > 0 {
        lemma_memtable_recorded(states, records, codes, scales, n - 1, id);
        let x = states[n - 1];
        let y = states[n];
        let r = records[n - 1];
        assert(replay_step(states[n - 1], states[(n - 1) + 1], records[n - 1], codes[n - 1]@, scales[n - 1]));
        if r.kind == WAL_ADD {
            lemma_push_set(x.memtable.ids@, r.id);
        } else {
            let o = choose|o: Removed| removal(x, y, r.id, o);
            assert(removal(x, y, r.id, o));
        }
    }
}

} // verus!
