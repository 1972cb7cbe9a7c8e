//! What a plan of moves holds: all rows with a closer partition, each once.
use vstd::prelude::*;
use crate::batch::{Row, RowBatch};
use crate::reassign::{movers, plan_moves, Reassignment};

verus! {

/// Each position is below the next.
pub open spec fn increasing(at: Seq<int>) -> bool {
    forall|i: int, k: int| 0 <= i < k < at.len() ==> #[trigger] at[i] < #[trigger] at[k]
}

/// Entry `k` of a plan moves row `i` to its nearest partition.
pub open spec fn moves_row(
    r: Reassignment,
    k: int,
    live: Seq<Row>,
    numbers: Seq<u64>,
    best: Seq<u32>,
    i: int,
) -> bool {
    &&& r.moved@[k] == (Row { replica: false, ..live[i] })
    &&& r.destinations@[k] == best[i]
    &&& r.source_rows@[k] == numbers[i]
    &&& r.ids@[k] == live[i].id
}

proof fn lemma_movers_are_all(best: Seq<u32>, closer: Seq<bool>, position: int, n: int)
    requires
        0 <= n <= best.len(),
        n <= closer.len(),
    ensures
        increasing(movers(best, closer, position, n)),
        forall|i: int|
            movers(best, closer, position, n).contains(i) <==> 0 <= i < n && best[i] != position && closer[i],
        forall|k: int|
            0 <= k < movers(best, closer, position, n).len() ==> 0 <= #[trigger] movers(
                best,
                closer,
                position,
                n,
            )[k] < n,
    decreases n,
{
    if n > 0 {
        lemma_movers_are_all(best, closer, position, n - 1);
        let a = movers(best, closer, position, n - 1);
        let b = movers(best, closer, position, n);
        assert forall|i: int| b.contains(i) <==> 0 <= i < n && best[i] != position && closer[i] by {
            if b.contains(i) && b != a {
                let k = choose|k: int| 0 <= k < b.len() && b[k] == i;
                if k < a.len() {
                    assert(a[k] == i);
                    assert(a.contains(i));
                }
            }
            if a.contains(i) {
                let k = choose|k: int| 0 <= k < a.len() && a[k] == i;
                assert(b[k] == i);
            }
            if i == n - 1 && best[i] != position && closer[i] {
                assert(b[a.len() as int] == i);
            }
        }
    }
}

/// A plan moves exactly the rows whose nearest partition is not their own and
/// strictly closer, each once and in order, to that partition.
pub proof fn law_every_closer_row_moves(
    position: u32,
    live: &RowBatch,
    numbers: &Vec<u64>,
    best: &[u32],
    closer: &[bool],
    r: Reassignment,
)
    requires
        live.wf(),
        numbers@.len() == live@.len(),
        best@.len() == live@.len(),
        closer@.len() == live@.len(),
        plan_moves.ensures((position, live, numbers, best, closer), r),
    ensures
        r.examined == live@.len(),
        r.moved@.len() == r.ids@.len(),
        r.destinations@.len() == r.ids@.len(),
        r.source_rows@.len() == r.ids@.len(),
        exists|at: Seq<int>|
            #![trigger increasing(at)]
            {
                &&& at.len() == r.ids@.len()
                &&& increasing(at)
                &&& forall|k: int|
                    0 <= k < at.len() ==> moves_row(r, k, live@, numbers@, best@, #[trigger] at[k])
                &&& forall|i: int|
                    #[trigger] at.contains(i) <==> 0 <= i < live@.len() && best@[i] != position && closer@[i]
            },
{
    let at = movers(best@, closer@, position as int, live@.len() as int);
    lemma_movers_are_all(best@, closer@, position as int, live@.len() as int);
    assert(increasing(at));
}

} // verus!
