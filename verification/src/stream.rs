//! Rows in, blocks out.
use vstd::prelude::*;
use crate::math::{ceil_div, lemma_flat_bound, lemma_flat_index};
use crate::pack::{block_byte, block_of, blocked, lane_byte, push_block, Layout, BLOCK};

verus! {

/// Packs rows into blocks as they come.
pub struct BlockStreamer {
    pub layout: Layout,
    pub n_byte_groups: usize,
    /// Rows of the block that is not full yet.
    pub row_accumulator: Vec<u8>,
    pub rows_accumulated: usize,
    /// The blocks so far.
    pub out: Vec<u8>,
    /// All rows so far.
    pub pushed: Ghost<Seq<u8>>,
    pub n_pushed: Ghost<int>,
}

/// Rows of a block by themselves, and among all rows.
proof fn lemma_same_block(layout: Layout, local: Seq<u8>, k: int, all: Seq<u8>, n: int, ng: int, base: int)
    requires
        0 <= ng,
        0 <= k <= 32,
        0 <= base,
        n == base + k,
        local.len() == k * ng,
        all.len() == n * ng,
        all.subrange(base * ng, n * ng) == local,
    ensures
        block_of(layout, local, k, ng, 0) == block_of(layout, all, n, ng, base),
{
    assert forall|l: int, g: int| 0 <= l < 32 && 0 <= g < ng implies lane_byte(local, k, ng, l, g)
        == #[trigger] lane_byte(all, n, ng, base + l, g) by {
        if l < k {
            lemma_flat_bound(l, g, k, ng);
            assert((base + l) * ng == base * ng + l * ng) by (nonlinear_arith);
            assert(n * ng == base * ng + k * ng) by (nonlinear_arith)
                requires
                    n == base + k,
            ;
            assert(0 <= base * ng) by (nonlinear_arith)
                requires
                    0 <= base,
                    0 <= ng,
            ;
            assert(all.subrange(base * ng, n * ng)[l * ng + g] == all[base * ng + (l * ng + g)]);
        }
    }
    let a = block_of(layout, local, k, ng, 0);
    let b = block_of(layout, all, n, ng, base);
    assert forall|q: int| 0 <= q < ng * 32 implies a[q] == b[q] by {
        let g = q / 32;
        let j = q % 32;
        match layout {
            Layout::Sequential => {
                assert(lane_byte(local, k, ng, j, g) == lane_byte(all, n, ng, base + j, g));
            },
            Layout::Interleaved => {
                let h = j % 16;
                let lane = h / 2 + 8 * (h % 2);
                assert(lane_byte(local, k, ng, lane, g) == lane_byte(all, n, ng, base + lane, g));
                assert(lane_byte(local, k, ng, lane + 16, g) == lane_byte(all, n, ng, base + (lane + 16), g));
                if j < 16 {
                    assert(h == j);
                } else {
                    assert(h == j - 16);
                }
            },
        }
    }
    assert(a =~= b);
}

/// Full blocks do not depend on the rows behind them.
proof fn lemma_blocked_grows(layout: Layout, a: Seq<u8>, n: int, b: Seq<u8>, m: int, ng: int)
    requires
        0 <= ng,
        0 <= n <= m,
        n % 32 == 0,
        a.len() == n * ng,
        b.len() == m * ng,
        b.take(n * ng) == a,
        m <= n + 32,
    ensures
        m > n ==> blocked(layout, b, m, ng) == blocked(layout, a, n, ng) + block_of(layout, b, m, ng, n),
        m == n ==> blocked(layout, b, m, ng) == blocked(layout, a, n, ng),
{
    let w = ng * 32;
    let full = n / 32;
    assert(ceil_div(n, 32) == full);
    assert(n * ng <= m * ng) by (nonlinear_arith)
        requires
            n <= m,
            0 <= ng,
    ;
    let x = blocked(layout, a, n, ng);
    let y = blocked(layout, b, m, ng);
    assert(0 <= full * w) by (nonlinear_arith)
        requires
            0 <= full,
            0 <= w,
    ;
    if m > n {
        assert(ceil_div(m, 32) == full + 1);
        assert((full + 1) * w == full * w + w) by (nonlinear_arith);
    } else {
        assert(b =~= a) by {
            assert(b.take(n * ng) =~= b);
        }
    }
    let want = if m > n {
        x + block_of(layout, b, m, ng, n)
    } else {
        x
    };
    if m > n {
        assert forall|q: int| 0 <= q < full * w + w implies y[q] == want[q] by {
            if q < full * w {
                crate::math::lemma_flat_row(q, full, w);
                let s = q / w * 32;
                let r = q % w;
                assert(s + 32 <= n);
                assert forall|l: int, g: int| 0 <= l < 32 && 0 <= g < ng implies lane_byte(a, n, ng, s + l, g)
                    == #[trigger] lane_byte(b, m, ng, s + l, g) by {
                    lemma_flat_bound(s + l, g, n, ng);
                    assert(b.take(n * ng)[(s + l) * ng + g] == b[(s + l) * ng + g]);
                }
                lemma_block_byte_same(layout, a, n, b, m, ng, s, r);
            } else {
                let r = q - full * w;
                assert(q == full * w + r);
                lemma_flat_index(full, r, w);
                assert(q / w * 32 == n);
            }
        }
        assert(y =~= want);
    }
}

proof fn lemma_block_byte_same(layout: Layout, a: Seq<u8>, n: int, b: Seq<u8>, m: int, ng: int, s: int, r: int)
    requires
        0 <= r < ng * 32,
        forall|l: int, g: int|
            0 <= l < 32 && 0 <= g < ng ==> lane_byte(a, n, ng, s + l, g) == #[trigger] lane_byte(
                b,
                m,
                ng,
                s + l,
                g,
            ),
    ensures
        block_byte(layout, a, n, ng, s, r) == block_byte(layout, b, m, ng, s, r),
{
    let g = r / 32;
    let j = r % 32;
    match layout {
        Layout::Sequential => {
            assert(lane_byte(a, n, ng, s + j, g) == lane_byte(b, m, ng, s + j, g));
        },
        Layout::Interleaved => {
            let h = j % 16;
            let lane = h / 2 + 8 * (h % 2);
            assert(lane_byte(a, n, ng, s + lane, g) == lane_byte(b, m, ng, s + lane, g));
            assert(lane_byte(a, n, ng, s + (lane + 16), g) == lane_byte(b, m, ng, s + (lane + 16), g));
            assert(s + lane + 16 == s + (lane + 16));
            if j < 16 {
                assert(h == j);
            } else {
                assert(h == j - 16);
            }
        },
    }
}

impl BlockStreamer {
    /// Full blocks are out, and the rest is at hand.
    pub open spec fn wf(self) -> bool {
        let ng = self.n_byte_groups as int;
        let n = self.n_pushed@;
        let k = self.rows_accumulated as int;
        &&& 0 <= n
        &&& 0 <= k < 32
        &&& k == n % 32
        &&& self.pushed@.len() == n * ng
        &&& self.row_accumulator@ == self.pushed@.subrange((n - k) * ng, n * ng)
        &&& self.out@ == blocked(self.layout, self.pushed@.take((n - k) * ng), n - k, ng)
    }

    /// No rows yet.
    pub fn new(layout: Layout, n_byte_groups: usize) -> (s: BlockStreamer)
        ensures
            s.wf(),
            s.layout == layout,
            s.n_byte_groups == n_byte_groups,
            s.pushed@ == Seq::<u8>::empty(),
            s.n_pushed@ == 0,
    {
        let s = BlockStreamer {
            layout,
            n_byte_groups,
            row_accumulator: Vec::new(),
            rows_accumulated: 0,
            out: Vec::new(),
            pushed: Ghost(Seq::empty()),
            n_pushed: Ghost(0),
        };
        proof {
            assert(0 * n_byte_groups == 0) by (nonlinear_arith);
            assert(0 * (n_byte_groups * 32) == 0) by (nonlinear_arith);
            assert(s.row_accumulator@ =~= s.pushed@.subrange(0, 0));
            assert(s.out@ =~= blocked(layout, s.pushed@.take(0), 0, n_byte_groups as int));
        }
        s
    }

    /// Takes a row; a full block goes out.
    pub fn push_row(&mut self, row: &[u8])
        requires
            old(self).wf(),
            row@.len() == old(self).n_byte_groups,
            old(self).n_byte_groups * 32 <= usize::MAX,
        ensures
            final(self).wf(),
            final(self).layout == old(self).layout,
            final(self).n_byte_groups == old(self).n_byte_groups,
            final(self).pushed@ == old(self).pushed@ + row@,
            final(self).n_pushed@ == old(self).n_pushed@ + 1,
            final(self).out@ == if final(self).n_pushed@ % 32 == 0 {
                old(self).out@ + block_of(
                    old(self).layout,
                    final(self).pushed@,
                    final(self).n_pushed@,
                    old(self).n_byte_groups as int,
                    final(self).n_pushed@ - 32,
                )
            } else {
                old(self).out@
            },
    {
        let ghost ng = self.n_byte_groups as int;
        let ghost n = self.n_pushed@;
        let ghost k = self.rows_accumulated as int;
        let ghost before = self.pushed@;
        let ghost all = before + row@;
        let ghost done = before.take((n - k) * ng);
        self.row_accumulator.extend_from_slice(row);
        self.rows_accumulated = self.rows_accumulated + 1;
        proof {
            assert((n + 1) * ng == n * ng + ng) by (nonlinear_arith);
            assert(n * ng == (n - k) * ng + k * ng) by (nonlinear_arith);
            assert(0 <= (n - k) * ng && 0 <= k * ng) by (nonlinear_arith)
                requires
                    0 <= n - k,
                    0 <= k,
                    0 <= ng,
            ;
            assert(self.row_accumulator@ =~= all.subrange((n - k) * ng, (n + 1) * ng));
            assert(all.take((n - k) * ng) =~= done);
            self.pushed = Ghost(all);
            self.n_pushed = Ghost(n + 1);
        }
        if self.rows_accumulated == BLOCK {
            proof {
                assert(k == 31);
                assert((k + 1) * ng == k * ng + ng) by (nonlinear_arith);
                assert(self.row_accumulator@.len() == 32 * ng);
                lemma_same_block(
                    self.layout,
                    self.row_accumulator@,
                    32,
                    all,
                    n + 1,
                    ng,
                    n - k,
                );
                lemma_blocked_grows(self.layout, done, n - k, all, n + 1, ng);
                assert(all.take((n + 1) * ng) =~= all);
            }
            self.flush_block();
            proof {
                assert(self.row_accumulator@ =~= all.subrange((n + 1) * ng, (n + 1) * ng));
            }
        }
    }

    /// Packs the rows at hand into a block, if there are any.
    fn flush_block(&mut self)
        requires
            old(self).rows_accumulated <= 32,
            old(self).row_accumulator@.len() == old(self).rows_accumulated * old(self).n_byte_groups,
            old(self).n_byte_groups * 32 <= usize::MAX,
        ensures
            final(self).rows_accumulated == 0,
            final(self).row_accumulator@.len() == 0,
            final(self).out@ == if old(self).rows_accumulated == 0 {
                old(self).out@
            } else {
                old(self).out@ + block_of(
                    old(self).layout,
                    old(self).row_accumulator@,
                    old(self).rows_accumulated as int,
                    old(self).n_byte_groups as int,
                    0,
                )
            },
            final(self).layout == old(self).layout,
            final(self).n_byte_groups == old(self).n_byte_groups,
            final(self).pushed == old(self).pushed,
            final(self).n_pushed == old(self).n_pushed,
    {
        if self.rows_accumulated == 0 {
            proof {
                let ng = self.n_byte_groups;
                assert(0 * ng == 0) by (nonlinear_arith);
            }
            return;
        }
        push_block(
            self.layout,
            self.row_accumulator.as_slice(),
            self.rows_accumulated,
            self.n_byte_groups,
            0,
            &mut self.out,
        );
        self.row_accumulator.clear();
        self.rows_accumulated = 0;
    }

    /// All blocks, the last one filled up with zero lanes.
    pub fn finish(self) -> (out: Vec<u8>)
        requires
            self.wf(),
            self.n_byte_groups * 32 <= usize::MAX,
        ensures
            out@ == blocked(self.layout, self.pushed@, self.n_pushed@, self.n_byte_groups as int),
    {
        let ghost ng = self.n_byte_groups as int;
        let ghost n = self.n_pushed@;
        let ghost k = self.rows_accumulated as int;
        let ghost all = self.pushed@;
        let mut s: BlockStreamer = self;
        proof {
            assert(n * ng == (n - k) * ng + k * ng) by (nonlinear_arith);
            assert(0 <= (n - k) * ng && 0 <= k * ng) by (nonlinear_arith)
                requires
                    0 <= n - k,
                    0 <= k,
                    0 <= ng,
            ;
            assert(all.take(n * ng) =~= all);
            lemma_same_block(s.layout, s.row_accumulator@, k, all, n, ng, n - k);
            lemma_blocked_grows(s.layout, all.take((n - k) * ng), n - k, all, n, ng);
        }
        s.flush_block();
        s.out
    }
}

} // verus!
