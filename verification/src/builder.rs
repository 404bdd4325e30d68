//! The cursor-based builder: tracks an insertion point inside one block and
//! sequences the arena's splice primitives so that emitted operations land in
//! call order, and newly created blocks chain up in creation order.

use crate::ir::Block;
use crate::ir::Context;
use crate::ir::Location;
use crate::ir::Operation;
use crate::ir::OperationState;
use crate::ir::same_op_data;
use crate::ir::same_op_parents_except;
use crate::ir::same_blocks_except_ops;
use crate::ir::same_block_lists_except;
use crate::ir::same_block_parents_except;
use crate::ir::same_ops;
use crate::ir::same_regions;
use crate::ir::same_regions_except;
use crate::ir::same_types;
use vstd::prelude::*;

verus! {

/// Where the next operation lands within the tracked block: at the start, at
/// the end, or on either side of a reference operation that belongs to it.
#[derive(Clone, Copy, PartialEq, Eq, Structural, Debug)]
pub enum InsertPoint {
    /// Before the block's first operation.
    BlockStart,
    /// After the block's last operation.
    BlockEnd,
    /// Directly before the given operation.
    Before(Operation),
    /// Directly after the given operation.
    After(Operation),
}

/// Whether an insertion point's reference operation (if it has one) actually
/// belongs to the block whose operations are `ops`.
pub open spec fn point_in_block(ops: Seq<Operation>, p: InsertPoint) -> bool {
    match p {
        InsertPoint::BlockStart => true,
        InsertPoint::BlockEnd => true,
        InsertPoint::Before(r) => ops.contains(r),
        InsertPoint::After(r) => ops.contains(r),
    }
}

/// The position at which an operation spliced at point `p` lands within a
/// block whose operations are `ops`.
pub open spec fn point_index(ops: Seq<Operation>, p: InsertPoint) -> int {
    match p {
        InsertPoint::BlockStart => 0,
        InsertPoint::BlockEnd => ops.len() as int,
        InsertPoint::Before(r) => ops.index_of_first(r).unwrap(),
        InsertPoint::After(r) => ops.index_of_first(r).unwrap() + 1,
    }
}

/// A builder may emit into `c` at `b`'s cursor: a block is tracked, it exists
/// in the arena, and the cursor's reference operation (if any) belongs to it.
pub open spec fn ready_to_insert(b: Builder, c: Context) -> bool {
    &&& c.wf()
    &&& b.insert_block is Some
    &&& c.valid_block(b.insert_block.unwrap())
    &&& point_in_block(c.ops_of(b.insert_block.unwrap()), b.insert_point)
}

/// The effect of one `insert` call: starting from arena `c0` and builder
/// state `b0`, the not-yet-attached operation `op` is spliced into the
/// tracked block at the cursor, everything else in the arena is untouched,
/// and the cursor advances to just after `op`.
pub open spec fn inserted(c0: Context, b0: Builder, c1: Context, b1: Builder, op: Operation) -> bool {
    let blk = b0.insert_block.unwrap();
    let ops0 = c0.ops_of(blk);
    &&& c1.wf()
    &&& c1.ops_of(blk) == ops0.insert(point_index(ops0, b0.insert_point), op)
    &&& c1.op_parent(op) == Some(blk)
    &&& b1.loc == b0.loc
    &&& b1.insert_block == b0.insert_block
    &&& b1.insert_block_after == b0.insert_block_after
    &&& b1.insert_point == InsertPoint::After(op)
    &&& c1.num_ops() == c0.num_ops()
    &&& c1.num_blocks() == c0.num_blocks()
    &&& c1.num_regions() == c0.num_regions()
    &&& c1.num_types() == c0.num_types()
    &&& same_op_data(c1, c0)
    &&& same_op_parents_except(c1, c0, op)
    &&& same_blocks_except_ops(c1, c0, blk)
    &&& same_regions(c1, c0)
    &&& same_types(c1, c0)
}

/// A builder may create a block at `b`'s sequencing pointer in `c`: a block
/// is tracked, it is attached to a region, and the sequencing pointer names a
/// block of that same region.
pub open spec fn ready_to_add_block(b: Builder, c: Context) -> bool {
    &&& c.wf()
    &&& b.insert_block is Some
    &&& b.insert_block_after is Some
    &&& c.valid_block(b.insert_block.unwrap())
    &&& c.block_parent(b.insert_block.unwrap()) is Some
    &&& c.blocks_of(c.block_parent(b.insert_block.unwrap()).unwrap()).contains(
        b.insert_block_after.unwrap(),
    )
}

/// The effect of one `add_block` call: a brand new, empty block is spliced
/// into the tracked block's parent region directly after the sequencing
/// pointer, the pointer moves to the new block, and everything else — the
/// insertion point above all — stays put.
pub open spec fn added_block(c0: Context, b0: Builder, c1: Context, b1: Builder, nb: Block) -> bool {
    let region = c0.block_parent(b0.insert_block.unwrap()).unwrap();
    let chain0 = c0.blocks_of(region);
    &&& c1.wf()
    &&& !c0.valid_block(nb)
    &&& c1.valid_block(nb)
    &&& c1.num_blocks() == c0.num_blocks() + 1
    &&& c1.ops_of(nb) == Seq::<Operation>::empty()
    &&& c1.block_parent(nb) == Some(region)
    &&& c1.blocks_of(region) == chain0.insert(
        chain0.index_of_first(b0.insert_block_after.unwrap()).unwrap() + 1,
        nb,
    )
    &&& b1.loc == b0.loc
    &&& b1.insert_block == b0.insert_block
    &&& b1.insert_point == b0.insert_point
    &&& b1.insert_block_after == Some(nb)
    &&& c1.num_ops() == c0.num_ops()
    &&& c1.num_regions() == c0.num_regions()
    &&& c1.num_types() == c0.num_types()
    &&& same_ops(c1, c0)
    &&& same_block_lists_except(c1, c0, nb)
    &&& same_block_parents_except(c1, c0, nb)
    &&& (forall|b2: Block| #[trigger] c0.valid_block(b2) ==> c1.ops_of(b2) == c0.ops_of(b2))
    &&& same_regions_except(c1, c0, region)
    &&& same_types(c1, c0)
}

/// A freshly seeded assembly: the given name and location, and no operands.
pub open spec fn fresh_assembly(st: OperationState, name: u64, loc: Location) -> bool {
    &&& st.spec_name() == name
    &&& st.spec_loc() == loc
    &&& st.spec_operands() == Seq::<u64>::empty()
}

/// The combined effect of materializing an operation with the given name,
/// location and operands, and inserting it at builder state `bmid`'s cursor:
/// `op` is brand new, carries that data, and sits at the cursor's position in
/// the tracked block; nothing else in the arena changed, and the cursor
/// advanced to just after `op`.
pub open spec fn emitted(
    cmid: Context,
    bmid: Builder,
    name: u64,
    loc: Location,
    operands: Seq<u64>,
    cfin: Context,
    bfin: Builder,
    op: Operation,
) -> bool {
    let blk = bmid.insert_block.unwrap();
    let ops0 = cmid.ops_of(blk);
    &&& cfin.wf()
    &&& !cmid.valid_op(op)
    &&& cfin.valid_op(op)
    &&& cfin.num_ops() == cmid.num_ops() + 1
    &&& cfin.op_name(op) == name
    &&& cfin.op_loc(op) == loc
    &&& cfin.op_operands(op) == operands
    &&& cfin.ops_of(blk) == ops0.insert(point_index(ops0, bmid.insert_point), op)
    &&& cfin.op_parent(op) == Some(blk)
    &&& bfin.loc == bmid.loc
    &&& bfin.insert_block == bmid.insert_block
    &&& bfin.insert_block_after == bmid.insert_block_after
    &&& bfin.insert_point == InsertPoint::After(op)
    &&& cfin.num_blocks() == cmid.num_blocks()
    &&& cfin.num_regions() == cmid.num_regions()
    &&& cfin.num_types() == cmid.num_types()
    &&& same_op_data(cfin, cmid)
    &&& same_op_parents_except(cfin, cmid, op)
    &&& same_blocks_except_ops(cfin, cmid, blk)
    &&& same_regions(cfin, cmid)
    &&& same_types(cfin, cmid)
}

/// The sequence that grows out of `s` when fresh elements are spliced in one
/// after another, each directly after the previous one, starting directly
/// after `prev`. One step of this is exactly what `insert` does to the
/// tracked block's operations once the cursor sits on `After`, and what
/// `add_block` does to the parent region's block list.
pub open spec fn chain_inserts<T>(s: Seq<T>, prev: T, news: Seq<T>) -> Seq<T>
    decreases news.len(),
{
    if news.len() == 0 {
        s
    } else {
        chain_inserts(
            s.insert(s.index_of_first(prev).unwrap() + 1, news[0]),
            news[0],
            news.drop_first(),
        )
    }
}

/// The block contents produced by a sequence of `insert` calls with no
/// intervening cursor change: each call splices at the cursor and leaves the
/// cursor just after the operation it spliced, exactly as `insert`'s
/// contract states one step.
pub open spec fn run_inserts(ops0: Seq<Operation>, p0: InsertPoint, news: Seq<Operation>) -> Seq<
    Operation,
> {
    if news.len() == 0 {
        ops0
    } else {
        chain_inserts(
            ops0.insert(point_index(ops0, p0), news[0]),
            news[0],
            news.drop_first(),
        )
    }
}

/// Splicing fresh elements one after another, starting from the last element
/// of `pre` (which occurs there only once), lines them all up between `pre`
/// and `suf`, in splice order.
proof fn lemma_chain_inserts<T>(pre: Seq<T>, suf: Seq<T>, news: Seq<T>)
    requires
        pre.len() > 0,
        !pre.take(pre.len() - 1).contains(pre.last()),
        forall|i: int| 0 <= i < news.len() ==> !(pre + suf).contains(#[trigger] news[i]),
        news.no_duplicates(),
    ensures
        chain_inserts(pre + suf, pre.last(), news) == pre + news + suf,
    decreases news.len(),
{
    let s = pre + suf;
    let last = pre.last();
    if news.len() == 0 {
        assert(pre + news + suf =~= pre + suf);
    } else {
        let n0 = news[0];
        assert(s[pre.len() - 1] == last);
        assert(s.contains(last));
        s.index_of_first_ensures(last);
        let k = s.index_of_first(last).unwrap();
        if k < pre.len() - 1 {
            assert(pre.take(pre.len() - 1)[k] == last);
            assert(pre.take(pre.len() - 1).contains(last));
        }
        if k > pre.len() - 1 {
            assert(s[pre.len() - 1] != last);
        }
        assert(k == pre.len() - 1);
        let s1 = s.insert(pre.len() as int, n0);
        let pre1 = pre.push(n0);
        assert(s1 =~= pre1 + suf) by {
            s.insert_ensures(pre.len() as int, n0);
        }
        assert(pre1.take(pre1.len() - 1) =~= pre);
        assert(!pre.contains(n0)) by {
            if pre.contains(n0) {
                let i = choose|i: int| 0 <= i < pre.len() && pre[i] == n0;
                assert(s[i] == n0);
                assert(s.contains(n0));
            }
        }
        let news1 = news.drop_first();
        assert(news1.no_duplicates()) by {
            assert forall|i: int, j: int|
                0 <= i < news1.len() && 0 <= j < news1.len() && i != j implies news1[i]
                != news1[j] by {
                assert(news1[i] == news[i + 1]);
                assert(news1[j] == news[j + 1]);
            }
        }
        assert forall|i: int| 0 <= i < news1.len() implies !(pre1 + suf).contains(
            #[trigger] news1[i],
        ) by {
            assert(news1[i] == news[i + 1]);
            assert(!s.contains(news[i + 1]));
            assert(news[i + 1] != n0);
            if (pre1 + suf).contains(news1[i]) {
                assert(s1.contains(news1[i]));
                crate::ir::lemma_insert_contains(s, pre.len() as int, n0, news1[i]);
            }
        }
        lemma_chain_inserts(pre1, suf, news1);
        assert(chain_inserts(pre1 + suf, n0, news1) == pre1 + news1 + suf);
        assert(chain_inserts(s, last, news) == chain_inserts(s1, n0, news1));
        assert(pre1 + news1 + suf =~= pre + news + suf);
    }
}

/// Order preservation: a sequence of `insert` calls issued with no
/// intervening cursor change leaves the block holding exactly those
/// operations, contiguously and in call order, at the position the starting
/// cursor picked — whichever of the four cursor variants was active first.
pub proof fn lemma_order_preservation(ops0: Seq<Operation>, p0: InsertPoint, news: Seq<Operation>)
    requires
        point_in_block(ops0, p0),
        forall|i: int| 0 <= i < news.len() ==> !ops0.contains(#[trigger] news[i]),
        news.no_duplicates(),
    ensures
        0 <= point_index(ops0, p0) <= ops0.len(),
        run_inserts(ops0, p0, news) == ops0.take(point_index(ops0, p0)) + news + ops0.skip(
            point_index(ops0, p0),
        ),
{
    let idx = point_index(ops0, p0);
    match p0 {
        InsertPoint::BlockStart => {},
        InsertPoint::BlockEnd => {},
        InsertPoint::Before(r) => {
            ops0.index_of_first_ensures(r);
        },
        InsertPoint::After(r) => {
            ops0.index_of_first_ensures(r);
        },
    }
    assert(0 <= idx <= ops0.len());
    if news.len() == 0 {
        assert(ops0.take(idx) + news + ops0.skip(idx) =~= ops0);
    } else {
        let n0 = news[0];
        let ops1 = ops0.insert(idx, n0);
        let pre1 = ops0.take(idx).push(n0);
        let suf = ops0.skip(idx);
        assert(ops1 =~= pre1 + suf) by {
            ops0.insert_ensures(idx, n0);
        }
        assert(pre1.take(pre1.len() - 1) =~= ops0.take(idx));
        assert(!ops0.take(idx).contains(n0)) by {
            if ops0.take(idx).contains(n0) {
                let i = choose|i: int| 0 <= i < idx && ops0.take(idx)[i] == n0;
                assert(ops0[i] == n0);
                assert(ops0.contains(n0));
            }
        }
        let news1 = news.drop_first();
        assert(news1.no_duplicates()) by {
            assert forall|i: int, j: int|
                0 <= i < news1.len() && 0 <= j < news1.len() && i != j implies news1[i]
                != news1[j] by {
                assert(news1[i] == news[i + 1]);
                assert(news1[j] == news[j + 1]);
            }
        }
        assert forall|i: int| 0 <= i < news1.len() implies !(pre1 + suf).contains(
            #[trigger] news1[i],
        ) by {
            assert(news1[i] == news[i + 1]);
            assert(!ops0.contains(news[i + 1]));
            assert(news[i + 1] != n0);
            if (pre1 + suf).contains(news1[i]) {
                assert(ops1.contains(news1[i]));
                crate::ir::lemma_insert_contains(ops0, idx, n0, news1[i]);
            }
        }
        lemma_chain_inserts(pre1, suf, news1);
        assert(run_inserts(ops0, p0, news) == chain_inserts(ops1, n0, news1));
        assert(chain_inserts(pre1 + suf, n0, news1) == pre1 + news1 + suf);
        assert(pre1 + news1 + suf =~= ops0.take(idx) + news + ops0.skip(idx));
    }
}

/// A run of `insert` calls with no intervening cursor change, recorded as the
/// arena and builder states it passes through: state `i` steps to state
/// `i + 1` by inserting `news[i]`, which at that moment is a valid, not yet
/// attached operation — exactly `insert`'s contract.
pub open spec fn insert_trace(cs: Seq<Context>, bs: Seq<Builder>, news: Seq<Operation>) -> bool {
    &&& cs.len() == news.len() + 1
    &&& bs.len() == news.len() + 1
    &&& forall|i: int|
        0 <= i < news.len() ==> cs[i].valid_op(#[trigger] news[i]) && cs[i].op_parent(news[i])
            is None
    &&& forall|i: int|
        0 <= i < news.len() ==> inserted(cs[i], bs[i], cs[i + 1], bs[i + 1], #[trigger] news[i])
}

/// Once attached, an operation stays attached across a run of inserts.
proof fn lemma_trace_parent_monotone(
    cs: Seq<Context>,
    bs: Seq<Builder>,
    news: Seq<Operation>,
    o: Operation,
    i: int,
    j: int,
)
    requires
        insert_trace(cs, bs, news),
        0 <= i <= j <= news.len(),
        cs[i].valid_op(o),
        cs[i].op_parent(o) is Some,
    ensures
        cs[j].valid_op(o),
        cs[j].op_parent(o) is Some,
    decreases j - i,
{
    if i < j {
        assert(inserted(cs[i], bs[i], cs[i + 1], bs[i + 1], news[i]));
        assert(cs[i + 1].valid_op(o));
        if o != news[i] {
            assert(cs[i + 1].op_parent(o) == cs[i].op_parent(o));
        }
        lemma_trace_parent_monotone(cs, bs, news, o, i + 1, j);
    }
}

/// Along a run of inserts the tracked block never changes, and from the
/// second state on the cursor sits just after the operation most recently
/// inserted.
proof fn lemma_trace_block_constant(
    cs: Seq<Context>,
    bs: Seq<Builder>,
    news: Seq<Operation>,
    j: int,
)
    requires
        insert_trace(cs, bs, news),
        0 <= j <= news.len(),
    ensures
        bs[j].insert_block == bs[0].insert_block,
        j > 0 ==> bs[j].insert_point == InsertPoint::After(news[j - 1]),
    decreases j,
{
    if j > 0 {
        lemma_trace_block_constant(cs, bs, news, j - 1);
        assert(inserted(cs[j - 1], bs[j - 1], cs[j], bs[j], news[j - 1]));
    }
}

/// The arena a run of inserts ends in holds, in the tracked block, what the
/// step model `run_inserts` computes from where it started.
proof fn lemma_trace_runs(cs: Seq<Context>, bs: Seq<Builder>, news: Seq<Operation>)
    requires
        insert_trace(cs, bs, news),
        ready_to_insert(bs[0], cs[0]),
    ensures
        ({
            let blk = bs[0].insert_block.unwrap();
            cs.last().ops_of(blk) == run_inserts(
                cs[0].ops_of(blk),
                bs[0].insert_point,
                news,
            )
        }),
    decreases news.len(),
{
    let blk = bs[0].insert_block.unwrap();
    let ops0 = cs[0].ops_of(blk);
    let p0 = bs[0].insert_point;
    if news.len() == 0 {
        assert(cs.last() == cs[0]);
    } else {
        let n0 = news[0];
        assert(inserted(cs[0], bs[0], cs[1], bs[1], n0));
        let idx = point_index(ops0, p0);
        assert(0 <= idx <= ops0.len()) by {
            match p0 {
                InsertPoint::BlockStart => {},
                InsertPoint::BlockEnd => {},
                InsertPoint::Before(r) => {
                    ops0.index_of_first_ensures(r);
                },
                InsertPoint::After(r) => {
                    ops0.index_of_first_ensures(r);
                },
            }
        }
        let ops1 = cs[1].ops_of(blk);
        assert(ops1 == ops0.insert(idx, n0));
        let cs1 = cs.drop_first();
        let bs1 = bs.drop_first();
        let news1 = news.drop_first();
        assert(insert_trace(cs1, bs1, news1)) by {
            assert forall|i: int|
                0 <= i < news1.len() implies cs1[i].valid_op(#[trigger] news1[i]) && cs1[i].op_parent(
                news1[i],
            ) is None by {
                assert(news1[i] == news[i + 1]);
                assert(cs1[i] == cs[i + 1]);
            }
            assert forall|i: int| 0 <= i < news1.len() implies inserted(
                cs1[i],
                bs1[i],
                cs1[i + 1],
                bs1[i + 1],
                #[trigger] news1[i],
            ) by {
                assert(news1[i] == news[i + 1]);
                assert(cs1[i] == cs[i + 1]);
                assert(cs1[i + 1] == cs[i + 2]);
                assert(bs1[i] == bs[i + 1]);
                assert(bs1[i + 1] == bs[i + 2]);
                assert(inserted(cs[i + 1], bs[i + 1], cs[i + 2], bs[i + 2], news[i + 1]));
            }
        }
        assert(ready_to_insert(bs1[0], cs1[0])) by {
            ops0.insert_ensures(idx, n0);
            assert(ops1[idx] == n0);
            assert(ops1.contains(n0));
            assert(bs[1].insert_block == bs[0].insert_block);
        }
        lemma_trace_runs(cs1, bs1, news1);
        assert(cs1.last() == cs.last());
        assert(bs1[0].insert_block.unwrap() == blk);
        assert(cs.last().ops_of(blk) == run_inserts(ops1, InsertPoint::After(n0), news1));
        if news1.len() == 0 {
            assert(run_inserts(ops0, p0, news) == chain_inserts(ops1, n0, news1));
        } else {
            assert(run_inserts(ops1, InsertPoint::After(n0), news1) == chain_inserts(
                ops1.insert(point_index(ops1, InsertPoint::After(n0)), news1[0]),
                news1[0],
                news1.drop_first(),
            ));
            assert(point_index(ops1, InsertPoint::After(n0)) == ops1.index_of_first(n0).unwrap()
                + 1);
            assert(run_inserts(ops0, p0, news) == chain_inserts(ops1, n0, news1));
        }
    }
}

/// Order preservation, stated over the contract itself: however a run of
/// `insert` calls began — any of the four cursor variants, any prior block
/// contents — the block ends up holding the inserted operations contiguously,
/// in call order, at the position the starting cursor picked. That each
/// operation was fresh and unattached when its call happened (which
/// `insert` demands anyway) is all it takes.
pub proof fn lemma_trace_order_preservation(
    cs: Seq<Context>,
    bs: Seq<Builder>,
    news: Seq<Operation>,
)
    requires
        insert_trace(cs, bs, news),
        ready_to_insert(bs[0], cs[0]),
    ensures
        ({
            let blk = bs[0].insert_block.unwrap();
            let ops0 = cs[0].ops_of(blk);
            let idx = point_index(ops0, bs[0].insert_point);
            cs.last().ops_of(blk) == ops0.take(idx) + news + ops0.skip(idx)
        }),
{
    let blk = bs[0].insert_block.unwrap();
    let ops0 = cs[0].ops_of(blk);
    let p0 = bs[0].insert_point;
    assert forall|i: int| 0 <= i < news.len() implies !ops0.contains(#[trigger] news[i]) by {
        if ops0.contains(news[i]) {
            cs[0].lemma_block_ops_wf(blk);
            let k = choose|k: int| 0 <= k < ops0.len() && ops0[k] == news[i];
            assert(cs[0].op_parent(ops0[k]) == Some(blk));
            lemma_trace_parent_monotone(cs, bs, news, news[i], 0, i);
        }
    }
    assert(news.no_duplicates()) by {
        assert forall|i: int, j: int|
            0 <= i < news.len() && 0 <= j < news.len() && i != j implies news[i] != news[j] by {
            let (lo, hi) = if i < j {
                (i, j)
            } else {
                (j, i)
            };
            assert(inserted(cs[lo], bs[lo], cs[lo + 1], bs[lo + 1], news[lo]));
            assert(cs[lo + 1].op_parent(news[lo]) is Some);
            assert(cs[lo + 1].valid_op(news[lo])) by {
                assert(cs[lo].valid_op(news[lo]));
            }
            lemma_trace_parent_monotone(cs, bs, news, news[lo], lo + 1, hi);
            assert(cs[hi].op_parent(news[hi]) is None);
        }
    }
    lemma_trace_runs(cs, bs, news);
    lemma_order_preservation(ops0, p0, news);
}

/// Block sequencing: starting from the block the cursor was last configured
/// on, repeated `add_block` calls line the new blocks up in the parent
/// region directly after that block, in creation order — while the insertion
/// point for operations never moves (see `add_block`'s contract).
pub proof fn lemma_block_sequencing(chain0: Seq<Block>, after0: Block, news: Seq<Block>)
    requires
        chain0.contains(after0),
        forall|i: int| 0 <= i < news.len() ==> !chain0.contains(#[trigger] news[i]),
        news.no_duplicates(),
    ensures
        ({
            let k = chain0.index_of_first(after0).unwrap();
            chain_inserts(chain0, after0, news) == chain0.take(k + 1) + news + chain0.skip(k + 1)
        }),
{
    chain0.index_of_first_ensures(after0);
    let k = chain0.index_of_first(after0).unwrap();
    let pre = chain0.take(k + 1);
    let suf = chain0.skip(k + 1);
    assert(chain0 =~= pre + suf);
    assert(pre.last() == after0);
    assert(!pre.take(k).contains(after0)) by {
        if pre.take(k).contains(after0) {
            let i = choose|i: int| 0 <= i < k && pre.take(k)[i] == after0;
            assert(chain0[i] == after0);
        }
    }
    assert forall|i: int| 0 <= i < news.len() implies !(pre + suf).contains(#[trigger] news[i]) by {
        assert(!chain0.contains(news[i]));
    }
    lemma_chain_inserts(pre, suf, news);
}

/// A run of `add_block` calls with no intervening cursor change, recorded as
/// the arena and builder states it passes through: state `i` steps to state
/// `i + 1` by creating `news[i]` — exactly `add_block`'s contract.
pub open spec fn add_block_trace(cs: Seq<Context>, bs: Seq<Builder>, news: Seq<Block>) -> bool {
    &&& cs.len() == news.len() + 1
    &&& bs.len() == news.len() + 1
    &&& forall|i: int|
        0 <= i < news.len() ==> added_block(cs[i], bs[i], cs[i + 1], bs[i + 1], #[trigger] news[i])
}

/// A block that exists keeps existing across a run of `add_block` calls, with
/// its operations and its parent region untouched.
proof fn lemma_add_trace_monotone(
    cs: Seq<Context>,
    bs: Seq<Builder>,
    news: Seq<Block>,
    b2: Block,
    i: int,
    j: int,
)
    requires
        add_block_trace(cs, bs, news),
        0 <= i <= j <= news.len(),
        cs[i].valid_block(b2),
    ensures
        cs[j].valid_block(b2),
        cs[j].ops_of(b2) == cs[i].ops_of(b2),
        cs[j].block_parent(b2) == cs[i].block_parent(b2),
    decreases j - i,
{
    if i < j {
        assert(added_block(cs[i], bs[i], cs[i + 1], bs[i + 1], news[i]));
        assert(b2 != news[i]);
        lemma_add_trace_monotone(cs, bs, news, b2, i + 1, j);
    }
}

/// Along a run of `add_block` calls the cursor never moves, and from the
/// second state on the sequencing pointer names the block most recently
/// created.
proof fn lemma_add_trace_builder(cs: Seq<Context>, bs: Seq<Builder>, news: Seq<Block>, j: int)
    requires
        add_block_trace(cs, bs, news),
        0 <= j <= news.len(),
    ensures
        bs[j].insert_block == bs[0].insert_block,
        bs[j].insert_point == bs[0].insert_point,
        bs[j].loc == bs[0].loc,
        j > 0 ==> bs[j].insert_block_after == Some(news[j - 1]),
    decreases j,
{
    if j > 0 {
        lemma_add_trace_builder(cs, bs, news, j - 1);
        assert(added_block(cs[j - 1], bs[j - 1], cs[j], bs[j], news[j - 1]));
    }
}

/// The region a run of `add_block` calls ends with holds what the step model
/// `chain_inserts` computes from where it started.
proof fn lemma_add_trace_runs(cs: Seq<Context>, bs: Seq<Builder>, news: Seq<Block>)
    requires
        add_block_trace(cs, bs, news),
        ready_to_add_block(bs[0], cs[0]),
    ensures
        ({
            let blk = bs[0].insert_block.unwrap();
            let region = cs[0].block_parent(blk).unwrap();
            cs.last().blocks_of(region) == chain_inserts(
                cs[0].blocks_of(region),
                bs[0].insert_block_after.unwrap(),
                news,
            )
        }),
    decreases news.len(),
{
    let blk = bs[0].insert_block.unwrap();
    let region = cs[0].block_parent(blk).unwrap();
    let chain0 = cs[0].blocks_of(region);
    let after0 = bs[0].insert_block_after.unwrap();
    if news.len() == 0 {
        assert(cs.last() == cs[0]);
    } else {
        let n0 = news[0];
        assert(added_block(cs[0], bs[0], cs[1], bs[1], n0));
        chain0.index_of_first_ensures(after0);
        let k = chain0.index_of_first(after0).unwrap();
        let chain1 = chain0.insert(k + 1, n0);
        assert(cs[1].blocks_of(region) == chain1);
        let cs1 = cs.drop_first();
        let bs1 = bs.drop_first();
        let news1 = news.drop_first();
        assert(add_block_trace(cs1, bs1, news1)) by {
            assert forall|i: int| 0 <= i < news1.len() implies added_block(
                cs1[i],
                bs1[i],
                cs1[i + 1],
                bs1[i + 1],
                #[trigger] news1[i],
            ) by {
                assert(news1[i] == news[i + 1]);
                assert(cs1[i] == cs[i + 1]);
                assert(cs1[i + 1] == cs[i + 2]);
                assert(bs1[i] == bs[i + 1]);
                assert(bs1[i + 1] == bs[i + 2]);
                assert(added_block(cs[i + 1], bs[i + 1], cs[i + 2], bs[i + 2], news[i + 1]));
            }
        }
        assert(blk != n0);
        assert(ready_to_add_block(bs1[0], cs1[0])) by {
            chain0.insert_ensures(k + 1, n0);
            assert(chain1[k + 1] == n0);
            assert(chain1.contains(n0));
            assert(cs[1].block_parent(blk) == Some(region));
        }
        lemma_add_trace_runs(cs1, bs1, news1);
        assert(cs1.last() == cs.last());
        assert(bs1[0].insert_block.unwrap() == blk);
        assert(cs1[0].block_parent(blk).unwrap() == region);
        assert(cs.last().blocks_of(region) == chain_inserts(chain1, n0, news1));
        assert(chain_inserts(chain0, after0, news) == chain_inserts(chain1, n0, news1));
    }
}

/// Block sequencing, stated over the contract itself: a run of `add_block`
/// calls lines the new blocks up in the tracked block's parent region,
/// directly after the block the cursor was last configured on, in creation
/// order — while the insertion point never moves and no block's operations
/// are touched.
pub proof fn lemma_trace_block_sequencing(cs: Seq<Context>, bs: Seq<Builder>, news: Seq<Block>)
    requires
        add_block_trace(cs, bs, news),
        ready_to_add_block(bs[0], cs[0]),
    ensures
        ({
            let blk = bs[0].insert_block.unwrap();
            let region = cs[0].block_parent(blk).unwrap();
            let chain0 = cs[0].blocks_of(region);
            let k = chain0.index_of_first(bs[0].insert_block_after.unwrap()).unwrap();
            &&& cs.last().blocks_of(region) == chain0.take(k + 1) + news + chain0.skip(k + 1)
            &&& bs.last().insert_block == bs[0].insert_block
            &&& bs.last().insert_point == bs[0].insert_point
            &&& forall|b2: Block| #[trigger]
                cs[0].valid_block(b2) ==> cs.last().ops_of(b2) == cs[0].ops_of(b2)
        }),
{
    let blk = bs[0].insert_block.unwrap();
    let region = cs[0].block_parent(blk).unwrap();
    let chain0 = cs[0].blocks_of(region);
    let after0 = bs[0].insert_block_after.unwrap();
    let n = news.len() as int;
    cs[0].lemma_block_parent_wf(blk);
    assert forall|i: int| 0 <= i < news.len() implies !chain0.contains(#[trigger] news[i]) by {
        if chain0.contains(news[i]) {
            cs[0].lemma_region_blocks_wf(region);
            let k = choose|k: int| 0 <= k < chain0.len() && chain0[k] == news[i];
            assert(cs[0].valid_block(chain0[k]));
            lemma_add_trace_monotone(cs, bs, news, news[i], 0, i);
            assert(added_block(cs[i], bs[i], cs[i + 1], bs[i + 1], news[i]));
        }
    }
    assert(news.no_duplicates()) by {
        assert forall|i: int, j: int|
            0 <= i < news.len() && 0 <= j < news.len() && i != j implies news[i] != news[j] by {
            let (lo, hi) = if i < j {
                (i, j)
            } else {
                (j, i)
            };
            assert(added_block(cs[lo], bs[lo], cs[lo + 1], bs[lo + 1], news[lo]));
            assert(cs[lo + 1].valid_block(news[lo]));
            lemma_add_trace_monotone(cs, bs, news, news[lo], lo + 1, hi);
            assert(added_block(cs[hi], bs[hi], cs[hi + 1], bs[hi + 1], news[hi]));
            assert(!cs[hi].valid_block(news[hi]));
        }
    }
    lemma_add_trace_runs(cs, bs, news);
    lemma_block_sequencing(chain0, after0, news);
    lemma_add_trace_builder(cs, bs, news, n);
    assert forall|b2: Block| #[trigger] cs[0].valid_block(b2) implies cs.last().ops_of(b2) == cs[0].ops_of(
        b2,
    ) by {
        lemma_add_trace_monotone(cs, bs, news, b2, 0, n);
    }
}

/// A builder for IR operations: owns the current insertion point, the current
/// location, and the "last block created here" pointer used to chain new
/// blocks in creation order.
pub struct Builder {
    /// The location to assign to the operations being built.
    pub loc: Location,
    /// The block we're currently inserting into.
    pub insert_block: Option<Block>,
    /// The insertion position within the block.
    pub insert_point: InsertPoint,
    /// The last block that was inserted. Used to order created blocks in
    /// sequence if there are no intermittent `set_insertion_point_*` calls.
    pub insert_block_after: Option<Block>,
}

impl Builder {
    /// Create a new builder: no tracked block, unknown location, cursor at
    /// block start (inert until a block is configured).
    pub fn new() -> (r: Builder)
        ensures
            r.loc == Location::Unknown,
            r.insert_block is None,
            r.insert_point == InsertPoint::BlockStart,
            r.insert_block_after is None,
    {
        Builder {
            loc: Location::unknown(),
            insert_block: None,
            insert_point: InsertPoint::BlockStart,
            insert_block_after: None,
        }
    }

    /// Set the location assigned to new operations. Operations already built
    /// are not affected: their locations live in the arena, which this does
    /// not touch.
    pub fn set_loc(&mut self, loc: Location)
        ensures
            final(self).loc == loc,
            final(self).insert_block == old(self).insert_block,
            final(self).insert_point == old(self).insert_point,
            final(self).insert_block_after == old(self).insert_block_after,
    {
        self.loc = loc;
    }

    /// Get the current location that is assigned to new operations.
    pub fn loc(&self) -> (r: Location)
        ensures
            r == self.loc,
    {
        self.loc
    }

    /// Set the insertion point to the start of a block; also resets the
    /// block-sequencing pointer to that block.
    pub fn set_insertion_point_to_start(&mut self, block: Block)
        ensures
            final(self).loc == old(self).loc,
            final(self).insert_block == Some(block),
            final(self).insert_point == InsertPoint::BlockStart,
            final(self).insert_block_after == Some(block),
    {
        self.insert_block = Some(block);
        self.insert_point = InsertPoint::BlockStart;
        self.insert_block_after = self.insert_block;
    }

    /// Set the insertion point to the end of a block; also resets the
    /// block-sequencing pointer to that block.
    pub fn set_insertion_point_to_end(&mut self, block: Block)
        ensures
            final(self).loc == old(self).loc,
            final(self).insert_block == Some(block),
            final(self).insert_point == InsertPoint::BlockEnd,
            final(self).insert_block_after == Some(block),
    {
        self.insert_block = Some(block);
        self.insert_point = InsertPoint::BlockEnd;
        self.insert_block_after = self.insert_block;
    }

    /// Set the insertion point to before an operation; tracks the operation's
    /// parent block.
    pub fn set_insertion_point_before(&mut self, cx: &Context, op: Operation)
        requires
            cx.valid_op(op),
            cx.op_parent(op) is Some,
        ensures
            final(self).loc == old(self).loc,
            final(self).insert_block == cx.op_parent(op),
            final(self).insert_point == InsertPoint::Before(op),
            final(self).insert_block_after == cx.op_parent(op),
            cx.wf() ==> ready_to_insert(*final(self), *cx),
    {
        self.insert_block = cx.parent_block_of(op);
        self.insert_point = InsertPoint::Before(op);
        self.insert_block_after = self.insert_block;
        proof {
            if cx.wf() {
                cx.lemma_op_parent_wf(op);
            }
        }
    }

    /// Set the insertion point to after an operation; tracks the operation's
    /// parent block.
    pub fn set_insertion_point_after(&mut self, cx: &Context, op: Operation)
        requires
            cx.valid_op(op),
            cx.op_parent(op) is Some,
        ensures
            final(self).loc == old(self).loc,
            final(self).insert_block == cx.op_parent(op),
            final(self).insert_point == InsertPoint::After(op),
            final(self).insert_block_after == cx.op_parent(op),
            cx.wf() ==> ready_to_insert(*final(self), *cx),
    {
        self.insert_block = cx.parent_block_of(op);
        self.insert_point = InsertPoint::After(op);
        self.insert_block_after = self.insert_block;
        proof {
            if cx.wf() {
                cx.lemma_op_parent_wf(op);
            }
        }
    }

    /// Splice a previously-assembled, not-yet-inserted operation into the
    /// tracked block at the current insertion point, then advance the cursor
    /// to just after it — so that repeated calls append in call order,
    /// whatever variant the cursor started on.
    pub fn insert(&mut self, cx: &mut Context, op: Operation)
        requires
            ready_to_insert(*old(self), *old(cx)),
            old(cx).valid_op(op),
            old(cx).op_parent(op) is None,
        ensures
            inserted(*old(cx), *old(self), *final(cx), *final(self), op),
    {
        let block = self.insert_block.unwrap();
        match self.insert_point {
            InsertPoint::BlockStart => cx.insert_operation_after(block, None, op),
            InsertPoint::BlockEnd => cx.insert_operation_before(block, None, op),
            InsertPoint::After(ref_op) => cx.insert_operation_after(block, Some(ref_op), op),
            InsertPoint::Before(ref_op) => cx.insert_operation_before(block, Some(ref_op), op),
        }
        self.insert_point = InsertPoint::After(op);
    }

    /// Assemble and emit one operation: seed an assembly with the given name
    /// and the builder's current location, let the callback populate it (the
    /// callback gets the builder and the arena back, so it may emit nested
    /// structure first), then materialize the operation and insert it at
    /// whatever cursor the callback left configured. The name and the
    /// location are read here, before the callback runs: the emitted
    /// operation carries them unconditionally, whatever the callback did to
    /// the builder's location meanwhile.
    pub fn build_with<F: FnOnce(&mut Context, &mut Builder, &mut OperationState)>(
        &mut self,
        cx: &mut Context,
        name: u64,
        with: F,
    ) -> (op: Operation)
        requires
            forall|c: &mut Context, b: &mut Builder, st: &mut OperationState|
                (*c == *old(cx) && *b == *old(self) && fresh_assembly(*st, name, old(self).loc))
                    ==> call_requires(with, (c, b, st)),
            forall|c: &mut Context, b: &mut Builder, st: &mut OperationState|
                (*c == *old(cx) && *b == *old(self) && fresh_assembly(*st, name, old(self).loc)
                    && call_ensures(with, (c, b, st), ())) ==> ready_to_insert(
                    *final(b),
                    *final(c),
                ),
        ensures
            exists|c: &mut Context, b: &mut Builder, st: &mut OperationState|
                {
                    &&& *c == *old(cx)
                    &&& *b == *old(self)
                    &&& fresh_assembly(*st, name, old(self).loc)
                    &&& call_ensures(with, (c, b, st), ())
                    &&& emitted(
                        *final(c),
                        *final(b),
                        name,
                        old(self).loc,
                        final(st).spec_operands(),
                        *final(cx),
                        *final(self),
                        op,
                    )
                },
            final(self).insert_point == InsertPoint::After(op),
            final(cx).wf(),
            final(cx).valid_op(op),
            final(cx).op_parent(op) == final(self).insert_block,
            final(cx).op_name(op) == name,
            final(cx).op_loc(op) == old(self).loc,
    {
        let loc0 = self.loc;
        let mut st = OperationState::new(name, loc0);
        with(cx, self, &mut st);
        let ghost c_mid = *cx;
        let ghost b_mid = *self;
        let ghost st_fin = st;
        let op_new = st.restamped(name, loc0).build(cx);
        let ghost c_built = *cx;
        self.insert(cx, op_new);
        proof {
            let cfin = *cx;
            let blk = b_mid.insert_block.unwrap();
            assert(c_built.ops_of(blk) == c_mid.ops_of(blk));
            assert(same_op_data(cfin, c_mid)) by {
                assert forall|o: Operation| #[trigger] c_mid.valid_op(o) implies cfin.valid_op(o)
                    && cfin.op_name(o) == c_mid.op_name(o) && cfin.op_loc(o) == c_mid.op_loc(o)
                    && cfin.op_operands(o) == c_mid.op_operands(o) by {
                    assert(c_built.valid_op(o));
                }
            }
            assert(same_op_parents_except(cfin, c_mid, op_new)) by {
                assert forall|o: Operation| #[trigger]
                    c_mid.valid_op(o) && o != op_new implies cfin.op_parent(o) == c_mid.op_parent(
                    o,
                ) by {
                    assert(c_built.valid_op(o));
                }
            }
            assert(same_blocks_except_ops(cfin, c_mid, blk)) by {
                assert forall|b2: Block| #[trigger] c_mid.valid_block(b2) implies cfin.valid_block(
                    b2,
                ) && (b2 != blk ==> cfin.ops_of(b2) == c_mid.ops_of(b2)) && cfin.block_parent(b2)
                    == c_mid.block_parent(b2) by {
                    assert(c_built.valid_block(b2));
                }
            }
            assert(same_regions(cfin, c_mid)) by {
                assert forall|r2: crate::ir::Region| #[trigger]
                    c_mid.valid_region(r2) implies cfin.valid_region(r2) && cfin.blocks_of(r2)
                    == c_mid.blocks_of(r2) by {
                    assert(c_built.valid_region(r2));
                }
            }
            assert(same_types(cfin, c_mid)) by {
                assert forall|t: crate::ir::TypeHandle| #[trigger]
                    c_mid.valid_type(t) implies cfin.valid_type(t) && cfin.type_content(t)
                    == c_mid.type_content(t) by {
                    assert(c_built.valid_type(t));
                }
            }
            assert(emitted(
                c_mid,
                b_mid,
                name,
                loc0,
                st_fin.spec_operands(),
                cfin,
                *self,
                op_new,
            ));
        }
        op_new
    }

    /// Create a new, empty block and splice it into the tracked block's
    /// parent region, immediately after the block-sequencing pointer; then
    /// move that pointer to the new block. The insertion point itself is left
    /// alone: operations keep landing where they did, while repeated calls
    /// chain the new blocks up in creation order.
    pub fn add_block(&mut self, cx: &mut Context) -> (nb: Block)
        requires
            ready_to_add_block(*old(self), *old(cx)),
        ensures
            added_block(*old(cx), *old(self), *final(cx), *final(self), nb),
    {
        let block = self.insert_block.unwrap();
        let after = self.insert_block_after.unwrap();
        proof {
            old(cx).lemma_block_parent_wf(block);
        }
        let new_block = cx.create_block();
        let region = cx.parent_region_of(block).unwrap();
        cx.insert_block_after(region, after, new_block);
        self.insert_block_after = Some(new_block);
        new_block
    }
}

} // verus!
