//! The order in which collected blocks reach the output, and the bytes that result.

use vstd::prelude::*;
use crate::codec::append_bytes;
use crate::message::{all_carry, carried, Chunk};

verus! {

/// Lays collected chunks out on the output.
pub struct Writer {}

/// Whether chunk `a` is written before chunk `b`: the shorter block first, and of two
/// blocks of one length the one that was collected first.
pub open spec fn comes_before(chunks: Seq<Chunk>, a: int, b: int) -> bool {
    chunks[a].spec_len() < chunks[b].spec_len() || (chunks[a].spec_len() == chunks[b].spec_len()
        && a < b)
}

/// Whether `order` lists the positions of exactly the chunks that carry a block, each
/// one before all that come after it by `comes_before`.
pub open spec fn is_write_order(chunks: Seq<Chunk>, order: Seq<usize>) -> bool {
    &&& forall|k: int|
        0 <= k < order.len() ==> (#[trigger] order[k]) < chunks.len() && chunks[order[k] as int]@ is Some
    &&& forall|i: int|
        0 <= i < chunks.len() && (#[trigger] chunks[i])@ is Some ==> order.contains(i as usize)
    &&& forall|a: int, b: int|
        0 <= a < b < order.len() ==> comes_before(
            chunks,
            #[trigger] order[a] as int,
            #[trigger] order[b] as int,
        )
}

/// The order in which the blocks of `chunks` are written.
pub open spec fn write_order(chunks: Seq<Chunk>) -> Seq<usize> {
    choose|order: Seq<usize>| is_write_order(chunks, order)
}

/// The blocks of the chunks at the positions `order`.
pub open spec fn blocks_at(chunks: Seq<Chunk>, order: Seq<usize>) -> Seq<Seq<u8>> {
    order.map_values(|at: usize| chunks[at as int]@->0)
}

/// The blocks of `chunks` in the order in which they are written.
pub open spec fn written_blocks(chunks: Seq<Chunk>) -> Seq<Seq<u8>> {
    blocks_at(chunks, write_order(chunks))
}

/// The bytes of `blocks`, one block after another.
pub open spec fn concat(blocks: Seq<Seq<u8>>) -> Seq<u8>
    decreases blocks.len(),
{
    if blocks.len() == 0 {
        Seq::empty()
    } else {
        concat(blocks.drop_last()) + blocks.last()
    }
}

/// The bytes that writing `chunks` puts out.
pub open spec fn layout(chunks: Seq<Chunk>) -> Seq<u8> {
    concat(written_blocks(chunks))
}

/// Whether no two blocks of `chunks` have the same length.
pub open spec fn distinct_lengths(chunks: Seq<Chunk>) -> bool {
    forall|i: int, j: int|
        0 <= i < j < chunks.len() && (#[trigger] chunks[i])@ is Some && (#[trigger] chunks[j])@ is Some
            ==> chunks[i].spec_len() != chunks[j].spec_len()
}

/// Whether one of `chunks` carries `block`.
pub open spec fn carries(chunks: Seq<Chunk>, block: Seq<u8>) -> bool {
    exists|i: int| 0 <= i < chunks.len() && (#[trigger] chunks[i])@ == Some(block)
}

/// Whether each block of `blocks` is shorter than all that follow it.
pub open spec fn strictly_ascending(blocks: Seq<Seq<u8>>) -> bool {
    forall|a: int, b: int|
        0 <= a < b < blocks.len() ==> (#[trigger] blocks[a]).len() < (#[trigger] blocks[b]).len()
}

/// Whether no block of `blocks` is longer than one that follows it.
pub open spec fn ascending(blocks: Seq<Seq<u8>>) -> bool {
    forall|a: int, b: int|
        0 <= a < b < blocks.len() ==> (#[trigger] blocks[a]).len() <= (#[trigger] blocks[b]).len()
}

/// Two write orders of the same chunks agree at position `k`.
proof fn lemma_orders_agree(chunks: Seq<Chunk>, first: Seq<usize>, second: Seq<usize>, k: int)
    requires
        is_write_order(chunks, first),
        is_write_order(chunks, second),
        0 <= k < first.len(),
        k < second.len(),
    ensures
        first[k] == second[k],
    decreases k,
{
    assert forall|j: int| 0 <= j < k implies first[j] == second[j] by {
        lemma_orders_agree(chunks, first, second, j);
    }
    let x = first[k];
    let y = second[k];
    assert(chunks[x as int]@ is Some);
    assert(chunks[y as int]@ is Some);
    let p = choose|p: int| 0 <= p < second.len() && second[p] == x;
    let q = choose|q: int| 0 <= q < first.len() && first[q] == y;
    if p < k {
        assert(comes_before(chunks, first[p] as int, first[k] as int));
    } else if q < k {
        assert(comes_before(chunks, second[q] as int, second[k] as int));
    } else if p > k && q > k {
        assert(comes_before(chunks, second[k] as int, second[p] as int));
        assert(comes_before(chunks, first[k] as int, first[q] as int));
    }
}

/// A write order is no longer than another write order of the same chunks.
proof fn lemma_order_no_longer(chunks: Seq<Chunk>, first: Seq<usize>, second: Seq<usize>)
    requires
        is_write_order(chunks, first),
        is_write_order(chunks, second),
    ensures
        first.len() <= second.len(),
{
    if first.len() > second.len() {
        let k = second.len() as int;
        let x = first[k];
        assert(chunks[x as int]@ is Some);
        let p = choose|p: int| 0 <= p < second.len() && second[p] == x;
        lemma_orders_agree(chunks, first, second, p);
        assert(comes_before(chunks, first[p] as int, first[k] as int));
    }
}

/// The chunks decide their write order: it is the only sequence that `is_write_order`
/// accepts for them.
pub proof fn lemma_write_order_unique(chunks: Seq<Chunk>, first: Seq<usize>, second: Seq<usize>)
    requires
        is_write_order(chunks, first),
        is_write_order(chunks, second),
    ensures
        first == second,
{
    lemma_order_no_longer(chunks, first, second);
    lemma_order_no_longer(chunks, second, first);
    assert forall|k: int| 0 <= k < first.len() implies first[k] == second[k] by {
        lemma_orders_agree(chunks, first, second, k);
    }
    assert(first =~= second);
}

/// Where a block of `len` bytes goes into `order`: behind the last position whose
/// block is no longer.
spec fn insertion_point(chunks: Seq<Chunk>, order: Seq<usize>, len: nat) -> int
    decreases order.len(),
{
    if order.len() == 0 {
        0
    } else if chunks[order.last() as int].spec_len() <= len {
        order.len() as int
    } else {
        insertion_point(chunks, order.drop_last(), len)
    }
}

/// The insertion point parts an ascending order into the blocks that are no longer
/// than `len` and the longer ones.
proof fn lemma_insertion_point(chunks: Seq<Chunk>, order: Seq<usize>, len: nat)
    requires
        forall|a: int, b: int|
            0 <= a < b < order.len() ==> chunks[#[trigger] order[a] as int].spec_len()
                <= chunks[#[trigger] order[b] as int].spec_len(),
    ensures
        0 <= insertion_point(chunks, order, len) <= order.len(),
        forall|k: int|
            0 <= k < insertion_point(chunks, order, len) ==> chunks[#[trigger] order[k] as int].spec_len()
                <= len,
        forall|k: int|
            insertion_point(chunks, order, len) <= k < order.len() ==> chunks[#[trigger] order[k] as int].spec_len()
                > len,
    decreases order.len(),
{
    if order.len() > 0 && chunks[order.last() as int].spec_len() > len {
        let front = order.drop_last();
        assert forall|a: int, b: int| 0 <= a < b < front.len() implies chunks[#[trigger] front[a] as int].spec_len()
            <= chunks[#[trigger] front[b] as int].spec_len() by {
            assert(front[a] == order[a] && front[b] == order[b]);
        }
        lemma_insertion_point(chunks, front, len);
        let p = insertion_point(chunks, front, len);
        assert forall|k: int| 0 <= k < p implies chunks[#[trigger] order[k] as int].spec_len()
            <= len by {
            assert(front[k] == order[k]);
        }
        assert forall|k: int| p <= k < order.len() implies chunks[#[trigger] order[k] as int].spec_len()
            > len by {
            if k < front.len() {
                assert(front[k] == order[k]);
            }
        }
    } else if order.len() > 0 {
        let last = order.len() - 1;
        assert forall|k: int| 0 <= k < order.len() implies chunks[#[trigger] order[k] as int].spec_len()
            <= len by {
            if k < last {
                assert(chunks[order[k] as int].spec_len() <= chunks[order[last] as int].spec_len());
            }
        }
    }
}

/// Whether `order` is the write order of the first `n` chunks.
spec fn orders_first(chunks: Seq<Chunk>, order: Seq<usize>, n: int) -> bool {
    &&& forall|k: int|
        0 <= k < order.len() ==> (#[trigger] order[k]) < n && chunks[order[k] as int]@ is Some
    &&& forall|i: int| 0 <= i < n && (#[trigger] chunks[i])@ is Some ==> order.contains(i as usize)
    &&& forall|a: int, b: int|
        0 <= a < b < order.len() ==> comes_before(
            chunks,
            #[trigger] order[a] as int,
            #[trigger] order[b] as int,
        )
}

/// The write order of all chunks but the last orders the chunks before the last.
proof fn lemma_order_of_front(chunks: Seq<Chunk>, order: Seq<usize>)
    requires
        chunks.len() > 0,
        is_write_order(chunks.drop_last(), order),
    ensures
        orders_first(chunks, order, chunks.len() - 1),
{
    let front = chunks.drop_last();
    assert forall|k: int| 0 <= k < order.len() implies (#[trigger] order[k]) < chunks.len() - 1
        && chunks[order[k] as int]@ is Some by {
        assert(front[order[k] as int] == chunks[order[k] as int]);
    }
    assert forall|i: int| 0 <= i < chunks.len() - 1 && (#[trigger] chunks[i])@ is Some implies order.contains(
        i as usize,
    ) by {
        assert(front[i] == chunks[i]);
    }
    assert forall|a: int, b: int| 0 <= a < b < order.len() implies comes_before(
        chunks,
        #[trigger] order[a] as int,
        #[trigger] order[b] as int,
    ) by {
        assert(comes_before(front, order[a] as int, order[b] as int));
        assert(front[order[a] as int] == chunks[order[a] as int]);
        assert(front[order[b] as int] == chunks[order[b] as int]);
    }
}

/// Putting chunk `n` at its insertion point makes the order of the first `n` chunks
/// the order of the first `n + 1`.
proof fn lemma_order_with_one_more(chunks: Seq<Chunk>, prev: Seq<usize>, n: usize)
    requires
        n < chunks.len(),
        chunks[n as int]@ is Some,
        orders_first(chunks, prev, n as int),
    ensures
        orders_first(
            chunks,
            prev.insert(insertion_point(chunks, prev, chunks[n as int].spec_len()), n),
            n + 1,
        ),
{
    let len = chunks[n as int].spec_len();
    assert forall|a: int, b: int| 0 <= a < b < prev.len() implies chunks[#[trigger] prev[a] as int].spec_len()
        <= chunks[#[trigger] prev[b] as int].spec_len() by {
        assert(comes_before(chunks, prev[a] as int, prev[b] as int));
    }
    lemma_insertion_point(chunks, prev, len);
    let p = insertion_point(chunks, prev, len);
    let order = prev.insert(p, n);
    assert(order[p] == n);
    assert forall|k: int| 0 <= k < order.len() implies (#[trigger] order[k]) < n + 1
        && chunks[order[k] as int]@ is Some by {
        if k < p {
            assert(order[k] == prev[k]);
        } else if k > p {
            assert(order[k] == prev[k - 1]);
        }
    }
    assert forall|i: int| 0 <= i < n + 1 && (#[trigger] chunks[i])@ is Some implies order.contains(
        i as usize,
    ) by {
        if i < n {
            let k = choose|k: int| 0 <= k < prev.len() && prev[k] == i as usize;
            if k < p {
                assert(order[k] == i as usize);
            } else {
                assert(order[k + 1] == i as usize);
            }
        }
    }
    assert forall|a: int, b: int| 0 <= a < b < order.len() implies comes_before(
        chunks,
        #[trigger] order[a] as int,
        #[trigger] order[b] as int,
    ) by {
        if b < p {
            assert(order[a] == prev[a] && order[b] == prev[b]);
        } else if a > p {
            assert(order[a] == prev[a - 1] && order[b] == prev[b - 1]);
        } else if a == p {
            assert(order[b] == prev[b - 1]);
            assert(chunks[prev[b - 1] as int].spec_len() > len);
        } else if b == p {
            assert(order[a] == prev[a]);
            assert(chunks[prev[a] as int].spec_len() <= len);
            assert(prev[a] < n);
        } else {
            assert(order[a] == prev[a] && order[b] == prev[b - 1]);
        }
    }
}

/// Every sequence of chunks that fits in memory has a write order.
pub proof fn lemma_write_order_exists(chunks: Seq<Chunk>)
    requires
        chunks.len() <= usize::MAX,
    ensures
        is_write_order(chunks, write_order(chunks)),
    decreases chunks.len(),
{
    if chunks.len() == 0 {
        assert(is_write_order(chunks, Seq::<usize>::empty()));
    } else {
        let at = (chunks.len() - 1) as usize;
        lemma_write_order_exists(chunks.drop_last());
        let prev = write_order(chunks.drop_last());
        lemma_order_of_front(chunks, prev);
        if chunks[at as int]@ is Some {
            lemma_order_with_one_more(chunks, prev, at);
            let order = prev.insert(insertion_point(chunks, prev, chunks[at as int].spec_len()), at);
            assert(is_write_order(chunks, order));
        } else {
            assert(is_write_order(chunks, prev));
        }
    }
}

/// Where a block of `len` bytes goes among `blocks`: behind the last block that is no
/// longer.
pub open spec fn slot_for(blocks: Seq<Seq<u8>>, len: nat) -> int
    decreases blocks.len(),
{
    if blocks.len() == 0 {
        0
    } else if blocks.last().len() <= len {
        blocks.len() as int
    } else {
        slot_for(blocks.drop_last(), len)
    }
}

/// `blocks` in ascending order of length, blocks of one length in the order in which
/// they stand in `blocks`: each block in turn goes to its slot among those before it.
pub open spec fn length_ordered(blocks: Seq<Seq<u8>>) -> Seq<Seq<u8>>
    decreases blocks.len(),
{
    if blocks.len() == 0 {
        Seq::empty()
    } else {
        let front = length_ordered(blocks.drop_last());
        front.insert(slot_for(front, blocks.last().len()), blocks.last())
    }
}

/// The slot parts ascending blocks into those that are no longer than `len` and the
/// longer ones.
pub proof fn lemma_slot_parts(blocks: Seq<Seq<u8>>, len: nat)
    requires
        ascending(blocks),
    ensures
        0 <= slot_for(blocks, len) <= blocks.len(),
        forall|k: int| 0 <= k < slot_for(blocks, len) ==> (#[trigger] blocks[k]).len() <= len,
        forall|k: int|
            slot_for(blocks, len) <= k < blocks.len() ==> (#[trigger] blocks[k]).len() > len,
    decreases blocks.len(),
{
    if blocks.len() > 0 && blocks.last().len() > len {
        let front = blocks.drop_last();
        assert forall|a: int, b: int| 0 <= a < b < front.len() implies (#[trigger] front[a]).len()
            <= (#[trigger] front[b]).len() by {
            assert(front[a] == blocks[a] && front[b] == blocks[b]);
        }
        lemma_slot_parts(front, len);
        let p = slot_for(front, len);
        assert forall|k: int| 0 <= k < p implies (#[trigger] blocks[k]).len() <= len by {
            assert(front[k] == blocks[k]);
        }
        assert forall|k: int| p <= k < blocks.len() implies (#[trigger] blocks[k]).len() > len by {
            if k < front.len() {
                assert(front[k] == blocks[k]);
            }
        }
    } else if blocks.len() > 0 {
        let last = blocks.len() - 1;
        assert forall|k: int| 0 <= k < blocks.len() implies (#[trigger] blocks[k]).len() <= len by {
            if k < last {
                assert(blocks[k].len() <= blocks[last].len());
            }
        }
    }
}

/// Blocks in length order ascend, and there are as many of them as before.
pub proof fn lemma_length_ordered_ascends(blocks: Seq<Seq<u8>>)
    ensures
        ascending(length_ordered(blocks)),
        length_ordered(blocks).len() == blocks.len(),
    decreases blocks.len(),
{
    if blocks.len() > 0 {
        lemma_length_ordered_ascends(blocks.drop_last());
        let front = length_ordered(blocks.drop_last());
        let block = blocks.last();
        lemma_slot_parts(front, block.len());
        let p = slot_for(front, block.len());
        let all = front.insert(p, block);
        assert forall|a: int, b: int| 0 <= a < b < all.len() implies (#[trigger] all[a]).len() <= (
        #[trigger] all[b]).len() by {
            if b < p {
                assert(all[a] == front[a] && all[b] == front[b]);
            } else if a > p {
                assert(all[a] == front[a - 1] && all[b] == front[b - 1]);
            } else if a == p {
                assert(all[b] == front[b - 1]);
            } else if b == p {
                assert(all[a] == front[a]);
            } else {
                assert(all[a] == front[a] && all[b] == front[b - 1]);
            }
        }
    }
}

/// Over chunks that all carry a block, the insertion point of a length in an order is
/// the slot of that length among the blocks at the order's positions.
proof fn lemma_insertion_point_is_slot(chunks: Seq<Chunk>, order: Seq<usize>, len: nat)
    requires
        forall|k: int|
            0 <= k < order.len() ==> (#[trigger] order[k]) < chunks.len() && chunks[order[k] as int]@ is Some,
    ensures
        insertion_point(chunks, order, len) == slot_for(blocks_at(chunks, order), len),
    decreases order.len(),
{
    if order.len() > 0 {
        let front = order.drop_last();
        assert(blocks_at(chunks, order).drop_last() =~= blocks_at(chunks, front));
        assert(blocks_at(chunks, order).last() == chunks[order.last() as int]@->0);
        assert forall|k: int| 0 <= k < front.len() implies (#[trigger] front[k]) < chunks.len()
            && chunks[front[k] as int]@ is Some by {
            assert(front[k] == order[k]);
        }
        lemma_insertion_point_is_slot(chunks, front, len);
    }
}

/// The write order of chunks whose last one carries a block is the write order of the
/// chunks before it with the last position put at its insertion point.
proof fn lemma_write_order_grows(chunks: Seq<Chunk>)
    requires
        0 < chunks.len() <= usize::MAX,
        chunks.last()@ is Some,
    ensures
        is_write_order(chunks.drop_last(), write_order(chunks.drop_last())),
        write_order(chunks) == write_order(chunks.drop_last()).insert(
            insertion_point(
                chunks,
                write_order(chunks.drop_last()),
                chunks.last().spec_len(),
            ),
            (chunks.len() - 1) as usize,
        ),
{
    let at = (chunks.len() - 1) as usize;
    lemma_write_order_exists(chunks);
    lemma_write_order_exists(chunks.drop_last());
    let prev = write_order(chunks.drop_last());
    lemma_order_of_front(chunks, prev);
    lemma_order_with_one_more(chunks, prev, at);
    let order = prev.insert(insertion_point(chunks, prev, chunks[at as int].spec_len()), at);
    assert(is_write_order(chunks, order));
    lemma_write_order_unique(chunks, order, write_order(chunks));
}

/// The blocks at an order with one more position put in are the blocks at the order
/// with the block at that position put in.
proof fn lemma_blocks_at_insert(chunks: Seq<Chunk>, order: Seq<usize>, p: int, at: usize)
    requires
        0 <= p <= order.len(),
    ensures
        blocks_at(chunks, order.insert(p, at)) == blocks_at(chunks, order).insert(
            p,
            chunks[at as int]@->0,
        ),
{
    assert(blocks_at(chunks, order.insert(p, at)) =~= blocks_at(chunks, order).insert(
        p,
        chunks[at as int]@->0,
    ));
}

/// The blocks at positions among the leading chunks are the same whether or not the
/// last chunk is there.
proof fn lemma_blocks_at_front(chunks: Seq<Chunk>, order: Seq<usize>)
    requires
        chunks.len() > 0,
        forall|k: int| 0 <= k < order.len() ==> (#[trigger] order[k]) < chunks.len() - 1,
    ensures
        blocks_at(chunks, order) == blocks_at(chunks.drop_last(), order),
{
    let front = chunks.drop_last();
    assert forall|k: int| 0 <= k < order.len() implies blocks_at(chunks, order)[k] == blocks_at(
        front,
        order,
    )[k] by {
        assert(front[order[k] as int] == chunks[order[k] as int]);
    }
    assert(blocks_at(chunks, order) =~= blocks_at(front, order));
}

/// The write order is the length order: over chunks that all carry a block, the blocks
/// as they are written are the carried blocks in length order.
pub proof fn lemma_written_blocks_are_length_ordered(chunks: Seq<Chunk>)
    requires
        chunks.len() <= usize::MAX,
        all_carry(chunks),
    ensures
        written_blocks(chunks) == length_ordered(carried(chunks)),
    decreases chunks.len(),
{
    if chunks.len() == 0 {
        assert(is_write_order(chunks, Seq::<usize>::empty()));
        lemma_write_order_unique(chunks, Seq::<usize>::empty(), write_order(chunks));
        assert(written_blocks(chunks) =~= Seq::<Seq<u8>>::empty());
    } else {
        let at = (chunks.len() - 1) as usize;
        let front = chunks.drop_last();
        assert(all_carry(front)) by {
            assert forall|i: int| 0 <= i < front.len() implies (#[trigger] front[i])@ is Some by {
                assert(front[i] == chunks[i]);
            }
        }
        lemma_written_blocks_are_length_ordered(front);
        assert(chunks.last() == chunks[at as int]);
        lemma_write_order_grows(chunks);
        let prev = write_order(front);
        let len = chunks.last().spec_len();
        let p = insertion_point(chunks, prev, len);
        assert forall|k: int| 0 <= k < prev.len() implies (#[trigger] prev[k]) < chunks.len() - 1
            && chunks[prev[k] as int]@ is Some by {
            assert(front[prev[k] as int] == chunks[prev[k] as int]);
        }
        lemma_insertion_point_is_slot(chunks, prev, len);
        lemma_blocks_at_front(chunks, prev);
        assert(0 <= p <= prev.len()) by {
            lemma_length_ordered_ascends(carried(front));
            lemma_slot_parts(blocks_at(front, prev), len);
        }
        lemma_blocks_at_insert(chunks, prev, p, at);
        assert(carried(chunks).drop_last() =~= carried(front));
        assert(carried(chunks).last() == chunks.last()@->0);
    }
}

/// Chunks whose blocks ascend are written as they stand: in the given order.
pub proof fn lemma_ascending_chunks_are_written_as_given(chunks: Seq<Chunk>)
    requires
        chunks.len() <= usize::MAX,
        all_carry(chunks),
        ascending(carried(chunks)),
    ensures
        written_blocks(chunks) == carried(chunks),
        layout(chunks) == concat(carried(chunks)),
{
    let order = Seq::new(chunks.len(), |i: int| i as usize);
    assert forall|i: int| 0 <= i < chunks.len() && (#[trigger] chunks[i])@ is Some implies order.contains(
        i as usize,
    ) by {
        assert(order[i] == i as usize);
    }
    assert forall|a: int, b: int| 0 <= a < b < order.len() implies comes_before(
        chunks,
        #[trigger] order[a] as int,
        #[trigger] order[b] as int,
    ) by {
        assert(carried(chunks)[a].len() <= carried(chunks)[b].len());
    }
    assert(is_write_order(chunks, order));
    lemma_write_order_unique(chunks, order, write_order(chunks));
    assert(blocks_at(chunks, order) =~= carried(chunks));
}

/// Blocks are written in ascending order of length: no block is longer than one that
/// is written after it, and where no two blocks have the same length each block is
/// shorter than all that are written after it.
pub proof fn lemma_written_blocks_ascend(chunks: Seq<Chunk>)
    requires
        chunks.len() <= usize::MAX,
    ensures
        ascending(written_blocks(chunks)),
        distinct_lengths(chunks) ==> strictly_ascending(written_blocks(chunks)),
{
    lemma_write_order_exists(chunks);
    let order = write_order(chunks);
    let blocks = written_blocks(chunks);
    assert forall|a: int, b: int| 0 <= a < b < blocks.len() implies (#[trigger] blocks[a]).len()
        <= (#[trigger] blocks[b]).len() by {
        assert(comes_before(chunks, order[a] as int, order[b] as int));
    }
    if distinct_lengths(chunks) {
        assert forall|a: int, b: int| 0 <= a < b < blocks.len() implies (#[trigger] blocks[a]).len()
            < (#[trigger] blocks[b]).len() by {
            assert(comes_before(chunks, order[a] as int, order[b] as int));
            let i = order[a] as int;
            let j = order[b] as int;
            if i < j {
                assert(chunks[i]@ is Some && chunks[j]@ is Some);
            } else {
                assert(chunks[j]@ is Some && chunks[i]@ is Some);
            }
        }
    }
}

/// The blocks that are written are the blocks that the chunks carry.
pub proof fn lemma_written_blocks_are_carried(chunks: Seq<Chunk>, block: Seq<u8>)
    requires
        chunks.len() <= usize::MAX,
    ensures
        written_blocks(chunks).contains(block) <==> carries(chunks, block),
{
    lemma_write_order_exists(chunks);
    let order = write_order(chunks);
    let blocks = written_blocks(chunks);
    if blocks.contains(block) {
        let k = choose|k: int| 0 <= k < blocks.len() && blocks[k] == block;
        assert(chunks[order[k] as int]@ == Some(block));
    }
    if carries(chunks, block) {
        let i = choose|i: int| 0 <= i < chunks.len() && (#[trigger] chunks[i])@ == Some(block);
        let k = choose|k: int| 0 <= k < order.len() && order[k] == i as usize;
        assert(blocks[k] == block);
    }
}

/// Two runs of blocks, each in strictly ascending order of length, that hold the same
/// blocks agree at position `k`.
proof fn lemma_ascending_agree(first: Seq<Seq<u8>>, second: Seq<Seq<u8>>, k: int)
    requires
        strictly_ascending(first),
        strictly_ascending(second),
        forall|block: Seq<u8>| first.contains(block) <==> second.contains(block),
        0 <= k < first.len(),
        k < second.len(),
    ensures
        first[k] == second[k],
    decreases k,
{
    assert forall|j: int| 0 <= j < k implies first[j] == second[j] by {
        lemma_ascending_agree(first, second, j);
    }
    let x = first[k];
    let y = second[k];
    assert(first.contains(x));
    assert(second.contains(y));
    let p = choose|p: int| 0 <= p < second.len() && second[p] == x;
    let q = choose|q: int| 0 <= q < first.len() && first[q] == y;
    if p < k {
        assert(first[p].len() < first[k].len());
    } else if q < k {
        assert(second[q].len() < second[k].len());
    } else if p > k && q > k {
        assert(second[k].len() < second[p].len());
        assert(first[k].len() < first[q].len());
    }
}

/// Of two such runs of blocks the first is no longer than the second.
proof fn lemma_ascending_no_longer(first: Seq<Seq<u8>>, second: Seq<Seq<u8>>)
    requires
        strictly_ascending(first),
        strictly_ascending(second),
        forall|block: Seq<u8>| first.contains(block) <==> second.contains(block),
    ensures
        first.len() <= second.len(),
{
    if first.len() > second.len() {
        let k = second.len() as int;
        let x = first[k];
        assert(first.contains(x));
        let p = choose|p: int| 0 <= p < second.len() && second[p] == x;
        lemma_ascending_agree(first, second, p);
        assert(first[p].len() < first[k].len());
    }
}

/// Where no two blocks have the same length, the blocks alone decide what is written:
/// two sequences of chunks that carry the same blocks, in whatever order they were
/// collected, come out as the same blocks in the same order, and so as the same bytes.
pub proof fn lemma_layout_ignores_arrival_order(first: Seq<Chunk>, second: Seq<Chunk>)
    requires
        first.len() <= usize::MAX,
        second.len() <= usize::MAX,
        distinct_lengths(first),
        distinct_lengths(second),
        forall|block: Seq<u8>| carries(first, block) <==> carries(second, block),
    ensures
        written_blocks(first) == written_blocks(second),
        layout(first) == layout(second),
{
    let a = written_blocks(first);
    let b = written_blocks(second);
    lemma_written_blocks_ascend(first);
    lemma_written_blocks_ascend(second);
    assert forall|block: Seq<u8>| a.contains(block) <==> b.contains(block) by {
        lemma_written_blocks_are_carried(first, block);
        lemma_written_blocks_are_carried(second, block);
    }
    lemma_ascending_no_longer(a, b);
    lemma_ascending_no_longer(b, a);
    assert forall|k: int| 0 <= k < a.len() implies a[k] == b[k] by {
        lemma_ascending_agree(a, b, k);
    }
    assert(a =~= b);
}

impl Writer {
    /// Appends the blocks of `chunks` to `output`: shorter blocks first, blocks of one
    /// length in the order in which they were collected, chunks without a block left out.
    pub fn write(chunks: &[Chunk], output: &mut Vec<u8>)
        ensures
            final(output)@ == old(output)@ + layout(chunks@),
    {
        let order = Writer::order(chunks);
        proof {
            lemma_write_order_unique(chunks@, order@, write_order(chunks@));
        }
        let ghost blocks = written_blocks(chunks@);
        let mut k: usize = 0;
        while k < order.len()
            invariant
                k <= order.len(),
                is_write_order(chunks@, order@),
                blocks == blocks_at(chunks@, order@),
                output@ == old(output)@ + concat(blocks.take(k as int)),
            decreases order.len() - k,
        {
            let at = order[k];
            match &chunks[at].compressed_data {
                Some(block) => {
                    append_bytes(output, block);
                },
                None => {},
            }
            proof {
                assert(blocks.take(k + 1).drop_last() == blocks.take(k as int));
                assert(blocks.take(k + 1).last() == chunks@[at as int]@->0);
            }
            k += 1;
        }
        assert(blocks.take(k as int) == blocks);
    }

    /// The positions of the chunks that carry a block, in the order in which their
    /// blocks are written.
    pub fn order(chunks: &[Chunk]) -> (order: Vec<usize>)
        ensures
            is_write_order(chunks@, order@),
            order@ == write_order(chunks@),
    {
        let mut order: Vec<usize> = Vec::new();
        let mut i: usize = 0;
        while i < chunks.len()
            invariant
                i <= chunks.len(),
                forall|k: int|
                    0 <= k < order.len() ==> (#[trigger] order[k]) < i && chunks[order[k] as int]@ is Some,
                forall|j: int|
                    0 <= j < i && (#[trigger] chunks[j])@ is Some ==> order@.contains(j as usize),
                forall|a: int, b: int|
                    0 <= a < b < order.len() ==> comes_before(
                        chunks@,
                        #[trigger] order[a] as int,
                        #[trigger] order[b] as int,
                    ),
            decreases chunks.len() - i,
        {
            if chunks[i].compressed_data.is_some() {
                let len = chunks[i].len();
                let mut pos: usize = order.len();
                while pos > 0 && chunks[order[pos - 1]].len() > len
                    invariant
                        pos <= order.len(),
                        i < chunks.len(),
                        len == chunks[i as int].spec_len(),
                        forall|k: int| 0 <= k < order.len() ==> (#[trigger] order[k]) < i,
                        forall|k: int|
                            pos <= k < order.len() ==> chunks[(#[trigger] order[k]) as int].spec_len() > len,
                    decreases pos,
                {
                    pos -= 1;
                }
                let ghost before = order@;
                order.insert(pos, i);
                proof {
                    assert(order@[pos as int] == i);
                    assert forall|j: int|
                        0 <= j < i + 1 && (#[trigger] chunks[j])@ is Some implies order@.contains(
                        j as usize,
                    ) by {
                        if j < i {
                            let k = choose|k: int| 0 <= k < before.len() && before[k] == j as usize;
                            if k < pos {
                                assert(order@[k] == j as usize);
                            } else {
                                assert(order@[k + 1] == j as usize);
                            }
                        }
                    }
                    assert forall|a: int, b: int| 0 <= a < b < order.len() implies comes_before(
                        chunks@,
                        #[trigger] order[a] as int,
                        #[trigger] order[b] as int,
                    ) by {
                        let a0 = if a < pos { a } else { a - 1 };
                        let b0 = if b < pos { b } else { b - 1 };
                        if a != pos && b != pos {
                            assert(order[a] == before[a0]);
                            assert(order[b] == before[b0]);
                        } else if a == pos {
                            assert(order[b] == before[b0]);
                        } else {
                            assert(order[a] == before[a0]);
                            if pos > 0 {
                                if a < pos - 1 {
                                    assert(comes_before(chunks@, before[a] as int, before[pos - 1] as int));
                                }
                            }
                        }
                    }
                }
            }
            i += 1;
        }
        proof {
            assert(is_write_order(chunks@, order@));
            lemma_write_order_unique(chunks@, order@, write_order(chunks@));
        }
        order
    }
}

} // verus!
