//! What holds of a whole run: of a worker, the collector and the writer together.

use vstd::prelude::*;
use crate::codec::restored;
use crate::compressor::{collection_after, gathered, reports, Collection};
use crate::error::CompressionError;
use crate::message::{carried, Chunk, MessageView};
use crate::worker::{
    all_data, data_blocks, failure_report, input_bytes, input_ended, input_failed,
    lemma_run_extends, lemma_run_is_faithful, run_allows, step_allows, CompressionWorker,
    ReadOutcome,
};
use crate::writer::{
    layout, lemma_ascending_chunks_are_written_as_given, lemma_length_ordered_ascends,
    length_ordered, written_blocks,
};

verus! {

/// What the collector receives where `sent` is all that is sent: each message, in the
/// order sent.
pub open spec fn arrivals_from(sent: Seq<MessageView>) -> Seq<Option<MessageView>> {
    sent.map_values(|message: MessageView| Some(message))
}

/// Whether none of the first `k` receives of `arrivals` ends the collection.
pub open spec fn undecided_before(arrivals: Seq<Option<MessageView>>, k: int) -> bool {
    forall|j: int|
        0 <= j < k ==> !((#[trigger] arrivals[j]) matches Some(message) && (message is Done
            || message is Error))
}

/// A collection that has taken in only receives that do not end it is still receiving.
proof fn lemma_still_receiving(arrivals: Seq<Option<MessageView>>)
    requires
        undecided_before(arrivals, arrivals.len() as int),
    ensures
        collection_after(arrivals) is Receiving,
    decreases arrivals.len(),
{
    if arrivals.len() > 0 {
        let front = arrivals.drop_last();
        assert forall|j: int| 0 <= j < front.len() implies !((#[trigger] front[j]) matches Some(
            message,
        ) && (message is Done || message is Error)) by {
            assert(front[j] == arrivals[j]);
        }
        lemma_still_receiving(front);
        assert(arrivals.last() == arrivals[arrivals.len() - 1]);
    }
}

/// A collection that is complete or has failed after `n` receives is the same after
/// all of them.
proof fn lemma_collection_settles(arrivals: Seq<Option<MessageView>>, n: int)
    requires
        0 <= n <= arrivals.len(),
        !(collection_after(arrivals.take(n)) is Receiving),
    ensures
        collection_after(arrivals) == collection_after(arrivals.take(n)),
    decreases arrivals.len() - n,
{
    if n < arrivals.len() {
        assert(arrivals.take(n + 1).drop_last() =~= arrivals.take(n));
        lemma_collection_settles(arrivals, n + 1);
    } else {
        assert(arrivals.take(n) =~= arrivals);
    }
}

/// Failure propagation in the collector: where a worker's failure is among the
/// receives that the collector makes, and neither a failure nor a `Done` arrives
/// before it, the collection fails with that failure.
pub proof fn lemma_failure_is_reported(
    arrivals: Seq<Option<MessageView>>,
    limit: nat,
    k: int,
)
    requires
        0 <= k < arrivals.len(),
        k < limit,
        arrivals[k] matches Some(message) && message is Error,
        undecided_before(arrivals, k),
    ensures
        gathered(arrivals, limit) == Err::<Seq<Seq<u8>>, _>(arrivals[k]->0->Error_0),
{
    let seen = if arrivals.len() <= limit {
        arrivals
    } else {
        arrivals.take(limit as int)
    };
    assert(seen.take(k + 1).drop_last() =~= seen.take(k));
    assert(seen.take(k + 1).last() == arrivals[k]);
    assert forall|j: int| 0 <= j < k implies !((#[trigger] seen.take(k)[j]) matches Some(
        message,
    ) && (message is Done || message is Error)) by {
        assert(seen.take(k)[j] == arrivals[j]);
    }
    lemma_still_receiving(seen.take(k));
    lemma_collection_settles(seen, k + 1);
}

/// While only blocks arrive, the collection holds just these blocks.
proof fn lemma_collecting_blocks(sent: Seq<MessageView>)
    requires
        all_data(sent),
    ensures
        collection_after(arrivals_from(sent)) == Collection::Receiving(data_blocks(sent)),
    decreases sent.len(),
{
    if sent.len() == 0 {
        assert(data_blocks(sent) =~= Seq::<Seq<u8>>::empty());
    } else {
        assert(arrivals_from(sent).drop_last() =~= arrivals_from(sent.drop_last()));
        assert forall|i: int| 0 <= i < sent.drop_last().len() implies (
        #[trigger] sent.drop_last()[i]) is Data by {
            assert(sent.drop_last()[i] == sent[i]);
        }
        lemma_collecting_blocks(sent.drop_last());
        assert(sent.last() == sent[sent.len() - 1]);
    }
}

/// Messages that are all blocks hold as many blocks as there are messages.
proof fn lemma_all_data_len(sent: Seq<MessageView>)
    requires
        all_data(sent),
    ensures
        data_blocks(sent).len() == sent.len(),
    decreases sent.len(),
{
    if sent.len() > 0 {
        assert forall|i: int| 0 <= i < sent.drop_last().len() implies (
        #[trigger] sent.drop_last()[i]) is Data by {
            assert(sent.drop_last()[i] == sent[i]);
        }
        lemma_all_data_len(sent.drop_last());
        assert(sent.last() == sent[sent.len() - 1]);
    }
}

/// What the collector hands on depends on nothing but what arrived and how often it may
/// receive: two results for the same receives are the same failure, or chunks with the
/// same blocks in the same order, which the writer lays out as the same bytes in the
/// order given.
pub proof fn lemma_results_rest_on_arrivals(
    first: Result<Vec<Chunk>, CompressionError>,
    second: Result<Vec<Chunk>, CompressionError>,
    arrivals: Seq<Option<MessageView>>,
    limit: nat,
)
    requires
        reports(first, gathered(arrivals, limit)),
        reports(second, gathered(arrivals, limit)),
    ensures
        first is Err ==> second == first,
        first matches Ok(chunks) ==> (second matches Ok(others) && carried(others@) == carried(
            chunks@,
        ) && layout(others@) == layout(chunks@) && written_blocks(chunks@) == carried(chunks@)),
{
    if first is Ok {
        let chunks = first->Ok_0;
        let others = second->Ok_0;
        lemma_length_ordered_ascends(gathered(arrivals, limit)->Ok_0);
        assert(chunks@.len() == chunks.len() && others@.len() == others.len());
        lemma_ascending_chunks_are_written_as_given(chunks@);
        lemma_ascending_chunks_are_written_as_given(others@);
    }
}

/// A single block is in length order as it stands.
proof fn lemma_length_ordered_of_one(blocks: Seq<Seq<u8>>)
    requires
        blocks.len() == 1,
    ensures
        length_ordered(blocks) == blocks,
{
    assert(blocks.drop_last() =~= Seq::<Seq<u8>>::empty());
    assert(length_ordered(blocks.drop_last()) =~= Seq::<Seq<u8>>::empty());
    assert(length_ordered(blocks) =~= blocks);
}

/// Round trip with a single worker. Take a worker that starts with nothing taken in,
/// reaches the end of its input and sends one block in all; let the collector make its
/// one receive from it, and let the writer lay out what was collected. Then decoding
/// the written blocks, each on its own and in the order written, gives back the input:
/// all of its bytes, in order.
///
/// A worker that seals a block before the end of its input sends more than one; the
/// collector's one receive then takes the first of them only, and the rest of the
/// input is not in the output.
pub proof fn lemma_single_worker_round_trip(
    pre: CompressionWorker,
    reads: Seq<ReadOutcome>,
    post: CompressionWorker,
    sent: Seq<MessageView>,
    collected: Result<Vec<Chunk>, CompressionError>,
)
    requires
        pre.is_running(),
        pre.pending() == Seq::<u8>::empty(),
        run_allows(pre, reads, post, sent),
        sent.len() > 0 && sent.last() is Done,
        data_blocks(sent).len() == 1,
        reports(collected, gathered(arrivals_from(sent), 1)),
    ensures
        collected matches Ok(chunks) && chunks@.len() == 1 && written_blocks(chunks@)
            == data_blocks(sent) && restored(written_blocks(chunks@)) == Some(input_bytes(reads)),
{
    lemma_run_is_faithful(pre, reads, post, sent);
    let blocks = sent.drop_last();
    lemma_all_data_len(blocks);
    assert(sent.len() == 2);
    let arrivals = arrivals_from(sent);
    assert(arrivals.take(1) =~= arrivals_from(blocks));
    lemma_collecting_blocks(blocks);
    assert(gathered(arrivals, 1) == Ok::<_, CompressionError>(data_blocks(sent)));
    lemma_length_ordered_of_one(data_blocks(sent));
    let chunks = collected->Ok_0;
    assert(chunks@.len() == carried(chunks@).len());
    lemma_length_ordered_ascends(data_blocks(sent));
    lemma_ascending_chunks_are_written_as_given(chunks@);
    assert(pre.pending() + input_bytes(reads) =~= input_bytes(reads));
}

/// Empty input with a single worker. A worker whose first read finds the end of the
/// input, and whose encoder does not fail to seal, sends exactly one block and `Done`;
/// the collector gathers that one block, and what the writer lays out decodes to no
/// bytes.
pub proof fn lemma_empty_input(
    pre: CompressionWorker,
    outcome: ReadOutcome,
    post: CompressionWorker,
    sent: Seq<MessageView>,
    collected: Result<Vec<Chunk>, CompressionError>,
)
    requires
        pre.is_running(),
        pre.pending() == Seq::<u8>::empty(),
        outcome matches ReadOutcome::Bytes(bytes) && bytes@.len() == 0,
        step_allows(pre, outcome, post, sent),
        !failure_report(sent),
        reports(collected, gathered(arrivals_from(sent), 1)),
    ensures
        sent.len() == 2 && sent[0] is Data && sent[1] is Done,
        collected matches Ok(chunks) && chunks@.len() == 1 && restored(written_blocks(chunks@))
            == Some(Seq::<u8>::empty()),
{
    let none = Seq::<ReadOutcome>::empty();
    let reads = none.push(outcome);
    lemma_run_extends(pre, none, pre, Seq::<MessageView>::empty(), outcome, post, sent);
    assert(Seq::<MessageView>::empty() + sent =~= sent);
    assert(sent.drop_last() =~= seq![sent[0]]);
    assert(seq![sent[0]].drop_last() =~= Seq::<MessageView>::empty());
    assert(data_blocks(seq![sent[0]].drop_last()) =~= Seq::<Seq<u8>>::empty());
    assert(data_blocks(sent.drop_last()).len() == 1);
    assert(data_blocks(sent).len() == 1);
    lemma_single_worker_round_trip(pre, reads, post, sent, collected);
    assert(reads.drop_last() =~= none);
    assert(!input_ended(none));
    assert(input_bytes(none) =~= Seq::<u8>::empty());
    assert(input_bytes(reads) =~= Seq::<u8>::empty());
}

/// Failure propagation through a run. A worker whose input ends in a failed read ends
/// with a failure as its last message. Where the collector receives all that the worker
/// sent, the collection fails with that failure.
///
/// With fewer receives than messages the failure need not arrive: a worker that sealed
/// a block before its read failed sends two messages, and a collector with one receive
/// takes the block and reports success.
pub proof fn lemma_read_failure_fails_the_run(
    pre: CompressionWorker,
    reads: Seq<ReadOutcome>,
    post: CompressionWorker,
    sent: Seq<MessageView>,
    limit: nat,
)
    requires
        pre.is_running(),
        run_allows(pre, reads, post, sent),
        input_failed(reads),
        sent.len() <= limit,
    ensures
        sent.len() > 0,
        sent.last() matches MessageView::Error(e) && e is IOError && gathered(
            arrivals_from(sent),
            limit,
        ) == Err::<Seq<Seq<u8>>, _>(e),
{
    lemma_run_is_faithful(pre, reads, post, sent);
    let i = choose|i: int|
        0 <= i < reads.len() && (#[trigger] reads[i]) is Failed && forall|j: int|
            0 <= j < i ==> !(#[trigger] reads[j]).ends_input();
    assert(reads[i].ends_input());
    assert(input_ended(reads));
    assert(seq![sent.last()][0] == sent.last());
    let arrivals = arrivals_from(sent);
    assert(arrivals.drop_last() =~= arrivals_from(sent.drop_last()));
    lemma_collecting_blocks(sent.drop_last());
    assert(arrivals.last() == Some(sent.last()));
}

} // verus!
