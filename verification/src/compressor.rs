//! The collector: it receives what the workers send, at most once per worker, gathers
//! the blocks among it and hands them on in ascending order of length.

use vstd::prelude::*;
use std::sync::mpsc::Receiver;
use crate::error::CompressionError;
use crate::message::{all_carry, carried, Chunk, CompressionMessage, MessageView};
use crate::writer::{ascending, lemma_length_ordered_ascends, length_ordered, slot_for};

verus! {

#[verifier::external_type_specification]
#[verifier::external_body]
#[verifier::reject_recursive_types(T)]
pub struct ExReceiver<T>(Receiver<T>);

/// `Receiver::recv`: the next message, or `None` where the channel reports that every
/// sender is gone. What arrives is up to the sending threads: nothing is claimed of it.
#[verifier::external_body]
fn receive(channel: &Receiver<CompressionMessage>) -> (arrival: Option<CompressionMessage>) {
    channel.recv().ok()
}

/// How far a collection has come.
pub enum Collection {
    /// Still receiving, with the blocks gathered so far.
    Receiving(Seq<Seq<u8>>),
    /// A worker has reported the end of its input; the blocks gathered before that.
    Complete(Seq<Seq<u8>>),
    /// A worker has reported a failure.
    Failed(CompressionError),
}

/// What one receive gave, by its view: a message, or nothing where the receive failed.
pub open spec fn arrival_view(arrival: Option<CompressionMessage>) -> Option<MessageView> {
    match arrival {
        Some(message) => Some(message@),
        None => None,
    }
}

/// The collection after one more receive. A block is gathered, a failure fails the
/// collection, `Done` completes it, a failed receive changes nothing; a collection that
/// is complete or has failed stays as it is.
pub open spec fn after_arrival(collection: Collection, arrival: Option<MessageView>) -> Collection {
    match collection {
        Collection::Receiving(blocks) => match arrival {
            Some(MessageView::Data(block)) => Collection::Receiving(blocks.push(block)),
            Some(MessageView::Error(e)) => Collection::Failed(e),
            Some(MessageView::Done) => Collection::Complete(blocks),
            None => Collection::Receiving(blocks),
        },
        _ => collection,
    }
}

/// The collection after the receives `arrivals`, in order.
pub open spec fn collection_after(arrivals: Seq<Option<MessageView>>) -> Collection
    decreases arrivals.len(),
{
    if arrivals.len() == 0 {
        Collection::Receiving(Seq::empty())
    } else {
        after_arrival(collection_after(arrivals.drop_last()), arrivals.last())
    }
}

/// What a collection comes to: its blocks, or the failure.
pub open spec fn outcome_of(collection: Collection) -> Result<Seq<Seq<u8>>, CompressionError> {
    match collection {
        Collection::Receiving(blocks) => Ok(blocks),
        Collection::Complete(blocks) => Ok(blocks),
        Collection::Failed(e) => Err(e),
    }
}

/// What a collector that receives at most `limit` times makes of `arrivals`.
pub open spec fn gathered(arrivals: Seq<Option<MessageView>>, limit: nat) -> Result<
    Seq<Seq<u8>>,
    CompressionError,
> {
    if arrivals.len() <= limit {
        outcome_of(collection_after(arrivals))
    } else {
        outcome_of(collection_after(arrivals.take(limit as int)))
    }
}

/// Whether `result` holds chunks that carry the blocks of `outcome` in ascending order
/// of length, blocks of one length in their order in `outcome`; or its failure.
pub open spec fn reports(
    result: Result<Vec<Chunk>, CompressionError>,
    outcome: Result<Seq<Seq<u8>>, CompressionError>,
) -> bool {
    match outcome {
        Ok(blocks) => result matches Ok(chunks) && all_carry(chunks@) && carried(chunks@)
            == length_ordered(blocks),
        Err(e) => result == Err::<Vec<Chunk>, CompressionError>(e),
    }
}

/// The number of failed receives among `arrivals`.
pub open spec fn failed_among(arrivals: Seq<Option<MessageView>>) -> nat
    decreases arrivals.len(),
{
    if arrivals.len() == 0 {
        0
    } else if arrivals.last() is None {
        failed_among(arrivals.drop_last()) + 1
    } else {
        failed_among(arrivals.drop_last())
    }
}

/// A collection under way: what has been received so far, and the blocks among it kept
/// in ascending order of length.
pub struct Collector {
    chunks: Vec<Chunk>,
    limit: usize,
    received: usize,
    failed: usize,
    complete: bool,
    failure: Option<CompressionError>,
    log: Ghost<Seq<Option<MessageView>>>,
}

impl Collector {
    /// The receives that the collector has taken, in order.
    pub closed spec fn taken(&self) -> Seq<Option<MessageView>> {
        self.log@
    }

    /// The number of receives that the collector takes at most.
    pub closed spec fn limit(&self) -> usize {
        self.limit
    }

    /// The collector's fields hold what it has taken: the counts, the blocks in length
    /// order, and how the collection has ended.
    #[verifier::type_invariant]
    spec fn wf(&self) -> bool {
        &&& self.received == self.log@.len()
        &&& self.received <= self.limit
        &&& self.failed == failed_among(self.log@)
        &&& self.failed <= self.received
        &&& self.chunks@.len() <= self.received
        &&& match collection_after(self.log@) {
            Collection::Receiving(blocks) => {
                &&& !self.complete
                &&& self.failure is None
                &&& all_carry(self.chunks@)
                &&& carried(self.chunks@) == length_ordered(blocks)
            },
            Collection::Complete(blocks) => {
                &&& self.complete
                &&& self.failure is None
                &&& all_carry(self.chunks@)
                &&& carried(self.chunks@) == length_ordered(blocks)
            },
            Collection::Failed(e) => self.failure == Some(e),
        }
    }

    /// Whether the collector is to receive once more: it has not received `limit` times
    /// yet, and neither a `Done` nor a failure has arrived.
    pub open spec fn spec_wants_more(&self) -> bool {
        self.taken().len() < self.limit() && collection_after(self.taken()) is Receiving
    }

    /// A collector that has taken nothing and receives at most `limit` times.
    pub fn new(limit: usize) -> (collector: Self)
        ensures
            collector.limit() == limit,
            collector.taken() == Seq::<Option<MessageView>>::empty(),
    {
        let chunks: Vec<Chunk> = Vec::new();
        assert(carried(chunks@) =~= length_ordered(Seq::<Seq<u8>>::empty()));
        Collector {
            chunks,
            limit,
            received: 0,
            failed: 0,
            complete: false,
            failure: None,
            log: Ghost(Seq::empty()),
        }
    }

    /// Whether the collector is to receive once more.
    #[verifier::when_used_as_spec(spec_wants_more)]
    pub fn wants_more(&self) -> (more: bool)
        ensures
            more == self.spec_wants_more(),
    {
        proof {
            use_type_invariant(self);
        }
        self.received < self.limit && !self.complete && self.failure.is_none()
    }

    /// The number of receives so far that failed.
    pub fn failed_receives(&self) -> (n: usize)
        ensures
            n == failed_among(self.taken()),
    {
        proof {
            use_type_invariant(self);
        }
        self.failed
    }

    /// The collector after it has taken what one receive gave. A collector that is not
    /// to receive any more leaves it aside.
    pub fn accept(self, arrival: Option<CompressionMessage>) -> (next: Self)
        ensures
            next.limit() == self.limit(),
            next.taken() == if self.spec_wants_more() {
                self.taken().push(arrival_view(arrival))
            } else {
                self.taken()
            },
    {
        proof {
            use_type_invariant(&self);
        }
        if !self.wants_more() {
            return self;
        }
        let ghost longer = self.log@.push(arrival_view(arrival));
        let ghost blocks = collection_after(self.log@)->Receiving_0;
        proof {
            assert(longer.drop_last() =~= self.log@);
        }
        let Collector { chunks, limit, received, failed, complete, failure, log } = self;
        let mut chunks = chunks;
        let mut failed = failed;
        let mut complete = complete;
        let mut failure = failure;
        match arrival {
            Some(CompressionMessage::Data(block)) => {
                let len = block.len();
                let ghost sorted = carried(chunks@);
                proof {
                    lemma_length_ordered_ascends(blocks);
                    assert(blocks.push(block@).drop_last() =~= blocks);
                }
                let mut pos: usize = chunks.len();
                assert(sorted.take(pos as int) =~= sorted);
                while pos > 0 && chunks[pos - 1].len() > len
                    invariant
                        pos <= chunks.len(),
                        all_carry(chunks@),
                        sorted == carried(chunks@),
                        slot_for(sorted, len as nat) == slot_for(sorted.take(pos as int), len as nat),
                    decreases pos,
                {
                    proof {
                        assert(sorted.take(pos as int).drop_last() =~= sorted.take(pos - 1));
                        assert(sorted.take(pos as int).last() == chunks@[pos - 1]@->0);
                    }
                    pos -= 1;
                }
                proof {
                    if pos > 0 {
                        assert(sorted.take(pos as int).last() == chunks@[pos - 1]@->0);
                    }
                    assert(slot_for(sorted, len as nat) == pos);
                }
                let ghost before = chunks@;
                chunks.insert(pos, Chunk { compressed_data: Some(block) });
                proof {
                    assert(carried(chunks@) =~= sorted.insert(pos as int, block@));
                    assert forall|i: int| 0 <= i < chunks@.len() implies (#[trigger] chunks@[i])@ is Some by {
                        if i < pos {
                            assert(chunks@[i] == before[i]);
                        } else if i > pos {
                            assert(chunks@[i] == before[i - 1]);
                        }
                    }
                }
            },
            Some(CompressionMessage::Error(e)) => {
                failure = Some(e);
            },
            Some(CompressionMessage::Done) => {
                complete = true;
            },
            None => {
                failed += 1;
            },
        }
        Collector {
            chunks,
            limit,
            received: received + 1,
            failed,
            complete,
            failure,
            log: Ghost(longer),
        }
    }

    /// Ends the collection: the blocks that were gathered as chunks, in ascending order
    /// of length and, within one length, of arrival; or the failure that a worker
    /// reported.
    pub fn finish(self) -> (result: Result<Vec<Chunk>, CompressionError>)
        ensures
            self.taken().len() <= self.limit(),
            reports(result, gathered(self.taken(), self.limit() as nat)),
            result matches Ok(chunks) ==> chunks@.len() <= self.taken().len() && all_carry(
                chunks@,
            ) && ascending(carried(chunks@)),
    {
        proof {
            use_type_invariant(&self);
            match collection_after(self.log@) {
                Collection::Receiving(blocks) => lemma_length_ordered_ascends(blocks),
                Collection::Complete(blocks) => lemma_length_ordered_ascends(blocks),
                Collection::Failed(_) => {},
            }
        }
        match self.failure {
            Some(e) => Err(e),
            None => Ok(self.chunks),
        }
    }
}

/// The settings of a compression run.
pub struct Compressor {
    chunk_size: usize,
    num_threads: usize,
}

impl Compressor {
    /// The threshold at which each worker seals a block.
    pub closed spec fn spec_chunk_size(&self) -> usize {
        self.chunk_size
    }

    /// The number of workers, which is also the number of receives.
    pub closed spec fn spec_num_threads(&self) -> usize {
        self.num_threads
    }

    /// A run with `num_threads` workers that seal their blocks at `chunk_size`.
    pub fn new(chunk_size: usize, num_threads: usize) -> (compressor: Self)
        ensures
            compressor.spec_chunk_size() == chunk_size,
            compressor.spec_num_threads() == num_threads,
    {
        Compressor { chunk_size, num_threads }
    }

    /// The threshold at which each worker seals a block.
    #[verifier::when_used_as_spec(spec_chunk_size)]
    pub fn chunk_size(&self) -> (n: usize)
        ensures
            n == self.spec_chunk_size(),
    {
        self.chunk_size
    }

    /// The number of workers.
    #[verifier::when_used_as_spec(spec_num_threads)]
    pub fn num_threads(&self) -> (n: usize)
        ensures
            n == self.spec_num_threads(),
    {
        self.num_threads
    }

    /// Receives from `channel` for as long as a collector of one receive per worker
    /// wants more, and returns the collector with all that it took.
    pub fn collect(&self, channel: &Receiver<CompressionMessage>) -> (collector: Collector)
        ensures
            collector.limit() == self.num_threads(),
            collector.taken().len() <= self.num_threads(),
            !collector.spec_wants_more(),
    {
        let mut collector = Collector::new(self.num_threads);
        while collector.wants_more()
            invariant
                collector.limit() == self.num_threads(),
                collector.taken().len() <= self.num_threads(),
            decreases collector.limit() - collector.taken().len(),
        {
            collector = collector.accept(receive(channel));
        }
        collector
    }

    /// Receives from `channel` once per worker at most, and stops early at the first
    /// `Done` or failure. Returns the blocks received up to there as chunks, in
    /// ascending order of length and, within one length, of arrival; or the first
    /// failure that a worker reported.
    ///
    /// The result is what `gathered` makes of the receives that took place: there were
    /// as many as there are workers, unless one of them ended the collection.
    pub fn compress(&self, channel: &Receiver<CompressionMessage>) -> (result: Result<
        Vec<Chunk>,
        CompressionError,
    >)
        ensures
            exists|arrivals: Seq<Option<MessageView>>|
                {
                    &&& arrivals.len() <= self.num_threads()
                    &&& arrivals.len() < self.num_threads() ==> !(collection_after(
                        arrivals,
                    ) is Receiving)
                    &&& #[trigger] reports(result, gathered(arrivals, self.num_threads() as nat))
                },
            result matches Ok(chunks) ==> chunks@.len() <= self.num_threads() && all_carry(
                chunks@,
            ) && ascending(carried(chunks@)),
    {
        let collector = self.collect(channel);
        let ghost arrivals = collector.taken();
        let result = collector.finish();
        proof {
            assert(reports(result, gathered(arrivals, self.num_threads() as nat)));
        }
        result
    }
}

} // verus!
