//! The chunk worker: it takes in what it reads, seals a block whenever the encoder has
//! delivered enough compressed bytes, and reports blocks and failures as messages.

use vstd::prelude::*;
use crate::codec::{
    absorbed, delivered, delivered_len, fresh_encoder, inflated, level_of, push_bytes,
    push_fails, restored, seal, seal_fails, BlockEncoder, BEST_LEVEL,
};
use crate::error::CompressionError;
use crate::message::{message_views, CompressionMessage, MessageView};

verus! {

/// What one read of the input gave.
pub enum ReadOutcome {
    /// The bytes that were read; none at the end of the input.
    Bytes(Vec<u8>),
    /// The read failed.
    Failed(std::io::Error),
}

impl ReadOutcome {
    /// Whether a running worker ends on this outcome without looking at an encoder:
    /// the end of the input, or a failed read.
    pub open spec fn ends_input(&self) -> bool {
        match self {
            ReadOutcome::Bytes(bytes) => bytes@.len() == 0,
            ReadOutcome::Failed(_) => true,
        }
    }
}

/// A worker that compresses what it is handed, block by block.
pub struct CompressionWorker {
    chunk_size: usize,
    encoder: Option<BlockEncoder>,
}

/// Whether `sent` is the report of a failure in the I/O layer and nothing else.
pub open spec fn failure_report(sent: Seq<MessageView>) -> bool {
    sent.len() == 1 && (sent[0] matches MessageView::Error(e) && e is IOError)
}

/// Whether `sent` is one block of at least `floor` bytes that decodes to `raw`,
/// followed by `Done` where `last`.
pub open spec fn block_report(raw: Seq<u8>, last: bool, floor: nat, sent: Seq<MessageView>) -> bool {
    &&& sent.len() == if last { 2nat } else { 1nat }
    &&& sent[0] matches MessageView::Data(block) && inflated(block) == Some(raw) && block.len()
        >= floor
    &&& last ==> sent[1] is Done
}

/// Whether sealing `encoder` gives the report `sent`: the failure alone where the seal
/// fails, and else the block, which decodes to what the encoder took in and is no
/// shorter than what it had delivered.
pub open spec fn seal_report(encoder: BlockEncoder, last: bool, sent: Seq<MessageView>) -> bool {
    if seal_fails(encoder) {
        failure_report(sent)
    } else {
        block_report(absorbed(encoder), last, delivered_len(encoder), sent)
    }
}

/// Whether a worker in state `pre` that is handed `outcome` may end in state `post`
/// having sent `sent`. The worker reports a failure of the encoder only where the
/// encoder failed: at the end of the input where the seal fails, on bytes where the
/// push fails, or where the push has brought the encoder to the threshold and the seal
/// fails. The encoder's buffering decides when the threshold is reached.
pub open spec fn step_allows(
    pre: CompressionWorker,
    outcome: ReadOutcome,
    post: CompressionWorker,
    sent: Seq<MessageView>,
) -> bool {
    &&& post.threshold() == pre.threshold()
    &&& pre.at_best_level() ==> post.at_best_level()
    &&& if !pre.is_running() {
        post == pre && sent.len() == 0
    } else {
        match outcome {
            ReadOutcome::Failed(e) => !post.is_running() && sent == seq![
                MessageView::Error(CompressionError::IOError(e)),
            ],
            ReadOutcome::Bytes(bytes) => if bytes@.len() == 0 {
                !post.is_running() && seal_report(pre.current()->0, true, sent)
            } else if push_fails(pre.current()->0, bytes@) {
                !post.is_running() && failure_report(sent)
            } else {
                exists|full: BlockEncoder|
                    #![trigger absorbed(full)]
                    absorbed(full) == pre.pending() + bytes@ && level_of(full) == level_of(
                        pre.current()->0,
                    ) && if delivered_len(full) >= pre.threshold() {
                        &&& seal_report(full, false, sent)
                        &&& post.is_running() <==> !seal_fails(full)
                        &&& post.is_running() ==> post.pending() == Seq::<u8>::empty()
                    } else {
                        post.current() == Some(full) && sent.len() == 0
                    }
            },
        }
    }
}

/// Whether a worker in state `pre` that is handed `reads` one after another may end in
/// state `post` having sent `sent` in all.
pub open spec fn run_allows(
    pre: CompressionWorker,
    reads: Seq<ReadOutcome>,
    post: CompressionWorker,
    sent: Seq<MessageView>,
) -> bool
    decreases reads.len(),
{
    if reads.len() == 0 {
        post == pre && sent.len() == 0
    } else {
        exists|mid: CompressionWorker, k: int|
            0 <= k <= sent.len() && run_allows(pre, reads.drop_last(), mid, sent.take(k))
                && #[trigger] step_allows(mid, reads.last(), post, sent.skip(k))
    }
}

/// Whether some outcome among `reads` ends the input.
pub open spec fn input_ended(reads: Seq<ReadOutcome>) -> bool {
    exists|i: int| 0 <= i < reads.len() && (#[trigger] reads[i]).ends_input()
}

/// Whether the first outcome among `reads` that ends the input is a failed read.
pub open spec fn input_failed(reads: Seq<ReadOutcome>) -> bool {
    exists|i: int|
        0 <= i < reads.len() && (#[trigger] reads[i]) is Failed && forall|j: int|
            0 <= j < i ==> !(#[trigger] reads[j]).ends_input()
}

/// The bytes that `reads` hold before the first outcome that ends the input.
pub open spec fn input_bytes(reads: Seq<ReadOutcome>) -> Seq<u8>
    decreases reads.len(),
{
    if reads.len() == 0 {
        Seq::empty()
    } else if input_ended(reads.drop_last()) {
        input_bytes(reads.drop_last())
    } else {
        match reads.last() {
            ReadOutcome::Bytes(bytes) => input_bytes(reads.drop_last()) + bytes@,
            ReadOutcome::Failed(_) => input_bytes(reads.drop_last()),
        }
    }
}

/// The blocks of the `Data` messages among `sent`, in order.
pub open spec fn data_blocks(sent: Seq<MessageView>) -> Seq<Seq<u8>>
    decreases sent.len(),
{
    if sent.len() == 0 {
        Seq::empty()
    } else {
        match sent.last() {
            MessageView::Data(block) => data_blocks(sent.drop_last()).push(block),
            _ => data_blocks(sent.drop_last()),
        }
    }
}

/// Whether each block among the first `n` messages of `sent` has at least `floor` bytes.
pub open spec fn long_blocks(sent: Seq<MessageView>, n: int, floor: nat) -> bool {
    forall|i: int|
        0 <= i < n && i < sent.len() && (#[trigger] sent[i]) is Data ==> sent[i]->Data_0.len()
            >= floor
}

/// Whether every message of `sent` is a block.
pub open spec fn all_data(sent: Seq<MessageView>) -> bool {
    forall|i: int| 0 <= i < sent.len() ==> (#[trigger] sent[i]) is Data
}

/// Whether what a worker has sent is true to what it has read. Every block it sent
/// decodes, and every block that it sealed before the end of its input is at least as
/// long as its threshold. While it runs it has sent blocks only, and their decoded bytes
/// followed by what it still holds are the bytes it was handed. Once it has ended, its
/// last message is `Done` or a failure in the I/O layer, with blocks only before that;
/// the block in front of `Done` is the one sealed at the end of the input. Where it is
/// `Done`, the input has ended without a failed read, at least one block was sent, and
/// the decoded bytes of the blocks are the bytes of the input, all of them and in order.
pub open spec fn faithful(
    pre: CompressionWorker,
    reads: Seq<ReadOutcome>,
    post: CompressionWorker,
    sent: Seq<MessageView>,
) -> bool {
    &&& restored(data_blocks(sent)) is Some
    &&& post.threshold() == pre.threshold()
    &&& long_blocks(
        sent,
        if post.is_running() {
            sent.len() as int
        } else if sent.len() > 0 && sent.last() is Done {
            sent.len() - 2
        } else {
            sent.len() - 1
        },
        pre.threshold() as nat,
    )
    &&& if post.is_running() {
        &&& !input_ended(reads)
        &&& all_data(sent)
        &&& restored(data_blocks(sent))->0 + post.pending() == pre.pending() + input_bytes(reads)
    } else {
        &&& sent.len() > 0
        &&& all_data(sent.drop_last())
        &&& sent.last() is Done || failure_report(seq![sent.last()])
        &&& sent.last() is Done ==> {
            &&& sent.len() >= 2
            &&& input_ended(reads)
            &&& !input_failed(reads)
            &&& restored(data_blocks(sent))->0 == pre.pending() + input_bytes(reads)
        }
    }
}

/// The blocks of two runs of messages are the blocks of the first followed by those of
/// the second.
pub proof fn lemma_data_blocks_concat(first: Seq<MessageView>, second: Seq<MessageView>)
    ensures
        data_blocks(first + second) == data_blocks(first) + data_blocks(second),
    decreases second.len(),
{
    if second.len() == 0 {
        assert(first + second =~= first);
        assert(data_blocks(first) + data_blocks(second) =~= data_blocks(first));
    } else {
        assert((first + second).drop_last() =~= first + second.drop_last());
        assert((first + second).last() == second.last());
        lemma_data_blocks_concat(first, second.drop_last());
        assert(data_blocks(first + second) =~= data_blocks(first) + data_blocks(second));
    }
}

/// The input has ended after one more read if it had ended before or that read ends it.
proof fn lemma_input_ended_push(reads: Seq<ReadOutcome>, outcome: ReadOutcome)
    ensures
        input_ended(reads.push(outcome)) <==> input_ended(reads) || outcome.ends_input(),
{
    let longer = reads.push(outcome);
    if input_ended(reads) {
        let i = choose|i: int| 0 <= i < reads.len() && (#[trigger] reads[i]).ends_input();
        assert(longer[i].ends_input());
    }
    if outcome.ends_input() {
        assert(longer[reads.len() as int].ends_input());
    }
    if input_ended(longer) {
        let i = choose|i: int| 0 <= i < longer.len() && (#[trigger] longer[i]).ends_input();
        if i < reads.len() {
            assert(reads[i].ends_input());
        }
    }
}

/// After one more read the input has ended in a failed read if it had before, or if it
/// had not ended and that read failed.
proof fn lemma_input_failed_push(reads: Seq<ReadOutcome>, outcome: ReadOutcome)
    ensures
        input_failed(reads.push(outcome)) <==> input_failed(reads) || (!input_ended(reads)
            && outcome is Failed),
{
    let longer = reads.push(outcome);
    if input_failed(reads) {
        let i = choose|i: int|
            0 <= i < reads.len() && (#[trigger] reads[i]) is Failed && forall|j: int|
                0 <= j < i ==> !(#[trigger] reads[j]).ends_input();
        assert(longer[i] is Failed);
        assert forall|j: int| 0 <= j < i implies !(#[trigger] longer[j]).ends_input() by {
            assert(longer[j] == reads[j]);
        }
    }
    if !input_ended(reads) && outcome is Failed {
        let i = reads.len() as int;
        assert(longer[i] is Failed);
        assert forall|j: int| 0 <= j < i implies !(#[trigger] longer[j]).ends_input() by {
            assert(longer[j] == reads[j]);
        }
    }
    if input_failed(longer) {
        let i = choose|i: int|
            0 <= i < longer.len() && (#[trigger] longer[i]) is Failed && forall|j: int|
                0 <= j < i ==> !(#[trigger] longer[j]).ends_input();
        if i < reads.len() {
            assert(reads[i] is Failed);
            assert forall|j: int| 0 <= j < i implies !(#[trigger] reads[j]).ends_input() by {
                assert(longer[j] == reads[j]);
            }
        } else {
            assert forall|j: int| 0 <= j < reads.len() implies !(#[trigger] reads[j]).ends_input() by {
                assert(longer[j] == reads[j]);
            }
        }
    }
}

/// Decoding one more block that decodes adds its bytes behind the others.
proof fn lemma_restored_push(blocks: Seq<Seq<u8>>, block: Seq<u8>)
    requires
        restored(blocks) is Some,
        inflated(block) is Some,
    ensures
        restored(blocks.push(block)) == Some(restored(blocks)->0 + inflated(block)->0),
{
    assert(blocks.push(block).drop_last() =~= blocks);
}

/// One more step keeps a worker true to what it has read.
pub proof fn lemma_step_keeps_faithful(
    pre: CompressionWorker,
    reads: Seq<ReadOutcome>,
    mid: CompressionWorker,
    sent: Seq<MessageView>,
    outcome: ReadOutcome,
    post: CompressionWorker,
    more: Seq<MessageView>,
)
    requires
        faithful(pre, reads, mid, sent),
        step_allows(mid, outcome, post, more),
    ensures
        faithful(pre, reads.push(outcome), post, sent + more),
{
    let longer = reads.push(outcome);
    let all = sent + more;
    assert(longer.drop_last() =~= reads);
    lemma_input_ended_push(reads, outcome);
    lemma_input_failed_push(reads, outcome);
    lemma_data_blocks_concat(sent, more);
    if more.len() > 0 {
        assert(all.last() == more.last());
    }
    if !mid.is_running() || more.len() == 0 {
        assert(all =~= sent);
        assert(data_blocks(more) =~= Seq::<Seq<u8>>::empty());
        assert(data_blocks(all) =~= data_blocks(sent));
        if mid.is_running() && post.is_running() {
            let decoded = restored(data_blocks(sent))->0;
            let bytes = outcome->Bytes_0@;
            assert(decoded + (mid.pending() + bytes) =~= (decoded + mid.pending()) + bytes);
            assert((pre.pending() + input_bytes(reads)) + bytes =~= pre.pending() + (
            input_bytes(reads) + bytes));
        }
    } else if more.len() == 1 {
        lemma_data_blocks_of_one(more[0]);
        assert(more =~= seq![more[0]]);
        assert(all.drop_last() =~= sent);
        if more[0] is Data {
            let block = more[0]->Data_0;
            let bytes = outcome->Bytes_0@;
            let decoded = restored(data_blocks(sent))->0;
            assert(data_blocks(all) =~= data_blocks(sent).push(block));
            lemma_restored_push(data_blocks(sent), block);
            assert forall|i: int| 0 <= i < all.len() implies (#[trigger] all[i]) is Data by {
                if i < sent.len() {
                    assert(all[i] == sent[i]);
                }
            }
            assert((decoded + (mid.pending() + bytes)) + post.pending() =~= (decoded
                + mid.pending()) + bytes);
            assert((pre.pending() + input_bytes(reads)) + bytes =~= pre.pending() + (
            input_bytes(reads) + bytes));
        } else {
            assert(data_blocks(all) =~= data_blocks(sent));
        }
    } else {
        let block = more[0]->Data_0;
        let decoded = restored(data_blocks(sent))->0;
        lemma_data_blocks_of_one(more[0]);
        lemma_data_blocks_of_one(more[1]);
        assert(more =~= seq![more[0]] + seq![more[1]]);
        lemma_data_blocks_concat(seq![more[0]], seq![more[1]]);
        assert(data_blocks(more) =~= seq![block]);
        assert(data_blocks(all) =~= data_blocks(sent).push(block));
        lemma_restored_push(data_blocks(sent), block);
        assert forall|i: int| 0 <= i < all.drop_last().len() implies (
        #[trigger] all.drop_last()[i]) is Data by {
            if i < sent.len() {
                assert(all.drop_last()[i] == sent[i]);
            } else {
                assert(all.drop_last()[i] == more[0]);
            }
        }
        assert(input_bytes(longer) =~= input_bytes(reads));
        assert(seq![all.last()] =~= seq![more[1]]);
    }
}

/// The blocks of a single message: its block where it is one, none otherwise.
proof fn lemma_data_blocks_of_one(message: MessageView)
    ensures
        data_blocks(seq![message]) == match message {
            MessageView::Data(block) => seq![block],
            _ => Seq::<Seq<u8>>::empty(),
        },
{
    assert(seq![message].drop_last() =~= Seq::<MessageView>::empty());
    assert(data_blocks(seq![message].drop_last()) =~= Seq::<Seq<u8>>::empty());
    assert(data_blocks(seq![message]) =~= match message {
        MessageView::Data(block) => seq![block],
        _ => Seq::<Seq<u8>>::empty(),
    });
}

/// Round trip of one worker: whatever a worker that started running was handed, what it
/// has sent is true to it. In particular, where its last message is `Done`, decoding the
/// blocks it sent, each on its own and in the order sent, gives back the bytes that it
/// held at the start followed by the bytes of its input.
pub proof fn lemma_run_is_faithful(
    pre: CompressionWorker,
    reads: Seq<ReadOutcome>,
    post: CompressionWorker,
    sent: Seq<MessageView>,
)
    requires
        pre.is_running(),
        run_allows(pre, reads, post, sent),
    ensures
        faithful(pre, reads, post, sent),
    decreases reads.len(),
{
    if reads.len() == 0 {
        assert(data_blocks(sent) =~= Seq::<Seq<u8>>::empty());
        assert(Seq::<u8>::empty() + post.pending() =~= pre.pending() + input_bytes(reads));
    } else {
        let (mid, k) = choose|mid: CompressionWorker, k: int|
            0 <= k <= sent.len() && run_allows(pre, reads.drop_last(), mid, sent.take(k))
                && #[trigger] step_allows(mid, reads.last(), post, sent.skip(k));
        lemma_run_is_faithful(pre, reads.drop_last(), mid, sent.take(k));
        lemma_step_keeps_faithful(
            pre,
            reads.drop_last(),
            mid,
            sent.take(k),
            reads.last(),
            post,
            sent.skip(k),
        );
        assert(reads.drop_last().push(reads.last()) =~= reads);
        assert(sent.take(k) + sent.skip(k) =~= sent);
    }
}

/// Whether the encoder fails on no push and on no seal, whatever its state.
pub open spec fn encoder_never_fails() -> bool {
    &&& forall|encoder: BlockEncoder, bytes: Seq<u8>| !#[trigger] push_fails(encoder, bytes)
    &&& forall|encoder: BlockEncoder| !#[trigger] seal_fails(encoder)
}

/// The failure of the read that ends the input, where a failed read ends it.
pub open spec fn input_failure(reads: Seq<ReadOutcome>) -> Option<std::io::Error>
    decreases reads.len(),
{
    if reads.len() == 0 {
        None
    } else if input_ended(reads.drop_last()) {
        input_failure(reads.drop_last())
    } else {
        match reads.last() {
            ReadOutcome::Failed(e) => Some(e),
            ReadOutcome::Bytes(_) => None,
        }
    }
}

/// Whether a worker has ended just as its input asks: it runs as long as the input has
/// not ended; once the input has ended in a failed read, its last message is that
/// failure; once the input has ended without one, its last message is `Done`.
pub open spec fn ends_as_input(
    reads: Seq<ReadOutcome>,
    post: CompressionWorker,
    sent: Seq<MessageView>,
) -> bool {
    &&& post.is_running() <==> !input_ended(reads)
    &&& !post.is_running() ==> sent.len() > 0 && match input_failure(reads) {
        Some(e) => sent.last() == MessageView::Error(CompressionError::IOError(e)),
        None => sent.last() is Done,
    }
}

/// With an encoder that never fails, one more step keeps a worker ending as its input
/// asks.
pub proof fn lemma_step_ends_as_input(
    reads: Seq<ReadOutcome>,
    mid: CompressionWorker,
    sent: Seq<MessageView>,
    outcome: ReadOutcome,
    post: CompressionWorker,
    more: Seq<MessageView>,
)
    requires
        encoder_never_fails(),
        ends_as_input(reads, mid, sent),
        step_allows(mid, outcome, post, more),
    ensures
        ends_as_input(reads.push(outcome), post, sent + more),
{
    let longer = reads.push(outcome);
    let all = sent + more;
    assert(longer.drop_last() =~= reads);
    lemma_input_ended_push(reads, outcome);
    if !mid.is_running() {
        assert(all =~= sent);
    } else {
        if more.len() > 0 {
            assert(all.last() == more.last());
        }
        match outcome {
            ReadOutcome::Failed(e) => {},
            ReadOutcome::Bytes(bytes) => {
                if bytes@.len() == 0 {
                    assert(!seal_fails(mid.current()->0));
                } else {
                    assert(!push_fails(mid.current()->0, bytes@));
                }
            },
        }
    }
}

/// With an encoder that never fails, the input alone decides how a worker ends. A
/// worker that started running runs as long as its input has not ended. Where the input
/// ends without a failed read, the worker's last message is `Done`, and decoding the
/// blocks it sent, in the order sent, gives back the bytes it held at the start
/// followed by the bytes of the input: none lost, none added, none out of place. Where
/// the input ends in a failed read, the worker's last message is that failure, with
/// blocks only before it.
pub proof fn lemma_run_ends_as_input(
    pre: CompressionWorker,
    reads: Seq<ReadOutcome>,
    post: CompressionWorker,
    sent: Seq<MessageView>,
)
    requires
        encoder_never_fails(),
        pre.is_running(),
        run_allows(pre, reads, post, sent),
    ensures
        ends_as_input(reads, post, sent),
        faithful(pre, reads, post, sent),
    decreases reads.len(),
{
    lemma_run_is_faithful(pre, reads, post, sent);
    if reads.len() > 0 {
        let (mid, k) = choose|mid: CompressionWorker, k: int|
            0 <= k <= sent.len() && run_allows(pre, reads.drop_last(), mid, sent.take(k))
                && #[trigger] step_allows(mid, reads.last(), post, sent.skip(k));
        lemma_run_ends_as_input(pre, reads.drop_last(), mid, sent.take(k));
        lemma_step_ends_as_input(
            reads.drop_last(),
            mid,
            sent.take(k),
            reads.last(),
            post,
            sent.skip(k),
        );
        assert(reads.drop_last().push(reads.last()) =~= reads);
        assert(sent.take(k) + sent.skip(k) =~= sent);
    }
}

/// Two runs over the same input agree on what they stand for: where both end with
/// `Done`, the blocks of the one decode to the same bytes as the blocks of the other.
pub proof fn lemma_runs_agree_on_content(
    pre: CompressionWorker,
    reads: Seq<ReadOutcome>,
    post: CompressionWorker,
    sent: Seq<MessageView>,
    other_pre: CompressionWorker,
    other_post: CompressionWorker,
    other_sent: Seq<MessageView>,
)
    requires
        pre.is_running(),
        other_pre.is_running(),
        pre.pending() == other_pre.pending(),
        run_allows(pre, reads, post, sent),
        run_allows(other_pre, reads, other_post, other_sent),
        sent.len() > 0 && sent.last() is Done,
        other_sent.len() > 0 && other_sent.last() is Done,
    ensures
        restored(data_blocks(sent)) == restored(data_blocks(other_sent)),
{
    lemma_run_is_faithful(pre, reads, post, sent);
    lemma_run_is_faithful(other_pre, reads, other_post, other_sent);
}

/// A run followed by one more step is a run over one more read.
pub proof fn lemma_run_extends(
    pre: CompressionWorker,
    reads: Seq<ReadOutcome>,
    mid: CompressionWorker,
    sent: Seq<MessageView>,
    outcome: ReadOutcome,
    post: CompressionWorker,
    more: Seq<MessageView>,
)
    requires
        run_allows(pre, reads, mid, sent),
        step_allows(mid, outcome, post, more),
    ensures
        run_allows(pre, reads.push(outcome), post, sent + more),
{
    let all = sent + more;
    let k = sent.len() as int;
    assert(reads.push(outcome).drop_last() =~= reads);
    assert(all.take(k) =~= sent);
    assert(all.skip(k) =~= more);
    assert(run_allows(pre, reads.push(outcome).drop_last(), mid, all.take(k)));
    assert(step_allows(mid, reads.push(outcome).last(), post, all.skip(k)));
}

/// Whether an encoder that has delivered `delivered` compressed bytes is due to be
/// sealed under the threshold `chunk_size`.
pub fn reached_threshold(delivered: usize, chunk_size: usize) -> (due: bool)
    ensures
        due == (delivered >= chunk_size),
{
    delivered >= chunk_size
}

/// The message that reports a failure in the I/O layer, alone.
pub fn failure_messages(failure: std::io::Error) -> (sent: Vec<CompressionMessage>)
    ensures
        message_views(sent@) == seq![MessageView::Error(CompressionError::IOError(failure))],
{
    let mut sent: Vec<CompressionMessage> = Vec::new();
    sent.push(CompressionMessage::Error(CompressionError::IOError(failure)));
    assert(message_views(sent@) =~= seq![
        MessageView::Error(CompressionError::IOError(failure)),
    ]);
    sent
}

/// The messages that report how sealing a block went: the block, followed by `Done`
/// where it is the `last` one, or the failure alone.
pub fn block_messages(sealed: Result<Vec<u8>, std::io::Error>, last: bool) -> (sent: Vec<
    CompressionMessage,
>)
    ensures
        message_views(sent@) == match sealed {
            Ok(block) => if last {
                seq![MessageView::Data(block@), MessageView::Done]
            } else {
                seq![MessageView::Data(block@)]
            },
            Err(e) => seq![MessageView::Error(CompressionError::IOError(e))],
        },
{
    match sealed {
        Ok(block) => {
            let mut sent: Vec<CompressionMessage> = Vec::new();
            sent.push(CompressionMessage::Data(block));
            if last {
                sent.push(CompressionMessage::Done);
            }
            assert(message_views(sent@) =~= if last {
                seq![MessageView::Data(block@), MessageView::Done]
            } else {
                seq![MessageView::Data(block@)]
            });
            sent
        },
        Err(e) => failure_messages(e),
    }
}

impl CompressionWorker {
    /// The number of delivered compressed bytes at which the worker seals a block.
    pub closed spec fn threshold(&self) -> usize {
        self.chunk_size
    }

    /// The encoder of the block that is being built; `None` once the worker has ended.
    pub closed spec fn current(&self) -> Option<BlockEncoder> {
        self.encoder
    }

    /// Whether the worker still takes input.
    pub open spec fn is_running(&self) -> bool {
        self.current() is Some
    }

    /// The bytes taken in since the last block was sealed.
    pub open spec fn pending(&self) -> Seq<u8> {
        absorbed(self.current()->0)
    }

    /// Whether the block that is being built is compressed at the best level.
    pub open spec fn at_best_level(&self) -> bool {
        self.is_running() ==> level_of(self.current()->0) == BEST_LEVEL
    }

    /// A worker that has taken in nothing and seals a block once its encoder has
    /// delivered `chunk_size` compressed bytes.
    pub fn new(chunk_size: usize) -> (worker: Self)
        ensures
            worker.threshold() == chunk_size,
            worker.is_running(),
            worker.at_best_level(),
            worker.pending() == Seq::<u8>::empty(),
    {
        CompressionWorker { chunk_size, encoder: Some(fresh_encoder()) }
    }

    /// The threshold that the worker was made with.
    pub fn chunk_size(&self) -> (n: usize)
        ensures
            n == self.threshold(),
    {
        self.chunk_size
    }

    /// Whether the worker still takes input.
    pub fn running(&self) -> (b: bool)
        ensures
            b == self.is_running(),
    {
        self.encoder.is_some()
    }

    /// Hands the worker the outcome of one read and returns the messages it sends in
    /// answer, in order. A worker that has ended sends nothing and stays as it is.
    pub fn step(&mut self, outcome: ReadOutcome) -> (sent: Vec<CompressionMessage>)
        ensures
            step_allows(*old(self), outcome, *final(self), message_views(sent@)),
    {
        let mut sent: Vec<CompressionMessage> = Vec::new();
        match self.encoder.take() {
            None => {
                assert(*self == *old(self));
            },
            Some(mut encoder) => {
                match outcome {
                    ReadOutcome::Failed(e) => {
                        sent = failure_messages(e);
                    },
                    ReadOutcome::Bytes(bytes) => {
                        if bytes.len() == 0 {
                            sent = block_messages(seal(encoder), true);
                        } else {
                            match push_bytes(&mut encoder, bytes.as_slice()) {
                                Err(e) => {
                                    sent = failure_messages(e);
                                },
                                Ok(()) => {
                                    if reached_threshold(delivered(&encoder), self.chunk_size) {
                                        let sealed = seal(encoder);
                                        if sealed.is_ok() {
                                            self.encoder = Some(fresh_encoder());
                                        }
                                        sent = block_messages(sealed, false);
                                    } else {
                                        self.encoder = Some(encoder);
                                    }
                                },
                            }
                        }
                    },
                }
            },
        }
        sent
    }

    /// Hands the worker the outcomes `reads` one after another and returns all that it
    /// sends, in order.
    pub fn run(&mut self, reads: Vec<ReadOutcome>) -> (sent: Vec<CompressionMessage>)
        ensures
            run_allows(*old(self), reads@, *final(self), message_views(sent@)),
    {
        let mut sent: Vec<CompressionMessage> = Vec::new();
        let ghost mut count: int = 0;
        for outcome in it: reads
            invariant
                count == it.index(),
                it.seq() == reads@,
                run_allows(*old(self), reads@.take(count), *self, message_views(sent@)),
        {
            let ghost before = *self;
            let ghost sent_before = message_views(sent@);
            let mut part = self.step(outcome);
            let ghost part_views = message_views(part@);
            sent.append(&mut part);
            proof {
                let now = message_views(sent@);
                assert(now =~= sent_before + part_views);
                assert(reads@.take(count + 1) =~= reads@.take(count).push(outcome));
                lemma_run_extends(
                    *old(self),
                    reads@.take(count),
                    before,
                    sent_before,
                    outcome,
                    *self,
                    part_views,
                );
                count = count + 1;
            }
        }
        proof {
            assert(reads@.take(count) =~= reads@);
        }
        sent
    }
}

} // verus!
