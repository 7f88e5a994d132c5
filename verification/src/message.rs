//! The values that travel from the workers to the collector and on to the writer.

use vstd::prelude::*;
use crate::error::CompressionError;

verus! {

/// One independently finalized compressed block, or the lack of one.
pub struct Chunk {
    /// The compressed bytes; `None` where nothing was produced.
    pub compressed_data: Option<Vec<u8>>,
}

impl View for Chunk {
    type V = Option<Seq<u8>>;

    open spec fn view(&self) -> Option<Seq<u8>> {
        match self.compressed_data {
            Some(data) => Some(data@),
            None => None,
        }
    }
}

impl Chunk {
    /// The number of compressed bytes the chunk carries; zero where it carries none.
    pub open spec fn spec_len(&self) -> nat {
        match self@ {
            Some(block) => block.len(),
            None => 0,
        }
    }

    /// The number of compressed bytes the chunk carries; zero where it carries none.
    pub fn len(&self) -> (n: usize)
        ensures
            n == self.spec_len(),
    {
        match &self.compressed_data {
            Some(data) => data.len(),
            None => 0,
        }
    }
}

/// The blocks of `chunks`, where each of them carries one.
pub open spec fn carried(chunks: Seq<Chunk>) -> Seq<Seq<u8>> {
    chunks.map_values(|chunk: Chunk| chunk@->0)
}

/// Whether each of `chunks` carries a block.
pub open spec fn all_carry(chunks: Seq<Chunk>) -> bool {
    forall|i: int| 0 <= i < chunks.len() ==> (#[trigger] chunks[i])@ is Some
}

/// What a worker tells the collector.
pub enum CompressionMessage {
    /// A finalized compressed block.
    Data(Vec<u8>),
    /// The failure that ended the worker.
    Error(CompressionError),
    /// The worker has reached the end of its input.
    Done,
}

/// A message with its block taken as a sequence of bytes.
pub enum MessageView {
    /// A finalized compressed block.
    Data(Seq<u8>),
    /// The failure that ended the worker.
    Error(CompressionError),
    /// The worker has reached the end of its input.
    Done,
}

impl View for CompressionMessage {
    type V = MessageView;

    open spec fn view(&self) -> MessageView {
        match self {
            CompressionMessage::Data(block) => MessageView::Data(block@),
            CompressionMessage::Error(e) => MessageView::Error(*e),
            CompressionMessage::Done => MessageView::Done,
        }
    }
}

/// The messages of `messages`, each by its view.
pub open spec fn message_views(messages: Seq<CompressionMessage>) -> Seq<MessageView> {
    messages.map_values(|message: CompressionMessage| message@)
}

} // verus!
