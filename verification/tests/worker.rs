use chunkpress::codec::restore;
use chunkpress::error::CompressionError;
use chunkpress::message::CompressionMessage;
use chunkpress::worker::{
    block_messages, failure_messages, reached_threshold, CompressionWorker, ReadOutcome,
};

fn noise(len: usize) -> Vec<u8> {
    let mut state: u32 = 0x2545_f491;
    let mut out = Vec::with_capacity(len);
    for _ in 0..len {
        state = state.wrapping_mul(1_664_525).wrapping_add(1_013_904_223);
        out.push((state >> 24) as u8);
    }
    out
}

fn blocks_of(sent: &[CompressionMessage]) -> Vec<Vec<u8>> {
    let mut blocks = Vec::new();
    for message in sent {
        if let CompressionMessage::Data(block) = message {
            blocks.push(block.clone());
        }
    }
    blocks
}

fn failed(text: &str) -> ReadOutcome {
    ReadOutcome::Failed(std::io::Error::new(std::io::ErrorKind::Other, text.to_string()))
}

#[test]
fn a_new_worker_runs_and_keeps_its_threshold() {
    let worker = CompressionWorker::new(1024);
    assert!(worker.running());
    assert_eq!(worker.chunk_size(), 1024);
}

#[test]
fn threshold_is_reached_at_and_above_the_chunk_size() {
    assert!(!reached_threshold(1023, 1024));
    assert!(reached_threshold(1024, 1024));
    assert!(reached_threshold(1025, 1024));
    assert!(reached_threshold(0, 0));
    assert!(!reached_threshold(0, 1));
}

#[test]
fn a_sealed_block_is_reported_as_data() {
    let sent = block_messages(Ok(vec![1, 2, 3]), false);
    assert_eq!(sent.len(), 1);
    assert!(matches!(&sent[0], CompressionMessage::Data(block) if block == &vec![1, 2, 3]));
}

#[test]
fn the_last_block_is_followed_by_done() {
    let sent = block_messages(Ok(vec![9]), true);
    assert_eq!(sent.len(), 2);
    assert!(matches!(&sent[0], CompressionMessage::Data(block) if block == &vec![9]));
    assert!(matches!(&sent[1], CompressionMessage::Done));
}

#[test]
fn a_failed_seal_is_reported_as_an_io_error_alone() {
    for last in [false, true] {
        let err = std::io::Error::new(std::io::ErrorKind::Other, "seal");
        let sent = block_messages(Err(err), last);
        assert_eq!(sent.len(), 1);
        match &sent[0] {
            CompressionMessage::Error(CompressionError::IOError(e)) => {
                assert_eq!(e.to_string(), "seal")
            }
            _ => panic!("the failure was not reported as an I/O error"),
        }
    }
}

#[test]
fn end_of_input_first_gives_one_block_that_decodes_to_nothing() {
    let mut worker = CompressionWorker::new(1024);
    let sent = worker.step(ReadOutcome::Bytes(Vec::new()));
    assert_eq!(sent.len(), 2);
    assert!(matches!(&sent[0], CompressionMessage::Data(_)));
    assert!(matches!(&sent[1], CompressionMessage::Done));
    assert!(!worker.running());
    let blocks = blocks_of(&sent);
    assert!(!blocks[0].is_empty());
    assert_eq!(restore(&blocks).unwrap(), Vec::<u8>::new());
}

#[test]
fn a_failed_read_is_reported_and_ends_the_worker() {
    let mut worker = CompressionWorker::new(1024);
    let sent = worker.step(failed("bad sector"));
    assert_eq!(sent.len(), 1);
    match &sent[0] {
        CompressionMessage::Error(CompressionError::IOError(e)) => {
            assert_eq!(e.to_string(), "bad sector")
        }
        _ => panic!("the failed read was not reported as an I/O error"),
    }
    assert!(!worker.running());
}

#[test]
fn a_small_read_below_the_threshold_sends_nothing() {
    let mut worker = CompressionWorker::new(1024);
    let sent = worker.step(ReadOutcome::Bytes(b"some bytes".to_vec()));
    assert!(sent.is_empty());
    assert!(worker.running());
}

#[test]
fn the_threshold_looks_at_compressed_bytes_not_at_raw_ones() {
    // Ten raw bytes are well above a threshold of one, but the encoder has delivered
    // no compressed byte yet: no block is sealed.
    let mut worker = CompressionWorker::new(1);
    let sent = worker.step(ReadOutcome::Bytes(b"0123456789".to_vec()));
    assert!(sent.is_empty());
    assert!(worker.running());
}

#[test]
fn a_threshold_of_zero_seals_a_block_after_every_read() {
    let mut worker = CompressionWorker::new(0);
    let first = worker.step(ReadOutcome::Bytes(b"abc".to_vec()));
    assert_eq!(first.len(), 1);
    assert_eq!(restore(&blocks_of(&first)).unwrap(), b"abc".to_vec());
    assert!(worker.running());
    let second = worker.step(ReadOutcome::Bytes(b"de".to_vec()));
    assert_eq!(second.len(), 1);
    assert_eq!(restore(&blocks_of(&second)).unwrap(), b"de".to_vec());
    let last = worker.step(ReadOutcome::Bytes(Vec::new()));
    assert_eq!(last.len(), 2);
    assert_eq!(restore(&blocks_of(&last)).unwrap(), Vec::<u8>::new());
    assert!(matches!(&last[1], CompressionMessage::Done));
}

#[test]
fn enough_incompressible_input_crosses_the_threshold() {
    let raw = noise(200_000);
    let mut worker = CompressionWorker::new(1024);
    let sent = worker.step(ReadOutcome::Bytes(raw.clone()));
    assert_eq!(sent.len(), 1);
    assert!(worker.running());
    // A block sealed before the end of the input is no shorter than the threshold.
    assert!(blocks_of(&sent)[0].len() >= 1024);
    assert_eq!(restore(&blocks_of(&sent)).unwrap(), raw);
    // The block after a seal starts from nothing.
    let rest = worker.step(ReadOutcome::Bytes(Vec::new()));
    assert_eq!(restore(&blocks_of(&rest)).unwrap(), Vec::<u8>::new());
}

#[test]
fn a_block_is_compressed_and_not_a_copy() {
    let raw = vec![0u8; 10_000];
    let mut worker = CompressionWorker::new(1 << 20);
    let mut sent = worker.step(ReadOutcome::Bytes(raw.clone()));
    assert!(sent.is_empty());
    sent = worker.step(ReadOutcome::Bytes(Vec::new()));
    let blocks = blocks_of(&sent);
    assert_eq!(blocks.len(), 1);
    assert!(blocks[0].len() < 100);
    assert_eq!(restore(&blocks).unwrap(), raw);
}

#[test]
fn a_worker_that_has_ended_ignores_what_follows() {
    let mut worker = CompressionWorker::new(1024);
    worker.step(ReadOutcome::Bytes(Vec::new()));
    assert!(!worker.running());
    assert!(worker.step(ReadOutcome::Bytes(b"late".to_vec())).is_empty());
    assert!(worker.step(failed("late")).is_empty());
    assert!(worker.step(ReadOutcome::Bytes(Vec::new())).is_empty());
    assert!(!worker.running());
}

#[test]
fn a_run_gives_back_its_input_block_by_block() {
    let first = noise(70_000);
    let second = b"the second read".to_vec();
    let third = vec![7u8; 5000];
    let mut worker = CompressionWorker::new(1024);
    let sent = worker.run(vec![
        ReadOutcome::Bytes(first.clone()),
        ReadOutcome::Bytes(second.clone()),
        ReadOutcome::Bytes(third.clone()),
        ReadOutcome::Bytes(Vec::new()),
        ReadOutcome::Bytes(b"behind the end".to_vec()),
    ]);
    assert!(!worker.running());
    assert!(matches!(sent.last(), Some(CompressionMessage::Done)));
    for message in &sent[..sent.len() - 1] {
        assert!(matches!(message, CompressionMessage::Data(_)));
    }
    let mut input = first;
    input.extend_from_slice(&second);
    input.extend_from_slice(&third);
    assert_eq!(restore(&blocks_of(&sent)).unwrap(), input);
}

#[test]
fn a_run_without_an_end_leaves_the_worker_running() {
    let mut worker = CompressionWorker::new(1024);
    let sent = worker.run(vec![
        ReadOutcome::Bytes(b"one".to_vec()),
        ReadOutcome::Bytes(b"two".to_vec()),
    ]);
    assert!(sent.is_empty());
    assert!(worker.running());
    let rest = worker.step(ReadOutcome::Bytes(Vec::new()));
    assert_eq!(restore(&blocks_of(&rest)).unwrap(), b"onetwo".to_vec());
}

#[test]
fn a_run_over_nothing_sends_nothing() {
    let mut worker = CompressionWorker::new(8);
    assert!(worker.run(Vec::new()).is_empty());
    assert!(worker.running());
}

#[test]
fn a_run_ends_at_a_failed_read() {
    let mut worker = CompressionWorker::new(0);
    let sent = worker.run(vec![
        ReadOutcome::Bytes(b"kept".to_vec()),
        failed("torn"),
        ReadOutcome::Bytes(b"never read".to_vec()),
    ]);
    assert_eq!(sent.len(), 2);
    assert_eq!(restore(&blocks_of(&sent)).unwrap(), b"kept".to_vec());
    match &sent[1] {
        CompressionMessage::Error(CompressionError::IOError(e)) => {
            assert_eq!(e.to_string(), "torn")
        }
        _ => panic!("the run did not end in the read's failure"),
    }
    assert!(!worker.running());
}

#[test]
fn a_failure_is_reported_as_one_io_error_message() {
    let sent = failure_messages(std::io::Error::new(std::io::ErrorKind::Other, "read"));
    assert_eq!(sent.len(), 1);
    match &sent[0] {
        CompressionMessage::Error(CompressionError::IOError(e)) => {
            assert_eq!(e.to_string(), "read")
        }
        _ => panic!("the failure was not reported as an I/O error"),
    }
}

#[test]
fn every_block_before_the_last_reaches_the_threshold() {
    let mut reads = Vec::new();
    for part in noise(400_000).chunks(50_000) {
        reads.push(ReadOutcome::Bytes(part.to_vec()));
    }
    reads.push(ReadOutcome::Bytes(Vec::new()));
    let mut worker = CompressionWorker::new(4096);
    let sent = worker.run(reads);
    let blocks = blocks_of(&sent);
    assert!(blocks.len() >= 2);
    for block in &blocks[..blocks.len() - 1] {
        assert!(block.len() >= 4096);
    }
    assert_eq!(restore(&blocks).unwrap(), noise(400_000));
}

#[test]
fn the_same_reads_give_the_same_content_twice() {
    let script = || {
        vec![
            ReadOutcome::Bytes(noise(50_000)),
            ReadOutcome::Bytes(b"tail".to_vec()),
            ReadOutcome::Bytes(Vec::new()),
        ]
    };
    let one = CompressionWorker::new(1024).run(script());
    let other = CompressionWorker::new(1024).run(script());
    assert_eq!(restore(&blocks_of(&one)).unwrap(), restore(&blocks_of(&other)).unwrap());
}
