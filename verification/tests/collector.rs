use std::sync::mpsc::channel;

use chunkpress::compressor::{Collector, Compressor};
use chunkpress::error::CompressionError;
use chunkpress::message::{Chunk, CompressionMessage};

fn io_failure(text: &str) -> CompressionMessage {
    CompressionMessage::Error(CompressionError::IOError(std::io::Error::new(
        std::io::ErrorKind::Other,
        text.to_string(),
    )))
}

fn collect(num_threads: usize, messages: Vec<CompressionMessage>) -> Result<Vec<Chunk>, CompressionError> {
    let (tx, rx) = channel();
    for message in messages {
        tx.send(message).unwrap();
    }
    drop(tx);
    Compressor::new(1024, num_threads).compress(&rx)
}

fn blocks(chunks: &[Chunk]) -> Vec<Vec<u8>> {
    chunks.iter().map(|chunk| chunk.compressed_data.clone().unwrap()).collect()
}

#[test]
fn compressor_new_keeps_its_settings() {
    let compressor = Compressor::new(1024, 4);
    assert_eq!(compressor.chunk_size(), 1024);
    assert_eq!(compressor.num_threads(), 4);
}

#[test]
fn a_new_collector_wants_as_many_receives_as_its_limit() {
    assert!(Collector::new(2).wants_more());
    assert!(!Collector::new(0).wants_more());
    assert_eq!(Collector::new(2).failed_receives(), 0);
    assert!(Collector::new(2).finish().unwrap().is_empty());
}

#[test]
fn the_collector_keeps_blocks_in_ascending_order_of_length() {
    let mut collector = Collector::new(4);
    collector = collector.accept(Some(CompressionMessage::Data(vec![3, 3, 3])));
    collector = collector.accept(Some(CompressionMessage::Data(vec![1])));
    collector = collector.accept(Some(CompressionMessage::Data(vec![2, 2])));
    assert!(collector.wants_more());
    collector = collector.accept(Some(CompressionMessage::Data(vec![])));
    assert!(!collector.wants_more());
    let chunks = collector.finish().unwrap();
    assert_eq!(blocks(&chunks), vec![vec![], vec![1], vec![2, 2], vec![3, 3, 3]]);
}

#[test]
fn blocks_of_one_length_stay_in_their_order_of_arrival() {
    let mut collector = Collector::new(5);
    collector = collector.accept(Some(CompressionMessage::Data(vec![2, 1])));
    collector = collector.accept(Some(CompressionMessage::Data(vec![1])));
    collector = collector.accept(Some(CompressionMessage::Data(vec![2, 2])));
    collector = collector.accept(Some(CompressionMessage::Data(vec![2])));
    collector = collector.accept(Some(CompressionMessage::Data(vec![2, 3])));
    let chunks = collector.finish().unwrap();
    assert_eq!(blocks(&chunks), vec![vec![1], vec![2], vec![2, 1], vec![2, 2], vec![2, 3]]);
}

#[test]
fn done_ends_the_collection_and_what_follows_is_left_aside() {
    let mut collector = Collector::new(4);
    collector = collector.accept(Some(CompressionMessage::Data(vec![1])));
    collector = collector.accept(Some(CompressionMessage::Done));
    assert!(!collector.wants_more());
    collector = collector.accept(Some(CompressionMessage::Data(vec![2])));
    collector = collector.accept(Some(io_failure("late")));
    assert_eq!(blocks(&collector.finish().unwrap()), vec![vec![1]]);
}

#[test]
fn a_failure_ends_the_collection_with_that_failure() {
    let mut collector = Collector::new(4);
    collector = collector.accept(Some(CompressionMessage::Data(vec![1])));
    collector = collector.accept(Some(io_failure("broken")));
    assert!(!collector.wants_more());
    collector = collector.accept(Some(io_failure("second")));
    match collector.finish() {
        Err(CompressionError::IOError(e)) => assert_eq!(e.to_string(), "broken"),
        _ => panic!("the failure was not handed on"),
    }
}

#[test]
fn invalid_data_is_handed_on_as_it_is() {
    let mut collector = Collector::new(1);
    collector = collector.accept(Some(CompressionMessage::Error(CompressionError::InvalidData)));
    assert!(matches!(collector.finish(), Err(CompressionError::InvalidData)));
}

#[test]
fn failed_receives_are_counted_and_use_up_the_limit() {
    let mut collector = Collector::new(3);
    collector = collector.accept(None);
    collector = collector.accept(Some(CompressionMessage::Data(vec![1])));
    collector = collector.accept(None);
    assert_eq!(collector.failed_receives(), 2);
    assert!(!collector.wants_more());
    collector = collector.accept(None);
    assert_eq!(collector.failed_receives(), 2);
    assert_eq!(blocks(&collector.finish().unwrap()), vec![vec![1]]);
}

#[test]
fn collect_stops_where_the_collector_wants_no_more() {
    let (tx, rx) = channel();
    tx.send(CompressionMessage::Data(vec![9, 9])).unwrap();
    drop(tx);
    let collector = Compressor::new(1024, 3).collect(&rx);
    assert!(!collector.wants_more());
    assert_eq!(collector.failed_receives(), 2);
    assert_eq!(blocks(&collector.finish().unwrap()), vec![vec![9, 9]]);
}

#[test]
fn blocks_are_handed_on_in_ascending_order_of_length() {
    let chunks = collect(
        3,
        vec![
            CompressionMessage::Data(vec![3, 3, 3]),
            CompressionMessage::Data(vec![1]),
            CompressionMessage::Data(vec![2, 2]),
        ],
    )
    .unwrap();
    assert_eq!(blocks(&chunks), vec![vec![1], vec![2, 2], vec![3, 3, 3]]);
}

#[test]
fn there_is_one_receive_per_worker_and_no_more() {
    let chunks = collect(
        2,
        vec![
            CompressionMessage::Data(vec![1]),
            CompressionMessage::Data(vec![2]),
            CompressionMessage::Data(vec![3]),
        ],
    )
    .unwrap();
    assert_eq!(blocks(&chunks), vec![vec![1], vec![2]]);
}

#[test]
fn the_first_done_ends_the_collection() {
    let chunks = collect(
        4,
        vec![
            CompressionMessage::Data(vec![1]),
            CompressionMessage::Done,
            CompressionMessage::Data(vec![2]),
            CompressionMessage::Done,
        ],
    )
    .unwrap();
    assert_eq!(blocks(&chunks), vec![vec![1]]);
}

#[test]
fn a_failure_fails_the_collection() {
    let outcome = collect(
        4,
        vec![CompressionMessage::Data(vec![1]), io_failure("read failed"), CompressionMessage::Data(vec![2])],
    );
    match outcome {
        Err(CompressionError::IOError(e)) => assert_eq!(e.to_string(), "read failed"),
        _ => panic!("the collection did not fail with the worker's failure"),
    }
}

#[test]
fn a_failure_behind_the_last_receive_is_not_seen() {
    let chunks = collect(1, vec![CompressionMessage::Data(vec![1]), io_failure("too late")]).unwrap();
    assert_eq!(blocks(&chunks), vec![vec![1]]);
}

#[test]
fn a_failure_behind_a_done_is_not_seen() {
    let chunks = collect(4, vec![CompressionMessage::Done, io_failure("too late")]).unwrap();
    assert!(chunks.is_empty());
}

#[test]
fn failed_receives_are_passed_over() {
    // Every sender is gone after one message: the three receives that follow fail,
    // and the collection goes on to its end all the same.
    let chunks = collect(4, vec![CompressionMessage::Data(vec![5])]).unwrap();
    assert_eq!(blocks(&chunks), vec![vec![5]]);
}

#[test]
fn no_workers_mean_no_receives() {
    let chunks = collect(0, vec![io_failure("unseen")]).unwrap();
    assert!(chunks.is_empty());
}
