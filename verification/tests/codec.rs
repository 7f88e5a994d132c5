use std::io::Write;

use chunkpress::codec::restore;
use chunkpress::error::CompressionError;

fn deflate(raw: &[u8]) -> Vec<u8> {
    let mut encoder =
        flate2::write::DeflateEncoder::new(Vec::new(), flate2::Compression::best());
    encoder.write_all(raw).unwrap();
    encoder.finish().unwrap()
}

#[test]
fn restore_of_no_blocks_is_empty() {
    assert_eq!(restore(&Vec::new()).unwrap(), Vec::<u8>::new());
}

#[test]
fn restore_decodes_a_block() {
    let raw = b"hello hello hello hello".to_vec();
    let block = deflate(&raw);
    assert_ne!(block, raw);
    assert_eq!(restore(&vec![block]).unwrap(), raw);
}

#[test]
fn restore_puts_decoded_blocks_one_after_another() {
    let blocks = vec![deflate(b"abc"), deflate(b""), deflate(b"defg")];
    assert_eq!(restore(&blocks).unwrap(), b"abcdefg".to_vec());
}

#[test]
fn restore_rejects_a_reserved_block_type() {
    // Final block, block type 3: no DEFLATE stream starts like this.
    let outcome = restore(&vec![vec![0x07]]);
    assert!(matches!(outcome, Err(CompressionError::InvalidData)));
}

#[test]
fn restore_rejects_a_block_cut_short() {
    let mut block = deflate(&vec![42u8; 1000]);
    block.truncate(block.len() - 2);
    assert!(matches!(restore(&vec![block]), Err(CompressionError::InvalidData)));
}

#[test]
fn restore_rejects_an_empty_block() {
    assert!(matches!(restore(&vec![Vec::new()]), Err(CompressionError::InvalidData)));
}

#[test]
fn restore_fails_where_a_later_block_is_corrupt() {
    let blocks = vec![deflate(b"fine"), vec![0x07]];
    assert!(matches!(restore(&blocks), Err(CompressionError::InvalidData)));
}

#[test]
fn restore_leaves_bytes_behind_the_end_of_a_stream_aside() {
    let mut block = deflate(b"hello");
    block.extend_from_slice(&deflate(b"world"));
    block.push(b'x');
    assert_eq!(restore(&vec![block]).unwrap(), b"hello".to_vec());
}
