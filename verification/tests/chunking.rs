use bncsv::chunks::{TryChunked, TryChunks};
use bncsv::errors::BncsvError;

fn oks(n: u32) -> Vec<Result<u32, BncsvError>> {
    (0..n).map(Ok).collect()
}

#[test]
fn test_chunking_counts() {
    let items = oks(10);
    let TryChunked { chunks, error } = items.try_chunks(4);
    assert!(error.is_none());
    assert_eq!(chunks.len(), 3);
    assert_eq!(chunks[0], vec![0, 1, 2, 3]);
    assert_eq!(chunks[1], vec![4, 5, 6, 7]);
    assert_eq!(chunks[2], vec![8, 9]);
}

#[test]
fn test_chunking_exact_multiple() {
    let items = oks(8);
    let TryChunked { chunks, error } = items.try_chunks(4);
    assert!(error.is_none());
    assert_eq!(chunks.len(), 2);
    assert_eq!(chunks[0].len(), 4);
    assert_eq!(chunks[1].len(), 4);
}

#[test]
fn test_chunking_empty() {
    let items = oks(0);
    let TryChunked { chunks, error } = items.try_chunks(4);
    assert!(error.is_none());
    assert!(chunks.is_empty());
}

#[test]
fn test_chunking_error_ends_its_group() {
    // An error at position 5 with groups of 2: the two whole groups before
    // it survive, the value gathered beside the error is dropped.
    let mut items: Vec<Result<u32, BncsvError>> = (0..5).map(Ok).collect();
    items.push(Err(BncsvError::InvalidData));
    items.push(Ok(99));
    let TryChunked { chunks, error } = items.try_chunks(2);
    assert_eq!(error, Some(BncsvError::InvalidData));
    assert_eq!(chunks, vec![vec![0, 1], vec![2, 3]]);
}

#[test]
fn test_chunking_error_first() {
    let items: Vec<Result<u32, BncsvError>> = vec![Err(BncsvError::Io), Ok(1)];
    let TryChunked { chunks, error } = items.try_chunks(3);
    assert_eq!(error, Some(BncsvError::Io));
    assert!(chunks.is_empty());
}

#[test]
fn test_chunking_size_zero() {
    let items = oks(5);
    let TryChunked { chunks, error } = items.try_chunks(0);
    assert!(error.is_none());
    assert!(chunks.is_empty());
}
