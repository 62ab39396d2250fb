use tenths_agg::part::{partition_chunks, WorkQueue};
use tenths_agg::AggError;

#[test]
fn work_queue_hands_out_every_chunk_newest_first() {
    let data = b"A;1.0\nB;2.0\nC;3.0\n";
    let chunks = partition_chunks(data, 0).unwrap();
    let expected: Vec<_> = chunks.iter().rev().copied().collect();
    let mut queue = WorkQueue::load(chunks);
    let mut taken = Vec::new();
    while let Some(c) = queue.try_take() {
        taken.push(c);
    }
    assert_eq!(taken, expected);
    assert!(queue.try_take().is_none());
}

#[test]
fn partition_covers_exactly() {
    let data = b"A;1.0\nB;2.0\nC;3.0\n";
    for max in [0usize, 1, 3, 5, 7, 100] {
        let chunks = partition_chunks(data, max).unwrap();
        assert!(!chunks.is_empty());
        assert_eq!(chunks[0].start, 0);
        assert_eq!(chunks[chunks.len() - 1].end, data.len() - 1);
        for w in chunks.windows(2) {
            assert_eq!(w[1].start, w[0].end + 1);
        }
        for c in &chunks {
            assert!(c.start <= c.end);
            assert_eq!(data[c.end], b'\n');
        }
    }
}

#[test]
fn partition_of_empty_input_is_empty() {
    let chunks = partition_chunks(b"", 100).unwrap();
    assert!(chunks.is_empty());
}

#[test]
fn partition_single_chunk_when_max_is_large() {
    let data = b"A;1.0\nB;2.0\n";
    let chunks = partition_chunks(data, 1_000_000).unwrap();
    assert_eq!(chunks.len(), 1);
    assert_eq!((chunks[0].start, chunks[0].end), (0, data.len() - 1));
}

#[test]
fn partition_rejects_missing_trailing_newline() {
    assert_eq!(
        partition_chunks(b"A;1.0\nB;2.0", 100),
        Err(AggError::MalformedInput)
    );
}

#[test]
fn partition_rejects_non_ascii_in_scan_window() {
    // with max 0 every byte starts a scan window, so the 0xC3 is hit
    let mut data = b"AB;1.0\n".to_vec();
    data[1] = 0xC3;
    assert_eq!(partition_chunks(&data, 0), Err(AggError::MalformedInput));
}
