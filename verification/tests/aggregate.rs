use lenhist::aggregate::{aggregate, aggregate_parallel, aggregate_records, partition};
use lenhist::record::{lengths_of, SeqRecord};

#[test]
fn sum_of_counts_equals_record_count() {
    let lengths: Vec<usize> = vec![3, 5, 3, 7, 5, 3, 11, 200, 0, 3];
    for workers in 1..=lengths.len() {
        let h = aggregate_parallel(&lengths, workers);
        assert_eq!(h.total_count(), lengths.len());
    }
}

#[test]
fn worker_count_does_not_change_result() {
    let lengths: Vec<usize> = vec![10, 10, 20, 30, 10, 20, 0, 0, 150, 10];
    let sequential = aggregate_parallel(&lengths, 1);
    let parallel = aggregate_parallel(&lengths, 8);
    assert!(sequential.same_counts(&parallel));
    assert!(sequential.same_counts(&aggregate(&lengths)));
}

#[test]
fn rerunning_aggregation_gives_equal_histograms() {
    let lengths: Vec<usize> = vec![4, 4, 9, 2, 4, 9];
    let first = aggregate(&lengths);
    let second = aggregate(&lengths);
    assert!(first.same_counts(&second));
    assert_eq!(first.pairs(), second.pairs());
}

#[test]
fn more_workers_than_records() {
    let lengths: Vec<usize> = vec![10, 10, 20];
    let h = aggregate_parallel(&lengths, 16);
    assert_eq!(h.count_of(10), 2);
    assert_eq!(h.count_of(20), 1);
    assert_eq!(h.total_count(), 3);
}

#[test]
fn parallel_hundred_records_of_length_fifty() {
    let lengths: Vec<usize> = vec![50; 100];
    let h = aggregate_parallel(&lengths, 4);
    assert_eq!(h.count_of(50), 100);
    assert_eq!(h.total_count(), 100);
}

#[test]
fn partition_splits_evenly_and_keeps_order() {
    let lengths: Vec<usize> = (0..10).collect();
    let chunks = partition(&lengths, 3);
    assert_eq!(chunks.len(), 3);
    assert_eq!(chunks[0].len(), 4);
    assert_eq!(chunks[1].len(), 3);
    assert_eq!(chunks[2].len(), 3);
    let rejoined: Vec<usize> = chunks.into_iter().flatten().collect();
    assert_eq!(rejoined, lengths);
}

#[test]
fn partition_with_excess_workers_leaves_empty_chunks() {
    let lengths: Vec<usize> = vec![1, 2, 3];
    let chunks = partition(&lengths, 16);
    assert_eq!(chunks.len(), 16);
    for (i, chunk) in chunks.iter().enumerate() {
        if i < 3 {
            assert_eq!(chunk.len(), 1);
        } else {
            assert_eq!(chunk.len(), 0);
        }
    }
}

#[test]
fn aggregate_records_counts_sequence_lengths() {
    let records = vec![
        SeqRecord { id: b"a".to_vec(), seq: vec![b'A'; 10], qual: vec![30; 10] },
        SeqRecord { id: b"b".to_vec(), seq: vec![b'C'; 10], qual: vec![30; 10] },
        SeqRecord { id: b"c".to_vec(), seq: vec![b'G'; 20], qual: vec![30; 20] },
    ];
    let h = aggregate_records(&records, 4);
    assert_eq!(h.count_of(10), 2);
    assert_eq!(h.count_of(20), 1);
    assert_eq!(h.total_count(), 3);
}

#[test]
fn length_extractor_counts_symbols() {
    let record = SeqRecord {
        id: b"read1".to_vec(),
        seq: b"ACGTACGTAC".to_vec(),
        qual: vec![40; 10],
    };
    assert_eq!(record.length(), 10);
}

#[test]
fn lengths_of_maps_each_record() {
    let records = vec![
        SeqRecord { id: b"a".to_vec(), seq: b"ACGT".to_vec(), qual: vec![30; 4] },
        SeqRecord { id: b"b".to_vec(), seq: Vec::new(), qual: Vec::new() },
        SeqRecord { id: b"c".to_vec(), seq: b"AC".to_vec(), qual: vec![30; 2] },
    ];
    assert_eq!(lengths_of(&records), vec![4, 0, 2]);
}
