use alac::sample_table::SampleTable;

#[test]
fn locates_packets_in_a_uniform_run() {
    // One run: every chunk holds two samples.
    let offsets = vec![100, 200, 300];
    let sizes = vec![10, 11, 12, 13, 14, 15];
    let raw = vec![(1, 2)];
    let table = SampleTable::new(offsets, sizes, &raw).unwrap();
    assert_eq!(table.sample_count(), 6);

    // Each chunk's first sample seeks to the chunk; the second one is read
    // sequentially after it.
    let expected = [
        (Some(100), 10),
        (None, 11),
        (Some(200), 12),
        (None, 13),
        (Some(300), 14),
        (None, 15),
    ];
    for (idx, &(seek, len)) in expected.iter().enumerate() {
        let l = table.locate(idx as u32).unwrap();
        assert_eq!(l.seek_offset, seek);
        assert_eq!(l.len, len);
    }
}

#[test]
fn later_runs_are_read_sequentially() {
    // Two runs: chunks 1 and 2 hold two samples each, chunk 3 holds one.
    // Only the first run's chunk starts ask for a seek; the reader then
    // continues through the file in order.
    let offsets = vec![100, 200, 300];
    let sizes = vec![10, 11, 12, 13, 14];
    let raw = vec![(1, 2), (3, 1)];
    let table = SampleTable::new(offsets, sizes, &raw).unwrap();
    assert_eq!(table.sample_count(), 5);

    assert_eq!(table.locate(0).unwrap().seek_offset, Some(100));
    assert_eq!(table.locate(1).unwrap().seek_offset, None);
    assert_eq!(table.locate(2).unwrap().seek_offset, None);
    assert_eq!(table.locate(3).unwrap().seek_offset, None);
    assert_eq!(table.locate(4).unwrap().seek_offset, None);
    assert_eq!(table.locate(4).unwrap().len, 14);
}

#[test]
fn rejects_malformed_chunk_runs() {
    // A run count of zero.
    assert!(SampleTable::new(vec![0], vec![1], &vec![(1, 0)]).is_none());
    // A one-based chunk index of zero.
    assert!(SampleTable::new(vec![0], vec![1], &vec![(0, 1)]).is_none());
    // Chunk indices that do not increase.
    assert!(SampleTable::new(vec![0, 8], vec![1, 1], &vec![(2, 1), (1, 1)]).is_none());
}

#[test]
fn locate_fails_when_the_chunk_offset_is_missing() {
    // The second chunk's offset is not in the table.
    let table = SampleTable::new(vec![100], vec![1, 2], &vec![(1, 1)]).unwrap();
    assert!(table.locate(1).is_none());
}
