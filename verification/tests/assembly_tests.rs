use frame_relay::table::AssemblyTable;
use frame_relay::table::IngestResult;

fn expect_completed(r: IngestResult) -> Vec<u8> {
    match r {
        IngestResult::Completed(out) => out,
        IngestResult::Pending => panic!("expected Completed, got Pending"),
        IngestResult::Rejected => panic!("expected Completed, got Rejected"),
    }
}

#[test]
fn out_of_order_fragments_assemble_in_index_order() {
    let mut t = AssemblyTable::new();
    assert!(matches!(t.ingest(1, 3, 1, b"BB", 0), IngestResult::Pending));
    assert!(matches!(t.ingest(1, 3, 0, b"AA", 1), IngestResult::Pending));
    let out = expect_completed(t.ingest(1, 3, 2, b"CC", 2));
    assert_eq!(out, b"AABBCC".to_vec());
    // emitted once: the entry is gone, a further fragment starts over
    assert!(!t.contains(1));
    assert_eq!(t.len(), 0);
    assert!(matches!(t.ingest(1, 3, 2, b"CC", 3), IngestResult::Pending));
}

#[test]
fn duplicate_fragment_does_not_double_count() {
    let mut t = AssemblyTable::new();
    assert!(matches!(t.ingest(7, 2, 0, b"XX", 0), IngestResult::Pending));
    // duplicate index: ignored, must not complete the 2-chunk frame
    assert!(matches!(t.ingest(7, 2, 0, b"YY", 1), IngestResult::Pending));
    assert_eq!(t.len(), 1);
    let out = expect_completed(t.ingest(7, 2, 1, b"ZZ", 2));
    // first write wins: the duplicate's bytes never land
    assert_eq!(out, b"XXZZ".to_vec());
}

#[test]
fn malformed_fragment_never_creates_an_entry() {
    let mut t = AssemblyTable::new();
    assert!(matches!(t.ingest(3, 0, 0, b"AA", 0), IngestResult::Rejected));
    assert!(!t.contains(3));
    assert!(matches!(t.ingest(3, 2, 2, b"AA", 0), IngestResult::Rejected));
    assert!(matches!(t.ingest(3, 2, 9, b"AA", 0), IngestResult::Rejected));
    assert!(!t.contains(3));
    assert_eq!(t.len(), 0);
}

#[test]
fn malformed_fragment_never_mutates_an_entry() {
    let mut t = AssemblyTable::new();
    assert!(matches!(t.ingest(4, 2, 0, b"AA", 0), IngestResult::Pending));
    assert!(matches!(t.ingest(4, 2, 2, b"BB", 1), IngestResult::Rejected));
    // the rejected fragment left slot 1 open; a valid one still completes
    let out = expect_completed(t.ingest(4, 2, 1, b"BB", 2));
    assert_eq!(out, b"AABB".to_vec());
}

#[test]
fn chunk_count_mismatch_discards_the_old_generation() {
    let mut t = AssemblyTable::new();
    assert!(matches!(t.ingest(9, 3, 0, b"AA", 0), IngestResult::Pending));
    assert!(matches!(t.ingest(9, 3, 1, b"BB", 1), IngestResult::Pending));
    // same id, different chunk count: everything buffered so far is dropped
    assert!(matches!(t.ingest(9, 2, 0, b"NN", 2), IngestResult::Pending));
    let out = expect_completed(t.ingest(9, 2, 1, b"MM", 3));
    assert_eq!(out, b"NNMM".to_vec());
}

#[test]
fn sweep_evicts_stale_buffers_only() {
    let mut t = AssemblyTable::new();
    assert!(matches!(t.ingest(1, 2, 0, b"AA", 100), IngestResult::Pending));
    assert!(matches!(t.ingest(2, 2, 0, b"BB", 400), IngestResult::Pending));
    // ttl 250 at now 400: frame 1 (last update 100) is stale, frame 2 is not
    let evicted = t.sweep(400, 250);
    assert_eq!(evicted, 1);
    assert!(!t.contains(1));
    assert!(t.contains(2));
    assert_eq!(t.len(), 1);
}

#[test]
fn sweep_removes_a_frame_that_never_completes() {
    let mut t = AssemblyTable::new();
    assert!(matches!(t.ingest(5, 2, 0, b"half", 0), IngestResult::Pending));
    assert!(t.contains(5));
    // ttl elapses without the second chunk: the buffer goes, no output
    let evicted = t.sweep(251, 250);
    assert_eq!(evicted, 1);
    assert!(!t.contains(5));
    assert_eq!(t.len(), 0);
}

#[test]
fn cap_enforce_clears_the_table_only_over_the_cap() {
    let mut t = AssemblyTable::new();
    assert!(matches!(t.ingest(1, 2, 0, b"AA", 0), IngestResult::Pending));
    assert!(matches!(t.ingest(2, 2, 0, b"BB", 0), IngestResult::Pending));
    assert!(matches!(t.ingest(3, 2, 0, b"CC", 0), IngestResult::Pending));
    t.cap_enforce(3);
    assert_eq!(t.len(), 3);
    t.cap_enforce(2);
    assert_eq!(t.len(), 0);
    assert!(!t.contains(1));
    assert!(!t.contains(2));
    assert!(!t.contains(3));
}

#[test]
fn single_chunk_frame_completes_immediately() {
    let mut t = AssemblyTable::new();
    let out = expect_completed(t.ingest(11, 1, 0, b"whole", 0));
    assert_eq!(out, b"whole".to_vec());
    assert!(!t.contains(11));
}
