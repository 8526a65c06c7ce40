use multi_subset_bam::{effective_workers, Subsetter, TagEntry, TagError, TagPayload, TagRecord};

const CR: [u8; 2] = [b'C', b'R'];

fn text_record(value: &str) -> TagRecord {
    TagRecord {
        tags: vec![TagEntry { key: CR, payload: TagPayload::Text(value.as_bytes().to_vec()) }],
    }
}

fn strings(values: &[&str]) -> Vec<String> {
    values.iter().map(|v| v.to_string()).collect()
}

fn two_group_registry() -> Subsetter {
    let mut s = Subsetter::new();
    assert_eq!(s.register(strings(&["AAAA", "BBBB"]), "a.bam".to_string()), 0);
    assert_eq!(s.register(strings(&["CCCC"]), "b.bam".to_string()), 1);
    s
}

fn scenario_batch() -> Vec<TagRecord> {
    vec![text_record("AAAA"), text_record("CCCC"), text_record("ZZZZ"), text_record("BBBB")]
}

#[test]
fn sequential_scan_routes_scenario_batch() {
    let s = two_group_registry();
    let result = s.process_records(&scenario_batch(), &CR).unwrap();
    assert_eq!(result, vec![vec![0, 3], vec![1]]);
}

#[test]
fn single_records_route_like_the_batch() {
    let s = two_group_registry();
    let batch = scenario_batch();
    let routed: Vec<Option<usize>> = batch.iter().map(|r| s.process_record(r, &CR).unwrap()).collect();
    assert_eq!(routed, vec![Some(0), Some(1), None, Some(0)]);
}

#[test]
fn parallel_with_chunks_of_two_matches_scan() {
    let s = two_group_registry();
    let result = s.process_records_parallel(&scenario_batch(), &CR, 2).unwrap();
    assert_eq!(result, vec![vec![0, 3], vec![1]]);
}

#[test]
fn parallel_result_independent_of_chunk_size() {
    let s = two_group_registry();
    let mut batch = Vec::new();
    let values = ["AAAA", "CCCC", "ZZZZ", "BBBB", "CCCC", "AAAA", "QQQQ"];
    for k in 0..40 {
        batch.push(text_record(values[k % values.len()]));
    }
    batch.push(TagRecord { tags: vec![] });
    let expected = s.process_records(&batch, &CR).unwrap();
    for chunk_size in [1, 2, 3, 5, 7, 41, 100] {
        assert_eq!(s.process_records_parallel(&batch, &CR, chunk_size).unwrap(), expected);
    }
}

#[test]
fn empty_batch_gives_empty_groups() {
    let s = two_group_registry();
    assert_eq!(s.process_records(&[], &CR).unwrap(), vec![Vec::<usize>::new(), vec![]]);
    assert_eq!(s.process_records_parallel(&[], &CR, 4).unwrap(), vec![Vec::<usize>::new(), vec![]]);
}

#[test]
fn undecodable_text_is_an_error_not_a_miss() {
    let s = two_group_registry();
    let bad = TagRecord { tags: vec![TagEntry { key: CR, payload: TagPayload::Text(vec![0x41, 0xff, 0x41]) }] };
    assert_eq!(s.process_record(&bad, &CR), Err(TagError::InvalidText));
    let mut batch = scenario_batch();
    batch.insert(2, bad);
    assert_eq!(s.process_records(&batch, &CR), Err(TagError::InvalidText));
    assert_eq!(s.process_records_parallel(&batch, &CR, 2), Err(TagError::InvalidText));
}

#[test]
fn non_textual_payload_is_unrouted() {
    let s = two_group_registry();
    let rec = TagRecord {
        tags: vec![
            TagEntry { key: CR, payload: TagPayload::Other },
            TagEntry { key: CR, payload: TagPayload::Text(b"AAAA".to_vec()) },
        ],
    };
    assert_eq!(s.process_record(&rec, &CR), Ok(None));
    assert_eq!(s.process_records(&[rec], &CR).unwrap(), vec![Vec::<usize>::new(), vec![]]);
}

#[test]
fn every_listed_record_lands_in_exactly_one_group() {
    let s = two_group_registry();
    let batch = scenario_batch();
    let result = s.process_records_parallel(&batch, &CR, 3).unwrap();
    for (i, rec) in batch.iter().enumerate() {
        let hits = result.iter().filter(|g| g.contains(&i)).count();
        let expected = if s.process_record(rec, &CR).unwrap().is_some() { 1 } else { 0 };
        assert_eq!(hits, expected);
    }
    assert_eq!(result.iter().map(|g| g.len()).sum::<usize>(), 3);
}

#[test]
fn later_list_wins_on_shared_value() {
    let mut s = Subsetter::new();
    s.register(strings(&["X", "Y"]), "a.bam".to_string());
    s.register(strings(&["X"]), "b.bam".to_string());
    assert_eq!(s.lookup("X"), Some(1));
    assert_eq!(s.lookup("Y"), Some(0));
    assert_eq!(s.process_records(&[text_record("X")], &CR).unwrap(), vec![vec![], vec![0]]);
}

#[test]
fn same_lists_give_same_routing() {
    let a = two_group_registry();
    let b = two_group_registry();
    for v in ["AAAA", "BBBB", "CCCC", "ZZZZ", ""] {
        assert_eq!(a.lookup(v), b.lookup(v));
    }
    assert_eq!(a.process_records(&scenario_batch(), &CR), b.process_records(&scenario_batch(), &CR));
}

#[test]
fn empty_list_makes_an_unreachable_group() {
    let mut s = Subsetter::new();
    assert_eq!(s.register(Vec::new(), "empty.bam".to_string()), 0);
    assert_eq!(s.register(strings(&["AAAA"]), "a.bam".to_string()), 1);
    assert_eq!(s.group_count(), 2);
    assert_eq!(s.lookup(""), None);
    let result = s.process_records(&[text_record("AAAA"), text_record("")], &CR).unwrap();
    assert_eq!(result, vec![vec![], vec![0]]);
}

#[test]
fn worker_count_does_not_change_the_result() {
    let s = two_group_registry();
    let batch = scenario_batch();
    for workers in [0, 1, 2, 3, 1000] {
        assert_eq!(s.process_records_with_workers(&batch, &CR, 2, workers).unwrap(), vec![vec![0, 3], vec![1]]);
        assert_eq!(s.process_records_with_workers(&batch, &CR, 1, workers).unwrap(), vec![vec![0, 3], vec![1]]);
    }
}

#[test]
fn worker_count_is_clamped_to_available() {
    assert_eq!(effective_workers(8, 4), 4);
    assert_eq!(effective_workers(2, 4), 2);
    assert_eq!(effective_workers(4, 4), 4);
    assert_eq!(effective_workers(0, 4), 1);
    assert_eq!(effective_workers(3, 0), 1);
}
