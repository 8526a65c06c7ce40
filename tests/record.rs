use multi_subset_bam::{get_tag_value, tag_table_of, TagEntry, TagError, TagPayload, TagRecord};

#[test]
fn first_entry_with_key_decides() {
    let rec = TagRecord {
        tags: vec![
            TagEntry { key: *b"UB", payload: TagPayload::Text(b"UMI".to_vec()) },
            TagEntry { key: *b"CR", payload: TagPayload::Text(b"FIRST".to_vec()) },
            TagEntry { key: *b"CR", payload: TagPayload::Text(b"SECOND".to_vec()) },
        ],
    };
    assert_eq!(get_tag_value(&rec, b"CR"), Ok(Some("FIRST".to_string())));
    assert_eq!(get_tag_value(&rec, b"UB"), Ok(Some("UMI".to_string())));
    assert_eq!(get_tag_value(&rec, b"CB"), Ok(None));
}

#[test]
fn text_is_decoded_as_utf8() {
    let rec = TagRecord { tags: vec![TagEntry { key: *b"CR", payload: TagPayload::Text(vec![0xc3, 0xa9, b'x']) }] };
    assert_eq!(get_tag_value(&rec, b"CR"), Ok(Some("\u{e9}x".to_string())));
    let bad = TagRecord { tags: vec![TagEntry { key: *b"CR", payload: TagPayload::Text(vec![0xc3]) }] };
    assert_eq!(get_tag_value(&bad, b"CR"), Err(TagError::InvalidText));
}

#[test]
fn empty_table_has_no_value() {
    let rec = TagRecord { tags: vec![] };
    assert_eq!(get_tag_value(&rec, b"CR"), Ok(None));
}

#[test]
fn bam_record_tags_are_read_in_order() {
    let mut rec = bam::Record::new();
    rec.tags_mut().push_num(b"NH", 3u8);
    rec.tags_mut().push_char(b"CR", b'A');
    rec.tags_mut().push_string(b"CB", b"ACGT-1");
    rec.tags_mut().push_hex(b"XH", b"1AE3");
    rec.tags_mut().push_string(b"CB", b"TTTT-1");
    let table = TagRecord::from_bam(&rec);
    assert_eq!(table.tags.len(), 5);
    assert_eq!(table.tags[0].key, *b"NH");
    assert_eq!(get_tag_value(&table, b"CB"), Ok(Some("ACGT-1".to_string())));
    assert_eq!(get_tag_value(&table, b"XH"), Ok(Some("1AE3".to_string())));
    assert_eq!(get_tag_value(&table, b"CR"), Ok(None));
    assert_eq!(get_tag_value(&table, b"NH"), Ok(None));
}

#[test]
fn bam_record_with_invalid_text_is_an_error() {
    let mut rec = bam::Record::new();
    rec.tags_mut().push_string(b"CR", &[0x41, 0xfe]);
    let table = TagRecord::from_bam(&rec);
    assert_eq!(get_tag_value(&table, b"CR"), Err(TagError::InvalidText));
}

#[test]
fn raw_table_with_char_array_is_cut_without_panic() {
    let mut raw = Vec::new();
    raw.extend_from_slice(b"XAB");
    raw.push(b'A');
    raw.extend_from_slice(&2i32.to_le_bytes());
    raw.extend_from_slice(b"xy");
    raw.extend_from_slice(b"CRZAAAC-1\0");
    let table = tag_table_of(&raw, &[10, 10]);
    assert_eq!(table.tags.len(), 2);
    assert_eq!(table.tags[0].key, *b"XA");
    assert!(matches!(table.tags[0].payload, TagPayload::Other));
    assert_eq!(get_tag_value(&table, b"CR"), Ok(Some("AAAC-1".to_string())));
    assert_eq!(get_tag_value(&table, b"XA"), Ok(None));
}

#[test]
fn raw_table_stops_at_incomplete_entry() {
    let raw = b"CRZAB\0UBZCD\0".to_vec();
    let table = tag_table_of(&raw, &[6, 7]);
    assert_eq!(table.tags.len(), 1);
    assert_eq!(get_tag_value(&table, b"CR"), Ok(Some("AB".to_string())));
    assert_eq!(get_tag_value(&table, b"UB"), Ok(None));
    let short = tag_table_of(&raw, &[2, 6]);
    assert_eq!(short.tags.len(), 0);
    assert_eq!(tag_table_of(&[], &[]).tags.len(), 0);
}

#[test]
fn raw_text_without_room_for_terminator_is_empty() {
    let table = tag_table_of(b"CRH", &[3]);
    assert_eq!(table.tags.len(), 1);
    assert_eq!(get_tag_value(&table, b"CR"), Ok(Some(String::new())));
}
