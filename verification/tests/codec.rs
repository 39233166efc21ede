use pdf_replacer::{transform_unicode_map, Font, UnicodeMapper};

fn composite_mapper(entries: Vec<(u32, &str)>) -> UnicodeMapper {
    let forward: Vec<(u32, String)> = entries.into_iter().map(|(k, s)| (k, s.to_string())).collect();
    let font = Font::new("Identity-H".to_string(), Some(forward));
    UnicodeMapper::new(vec![(b"F1".to_vec(), font)])
}

#[test]
fn transform_decodes_bmp_payloads() {
    let entries = vec![(0x41u32, vec![0x00u8, 0x41]), (0x42, vec![0x00, 0x42])];
    let forward = transform_unicode_map(&entries).expect("well-formed payloads");
    let mut pairs: Vec<(u32, String)> = forward;
    pairs.sort_by_key(|e| e.0);
    assert_eq!(pairs, vec![(0x41, "A".to_string()), (0x42, "B".to_string())]);
}

#[test]
fn transform_decodes_surrogate_pairs() {
    // U+1D11E as its UTF-16BE surrogate pair
    let entries = vec![(1u32, vec![0xD8u8, 0x34, 0xDD, 0x1E])];
    let forward = transform_unicode_map(&entries).expect("valid pair");
    assert_eq!(forward, vec![(1, "\u{1D11E}".to_string())]);
}

#[test]
fn transform_drops_lone_surrogate_entries() {
    let entries = vec![(1u32, vec![0xD8u8, 0x00]), (2, vec![0x00, 0x58])];
    let forward = transform_unicode_map(&entries).expect("droppable entry is not malformed");
    assert_eq!(forward, vec![(2, "X".to_string())]);
}

#[test]
fn transform_rejects_odd_length_payload() {
    let entries = vec![(1u32, vec![0x00u8, 0x41, 0x00])];
    assert!(transform_unicode_map(&entries).is_none());
}

#[test]
fn transform_rejects_unpaired_surrogate_sequences() {
    // a high surrogate followed by a non-surrogate unit is not valid UTF-16
    let entries = vec![(1u32, vec![0xD8u8, 0x34, 0x00, 0x41])];
    assert!(transform_unicode_map(&entries).is_none());
}

#[test]
fn transform_keeps_empty_payload() {
    let entries = vec![(7u32, vec![])];
    let forward = transform_unicode_map(&entries).expect("empty payload is well-formed");
    assert_eq!(forward, vec![(7, String::new())]);
}

#[test]
fn composite_decode_reads_two_byte_units() {
    // codes are two-byte big-endian units: 0x0041 is one unit, not two
    let mapper = composite_mapper(vec![(0x41, "A"), (0x141, "y")]);
    let name = b"F1".to_vec();
    assert_eq!(mapper.decode(&name, &[0x00, 0x41]), "A");
    assert_eq!(mapper.decode(&name, &[0x01, 0x41]), "y");
    // an unmapped unit is dropped silently; a trailing odd byte is ignored
    assert_eq!(mapper.decode(&name, &[0x00, 0x99, 0x00, 0x41, 0x07]), "A");
}

#[test]
fn composite_encode_writes_two_byte_units() {
    let mapper = composite_mapper(vec![(0x41, "A"), (0x42, "B")]);
    let name = b"F1".to_vec();
    assert_eq!(mapper.encode(&name, "AB"), vec![0x00, 0x41, 0x00, 0x42]);
}

#[test]
fn composite_encode_drops_unmapped_characters() {
    // the replacement value holds a character with no reverse-map entry:
    // it is absent from the re-encoded bytes
    let mapper = composite_mapper(vec![(0x41, "A"), (0x42, "B")]);
    let name = b"F1".to_vec();
    let bytes = mapper.encode(&name, "AZB");
    assert_eq!(bytes, vec![0x00, 0x41, 0x00, 0x42]);
    assert_eq!(mapper.decode(&name, &bytes), "AB");
}

#[test]
fn composite_round_trip_keeps_mapped_characters() {
    let mapper = composite_mapper(vec![(0x10, "a"), (0x20, "b"), (0x30, "c")]);
    let name = b"F1".to_vec();
    let bytes = mapper.encode(&name, "cab");
    assert_eq!(mapper.decode(&name, &bytes), "cab");
}

#[test]
fn reverse_map_collision_takes_last_forward_entry() {
    // two codes map to the same text: the later forward entry wins on encode
    let mapper = composite_mapper(vec![(0x11, "X"), (0x22, "X")]);
    let name = b"F1".to_vec();
    assert_eq!(mapper.encode(&name, "X"), vec![0x00, 0x22]);
}

#[test]
fn multi_character_forward_entries_decode_but_never_encode() {
    let mapper = composite_mapper(vec![(0x41, "ff")]);
    let name = b"F1".to_vec();
    assert_eq!(mapper.decode(&name, &[0x00, 0x41]), "ff");
    // only single-character texts enter the reverse map
    assert_eq!(mapper.encode(&name, "ff"), Vec::<u8>::new());
}

#[test]
fn simple_table_round_trip_win_ansi() {
    let font = Font::new("WinAnsiEncoding".to_string(), None);
    let mapper = UnicodeMapper::new(vec![(b"F0".to_vec(), font)]);
    let name = b"F0".to_vec();
    let bytes = mapper.encode(&name, "Hello, world!");
    assert_eq!(mapper.decode(&name, &bytes), "Hello, world!");
}

#[test]
fn simple_table_round_trip_standard_encoding() {
    let font = Font::new("StandardEncoding".to_string(), None);
    let mapper = UnicodeMapper::new(vec![(b"F0".to_vec(), font)]);
    let name = b"F0".to_vec();
    let bytes = mapper.encode(&name, "plain text 123");
    assert_eq!(mapper.decode(&name, &bytes), "plain text 123");
}

#[test]
fn unknown_font_decodes_to_sentinel_and_encodes_to_nothing() {
    let mapper = UnicodeMapper::new(vec![]);
    let name = b"F9".to_vec();
    assert_eq!(mapper.decode(&name, b"abc"), "?NOFONT?");
    assert_eq!(mapper.encode(&name, "abc"), Vec::<u8>::new());
}
