//! Tests of the tune cache format and the in-memory cache.

use abctool::storage::{encode_header, read_cache, tune_id_from_filename, CacheEntry, ReadWriteCache};

fn entry(bytes: &mut Vec<u8>, tune_id: u32, content: &[u8]) {
    bytes.extend(encode_header(tune_id, content.len()));
    bytes.extend_from_slice(content);
}

#[test]
fn header_is_little_endian_id_then_length() {
    assert_eq!(
        encode_header(0x0102_0304, 0x0A0B),
        vec![0x04, 0x03, 0x02, 0x01, 0x0B, 0x0A, 0x00, 0x00]
    );
    assert_eq!(encode_header(0, 0), vec![0; 8]);
    assert_eq!(
        encode_header(u32::MAX, 0xFFFF_FFFF),
        vec![0xFF, 0xFF, 0xFF, 0xFF, 0xFF, 0xFF, 0xFF, 0xFF]
    );
}

#[test]
fn cache_entries_are_read_in_order() {
    let mut bytes = vec![];
    entry(&mut bytes, 5, b"abc");
    entry(&mut bytes, 7, b"hi");
    let entries = read_cache(&bytes);
    assert_eq!(entries.len(), 2);
    assert_eq!(
        (entries[0].tune_id, entries[0].offset, entries[0].length, entries[0].content.as_str()),
        (5, 8, 3, "abc")
    );
    assert_eq!(
        (entries[1].tune_id, entries[1].offset, entries[1].length, entries[1].content.as_str()),
        (7, 19, 2, "hi")
    );
}

#[test]
fn cache_reading_stops_where_cut_short() {
    let mut bytes = vec![];
    entry(&mut bytes, 1, b"x");
    // A header that promises more content than there is.
    bytes.extend(encode_header(2, 10));
    bytes.extend_from_slice(b"abc");
    let entries = read_cache(&bytes);
    assert_eq!(entries.len(), 1);
    assert_eq!(entries[0].tune_id, 1);

    // A header cut short.
    let mut bytes = vec![];
    entry(&mut bytes, 1, b"x");
    bytes.extend_from_slice(&[1, 2, 3]);
    assert_eq!(read_cache(&bytes).len(), 1);

    assert!(read_cache(&[]).is_empty());
}

#[test]
fn cache_entry_with_invalid_text_reads_empty() {
    let mut bytes = vec![];
    entry(&mut bytes, 9, &[0xFF, 0xFE]);
    entry(&mut bytes, 10, "é".as_bytes());
    let entries = read_cache(&bytes);
    assert_eq!(entries.len(), 2);
    assert_eq!(entries[0].content, "");
    assert_eq!(entries[0].length, 2);
    assert_eq!(entries[1].content, "é");
}

#[test]
fn read_write_cache_round_trip() {
    let entries = vec![
        CacheEntry { tune_id: 3, offset: 0, length: 0, content: "X:3".to_string() },
        CacheEntry { tune_id: 12, offset: 0, length: 0, content: "X:12".to_string() },
        CacheEntry { tune_id: 3, offset: 0, length: 0, content: "X:3 again".to_string() },
    ];
    let mut cache = ReadWriteCache::from_entries(entries);
    assert_eq!(cache.len(), 2);
    assert_eq!(cache.get(3), Some("X:3 again".to_string()));
    assert_eq!(cache.get(4), None);
    assert!(cache.contains(12) && !cache.contains(13));
    assert_eq!(cache.max_id(), 12);

    cache.insert(40, "X:40 é".to_string());
    assert_eq!(cache.max_id(), 40);

    let bytes = cache.to_bytes();
    let again = ReadWriteCache::from_entries(read_cache(&bytes));
    assert_eq!(again.len(), 3);
    for id in [3, 12, 40] {
        assert_eq!(again.get(id), cache.get(id));
    }
    // Each tune is written once: header and content.
    assert_eq!(bytes.len(), 3 * 8 + "X:3 again".len() + "X:12".len() + "X:40 é".len());
}

#[test]
fn empty_cache_has_no_bytes_and_max_id_zero() {
    let cache = ReadWriteCache::from_entries(vec![]);
    assert_eq!(cache.len(), 0);
    assert_eq!(cache.max_id(), 0);
    assert!(cache.to_bytes().is_empty());
}

#[test]
fn tune_ids_from_file_names() {
    assert_eq!(tune_id_from_filename("123.abc"), Some(123));
    assert_eq!(tune_id_from_filename("0042.abc"), Some(42));
    assert_eq!(tune_id_from_filename("+7.abc"), Some(7));
    assert_eq!(tune_id_from_filename("1.2.abc"), Some(1));
    assert_eq!(tune_id_from_filename("99"), Some(99));
    assert_eq!(tune_id_from_filename("4294967295.abc"), Some(u32::MAX));
    assert_eq!(tune_id_from_filename("4294967296.abc"), None);
    assert_eq!(tune_id_from_filename("x.abc"), None);
    assert_eq!(tune_id_from_filename("-1.abc"), None);
    assert_eq!(tune_id_from_filename(".abc"), None);
    assert_eq!(tune_id_from_filename(""), None);
}

#[test]
fn file_names_from_ids_read_back() {
    for n in [0u32, 7, 1234, u32::MAX] {
        assert_eq!(tune_id_from_filename(&format!("{}.abc", n)), Some(n));
    }
}
