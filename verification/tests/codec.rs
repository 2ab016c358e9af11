use kvs_log::codec::{deserialize, deserialize_str, get_value_offset, serialize, serialize_str, Command};
use kvs_log::errors::KvError;
use kvs_log::segname::{file_idx_to_path, get_tmp_file_path, path_to_idx};

// A Put record serializes to the exact on-disk byte layout: tag `s`, then
// each string behind a 32-bit big-endian length prefix.
#[test]
fn serialize_put_exact_bytes() {
    let cmd = Command::Put { key: "ab".to_owned(), value: "xyz".to_owned() };
    let bytes = serialize(&cmd);
    assert_eq!(
        bytes,
        vec![b's', 0, 0, 0, 2, b'a', b'b', 0, 0, 0, 3, b'x', b'y', b'z']
    );
}

#[test]
fn serialize_remove_exact_bytes() {
    let cmd = Command::Remove { key: "k".to_owned() };
    assert_eq!(serialize(&cmd), vec![b'r', 0, 0, 0, 1, b'k']);
}

#[test]
fn serialize_wire_only_commands() {
    assert_eq!(serialize(&Command::Get { key: "k".to_owned() }), vec![b'g', 0, 0, 0, 1, b'k']);
    assert_eq!(serialize(&Command::Reset), vec![b'z']);
}

// Serializing then deserializing a record yields the record back, and the
// parse ends exactly at the record boundary.
#[test]
fn record_round_trip() {
    let cmd = Command::Put { key: "key1".to_owned(), value: "value1".to_owned() };
    let bytes = serialize(&cmd);
    let (parsed, end) = deserialize(&bytes, 0).unwrap().unwrap();
    assert_eq!(end, bytes.len());
    match parsed {
        Command::Put { key, value } => {
            assert_eq!(key, "key1");
            assert_eq!(value, "value1");
        },
        _ => panic!("wrong variant"),
    }
}

// Parsing at the end of the data reports a clean end of file.
#[test]
fn deserialize_at_end_is_none() {
    let bytes: Vec<u8> = Vec::new();
    assert!(deserialize(&bytes, 0).unwrap().is_none());
}

// An unknown tag byte is a corrupt record.
#[test]
fn unknown_tag_is_corrupt() {
    let bytes = vec![b'q', 0, 0, 0, 1, b'k'];
    assert_eq!(deserialize(&bytes, 0).unwrap_err(), KvError::CorruptRecord);
}

// A record cut short mid-way is a corrupt record.
#[test]
fn truncated_record_is_corrupt() {
    let cmd = Command::Put { key: "key1".to_owned(), value: "value1".to_owned() };
    let mut bytes = serialize(&cmd);
    bytes.pop();
    assert_eq!(deserialize(&bytes, 0).unwrap_err(), KvError::CorruptRecord);
}

// Bytes that are not UTF-8 are a corrupt record: the decoder really
// validates what it hands back.
#[test]
fn invalid_utf8_is_corrupt() {
    let bytes = vec![0, 0, 0, 2, 0xff, 0xfe];
    assert_eq!(deserialize_str(&bytes, 0).unwrap_err(), KvError::CorruptRecord);
}

// A length-prefixed string parses back to itself from any offset.
#[test]
fn string_round_trip_mid_buffer() {
    let mut buffer = vec![9u8, 9, 9];
    serialize_str(&"hello".to_owned(), &mut buffer);
    let (s, end) = deserialize_str(&buffer, 3).unwrap();
    assert_eq!(s, "hello");
    assert_eq!(end, buffer.len());
}

// The value offset of a Put record is the tag byte plus the key's length
// prefix plus the key bytes; other commands carry no value.
#[test]
fn value_offset_formula() {
    let put = Command::Put { key: "key1".to_owned(), value: "ignored".to_owned() };
    assert_eq!(get_value_offset(&put), Some(1 + 4 + 4));
    assert_eq!(get_value_offset(&Command::Remove { key: "key1".to_owned() }), None);
    assert_eq!(get_value_offset(&Command::Reset), None);
}

// Segment file names embed the segment index and parse back to it.
#[test]
fn segment_name_round_trip() {
    assert_eq!(file_idx_to_path(1), "kv_1.log");
    assert_eq!(file_idx_to_path(42), "kv_42.log");
    assert_eq!(path_to_idx(&"kv_7.log".to_owned()), Some(7));
    assert_eq!(path_to_idx(&file_idx_to_path(123456)), Some(123456));
}

// Names without a numeric suffix are skipped.
#[test]
fn segment_name_rejects_non_numeric() {
    assert_eq!(path_to_idx(&"kv_x.log".to_owned()), None);
    assert_eq!(path_to_idx(&"kv_.log".to_owned()), None);
    assert_eq!(path_to_idx(&"99bottles.log".to_owned()), None);
}

// The compactor's temporary file sits beside the segment under a marked name.
#[test]
fn tmp_file_name() {
    assert_eq!(get_tmp_file_path(&"kv_3.log".to_owned()), "_tmp_kv_3.log");
}
