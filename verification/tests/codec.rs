use kvs::codec::{decode_record, encode_record, Decoded};
use kvs::command::Command;
use serde_json::Value;

fn put(key: &str, value: &str) -> Command {
    Command::set(key.to_string(), value.to_string())
}

fn rm(key: &str) -> Command {
    Command::remove(key.to_string())
}

fn same(a: &Command, b: &Command) -> bool {
    match (a, b) {
        (Command::Put { key: k1, value: v1 }, Command::Put { key: k2, value: v2 }) => {
            k1 == k2 && v1 == v2
        }
        (Command::Remove { key: k1 }, Command::Remove { key: k2 }) => k1 == k2,
        _ => false,
    }
}

/// The record as `serde_json` writes it.
fn json_of(command: &Command) -> Vec<u8> {
    let mut fields = serde_json::Map::new();
    let name = match command {
        Command::Put { key, value } => {
            fields.insert("key".to_string(), Value::String(key.clone()));
            fields.insert("value".to_string(), Value::String(value.clone()));
            "Set"
        }
        Command::Remove { key } => {
            fields.insert("key".to_string(), Value::String(key.clone()));
            "Remove"
        }
    };
    let mut record = serde_json::Map::new();
    record.insert(name.to_string(), Value::Object(fields));
    serde_json::to_vec(&Value::Object(record)).unwrap()
}

fn samples() -> Vec<Command> {
    let every_ascii: String = (0u8..128).map(|b| b as char).collect();
    vec![
        put("k", "v"),
        put("", ""),
        put("ключ", "значение"),
        put("a\nb", "\"quoted\" \\ \u{0}"),
        put(&every_ascii, "/ \u{7f} \u{80} \u{2028} 🦀"),
        rm("k"),
        rm(""),
        rm("🦀"),
        rm(&every_ascii),
    ]
}

#[test]
fn command_set_builds_a_put_record() {
    match Command::set("k".to_string(), "v".to_string()) {
        Command::Put { key, value } => {
            assert_eq!(key, "k");
            assert_eq!(value, "v");
        }
        other => panic!("unexpected command: {:?}", other),
    }
}

#[test]
fn command_remove_builds_a_remove_record() {
    match Command::remove("k".to_string()) {
        Command::Remove { key } => assert_eq!(key, "k"),
        other => panic!("unexpected command: {:?}", other),
    }
}

#[test]
fn put_record_is_a_json_document() {
    let bytes = encode_record(&put("ab", "xyz"));
    assert_eq!(bytes, br#"{"Set":{"key":"ab","value":"xyz"}}"#.to_vec());
}

#[test]
fn remove_record_is_a_json_document() {
    let bytes = encode_record(&rm("ab"));
    assert_eq!(bytes, br#"{"Remove":{"key":"ab"}}"#.to_vec());
}

#[test]
fn text_is_escaped() {
    let bytes = encode_record(&rm("\"\\\u{8}\t\n\u{c}\r\u{0}\u{1f}\u{b}/\u{7f}é"));
    let mut expected = br#"{"Remove":{"key":"\"\\\b\t\n\f\r\u0000\u001f\u000b/"#.to_vec();
    expected.extend_from_slice(&[0x7f, 0xc3, 0xa9]);
    expected.extend_from_slice(br#""}}"#);
    assert_eq!(bytes, expected);
}

#[test]
fn records_are_what_serde_json_writes() {
    for command in samples().iter() {
        assert_eq!(encode_record(command), json_of(command));
    }
}

#[test]
fn what_serde_json_writes_is_decoded() {
    for command in samples().iter() {
        let bytes = json_of(command);
        match decode_record(&bytes) {
            Decoded::Record { cmd, len } => {
                assert!(same(&cmd, command));
                assert_eq!(len, bytes.len());
            }
            other => panic!("unexpected result: {:?}", other),
        }
    }
}

#[test]
fn decode_gives_back_what_was_encoded() {
    for command in samples().iter() {
        let bytes = encode_record(command);
        match decode_record(&bytes) {
            Decoded::Record { cmd, len } => {
                assert!(same(&cmd, command));
                assert_eq!(len, bytes.len());
            }
            other => panic!("unexpected result: {:?}", other),
        }
    }
}

#[test]
fn decode_stops_at_the_end_of_the_record() {
    let first = encode_record(&put("k", "v"));
    let mut bytes = first.clone();
    bytes.extend_from_slice(&encode_record(&rm("other")));
    bytes.push(0xff);
    match decode_record(&bytes) {
        Decoded::Record { cmd, len } => {
            assert!(same(&cmd, &put("k", "v")));
            assert_eq!(len, first.len());
        }
        other => panic!("unexpected result: {:?}", other),
    }
}

#[test]
fn every_proper_prefix_of_a_record_is_truncated() {
    for command in samples().iter() {
        let bytes = encode_record(command);
        for end in 0..bytes.len() {
            assert!(matches!(decode_record(&bytes[..end]), Decoded::Truncated));
        }
    }
}

#[test]
fn bytes_that_start_no_record_are_corrupt() {
    assert!(matches!(decode_record(&[0]), Decoded::Corrupt));
    assert!(matches!(decode_record(b"garbage"), Decoded::Corrupt));
    assert!(matches!(decode_record(b"{\"Get\":{\"key\":\"k\"}}"), Decoded::Corrupt));
    assert!(matches!(decode_record(b"{\"Set\":{\"key\":1}}"), Decoded::Corrupt));
    assert!(matches!(decode_record(b"{\"Remove\":{\"key\":\"k\"}]"), Decoded::Corrupt));
    assert!(matches!(decode_record(b"{\"Set\":{\"key\":\"k\"}}"), Decoded::Corrupt));
}

#[test]
fn other_spellings_of_a_record_are_corrupt() {
    assert!(matches!(decode_record(b"{ \"Remove\":{\"key\":\"k\"}}"), Decoded::Corrupt));
    assert!(matches!(decode_record(b"{\"Remove\":{\"key\":\"\\/\"}}"), Decoded::Corrupt));
    assert!(matches!(decode_record(b"{\"Remove\":{\"key\":\"\\u0041\"}}"), Decoded::Corrupt));
    assert!(matches!(decode_record(b"{\"Remove\":{\"key\":\"\\u001F\"}}"), Decoded::Corrupt));
    assert!(matches!(decode_record(b"{\"Remove\":{\"key\":\"\\u000a\"}}"), Decoded::Corrupt));
    assert!(matches!(decode_record(b"{\"Remove\":{\"key\":\"a\nb\"}}"), Decoded::Corrupt));
}

#[test]
fn invalid_utf8_in_a_text_is_corrupt() {
    let mut bytes = b"{\"Remove\":{\"key\":\"".to_vec();
    bytes.extend_from_slice(&[0xc3, 0x28]);
    bytes.extend_from_slice(b"\"}}");
    assert!(matches!(decode_record(&bytes), Decoded::Corrupt));
}

#[test]
fn escape_that_is_cut_short_is_truncated() {
    assert!(matches!(decode_record(b"{\"Remove\":{\"key\":\"\\"), Decoded::Truncated));
    assert!(matches!(decode_record(b"{\"Remove\":{\"key\":\"\\u00"), Decoded::Truncated));
    assert!(matches!(decode_record(b"{\"Remove\":{\"key\":\"abc"), Decoded::Truncated));
}
