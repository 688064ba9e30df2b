use kvs::error::KvsError;
use kvs::sled_adapter::{get_result, remove_result, value_bytes};

#[test]
fn tree_value_is_the_utf8_of_the_text() {
    assert_eq!(value_bytes("v".to_string()), b"v".to_vec());
    assert_eq!(value_bytes("é".to_string()), vec![0xc3, 0xa9]);
    assert_eq!(value_bytes(String::new()), Vec::<u8>::new());
}

#[test]
fn tree_get_decodes_the_bytes() {
    assert_eq!(get_result(None).unwrap(), None);
    assert_eq!(get_result(Some(b"value".to_vec())).unwrap(), Some("value".to_string()));
    assert_eq!(get_result(Some(vec![0xc3, 0xa9])).unwrap(), Some("é".to_string()));
    assert_eq!(get_result(Some(Vec::new())).unwrap(), Some(String::new()));
}

#[test]
fn tree_get_refuses_bytes_that_are_no_utf8() {
    assert!(matches!(get_result(Some(vec![0xff])), Err(KvsError::CorruptValue)));
    assert!(matches!(get_result(Some(vec![0xc3, 0x28])), Err(KvsError::CorruptValue)));
}

#[test]
fn tree_remove_needs_an_entry() {
    assert!(remove_result(Some(b"old".to_vec())).is_ok());
    assert!(matches!(remove_result(None), Err(KvsError::KeyNotFound)));
}
