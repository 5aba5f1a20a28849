use kvs::error::KvsError;
use kvs::protocol::{
    extend_string, read_u32, Command, ERROR_TAG, GET_RESPONSE_TAG, GET_TAG, NOT_FOUND_TAG,
    REMOVE_RESPONSE_TAG, REMOVE_TAG, SET_RESPONSE_TAG, SET_TAG,
};

#[test]
fn test_serialize_get() {
    let key = "foo";
    let actual = Command::Get(String::from(key)).serialize();
    let mut expected = vec![12, 0, 0, 0, GET_TAG];
    extend_string(&mut expected, key);
    assert_eq!(actual, expected);
}

#[test]
fn test_serialize_get_response() {
    let value = "foo";
    let actual = Command::GetResponse(String::from(value)).serialize();
    let mut expected = vec![12, 0, 0, 0, GET_RESPONSE_TAG];
    extend_string(&mut expected, value);
    assert_eq!(actual, expected);
}

#[test]
fn test_serialize_not_found() {
    let actual = Command::NotFound.serialize();
    let expected = vec![5, 0, 0, 0, NOT_FOUND_TAG];
    assert_eq!(actual, expected);
}

#[test]
fn test_serialize_set() {
    let key = "foo";
    let value = "bar";
    let actual = Command::SetEntry(String::from(key), String::from(value)).serialize();
    let mut expected = vec![19, 0, 0, 0, SET_TAG];
    extend_string(&mut expected, key);
    extend_string(&mut expected, value);
    assert_eq!(actual, expected);
}

#[test]
fn test_serialize_set_response() {
    let actual = Command::SetResponse.serialize();
    let expected = vec![5, 0, 0, 0, SET_RESPONSE_TAG];
    assert_eq!(actual, expected);
}

#[test]
fn test_serialize_remove() {
    let key = "foo";
    let actual = Command::Remove(String::from(key)).serialize();
    let mut expected = vec![12, 0, 0, 0, REMOVE_TAG];
    extend_string(&mut expected, key);
    assert_eq!(actual, expected);
}

#[test]
fn test_serialize_remove_response() {
    let actual = Command::RemoveResponse.serialize();
    let expected = vec![5, 0, 0, 0, REMOVE_RESPONSE_TAG];
    assert_eq!(actual, expected);
}

#[test]
fn test_serialize_error() {
    let msg = "foo";
    let actual = Command::Error(String::from(msg)).serialize();
    let mut expected = vec![12, 0, 0, 0, ERROR_TAG];
    extend_string(&mut expected, msg);
    assert_eq!(actual, expected);
}

#[test]
fn test_deserialize_get() {
    let cmd = Command::Get(String::from("foo"));
    let actual = Command::deserialize(&cmd.serialize()).unwrap();
    assert_eq!(actual, cmd);
}

#[test]
fn test_deserialize_get_response() {
    let cmd = Command::GetResponse(String::from("foo"));
    let actual = Command::deserialize(&cmd.serialize()).unwrap();
    assert_eq!(actual, cmd);
}

#[test]
fn test_deserialize_not_found() {
    let cmd = Command::NotFound;
    let actual = Command::deserialize(&cmd.serialize()).unwrap();
    assert_eq!(actual, cmd);
}

#[test]
fn test_deserialize_set() {
    let cmd = Command::SetEntry(String::from("key"), String::from("bar"));
    let actual = Command::deserialize(&cmd.serialize()).unwrap();
    assert_eq!(actual, cmd);
}

#[test]
fn test_deserialize_set_response() {
    let cmd = Command::SetResponse;
    let actual = Command::deserialize(&cmd.serialize()).unwrap();
    assert_eq!(actual, cmd);
}

#[test]
fn test_deserialize_remove() {
    let cmd = Command::Remove(String::from("foo"));
    let actual = Command::deserialize(&cmd.serialize()).unwrap();
    assert_eq!(actual, cmd);
}

#[test]
fn test_deserialize_remove_response() {
    let cmd = Command::RemoveResponse;
    let actual = Command::deserialize(&cmd.serialize()).unwrap();
    assert_eq!(actual, cmd);
}

#[test]
fn test_deserialize_error() {
    let cmd = Command::Error(String::from("foo"));
    let actual = Command::deserialize(&cmd.serialize()).unwrap();
    assert_eq!(actual, cmd);
}

// Round trips with empty string fields.
#[test]
fn roundtrip_empty_fields() {
    for cmd in [
        Command::Get(String::new()),
        Command::GetResponse(String::new()),
        Command::SetEntry(String::new(), String::new()),
        Command::SetEntry(String::new(), String::from("v")),
        Command::SetEntry(String::from("k"), String::new()),
        Command::Remove(String::new()),
        Command::Error(String::new()),
    ] {
        let actual = Command::deserialize(&cmd.serialize()).unwrap();
        assert_eq!(actual, cmd);
    }
}

// Round trip of multi-byte UTF-8 fields: fails if the byte/string conversions
// hand anything but the exact characters through.
#[test]
fn roundtrip_multibyte_utf8() {
    let cmd = Command::SetEntry(String::from("clé"), String::from("höhe\u{1F600}"));
    let frame = cmd.serialize();
    assert_eq!(Command::deserialize(&frame).unwrap(), cmd);
}

// An unrecognized tag is a typed decode error, not a crash.
#[test]
fn deserialize_unknown_tag() {
    let bytes = vec![5, 0, 0, 0, 99];
    assert_eq!(Command::deserialize(&bytes), Err(KvsError::Encoding));
}

// A frame shorter than the header is rejected.
#[test]
fn deserialize_short_frame() {
    assert_eq!(Command::deserialize(&[]), Err(KvsError::Encoding));
    assert_eq!(Command::deserialize(&[4, 0, 0, 0]), Err(KvsError::Encoding));
}

// A declared field length that runs past the end of the slice is rejected.
#[test]
fn deserialize_field_overrun() {
    let bytes = vec![10, 0, 0, 0, GET_TAG, 255, 0, 0, 0, b'x'];
    assert_eq!(Command::deserialize(&bytes), Err(KvsError::Encoding));
}

// A field that is not UTF-8 is rejected.
#[test]
fn deserialize_invalid_utf8() {
    let bytes = vec![10, 0, 0, 0, GET_TAG, 1, 0, 0, 0, 0xFF];
    assert_eq!(Command::deserialize(&bytes), Err(KvsError::Encoding));
}

// The little-endian length prefix counts the whole frame.
#[test]
fn read_u32_length_prefix() {
    let frame = Command::Error(String::from("abcd")).serialize();
    assert_eq!(read_u32(&frame, 0) as usize, frame.len());
}
