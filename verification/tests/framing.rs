use arrowtiles::framing::{strip_schema_prefix, FramingError};

#[test]
fn payload_follows_the_schema() {
    let stream = vec![1u8, 2, 3, 0xFF, 0xFF, 0xFF, 0xFF, 9, 8];
    assert_eq!(strip_schema_prefix(&stream, 3), Ok(vec![0xFF, 0xFF, 0xFF, 0xFF, 9, 8]));
}

#[test]
fn stream_of_the_schema_alone() {
    let stream = vec![1u8, 2, 3];
    assert_eq!(strip_schema_prefix(&stream, 3), Ok(vec![]));
}

#[test]
fn shifted_framing_is_refused() {
    let stream = vec![1u8, 2, 0xFF, 0xFF, 0xFF, 0xFF, 7];
    assert_eq!(strip_schema_prefix(&stream, 3), Err(FramingError::SchemaSizeMismatch));
    let stream = vec![1u8, 2, 3, 0xFF, 0xFF, 0xFF, 0xFE];
    assert_eq!(strip_schema_prefix(&stream, 3), Err(FramingError::SchemaSizeMismatch));
}
