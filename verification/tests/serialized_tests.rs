use jsonnet_bytecode::chunk::SpanRunLength;
use jsonnet_bytecode::serialized::{
    deserialize_code, deserialize_spans, serialize_code, serialize_spans, SerializedSpan,
};

#[test]
fn test_spans_stored_as_signed() {
    let spans = vec![SpanRunLength::new(3..7, 2), SpanRunLength::new(0..usize::MAX, 1)];
    let stored = serialize_spans(&spans);
    assert_eq!(stored[0], SerializedSpan { span_start: 3, span_end: 7, repeated_values: 2 });
    assert_eq!(stored[1].span_end, -1);
    assert_eq!(deserialize_spans(&stored), spans);
}

#[test]
fn test_code_round_trip() {
    let code: Vec<u8> = vec![0, 1, 127, 128, 255];
    let stored = serialize_code(&code);
    assert_eq!(stored, vec![0, 1, 127, 128, 255]);
    assert_eq!(deserialize_code(&stored), code);
    assert_eq!(deserialize_code(&vec![256, -1]), vec![0, 255]);
}
