use jsonnet_bytecode::chunk::{Chunk, FieldVisibility, Opcode, OwnedChunk, SpanRunLength, Value};

fn num(x: f64) -> Value {
    Value::Number(x.to_bits())
}

#[test]
fn test_new_chunk() {
    let chunk = Chunk::new("test.jsonnet");
    assert!(chunk.is_empty());
    assert_eq!(chunk.count(), 0);
    assert_eq!(chunk.code.len(), 0);
    assert_eq!(chunk.spans.len(), 0);
    assert_eq!(chunk.constants.len(), 0);
    assert_eq!(chunk.source_id, "test.jsonnet");
}

#[test]
fn test_write_single_instruction() {
    let mut chunk = Chunk::new("test.jsonnet");
    chunk.write(123, 0..5);

    assert_eq!(chunk.count(), 1);
    assert_eq!(chunk.code[0], 123);
    assert_eq!(chunk.spans.len(), 1);
    assert_eq!(chunk.spans[0].span, 0..5);
    assert_eq!(chunk.spans[0].repeated_values, 1);
}

#[test]
fn test_write_multiple_instructions_different_spans() {
    let mut chunk = Chunk::new("test.jsonnet");
    chunk.write(123, 0..5);
    chunk.write(124, 5..10);
    chunk.write(125, 10..15);

    assert_eq!(chunk.count(), 3);
    assert_eq!(chunk.spans.len(), 3);
    assert_eq!(chunk.spans[0].span, 0..5);
    assert_eq!(chunk.spans[0].repeated_values, 1);
    assert_eq!(chunk.spans[1].span, 5..10);
    assert_eq!(chunk.spans[1].repeated_values, 1);
    assert_eq!(chunk.spans[2].span, 10..15);
    assert_eq!(chunk.spans[2].repeated_values, 1);
}

#[test]
fn test_write_same_span() {
    let mut chunk = Chunk::new("test.jsonnet");
    chunk.write(123, 0..5);
    chunk.write(124, 0..5);
    chunk.write(125, 0..5);

    assert_eq!(chunk.count(), 3);
    assert_eq!(chunk.spans.len(), 1);
    assert_eq!(chunk.spans[0].span, 0..5);
    assert_eq!(chunk.spans[0].repeated_values, 3);
}

#[test]
fn test_write_mixed_spans() {
    let mut chunk = Chunk::new("test.jsonnet");
    chunk.write(123, 0..5);
    chunk.write(124, 5..10);
    chunk.write(125, 5..10);
    chunk.write(126, 10..15);

    assert_eq!(chunk.count(), 4);
    assert_eq!(chunk.spans.len(), 3);

    assert_eq!(chunk.spans[0].span, 0..5);
    assert_eq!(chunk.spans[0].repeated_values, 1);

    assert_eq!(chunk.spans[1].span, 5..10);
    assert_eq!(chunk.spans[1].repeated_values, 2);

    assert_eq!(chunk.spans[2].span, 10..15);
    assert_eq!(chunk.spans[2].repeated_values, 1);
}

#[test]
fn test_get_span() {
    let mut chunk = Chunk::new("test.jsonnet");
    chunk.write(123, 0..5);
    chunk.write(124, 0..5);
    chunk.write(125, 5..10);
    chunk.write(126, 10..15);
    chunk.write(127, 10..15);

    assert_eq!(chunk.get_span(0), Some(&(0..5)));
    assert_eq!(chunk.get_span(1), Some(&(0..5)));
    assert_eq!(chunk.get_span(2), Some(&(5..10)));
    assert_eq!(chunk.get_span(3), Some(&(10..15)));
    assert_eq!(chunk.get_span(4), Some(&(10..15)));
    assert_eq!(chunk.get_span(5), None);
}

#[test]
fn test_add_constant() {
    let mut chunk = Chunk::new("test.jsonnet");

    let index1 = chunk.add_constant(num(1.5));
    let index2 = chunk.add_constant(num(2.7));
    let index3 = chunk.add_constant(num(3.14));

    assert_eq!(index1, 0);
    assert_eq!(index2, 1);
    assert_eq!(index3, 2);

    assert_eq!(chunk.constants[0], num(1.5));
    assert_eq!(chunk.constants[1], num(2.7));
    assert_eq!(chunk.constants[2], num(3.14));
}

#[test]
fn test_span_run_length() {
    let span_info = SpanRunLength::new(42..84, 5);
    assert_eq!(span_info.span, 42..84);
    assert_eq!(span_info.repeated_values, 5);
}

#[test]
fn test_opcode_conversion() {
    assert_eq!(Opcode::from_u8(0), Some(Opcode::LoadNull));
    assert_eq!(Opcode::from_u8(3), Some(Opcode::LoadConst));
    assert_eq!(Opcode::from_u8(50), Some(Opcode::Add));
    assert_eq!(Opcode::from_u8(255), None);
}

#[test]
fn test_write_opcode() {
    let mut chunk = Chunk::new("test.jsonnet");
    chunk.write_opcode(Opcode::LoadNull, 0..5);

    assert_eq!(chunk.count(), 1);
    assert_eq!(chunk.read_opcode(0), Some(Opcode::LoadNull));
}

#[test]
fn test_write_opcode_u16() {
    let mut chunk = Chunk::new("test.jsonnet");
    chunk.write_opcode_u16(Opcode::LoadConst, 0x1234, 0..5);

    assert_eq!(chunk.count(), 3);
    assert_eq!(chunk.read_opcode(0), Some(Opcode::LoadConst));
    assert_eq!(chunk.read_u16(1), Some(0x1234));
}

#[test]
fn test_write_opcode_u32() {
    let mut chunk = Chunk::new("test.jsonnet");
    chunk.write_opcode_u32(Opcode::CreateFunction, 0x12345678, 0..5);

    assert_eq!(chunk.count(), 5);
    assert_eq!(chunk.read_opcode(0), Some(Opcode::CreateFunction));
    assert_eq!(chunk.read_u32(1), Some(0x12345678));
}

#[test]
fn test_write_opcode_i32() {
    let mut chunk = Chunk::new("test.jsonnet");
    chunk.write_opcode_i32(Opcode::Jump, -42, 0..5);

    assert_eq!(chunk.count(), 5);
    assert_eq!(chunk.read_opcode(0), Some(Opcode::Jump));
    assert_eq!(chunk.read_i32(1), Some(-42));
}

#[test]
fn test_write_opcode_u8_u8() {
    let mut chunk = Chunk::new("test.jsonnet");
    chunk.write_opcode_u8_u8(Opcode::Call, 3, 2, 0..5);

    assert_eq!(chunk.count(), 3);
    assert_eq!(chunk.read_opcode(0), Some(Opcode::Call));
    assert_eq!(chunk.read_u8(1), Some(3));
    assert_eq!(chunk.read_u8(2), Some(2));
}

#[test]
fn test_write_opcode_u16_u8() {
    let mut chunk = Chunk::new("test.jsonnet");
    chunk.write_opcode_u16_u8(Opcode::FieldDef, 0x1234, 1, 0..5);

    assert_eq!(chunk.count(), 4);
    assert_eq!(chunk.read_opcode(0), Some(Opcode::FieldDef));
    assert_eq!(chunk.read_u16(1), Some(0x1234));
    assert_eq!(chunk.read_u8(3), Some(1));
}

#[test]
fn test_write_opcode_u8_u32() {
    let mut chunk = Chunk::new("test.jsonnet");
    chunk.write_opcode_u8_u32(Opcode::CreateFunction, 5, 0x12345678, 0..5);

    assert_eq!(chunk.count(), 6);
    assert_eq!(chunk.read_opcode(0), Some(Opcode::CreateFunction));
    assert_eq!(chunk.read_u8(1), Some(5));
    assert_eq!(chunk.read_u32(2), Some(0x12345678));
}

#[test]
fn test_field_visibility() {
    assert_eq!(FieldVisibility::Visible as u8, 0);
    assert_eq!(FieldVisibility::Hidden as u8, 1);
    assert_eq!(FieldVisibility::ForceVisible as u8, 2);
}

#[test]
fn test_complex_opcode_sequence() {
    let mut chunk = Chunk::new("test.jsonnet");

    chunk.write_opcode_u16(Opcode::LoadConst, 0, 0..5);
    chunk.write_opcode(Opcode::Add, 5..10);
    chunk.write_opcode(Opcode::Return, 10..15);

    assert_eq!(chunk.count(), 5);
    assert_eq!(chunk.read_opcode(0), Some(Opcode::LoadConst));
    assert_eq!(chunk.read_u16(1), Some(0));
    assert_eq!(chunk.read_opcode(3), Some(Opcode::Add));
    assert_eq!(chunk.read_opcode(4), Some(Opcode::Return));
}

#[test]
fn test_read_beyond_bounds() {
    let mut chunk = Chunk::new("test.jsonnet");
    chunk.write_opcode(Opcode::LoadNull, 0..5);

    assert_eq!(chunk.read_u16(0), None);
    assert_eq!(chunk.read_u32(0), None);
    assert_eq!(chunk.read_opcode(5), None);
}

#[test]
fn test_default() {
    let chunk = Chunk::default();
    assert!(chunk.is_empty());
    assert_eq!(chunk.count(), 0);
    assert_eq!(chunk.source_id, "");
}

#[test]
fn test_owned_chunk_creation() {
    let owned_chunk = OwnedChunk {
        source_id: "test.jsonnet".to_string(),
        code: vec![0, 1, 2],
        spans: vec![SpanRunLength::new(0..5, 3)],
        constants: vec![num(42.0)],
    };

    assert_eq!(owned_chunk.source_id, "test.jsonnet");
    assert_eq!(owned_chunk.code, vec![0, 1, 2]);
    assert_eq!(owned_chunk.spans.len(), 1);
    assert_eq!(owned_chunk.constants.len(), 1);
}

#[test]
fn test_chunk_into_owned() {
    let mut chunk = Chunk::new("test.jsonnet");
    chunk.write_opcode(Opcode::LoadNull, 0..5);
    chunk.write_opcode(Opcode::LoadTrue, 5..10);
    let const_idx = chunk.add_constant(num(3.14));

    let owned = chunk.into_owned();

    assert_eq!(owned.source_id, "test.jsonnet");
    assert_eq!(owned.code.len(), 2);
    assert_eq!(owned.spans.len(), 2);
    assert_eq!(owned.constants.len(), 1);
    assert_eq!(owned.constants[const_idx], num(3.14));
}

#[test]
fn test_owned_chunk_clone() {
    let owned_chunk = OwnedChunk {
        source_id: "test.jsonnet".to_string(),
        code: vec![0, 1, 2],
        spans: vec![SpanRunLength::new(0..5, 3)],
        constants: vec![num(42.0)],
    };

    let cloned = owned_chunk.clone();

    assert_eq!(owned_chunk, cloned);
    assert_eq!(cloned.source_id, "test.jsonnet");
    assert_eq!(cloned.code, vec![0, 1, 2]);
}

#[test]
fn test_owned_chunk_equality() {
    let owned1 = OwnedChunk {
        source_id: "test.jsonnet".to_string(),
        code: vec![0, 1, 2],
        spans: vec![SpanRunLength::new(0..5, 3)],
        constants: vec![num(42.0)],
    };

    let owned2 = OwnedChunk {
        source_id: "test.jsonnet".to_string(),
        code: vec![0, 1, 2],
        spans: vec![SpanRunLength::new(0..5, 3)],
        constants: vec![num(42.0)],
    };

    let owned3 = OwnedChunk {
        source_id: "other.jsonnet".to_string(),
        code: vec![0, 1, 2],
        spans: vec![SpanRunLength::new(0..5, 3)],
        constants: vec![num(42.0)],
    };

    assert_eq!(owned1, owned2);
    assert_ne!(owned1, owned3);
}

#[test]
fn test_error_span_covers_code_range() {
    let mut chunk = Chunk::new("test.jsonnet");
    chunk.write(123, 0..5);
    chunk.write(124, 5..10);
    chunk.write(125, 10..15);
    assert_eq!(chunk.error_span(&(1..3)), 5..15);
    assert_eq!(chunk.error_span(&(2..9)), 10..15);
    assert_eq!(chunk.error_span(&(7..9)), 0..0);
    assert_eq!(chunk.error_span(&(0..0)), 0..5);
}

#[test]
fn test_owned_chunk_reads() {
    let mut chunk = Chunk::new("t");
    chunk.write_opcode_i32(Opcode::JumpIfFalse, 1_000_000, 3..4);
    chunk.write_opcode_u16(Opcode::LoadConst, 7, 4..6);
    let owned = chunk.into_owned();
    assert_eq!(owned.count(), 8);
    assert_eq!(owned.read_opcode(0), Some(Opcode::JumpIfFalse));
    assert_eq!(owned.read_i32(1), Some(1_000_000));
    assert_eq!(owned.read_u16(6), Some(7));
    assert_eq!(owned.read_u16(7), None);
    assert_eq!(owned.get_span(4), Some(&(3..4)));
    assert_eq!(owned.get_span(5), Some(&(4..6)));
    assert_eq!(owned.get_span(8), None);
}

#[test]
fn test_patch_i32_reads_back() {
    let mut chunk = Chunk::new("t");
    chunk.write_opcode(Opcode::Jump, 0..1);
    chunk.write_i32(0);
    assert_eq!(chunk.count(), 5);
    assert_eq!(chunk.spans.len(), 1);
    chunk.patch_i32(1, -123456);
    assert_eq!(chunk.read_i32(1), Some(-123456));
    assert_eq!(chunk.read_opcode(0), Some(Opcode::Jump));
    // A patch that does not fit changes nothing.
    chunk.patch_i32(2, 99);
    assert_eq!(chunk.read_i32(1), Some(-123456));
    assert_eq!(chunk.code[1], 0xC0);
}

#[test]
fn test_le_encoding_bytes() {
    let mut chunk = Chunk::new("t");
    chunk.write_opcode_u32(Opcode::CreateFunction, 0x0A0B0C0D, 0..1);
    assert_eq!(chunk.code, vec![30, 0x0D, 0x0C, 0x0B, 0x0A]);
    chunk.write_opcode_u16_u8(Opcode::StdCall, 0x0102, 9, 0..1);
    assert_eq!(&chunk.code[5..], &[80, 0x02, 0x01, 9]);
    assert_eq!(chunk.spans.len(), 1);
    assert_eq!(chunk.spans[0].repeated_values, 9);
}

#[test]
fn test_instructions_walk() {
    let mut chunk = Chunk::new("t");
    chunk.write_opcode_u16(Opcode::LoadConst, 0, 0..1);
    chunk.write(200, 1..2);
    chunk.write_opcode_i32(Opcode::Jump, 4, 2..3);
    chunk.write_opcode_u16_u8(Opcode::Closure, 1, 2, 3..4);
    chunk.write_opcode_u8(Opcode::Call, 1, 4..5);
    let list = chunk.instructions();
    let got: Vec<(usize, Opcode, usize)> = list.iter().map(|i| (i.offset, i.opcode, i.size)).collect();
    // The closure claims 4 + 2 * 3 bytes, which runs past the end.
    assert_eq!(
        got,
        vec![(0, Opcode::LoadConst, 3), (4, Opcode::Jump, 5), (9, Opcode::Closure, 10)]
    );
}

#[test]
fn test_field_visibility_bytes() {
    assert_eq!(FieldVisibility::Visible.to_u8(), 0);
    assert_eq!(FieldVisibility::Hidden.to_u8(), 1);
    assert_eq!(FieldVisibility::ForceVisible.to_u8(), 2);
}

#[test]
fn test_opcode_bytes_round_trip() {
    for b in 0u8..=255 {
        if let Some(op) = Opcode::from_u8(b) {
            assert_eq!(op.to_u8(), b);
        }
    }
    assert_eq!(Opcode::CloseUpvalue.to_u8(), 103);
    assert_eq!(Opcode::from_u8(66), None);
}
