use jsonnet_bytecode::chunk::{Chunk, Opcode, Value};
use jsonnet_bytecode::disassembly::{instruction_label, raw_bytecode};

#[test]
fn raw_listing_eight_to_a_line() {
    assert_eq!(raw_bytecode(&vec![]), "Raw Bytecode:\n");
    assert_eq!(raw_bytecode(&vec![0x00, 0xAB]), "Raw Bytecode:\n[0]: 00 [1]: AB \n");
    let eight: Vec<u8> = (0..8).collect();
    assert_eq!(
        raw_bytecode(&eight),
        "Raw Bytecode:\n[0]: 00 [1]: 01 [2]: 02 [3]: 03 [4]: 04 [5]: 05 [6]: 06 [7]: 07 \n"
    );
    let nine: Vec<u8> = (0..9).map(|b| b * 30).collect();
    assert_eq!(
        raw_bytecode(&nine),
        "Raw Bytecode:\n[0]: 00 [1]: 1E [2]: 3C [3]: 5A [4]: 78 [5]: 96 [6]: B4 [7]: D2 \n[8]: F0 \n"
    );
}

#[test]
fn labels_of_instructions() {
    let mut chunk = Chunk::new("t");
    chunk.write_opcode(Opcode::LoadNull, 0..1);
    chunk.add_constant(Value::Boolean(true));
    chunk.write_opcode_u16(Opcode::LoadConst, 0, 1..2);
    chunk.write_opcode_u16(Opcode::LoadConst, 0x1234, 2..3);
    chunk.write_opcode_i32(Opcode::Jump, 7, 3..4);
    chunk.write_opcode(Opcode::Import, 4..5);
    let ins = chunk.instructions();
    assert_eq!(ins.len(), 5);

    let null = Opcode::LoadNull.to_u8();
    assert_eq!(
        instruction_label(&chunk, &ins[0]),
        (format!("[0] (1 byte) LoadNull: opcode={:02X}@0", null), None)
    );
    let lc = Opcode::LoadConst.to_u8();
    assert_eq!(
        instruction_label(&chunk, &ins[1]),
        (
            format!("[1-3] (3 bytes) LoadConst: opcode={:02X}@1, operand=0000@2-3, value=", lc),
            Some(Value::Boolean(true))
        )
    );
    assert_eq!(
        instruction_label(&chunk, &ins[2]),
        (format!("[4-6] (3 bytes) LoadConst: opcode={:02X}@4, operand=1234@5-6", lc), None)
    );
    let jump = Opcode::Jump.to_u8();
    assert_eq!(
        instruction_label(&chunk, &ins[3]),
        (format!("[7-11] (5 bytes) Jump: opcode={:02X}@7", jump), None)
    );
    let import = Opcode::Import.to_u8();
    assert_eq!(
        instruction_label(&chunk, &ins[4]),
        (format!("[12-14] (3 bytes) Import: opcode={:02X}@12", import), None)
    );
}
