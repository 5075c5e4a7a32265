//! The text of a bytecode listing: the raw bytes in hexadecimal and one
//! label per instruction.

use vstd::prelude::*;
use crate::chunk::Chunk;
use crate::chunk::Instruction;
use crate::chunk::Opcode;
use crate::chunk::Value;
use crate::chunk::code_u16_at;
use crate::chunk::opcode_byte;
use crate::native::nat_decimal;
use crate::native::u64_decimal;
use crate::text::append_chars;
use crate::text::push_char;
use crate::text::push_str;

verus! {

/// The name of an opcode, as `Debug` shows it.
pub open spec fn opcode_name(op: Opcode) -> Seq<char> {
    match op {
        Opcode::LoadNull => "LoadNull"@,
        Opcode::LoadTrue => "LoadTrue"@,
        Opcode::LoadFalse => "LoadFalse"@,
        Opcode::LoadConst => "LoadConst"@,
        Opcode::LoadSelf => "LoadSelf"@,
        Opcode::LoadSuper => "LoadSuper"@,
        Opcode::LoadVar => "LoadVar"@,
        Opcode::CreateObject => "CreateObject"@,
        Opcode::ObjectInsert => "ObjectInsert"@,
        Opcode::FieldDef => "FieldDef"@,
        Opcode::Assert => "Assert"@,
        Opcode::ObjectIndex => "ObjectIndex"@,
        Opcode::ObjectMerge => "ObjectMerge"@,
        Opcode::CreateArray => "CreateArray"@,
        Opcode::ArrayIndex => "ArrayIndex"@,
        Opcode::ArrayConcat => "ArrayConcat"@,
        Opcode::ArrayLength => "ArrayLength"@,
        Opcode::ArrayAppend => "ArrayAppend"@,
        Opcode::CreateFunction => "CreateFunction"@,
        Opcode::Call => "Call"@,
        Opcode::Return => "Return"@,
        Opcode::BindDefault => "BindDefault"@,
        Opcode::Jump => "Jump"@,
        Opcode::JumpIfFalse => "JumpIfFalse"@,
        Opcode::JumpIfTrue => "JumpIfTrue"@,
        Opcode::LocalScope => "LocalScope"@,
        Opcode::Add => "Add"@,
        Opcode::Sub => "Sub"@,
        Opcode::Mul => "Mul"@,
        Opcode::Div => "Div"@,
        Opcode::Lt => "Lt"@,
        Opcode::Le => "Le"@,
        Opcode::Gt => "Gt"@,
        Opcode::Ge => "Ge"@,
        Opcode::Eq => "Eq"@,
        Opcode::Ne => "Ne"@,
        Opcode::Shl => "Shl"@,
        Opcode::Shr => "Shr"@,
        Opcode::BitAnd => "BitAnd"@,
        Opcode::BitXor => "BitXor"@,
        Opcode::BitOr => "BitOr"@,
        Opcode::Mod => "Mod"@,
        Opcode::StringConcat => "StringConcat"@,
        Opcode::Neg => "Neg"@,
        Opcode::Pos => "Pos"@,
        Opcode::Not => "Not"@,
        Opcode::BitNot => "BitNot"@,
        Opcode::StdCall => "StdCall"@,
        Opcode::Error => "Error"@,
        Opcode::Import => "Import"@,
        Opcode::Pop => "Pop"@,
        Opcode::Dup => "Dup"@,
        Opcode::Swap => "Swap"@,
        Opcode::StoreVar => "StoreVar"@,
        Opcode::Closure => "Closure"@,
        Opcode::GetUpvalue => "GetUpvalue"@,
        Opcode::SetUpvalue => "SetUpvalue"@,
        Opcode::CloseUpvalue => "CloseUpvalue"@,
    }
}

/// The mnemonic of the opcode that a byte encodes, read off the encoding
/// table by byte.
pub open spec fn mnemonic_of_byte(b: u8) -> Option<Seq<char>> {
    match b {
        0 => Some("LoadNull"@),
        1 => Some("LoadTrue"@),
        2 => Some("LoadFalse"@),
        3 => Some("LoadConst"@),
        4 => Some("LoadSelf"@),
        5 => Some("LoadSuper"@),
        6 => Some("LoadVar"@),
        10 => Some("CreateObject"@),
        11 => Some("ObjectInsert"@),
        12 => Some("FieldDef"@),
        13 => Some("Assert"@),
        14 => Some("ObjectIndex"@),
        15 => Some("ObjectMerge"@),
        20 => Some("CreateArray"@),
        21 => Some("ArrayIndex"@),
        22 => Some("ArrayConcat"@),
        23 => Some("ArrayLength"@),
        24 => Some("ArrayAppend"@),
        30 => Some("CreateFunction"@),
        31 => Some("Call"@),
        32 => Some("Return"@),
        33 => Some("BindDefault"@),
        40 => Some("Jump"@),
        41 => Some("JumpIfFalse"@),
        42 => Some("JumpIfTrue"@),
        43 => Some("LocalScope"@),
        50 => Some("Add"@),
        51 => Some("Sub"@),
        52 => Some("Mul"@),
        53 => Some("Div"@),
        54 => Some("Lt"@),
        55 => Some("Le"@),
        56 => Some("Gt"@),
        57 => Some("Ge"@),
        58 => Some("Eq"@),
        59 => Some("Ne"@),
        60 => Some("Shl"@),
        61 => Some("Shr"@),
        62 => Some("BitAnd"@),
        63 => Some("BitXor"@),
        64 => Some("BitOr"@),
        65 => Some("Mod"@),
        67 => Some("StringConcat"@),
        70 => Some("Neg"@),
        71 => Some("Pos"@),
        72 => Some("Not"@),
        73 => Some("BitNot"@),
        80 => Some("StdCall"@),
        81 => Some("Error"@),
        82 => Some("Import"@),
        90 => Some("Pop"@),
        91 => Some("Dup"@),
        92 => Some("Swap"@),
        93 => Some("StoreVar"@),
        100 => Some("Closure"@),
        101 => Some("GetUpvalue"@),
        102 => Some("SetUpvalue"@),
        103 => Some("CloseUpvalue"@),
        _ => None,
    }
}

/// An opcode's name is the mnemonic of the byte that encodes it, so that a
/// listing names each instruction by what its byte encodes.
pub proof fn law_opcode_name_matches_its_byte(op: Opcode)
    ensures
        mnemonic_of_byte(opcode_byte(op)) == Some(opcode_name(op)),
{
}

fn opcode_name_str(op: Opcode) -> (r: &'static str)
    ensures
        r@ == opcode_name(op),
{
    match op {
        Opcode::LoadNull => "LoadNull",
        Opcode::LoadTrue => "LoadTrue",
        Opcode::LoadFalse => "LoadFalse",
        Opcode::LoadConst => "LoadConst",
        Opcode::LoadSelf => "LoadSelf",
        Opcode::LoadSuper => "LoadSuper",
        Opcode::LoadVar => "LoadVar",
        Opcode::CreateObject => "CreateObject",
        Opcode::ObjectInsert => "ObjectInsert",
        Opcode::FieldDef => "FieldDef",
        Opcode::Assert => "Assert",
        Opcode::ObjectIndex => "ObjectIndex",
        Opcode::ObjectMerge => "ObjectMerge",
        Opcode::CreateArray => "CreateArray",
        Opcode::ArrayIndex => "ArrayIndex",
        Opcode::ArrayConcat => "ArrayConcat",
        Opcode::ArrayLength => "ArrayLength",
        Opcode::ArrayAppend => "ArrayAppend",
        Opcode::CreateFunction => "CreateFunction",
        Opcode::Call => "Call",
        Opcode::Return => "Return",
        Opcode::BindDefault => "BindDefault",
        Opcode::Jump => "Jump",
        Opcode::JumpIfFalse => "JumpIfFalse",
        Opcode::JumpIfTrue => "JumpIfTrue",
        Opcode::LocalScope => "LocalScope",
        Opcode::Add => "Add",
        Opcode::Sub => "Sub",
        Opcode::Mul => "Mul",
        Opcode::Div => "Div",
        Opcode::Lt => "Lt",
        Opcode::Le => "Le",
        Opcode::Gt => "Gt",
        Opcode::Ge => "Ge",
        Opcode::Eq => "Eq",
        Opcode::Ne => "Ne",
        Opcode::Shl => "Shl",
        Opcode::Shr => "Shr",
        Opcode::BitAnd => "BitAnd",
        Opcode::BitXor => "BitXor",
        Opcode::BitOr => "BitOr",
        Opcode::Mod => "Mod",
        Opcode::StringConcat => "StringConcat",
        Opcode::Neg => "Neg",
        Opcode::Pos => "Pos",
        Opcode::Not => "Not",
        Opcode::BitNot => "BitNot",
        Opcode::StdCall => "StdCall",
        Opcode::Error => "Error",
        Opcode::Import => "Import",
        Opcode::Pop => "Pop",
        Opcode::Dup => "Dup",
        Opcode::Swap => "Swap",
        Opcode::StoreVar => "StoreVar",
        Opcode::Closure => "Closure",
        Opcode::GetUpvalue => "GetUpvalue",
        Opcode::SetUpvalue => "SetUpvalue",
        Opcode::CloseUpvalue => "CloseUpvalue",
    }
}

/// The upper-case hexadecimal digit of a value below 16.
pub open spec fn hex_upper(d: nat) -> char {
    if d < 10 {
        (48 + d) as char
    } else {
        (55 + d) as char
    }
}

/// A byte as two upper-case hexadecimal digits.
pub open spec fn hex2(b: u8) -> Seq<char> {
    seq![hex_upper(b as nat / 16), hex_upper(b as nat % 16)]
}

/// A `u16` as four upper-case hexadecimal digits.
pub open spec fn hex4(v: u16) -> Seq<char> {
    seq![
        hex_upper(v as nat / 4096),
        hex_upper(v as nat / 256 % 16),
        hex_upper(v as nat / 16 % 16),
        hex_upper(v as nat % 16),
    ]
}

/// The entry of byte `i` in the raw listing; every eighth ends a line.
pub open spec fn raw_entry(i: nat, b: u8) -> Seq<char> {
    "["@ + nat_decimal(i) + "]: "@ + hex2(b) + " "@ + (if (i + 1) % 8 == 0 {
        "\n"@
    } else {
        Seq::empty()
    })
}

/// The entries of all bytes, in order.
pub open spec fn raw_entries(code: Seq<u8>) -> Seq<char>
    decreases code.len(),
{
    if code.len() == 0 {
        Seq::empty()
    } else {
        raw_entries(code.drop_last()) + raw_entry((code.len() - 1) as nat, code.last())
    }
}

/// The raw listing of a chunk's code: a heading, then each byte with its
/// index, eight to a line, the last line ended too.
pub open spec fn raw_listing(code: Seq<u8>) -> Seq<char> {
    "Raw Bytecode:\n"@ + raw_entries(code) + (if code.len() > 0 && code.len() % 8 != 0 {
        "\n"@
    } else {
        Seq::empty()
    })
}

fn hex_upper_of(d: u8) -> (c: char)
    requires
        d < 16,
    ensures
        c == hex_upper(d as nat),
{
    if d < 10 {
        ((48 + d) as u8) as char
    } else {
        ((55 + d) as u8) as char
    }
}

fn push_hex2(out: &mut String, b: u8)
    ensures
        final(out)@ == old(out)@ + hex2(b),
{
    push_char(out, hex_upper_of(b / 16));
    push_char(out, hex_upper_of(b % 16));
    proof {
        assert(final(out)@ =~= old(out)@ + hex2(b));
    }
}

fn push_hex4(out: &mut String, v: u16)
    ensures
        final(out)@ == old(out)@ + hex4(v),
{
    push_char(out, hex_upper_of((v / 4096) as u8));
    push_char(out, hex_upper_of((v / 256 % 16) as u8));
    push_char(out, hex_upper_of((v / 16 % 16) as u8));
    push_char(out, hex_upper_of((v % 16) as u8));
    proof {
        assert(final(out)@ =~= old(out)@ + hex4(v));
    }
}

fn push_dec(out: &mut String, v: usize)
    ensures
        final(out)@ == old(out)@ + nat_decimal(v as nat),
{
    let digits = u64_decimal(v as u64);
    append_chars(out, &digits);
}

/// The raw listing of a chunk's code.
pub fn raw_bytecode(code: &Vec<u8>) -> (r: String)
    ensures
        r@ == raw_listing(code@),
{
    let mut r = String::new();
    push_str(&mut r, "Raw Bytecode:\n");
    let ghost head = r@;
    let mut i: usize = 0;
    while i < code.len()
        invariant
            i <= code@.len(),
            head == "Raw Bytecode:\n"@,
            r@ == head + raw_entries(code@.take(i as int)),
        decreases code.len() - i,
    {
        push_str(&mut r, "[");
        push_dec(&mut r, i);
        push_str(&mut r, "]: ");
        push_hex2(&mut r, code[i]);
        push_str(&mut r, " ");
        if (i + 1) % 8 == 0 {
            push_str(&mut r, "\n");
        }
        proof {
            let t = code@.take(i + 1);
            assert(t.drop_last() =~= code@.take(i as int));
            assert(t.last() == code@[i as int]);
            assert(r@ =~= head + raw_entries(t));
        }
        i += 1;
    }
    proof {
        assert(code@.take(code@.len() as int) =~= code@);
    }
    if code.len() > 0 && code.len() % 8 != 0 {
        push_str(&mut r, "\n");
    } else {
        proof {
            assert(r@ =~= raw_listing(code@));
        }
    }
    r
}

/// The start of an instruction's label: its byte range and size.
pub open spec fn range_part(ip: nat, size: nat) -> Seq<char> {
    if size == 1 {
        "["@ + nat_decimal(ip) + "] (1 byte) "@
    } else {
        "["@ + nat_decimal(ip) + "-"@ + nat_decimal((ip + size - 1) as nat) + "] ("@ + nat_decimal(
            size,
        ) + " bytes) "@
    }
}

/// The label of an instruction at `ip` of `size` bytes: its range, its
/// opcode's name and byte; for `LoadConst` and `Import` also the constant
/// index with its bytes' positions when it can be read, and then, when
/// the chunk has that constant, `, value=` with the constant to show after
/// it.
pub open spec fn label_text(
    code: Seq<u8>,
    constants: Seq<Value>,
    ip: nat,
    op: Opcode,
    size: nat,
) -> (Seq<char>, Option<Value>) {
    let base = range_part(ip, size) + opcode_name(op) + ": opcode="@ + hex2(opcode_byte(op)) + "@"@
        + nat_decimal(ip);
    if op is LoadConst || op is Import {
        match code_u16_at(code, ip + 1int) {
            Some(ci) => {
                let with_operand = base + ", operand="@ + hex4(ci) + "@"@ + nat_decimal(ip + 1)
                    + "-"@ + nat_decimal(ip + 2);
                if ci < constants.len() {
                    (with_operand + ", value="@, Some(constants[ci as int]))
                } else {
                    (with_operand, None)
                }
            },
            None => (base, None),
        }
    } else {
        (base, None)
    }
}

/// The label of a decoded instruction, and the constant to show at its end
/// when there is one.
pub fn instruction_label(chunk: &Chunk, ins: &Instruction) -> (r: (String, Option<Value>))
    requires
        ins.size >= 1,
        ins.offset < chunk.code@.len(),
        ins.offset + ins.size - 1 <= usize::MAX,
    ensures
        (r.0@, r.1) == label_text(
            chunk.code@,
            chunk.constants@,
            ins.offset as nat,
            ins.opcode,
            ins.size as nat,
        ),
{
    let total = chunk.code.len();
    let ip = ins.offset;
    let size = ins.size;
    assert(ip < total);
    let op = ins.opcode;
    let mut t = String::new();
    push_str(&mut t, "[");
    push_dec(&mut t, ip);
    if size == 1 {
        push_str(&mut t, "] (1 byte) ");
    } else {
        push_str(&mut t, "-");
        push_dec(&mut t, ip + (size - 1));
        push_str(&mut t, "] (");
        push_dec(&mut t, size);
        push_str(&mut t, " bytes) ");
    }
    push_str(&mut t, opcode_name_str(op));
    push_str(&mut t, ": opcode=");
    push_hex2(&mut t, op.to_u8());
    push_str(&mut t, "@");
    push_dec(&mut t, ip);
    let ghost base = t@;
    proof {
        assert(base =~= range_part(ip as nat, size as nat) + opcode_name(op) + ": opcode="@ + hex2(
            opcode_byte(op),
        ) + "@"@ + nat_decimal(ip as nat));
    }
    match op {
        Opcode::LoadConst | Opcode::Import => {
            match chunk.read_u16(ip + 1) {
                Some(ci) => {
                    push_str(&mut t, ", operand=");
                    push_hex4(&mut t, ci);
                    push_str(&mut t, "@");
                    push_dec(&mut t, ip + 1);
                    push_str(&mut t, "-");
                    push_dec(&mut t, ip + 2);
                    if (ci as usize) < chunk.constants.len() {
                        push_str(&mut t, ", value=");
                        let v = chunk.constants[ci as usize];
                        proof {
                            assert(t@ =~= label_text(
                                chunk.code@,
                                chunk.constants@,
                                ip as nat,
                                op,
                                size as nat,
                            ).0);
                        }
                        (t, Some(v))
                    } else {
                        proof {
                            assert(t@ =~= label_text(
                                chunk.code@,
                                chunk.constants@,
                                ip as nat,
                                op,
                                size as nat,
                            ).0);
                        }
                        (t, None)
                    }
                },
                None => (t, None),
            }
        },
        _ => (t, None),
    }
}

} // verus!
