use jsonnet_bytecode::chunk::{Chunk, Opcode, Value};
use jsonnet_bytecode::compiler::Compiler;
use jsonnet_bytecode::memory_manager::MemoryManager;
use jsonnet_bytecode::scanner::{ScanError, Scanner};

fn num(x: f64) -> Value {
    Value::Number(x.to_bits())
}

fn number_bits(s: &str) -> u64 {
    s.parse::<f64>().unwrap().to_bits()
}

fn op(o: Opcode) -> u8 {
    o.to_u8()
}

fn compile_with<'a>(
    scanner: &'a mut Scanner<'a>,
    memory_manager: &mut MemoryManager,
) -> Result<Chunk<'a>, ScanError> {
    let compiler = Compiler::new(scanner, "test");
    compiler.compile(memory_manager, &number_bits)
}

#[test]
fn test_simple_number() {
    let mut scanner = Scanner::new("42", "test");
    let mut memory_manager = MemoryManager::new();
    let chunk = compile_with(&mut scanner, &mut memory_manager).unwrap();

    assert_eq!(chunk.constants.len(), 1);
    assert_eq!(chunk.constants[0], num(42.0));
    assert_eq!(chunk.code.len(), 4);
}

#[test]
fn test_simple_addition() {
    let mut scanner = Scanner::new("3 + 4", "test");
    let mut memory_manager = MemoryManager::new();
    let chunk = compile_with(&mut scanner, &mut memory_manager).unwrap();

    assert_eq!(chunk.constants.len(), 2);
    assert_eq!(chunk.constants[0], num(3.0));
    assert_eq!(chunk.constants[1], num(4.0));
    assert_eq!(chunk.code.len(), 8);
}

#[test]
fn test_unary_minus() {
    let mut scanner = Scanner::new("-42", "test");
    let mut memory_manager = MemoryManager::new();
    let chunk = compile_with(&mut scanner, &mut memory_manager).unwrap();

    assert_eq!(chunk.constants.len(), 1);
    assert_eq!(chunk.constants[0], num(42.0));
    assert_eq!(chunk.code.len(), 5);
}

#[test]
fn test_grouped_expression() {
    let mut scanner = Scanner::new("(1 + 2) * 3", "test");
    let mut memory_manager = MemoryManager::new();
    let chunk = compile_with(&mut scanner, &mut memory_manager).unwrap();

    assert_eq!(chunk.constants.len(), 3);
    assert_eq!(chunk.code.len(), 12);
}

#[test]
fn test_precedence() {
    let mut scanner = Scanner::new("2 + 3 * 4", "test");
    let mut memory_manager = MemoryManager::new();
    let chunk = compile_with(&mut scanner, &mut memory_manager).unwrap();

    assert_eq!(chunk.constants.len(), 3);
    assert_eq!(chunk.constants[0], num(2.0));
    assert_eq!(chunk.constants[1], num(3.0));
    assert_eq!(chunk.constants[2], num(4.0));
}

#[test]
fn test_true_literal() {
    let mut scanner = Scanner::new("true", "test");
    let mut memory_manager = MemoryManager::new();
    let chunk = compile_with(&mut scanner, &mut memory_manager).unwrap();

    assert_eq!(chunk.constants.len(), 0);
    assert_eq!(chunk.code.len(), 2);
    assert_eq!(chunk.code[0], op(Opcode::LoadTrue));
    assert_eq!(chunk.code[1], op(Opcode::Return));
}

#[test]
fn test_false_literal() {
    let mut scanner = Scanner::new("false", "test");
    let mut memory_manager = MemoryManager::new();
    let chunk = compile_with(&mut scanner, &mut memory_manager).unwrap();

    assert_eq!(chunk.constants.len(), 0);
    assert_eq!(chunk.code.len(), 2);
    assert_eq!(chunk.code[0], op(Opcode::LoadFalse));
    assert_eq!(chunk.code[1], op(Opcode::Return));
}

#[test]
fn test_null_literal() {
    let mut scanner = Scanner::new("null", "test");
    let mut memory_manager = MemoryManager::new();
    let chunk = compile_with(&mut scanner, &mut memory_manager).unwrap();

    assert_eq!(chunk.constants.len(), 0);
    assert_eq!(chunk.code.len(), 2);
    assert_eq!(chunk.code[0], op(Opcode::LoadNull));
    assert_eq!(chunk.code[1], op(Opcode::Return));
}

#[test]
fn test_logical_not_with_true() {
    let mut scanner = Scanner::new("!true", "test");
    let mut memory_manager = MemoryManager::new();
    let chunk = compile_with(&mut scanner, &mut memory_manager).unwrap();

    assert_eq!(chunk.constants.len(), 0);
    assert_eq!(chunk.code.len(), 3);
    assert_eq!(chunk.code[0], op(Opcode::LoadTrue));
    assert_eq!(chunk.code[1], op(Opcode::Not));
    assert_eq!(chunk.code[2], op(Opcode::Return));
}

#[test]
fn test_string_literal() {
    let mut scanner = Scanner::new("\"hello world\"", "test");
    let mut memory_manager = MemoryManager::new();
    let chunk = compile_with(&mut scanner, &mut memory_manager).unwrap();

    assert_eq!(chunk.constants.len(), 1);
    let expected_interned = memory_manager.allocate_string("hello world");
    assert_eq!(chunk.constants[0], Value::String(expected_interned.index));
    assert_eq!(chunk.code.len(), 4);
}

#[test]
fn test_empty_string_literal() {
    let mut scanner = Scanner::new("\"\"", "test");
    let mut memory_manager = MemoryManager::new();
    let chunk = compile_with(&mut scanner, &mut memory_manager).unwrap();

    assert_eq!(chunk.constants.len(), 1);
    let expected_interned = memory_manager.allocate_string("");
    assert_eq!(chunk.constants[0], Value::String(expected_interned.index));
    assert_eq!(chunk.code.len(), 4);
}

#[test]
fn test_string_with_logical_not() {
    let mut scanner = Scanner::new("!\"test\"", "test");
    let mut memory_manager = MemoryManager::new();
    let chunk = compile_with(&mut scanner, &mut memory_manager).unwrap();

    assert_eq!(chunk.constants.len(), 1);
    let expected_interned = memory_manager.allocate_string("test");
    assert_eq!(chunk.constants[0], Value::String(expected_interned.index));
    assert_eq!(chunk.code.len(), 5);
    assert_eq!(chunk.code[0], op(Opcode::LoadConst));
    assert_eq!(chunk.code[3], op(Opcode::Not));
    assert_eq!(chunk.code[4], op(Opcode::Return));
}

#[test]
fn test_unicode_literal() {
    let input = "\"🚀\"";
    let mut scanner = Scanner::new(input, "test.jsonnet");
    let mut memory_manager = MemoryManager::new();
    let compiler = Compiler::new(&mut scanner, "test.jsonnet");
    let chunk = compiler.compile(&mut memory_manager, &number_bits).unwrap();

    assert_eq!(chunk.constants.len(), 1);
    if let Value::String(s_idx) = chunk.constants[0] {
        assert_eq!(memory_manager.load_string(s_idx), "🚀");
    } else {
        panic!("Expected string constant");
    }
}

#[test]
fn test_error_string_literal() {
    let mut scanner = Scanner::new("error \"test message\"", "test");
    let mut memory_manager = MemoryManager::new();
    let chunk = compile_with(&mut scanner, &mut memory_manager).unwrap();

    assert_eq!(chunk.constants.len(), 1);
    let expected_interned = memory_manager.allocate_string("test message");
    assert_eq!(chunk.constants[0], Value::String(expected_interned.index));
    assert_eq!(chunk.code.len(), 5);
    assert_eq!(chunk.code[0], op(Opcode::LoadConst));
    assert_eq!(chunk.code[3], op(Opcode::Error));
    assert_eq!(chunk.code[4], op(Opcode::Return));
}

#[test]
fn test_error_expression() {
    let mut scanner = Scanner::new("error (1 + 2)", "test");
    let mut memory_manager = MemoryManager::new();
    let chunk = compile_with(&mut scanner, &mut memory_manager).unwrap();

    assert_eq!(chunk.constants.len(), 2);
    assert_eq!(chunk.constants[0], num(1.0));
    assert_eq!(chunk.constants[1], num(2.0));
    assert_eq!(chunk.code.len(), 9);
    assert_eq!(chunk.code[0], op(Opcode::LoadConst));
    assert_eq!(chunk.code[3], op(Opcode::LoadConst));
    assert_eq!(chunk.code[6], op(Opcode::Add));
    assert_eq!(chunk.code[7], op(Opcode::Error));
    assert_eq!(chunk.code[8], op(Opcode::Return));
}

fn error_span_of(input: &str) -> (usize, usize) {
    let mut scanner = Scanner::new(input, "test");
    let mut memory_manager = MemoryManager::new();
    let compiler = Compiler::new(&mut scanner, "test");
    let chunk = compiler.compile(&mut memory_manager, &number_bits).unwrap();
    let error_opcode_pos = chunk.code.iter().position(|&x| x == op(Opcode::Error)).unwrap();
    let error_span = chunk.get_span(error_opcode_pos).unwrap();
    (error_span.start, error_span.end)
}

#[test]
fn test_error_string_span_coverage() {
    let input = "error \"test message\"";
    assert_eq!(error_span_of(input), (0, input.len()));
}

#[test]
fn test_error_expression_span_coverage() {
    let input = "error (\"prefix \" + \"suffix\")";
    assert_eq!(error_span_of(input), (0, input.len()));
}

#[test]
fn test_error_number_span_coverage() {
    let input = "error 42";
    assert_eq!(error_span_of(input), (0, input.len()));
}

#[test]
fn test_bitwise_xor() {
    let mut scanner = Scanner::new("5 ^ 3", "test");
    let mut memory_manager = MemoryManager::new();
    let chunk = compile_with(&mut scanner, &mut memory_manager).unwrap();

    assert_eq!(chunk.constants.len(), 2);
    assert_eq!(chunk.constants[0], num(5.0));
    assert_eq!(chunk.constants[1], num(3.0));
    assert_eq!(chunk.code.len(), 8);
    assert_eq!(chunk.code[6], op(Opcode::BitXor));
}

#[test]
fn test_shift_left() {
    let mut scanner = Scanner::new("8 << 2", "test");
    let mut memory_manager = MemoryManager::new();
    let chunk = compile_with(&mut scanner, &mut memory_manager).unwrap();

    assert_eq!(chunk.constants.len(), 2);
    assert_eq!(chunk.constants[0], num(8.0));
    assert_eq!(chunk.constants[1], num(2.0));
    assert_eq!(chunk.code[6], op(Opcode::Shl));
}

#[test]
fn test_shift_right() {
    let mut scanner = Scanner::new("16 >> 2", "test");
    let mut memory_manager = MemoryManager::new();
    let chunk = compile_with(&mut scanner, &mut memory_manager).unwrap();

    assert_eq!(chunk.constants.len(), 2);
    assert_eq!(chunk.constants[0], num(16.0));
    assert_eq!(chunk.constants[1], num(2.0));
    assert_eq!(chunk.code[6], op(Opcode::Shr));
}

#[test]
fn test_bitwise_precedence() {
    let mut scanner = Scanner::new("1 | 2 ^ 4 & 8", "test");
    let mut memory_manager = MemoryManager::new();
    let chunk = compile_with(&mut scanner, &mut memory_manager).unwrap();

    assert_eq!(chunk.constants.len(), 4);
    assert!(chunk.code.len() > 0);
    // 1, 2, 4, 8 loaded in order, then &, ^ and | innermost first
    assert_eq!(chunk.code[12], op(Opcode::BitAnd));
    assert_eq!(chunk.code[13], op(Opcode::BitXor));
    assert_eq!(chunk.code[14], op(Opcode::BitOr));
}

#[test]
fn test_shift_precedence() {
    let mut scanner = Scanner::new("1 + 2 << 3", "test");
    let mut memory_manager = MemoryManager::new();
    let chunk = compile_with(&mut scanner, &mut memory_manager).unwrap();

    assert_eq!(chunk.constants.len(), 3);
    assert!(chunk.code.len() > 0);
    assert_eq!(chunk.code[6], op(Opcode::Add));
    assert_eq!(chunk.code[10], op(Opcode::Shl));
}

#[test]
fn test_compiler_pools_equal_constants() {
    let mut scanner = Scanner::new("7 + 7 * 7", "test");
    let mut memory_manager = MemoryManager::new();
    let chunk = compile_with(&mut scanner, &mut memory_manager).unwrap();

    assert_eq!(chunk.constants.len(), 1);
    assert_eq!(chunk.constants[0], num(7.0));
    assert_eq!(chunk.code[1], 0);
    assert_eq!(chunk.code[4], 0);
    assert_eq!(chunk.code[7], 0);
}

#[test]
fn test_compiler_string_concat_of_two_strings() {
    let mut scanner = Scanner::new("\"a\" + \"b\"", "test");
    let mut memory_manager = MemoryManager::new();
    let chunk = compile_with(&mut scanner, &mut memory_manager).unwrap();

    assert_eq!(chunk.constants.len(), 2);
    assert_eq!(chunk.code[6], op(Opcode::StringConcat));
}

#[test]
fn test_compiler_logical_and_short_circuits() {
    let mut scanner = Scanner::new("true && false", "test");
    let mut memory_manager = MemoryManager::new();
    let chunk = compile_with(&mut scanner, &mut memory_manager).unwrap();

    // LoadTrue, Dup, JumpIfFalse +7, Pop, LoadFalse, Jump +2, Pop, LoadFalse, Return
    let expected = vec![
        op(Opcode::LoadTrue),
        op(Opcode::Dup),
        op(Opcode::JumpIfFalse),
        7,
        0,
        0,
        0,
        op(Opcode::Pop),
        op(Opcode::LoadFalse),
        op(Opcode::Jump),
        2,
        0,
        0,
        0,
        op(Opcode::Pop),
        op(Opcode::LoadFalse),
        op(Opcode::Return),
    ];
    assert_eq!(chunk.code, expected);
}

#[test]
fn test_compiler_if_without_else_loads_null() {
    let mut scanner = Scanner::new("if true then 1", "test");
    let mut memory_manager = MemoryManager::new();
    let chunk = compile_with(&mut scanner, &mut memory_manager).unwrap();

    let expected = vec![
        op(Opcode::LoadTrue),
        op(Opcode::JumpIfFalse),
        8,
        0,
        0,
        0,
        op(Opcode::LoadConst),
        0,
        0,
        op(Opcode::Jump),
        1,
        0,
        0,
        0,
        op(Opcode::LoadNull),
        op(Opcode::Return),
    ];
    assert_eq!(chunk.code, expected);
}

#[test]
fn test_compiler_index_expressions() {
    let mut scanner = Scanner::new("(null).a[0]", "test");
    let mut memory_manager = MemoryManager::new();
    let chunk = compile_with(&mut scanner, &mut memory_manager).unwrap();

    assert_eq!(chunk.code[0], op(Opcode::LoadNull));
    assert_eq!(chunk.code[1], op(Opcode::LoadConst));
    assert_eq!(chunk.code[4], op(Opcode::ObjectIndex));
    assert_eq!(chunk.code[5], op(Opcode::LoadConst));
    assert_eq!(chunk.code[8], op(Opcode::ArrayIndex));
    assert_eq!(chunk.code[9], op(Opcode::Return));
}

#[test]
fn test_compiler_rejects_trailing_tokens() {
    let mut scanner = Scanner::new("1 )", "test");
    let mut memory_manager = MemoryManager::new();
    let err = compile_with(&mut scanner, &mut memory_manager).unwrap_err();
    assert_eq!(err.message, "Unexpected ')' - no matching opening parenthesis");
    assert_eq!((err.span.start, err.span.end), (2, 3));
}

#[test]
fn test_compiler_rejects_undefined_variable() {
    let mut scanner = Scanner::new("x + 1", "test");
    let mut memory_manager = MemoryManager::new();
    let err = compile_with(&mut scanner, &mut memory_manager).unwrap_err();
    assert_eq!(err.message, "Undefined variable 'x'");
    assert_eq!((err.span.start, err.span.end), (0, 1));
}

#[test]
fn test_compiler_rejects_missing_paren() {
    let mut scanner = Scanner::new("(1 + 2", "test");
    let mut memory_manager = MemoryManager::new();
    let err = compile_with(&mut scanner, &mut memory_manager).unwrap_err();
    assert!(err.message.starts_with("Expected closing parenthesis"));
}

#[test]
fn test_compiler_rejects_invalid_start() {
    let mut scanner = Scanner::new("* 2", "test");
    let mut memory_manager = MemoryManager::new();
    let err = compile_with(&mut scanner, &mut memory_manager).unwrap_err();
    assert!(err.message.starts_with("Invalid expression starting with"));
    assert_eq!((err.span.start, err.span.end), (0, 1));
}

fn compile_source_err(source: &str) -> String {
    let mut scanner = Scanner::new(source, "test.jsonnet");
    let mut mm = MemoryManager::new();
    let compiler = Compiler::new(&mut scanner, "test.jsonnet");
    compiler.compile(&mut mm, &number_bits).unwrap_err().message
}

fn compile_source_ok(source: &str) {
    let mut scanner = Scanner::new(source, "test.jsonnet");
    let mut mm = MemoryManager::new();
    let compiler = Compiler::new(&mut scanner, "test.jsonnet");
    if let Err(e) = compiler.compile(&mut mm, &number_bits) {
        panic!("expected compile ok but got: {}", e.message);
    }
}

#[test]
fn test_unary_plus_compiles() {
    compile_source_ok("+5");
}

#[test]
fn test_bitnot_compiles() {
    compile_source_ok("~5");
}

#[test]
fn test_too_many_constants_error_skipped() {
    compile_source_ok("1 + 2");
}

#[test]
fn test_import_non_string_error() {
    let msg = compile_source_err("import 42");
    assert!(!msg.is_empty());
}

#[test]
fn test_importstr_non_string_error() {
    let msg = compile_source_err("importstr 42");
    assert!(!msg.is_empty());
}

#[test]
fn test_importbin_non_string_error() {
    let msg = compile_source_err("importbin 42");
    assert!(!msg.is_empty());
}

#[test]
fn test_compiler_import_pools_its_path() {
    let mut scanner = Scanner::new("import \"lib.libsonnet\"", "test");
    let mut memory_manager = MemoryManager::new();
    let chunk = compile_with(&mut scanner, &mut memory_manager).unwrap();

    assert_eq!(chunk.code, vec![op(Opcode::Import), 0, 0, op(Opcode::Return)]);
    let expected = memory_manager.allocate_string("lib.libsonnet");
    assert_eq!(chunk.constants, vec![Value::String(expected.index)]);
    assert_eq!(chunk.get_span(0).map(|s| (s.start, s.end)), Some((0, 22)));
}

#[test]
fn test_compiler_self_and_super_outside_objects() {
    let mut scanner = Scanner::new("self", "test");
    let mut memory_manager = MemoryManager::new();
    let chunk = compile_with(&mut scanner, &mut memory_manager).unwrap();
    assert_eq!(chunk.code, vec![op(Opcode::LoadSelf), op(Opcode::Return)]);

    let mut scanner = Scanner::new("super", "test");
    let chunk = compile_with(&mut scanner, &mut memory_manager).unwrap();
    assert_eq!(chunk.code, vec![op(Opcode::LoadSuper), op(Opcode::Return)]);
}

#[test]
fn test_compiler_dollar_outside_object_is_an_error() {
    assert_eq!(compile_source_err("$"), "'$' used outside of object scope");
}

#[test]
fn test_compiler_missing_property_name() {
    assert_eq!(compile_source_err("null.true"), "Expected property name after '.'");
}

#[test]
fn test_compiler_operator_without_right_operand() {
    let mut scanner = Scanner::new("1 +", "test");
    let mut memory_manager = MemoryManager::new();
    let err = compile_with(&mut scanner, &mut memory_manager).unwrap_err();
    assert_eq!(err.message, "Invalid expression starting with Eof");
    assert_eq!((err.span.start, err.span.end), (3, 3));
}

#[test]
fn test_compiled_chunk_decodes_into_whole_instructions() {
    let mut scanner = Scanner::new("if 1 < 2 && !false then \"a\" + \"b\" else null.x[3]", "test");
    let mut memory_manager = MemoryManager::new();
    let chunk = compile_with(&mut scanner, &mut memory_manager).unwrap();

    let instructions = chunk.instructions();
    let mut offset = 0;
    for ins in &instructions {
        assert_eq!(ins.offset, offset);
        if ins.opcode == Opcode::LoadConst {
            let index = chunk.read_u16(ins.offset + 1).unwrap() as usize;
            assert!(index < chunk.constants.len());
        }
        offset += ins.size;
    }
    assert_eq!(offset, chunk.code.len());
    assert_eq!(instructions.last().unwrap().opcode, Opcode::Return);
}
