use jsonnet_bytecode::chunk::{Opcode, Value};
use jsonnet_bytecode::scanner::Token;
use jsonnet_bytecode::scopes::{
    get_binding_power, get_postfix_binding_power, CompilerUpvalue, FunctionScope,
};

fn op(text: &str) -> Token {
    Token::Operator(text.to_string())
}

#[test]
fn binding_powers_of_binary_operators() {
    assert_eq!(get_binding_power(&op("*")), Some((60, 61)));
    assert_eq!(get_binding_power(&op("%")), Some((60, 61)));
    assert_eq!(get_binding_power(&op("-")), Some((50, 51)));
    assert_eq!(get_binding_power(&op("<<")), Some((45, 46)));
    assert_eq!(get_binding_power(&op(">=")), Some((40, 41)));
    assert_eq!(get_binding_power(&Token::In), Some((40, 41)));
    assert_eq!(get_binding_power(&op("!=")), Some((35, 36)));
    assert_eq!(get_binding_power(&op("&")), Some((30, 31)));
    assert_eq!(get_binding_power(&op("^")), Some((25, 26)));
    assert_eq!(get_binding_power(&op("|")), Some((20, 21)));
    assert_eq!(get_binding_power(&op("&&")), Some((15, 16)));
    assert_eq!(get_binding_power(&op("||")), Some((10, 11)));
    assert_eq!(get_binding_power(&op("!")), None);
    assert_eq!(get_binding_power(&Token::Comma), None);
}

#[test]
fn binding_powers_of_postfix_tokens() {
    assert_eq!(get_postfix_binding_power(&Token::Dot), Some(90));
    assert_eq!(get_postfix_binding_power(&Token::LeftBracket), Some(90));
    assert_eq!(get_postfix_binding_power(&Token::LeftParen), Some(90));
    assert_eq!(get_postfix_binding_power(&Token::LeftBrace), Some(90));
    assert_eq!(get_postfix_binding_power(&Token::Comma), None);
    assert_eq!(get_postfix_binding_power(&op("+")), None);
}

#[test]
fn duplicate_local_in_one_block_is_an_error() {
    let mut scope = FunctionScope::new("test");
    scope.begin_scope();
    assert!(scope.declare_local("x".to_string(), 0..1, "test").is_ok());
    let err = scope.declare_local("x".to_string(), 4..5, "test").unwrap_err();
    assert_eq!(err.message, "Variable 'x' already declared in this scope");
    assert_eq!(err.span, 4..5);
    assert_eq!(err.source_id, "test");
    assert_eq!(scope.locals.len(), 1);
}

#[test]
fn shadowing_in_an_inner_block_and_leaving_it() {
    let mut scope = FunctionScope::new("test");
    scope.begin_scope();
    scope.declare_local("x".to_string(), 0..1, "test").unwrap();
    scope.declare_local("y".to_string(), 0..1, "test").unwrap();
    scope.begin_scope();
    scope.declare_local("x".to_string(), 0..1, "test").unwrap();
    assert_eq!(scope.resolve_local("x"), Some(2));
    assert_eq!(scope.resolve_local("y"), Some(1));
    assert_eq!(scope.resolve_local("z"), None);

    scope.end_scope(3..7);
    assert_eq!(scope.scope_depth, 1);
    assert_eq!(scope.chunk.code, vec![Opcode::Swap.to_u8(), Opcode::Pop.to_u8()]);
    assert_eq!(scope.chunk.get_span(0), Some(&(3..7)));
    assert_eq!(scope.chunk.get_span(1), Some(&(3..7)));
    assert_eq!(scope.resolve_local("x"), Some(0));

    scope.end_scope(8..9);
    assert_eq!(scope.scope_depth, 0);
    assert!(scope.locals.is_empty());
    assert_eq!(scope.chunk.code.len(), 6);
}

#[test]
fn leaving_an_empty_block_emits_nothing() {
    let mut scope = FunctionScope::new("test");
    scope.begin_scope();
    scope.end_scope(0..1);
    assert!(scope.chunk.code.is_empty());
    assert!(scope.chunk.spans.is_empty());
    assert_eq!(scope.scope_depth, 0);
}

#[test]
fn stack_slots_count_anonymous_temporaries() {
    let mut scope = FunctionScope::new("test");
    scope.declare_local("a".to_string(), 0..1, "test").unwrap();
    scope.anon_stack_depth = 2;
    scope.declare_local("b".to_string(), 0..1, "test").unwrap();
    assert_eq!(scope.resolve_local("a"), Some(0));
    assert_eq!(scope.resolve_local("b"), Some(3));
}

#[test]
fn upvalues_are_reused() {
    let mut scope = FunctionScope::new("test");
    assert_eq!(scope.add_upvalue(3, true), 0);
    assert_eq!(scope.add_upvalue(3, false), 1);
    assert_eq!(scope.add_upvalue(3, true), 0);
    assert_eq!(scope.upvalues.len(), 2);
}

#[test]
fn closure_captures_a_local_of_the_enclosing_function() {
    let mut scope = FunctionScope::new("test");
    scope.begin_scope();
    scope.declare_local("x".to_string(), 0..1, "test").unwrap();

    let saved = scope.begin_function("test");
    assert_eq!(saved, 1);
    assert_eq!(scope.scope_depth, 0);
    assert_eq!(scope.resolve_local("x"), None);
    assert_eq!(scope.resolve_upvalue("x"), Some(0));
    assert_eq!(scope.resolve_upvalue("x"), Some(0));
    assert_eq!(scope.resolve_upvalue("nope"), None);
    let (_chunk, upvalues) = scope.end_function(saved);
    assert_eq!(upvalues, vec![CompilerUpvalue { index: 0, is_local: true }]);

    assert_eq!(scope.scope_depth, 1);
    assert!(scope.locals[0].is_captured);
    scope.end_scope(0..1);
    assert_eq!(
        scope.chunk.code,
        vec![Opcode::Swap.to_u8(), Opcode::CloseUpvalue.to_u8(), Opcode::Pop.to_u8()]
    );
}

#[test]
fn capture_through_two_functions() {
    let mut scope = FunctionScope::new("test");
    scope.declare_local("a".to_string(), 0..1, "test").unwrap();
    scope.declare_local("x".to_string(), 0..1, "test").unwrap();
    let outer = scope.begin_function("test");
    scope.declare_local("m".to_string(), 0..1, "test").unwrap();
    let inner = scope.begin_function("test");

    assert_eq!(scope.resolve_upvalue("x"), Some(0));
    assert_eq!(scope.resolve_upvalue("m"), Some(1));
    let (_, inner_upvalues) = scope.end_function(inner);
    assert_eq!(
        inner_upvalues,
        vec![
            CompilerUpvalue { index: 0, is_local: false },
            CompilerUpvalue { index: 0, is_local: true },
        ]
    );
    assert!(scope.locals[0].is_captured);
    let (_, middle_upvalues) = scope.end_function(outer);
    assert_eq!(middle_upvalues, vec![CompilerUpvalue { index: 1, is_local: true }]);
    assert!(!scope.locals[0].is_captured);
    assert!(scope.locals[1].is_captured);
}

#[test]
fn no_upvalues_in_a_script() {
    let mut scope = FunctionScope::new("test");
    scope.declare_local("x".to_string(), 0..1, "test").unwrap();
    assert_eq!(scope.resolve_upvalue("x"), None);
    assert!(scope.upvalues.is_empty());
}

#[test]
fn begin_then_end_function_restores_the_state() {
    let mut scope = FunctionScope::new("test");
    scope.begin_scope();
    scope.declare_local("x".to_string(), 0..1, "test").unwrap();
    scope.anon_stack_depth = 3;
    scope.chunk.write_opcode(Opcode::LoadNull, 0..1);
    let saved = scope.begin_function("other");
    assert_eq!(scope.chunk.source_id, "other");
    assert_eq!(scope.anon_stack_depth, 0);
    assert!(scope.locals.is_empty());
    let (chunk, upvalues) = scope.end_function(saved);
    assert!(chunk.code.is_empty());
    assert!(upvalues.is_empty());
    assert_eq!(scope.scope_depth, 1);
    assert_eq!(scope.anon_stack_depth, 3);
    assert_eq!(scope.locals.len(), 1);
    assert_eq!(scope.chunk.source_id, "test");
    assert_eq!(scope.chunk.code, vec![Opcode::LoadNull.to_u8()]);
    assert!(scope.enclosing.is_none());
}

#[test]
fn constants_are_pooled() {
    let mut scope = FunctionScope::new("test");
    let two = 2.0f64.to_bits();
    assert_eq!(scope.add_constant_pooled(Value::Number(two), "test").unwrap(), 0);
    assert_eq!(scope.add_constant_pooled(Value::Null, "test").unwrap(), 1);
    assert_eq!(scope.add_constant_pooled(Value::Number(two), "test").unwrap(), 0);
    assert_eq!(scope.chunk.constants.len(), 2);
    assert_eq!(scope.constant_pool.len(), 2);

    let mut keys: slotmap::SlotMap<slotmap::DefaultKey, ()> = slotmap::SlotMap::new();
    let a = keys.insert(());
    let b = keys.insert(());
    assert_eq!(scope.emit_string_constant(a, 3..4, "test").unwrap(), 2);
    assert_eq!(scope.emit_string_constant(b, 3..4, "test").unwrap(), 3);
    assert_eq!(scope.emit_string_constant(a, 5..6, "test").unwrap(), 2);
    assert_eq!(scope.emit_constant(two, 7..8, "test").unwrap(), 0);
    let load = Opcode::LoadConst.to_u8();
    assert_eq!(
        scope.chunk.code,
        vec![load, 2, 0, load, 3, 0, load, 2, 0, load, 0, 0]
    );
    assert_eq!(scope.chunk.get_span(6), Some(&(5..6)));
    assert_eq!(scope.chunk.constants.len(), 4);
}

#[test]
fn too_many_constants() {
    let mut scope = FunctionScope::new("test");
    for i in 0..65536u64 {
        scope.chunk.constants.push(Value::Number(i));
    }
    let err = scope.add_constant_pooled(Value::Null, "src").unwrap_err();
    assert_eq!(err.message, "Too many constants (maximum 65535)");
    assert_eq!(err.span, 0..0);
    assert_eq!(err.source_id, "src");
    assert_eq!(scope.chunk.constants.len(), 65537);
    assert!(scope.constant_pool.is_empty());
}

#[test]
fn jumps_leave_a_placeholder() {
    let mut scope = FunctionScope::new("test");
    scope.chunk.write_opcode(Opcode::LoadTrue, 0..1);
    let pos = scope.emit_jump(Opcode::JumpIfFalse, 2..3);
    assert_eq!(pos, 2);
    assert_eq!(
        scope.chunk.code,
        vec![Opcode::LoadTrue.to_u8(), Opcode::JumpIfFalse.to_u8(), 0xFF, 0xFF, 0xFF, 0x7F]
    );
    assert_eq!(scope.chunk.read_i32(pos), Some(0x7FFF_FFFF));
    assert_eq!(scope.chunk.get_span(5), Some(&(2..3)));
}

#[test]
fn closures_carry_their_upvalue_descriptors() {
    let mut scope = FunctionScope::new("test");
    let mut keys: slotmap::SlotMap<slotmap::DefaultKey, ()> = slotmap::SlotMap::new();
    let f = keys.insert(());
    let ups = vec![
        CompilerUpvalue { index: 3, is_local: true },
        CompilerUpvalue { index: 0, is_local: false },
    ];
    scope.emit_closure(f, &ups, 1..2, "test").unwrap();
    assert_eq!(
        scope.chunk.code,
        vec![Opcode::Closure.to_u8(), 0, 0, 2, 1, 3, 0, 0, 0, 0]
    );
    assert_eq!(scope.chunk.constants, vec![Value::Function(f)]);
    assert_eq!(scope.chunk.get_span(9), Some(&(1..2)));
    scope.emit_closure(f, &Vec::new(), 1..2, "test").unwrap();
    assert_eq!(scope.chunk.code.len(), 14);
    assert_eq!(&scope.chunk.code[10..], &[Opcode::Closure.to_u8(), 0, 0, 0]);
    assert_eq!(scope.chunk.constants.len(), 1);
}

#[test]
fn patched_jumps_land_at_the_end() {
    let mut scope = FunctionScope::new("test");
    let pos = scope.emit_jump(Opcode::Jump, 0..1);
    scope.chunk.write_opcode(Opcode::LoadNull, 0..1);
    scope.chunk.write_opcode(Opcode::Pop, 0..1);
    scope.patch_jump(pos);
    let offset = scope.chunk.read_i32(pos).unwrap();
    assert_eq!(offset, 2);
    assert_eq!(pos + 4 + offset as usize, scope.chunk.code.len());
    scope.patch_jump(pos);
    assert_eq!(scope.chunk.read_i32(pos), Some(2));
}

#[test]
fn store_var_writes_the_slot() {
    let mut scope = FunctionScope::new("test");
    scope.emit_store_var(258, 4..5);
    assert_eq!(scope.chunk.code, vec![Opcode::StoreVar.to_u8(), 2, 1]);
    scope.emit_store_var(65536 + 7, 4..5);
    assert_eq!(&scope.chunk.code[3..], &[Opcode::StoreVar.to_u8(), 7, 0]);
}
