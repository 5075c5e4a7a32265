//! The expression compiler: a Pratt parser over the token cursor that writes
//! bytecode into the chunk of the function being compiled, pooling equal
//! constants.

use vstd::prelude::*;
use std::ops::Range;
use crate::chunk::Chunk;
use crate::chunk::Opcode;
use crate::chunk::Value;
use crate::chunk::copy_range;
use crate::chunk::expand;
use crate::chunk::law_table_can_grow;
use crate::chunk::le_u16;
use crate::chunk::lemma_extend_runs_expand;
use crate::chunk::opcode_byte;
use crate::chunk::lemma_u16_roundtrip;
use crate::chunk::code_u16_at;
use crate::chunk::code_u8_at;
use crate::chunk::decode_from;
use crate::chunk::instruction_size;
use crate::chunk::law_opcode_byte_roundtrip;
use crate::chunk::le_i32;
use crate::chunk::opcode_of_byte;
use crate::chunk::patched_i32;
use crate::compile_errors::check_end_of_input;
use crate::compile_errors::current_span;
use crate::compile_errors::error_at;
use crate::compile_errors::invalid_expression_error;
use crate::compile_errors::unexpected_eof_error;
use crate::memory_manager::MemoryManager;
use crate::parser::Parser;
use crate::scanner::ScanError;
use crate::scanner::error_is;
use crate::lexical::TokenView;
use crate::parser::token_debug;
use crate::scopes::local_slot;
use crate::scopes::locals_view;
use crate::scanner::Scanner;
use crate::scanner::Token;
use crate::scanner::TokenInfo;
use crate::scopes::FunctionScope;
use crate::scopes::MAX_CONSTANTS;
use crate::scopes::PRECEDENCE_UNARY;
use crate::scopes::get_binding_power;
use crate::scopes::get_postfix_binding_power;
use crate::scopes::op_is;
use crate::scopes::pooled_index;
use crate::scopes::resolve_frames;
use crate::scopes::frames_of_opt;
use crate::memory_manager::string_at;
use crate::text::lemma_utf8_len_encode;
use crate::text::push_str;
use crate::text::utf8_len;

verus! {

/// What the compiler knows of an expression's value while compiling.
#[derive(Debug, Clone, Copy, PartialEq, Eq, Structural)]
pub enum ExpressionType {
    String,
    Number,
    Boolean,
    Null,
    Object,
    Array,
    Unknown,
    StdNamespace,
}

/// The constant pool mirrors the chunk's constants: entry `k` is constant
/// `k` with its index, and no more constants than a `u16` can index, plus
/// one, were ever added.
pub open spec fn constants_pooled(pool: Seq<(Value, u16)>, constants: Seq<Value>) -> bool {
    &&& pool.len() == constants.len()
    &&& constants.len() <= MAX_CONSTANTS + 1
    &&& forall|k: int| 0 <= k < pool.len() ==> #[trigger] pool[k] == (constants[k], k as u16)
}

/// No value occurs twice among the constants.
pub open spec fn distinct_values(c: Seq<Value>) -> bool {
    forall|i: int, j: int| 0 <= i < j < c.len() ==> c[i] != c[j]
}

/// The chunk of a function scope is sound: its span table stands for its
/// code, and its constants are pooled and distinct.
pub open spec fn scope_ok<'a>(s: FunctionScope<'a>) -> bool {
    &&& expand(s.chunk.spans@).len() == s.chunk.code@.len()
    &&& constants_pooled(s.constant_pool@, s.chunk.constants@)
    &&& distinct_values(s.chunk.constants@)
}

/// What the pool says of a value: without an entry for it, no entry holds
/// it; with one, some entry holds it with that index.
proof fn lemma_pooled(pool: Seq<(Value, u16)>, v: Value)
    ensures
        pooled_index(pool, v) is None ==> forall|k: int| 0 <= k < pool.len() ==> pool[k].0 != v,
        pooled_index(pool, v) matches Some(i) ==> exists|k: int|
            0 <= k < pool.len() && pool[k] == (v, i),
    decreases pool.len(),
{
    if pool.len() > 0 {
        let rest = pool.drop_first();
        lemma_pooled(rest, v);
        if pool[0].0 == v {
            assert(pool[0] == (v, pool[0].1));
        } else {
            match pooled_index(rest, v) {
                Some(i) => {
                    let k = choose|k: int| 0 <= k < rest.len() && rest[k] == (v, i);
                    assert(pool[k + 1] == (v, i));
                },
                None => {
                    assert forall|k: int| 0 <= k < pool.len() implies pool[k].0 != v by {
                        if k > 0 {
                            assert(pool[k] == rest[k - 1]);
                        }
                    }
                },
            }
        }
    }
}

/// An error at no token: the code has grown past what an index can count.
fn code_room<'a>(scope: &FunctionScope<'a>, source_id: &str) -> (r: Result<(), ScanError>)
    ensures
        r is Ok ==> scope.chunk.code@.len() + 16 <= usize::MAX,
{
    if scope.chunk.code.len() > usize::MAX - 16 {
        Err(
            ScanError::new(
                0..0,
                String::from_str("Code too large"),
                String::from_str(source_id),
            ),
        )
    } else {
        Ok(())
    }
}

/// Writes an opcode from `span`.
fn emit_op<'a>(scope: &mut FunctionScope<'a>, op: Opcode, span: Range<usize>, source_id: &str) -> (r:
    Result<(), ScanError>)
    requires
        scope_ok(*old(scope)),
    ensures
        r is Ok ==> scope_ok(*final(scope)),
        r is Ok ==> final(scope).chunk.code@ == old(scope).chunk.code@.push(opcode_byte(op)),
        r is Err ==> final(scope).chunk.code@ == old(scope).chunk.code@,
        final(scope).chunk.constants@ == old(scope).chunk.constants@,
        final(scope).constant_pool == old(scope).constant_pool,
        final(scope).chunk.source_id == old(scope).chunk.source_id,
{
    match code_room(scope, source_id) {
        Err(e) => return Err(e),
        Ok(()) => {},
    }
    proof {
        law_table_can_grow(scope.chunk.spans@, span, 1);
    }
    scope.chunk.write(op.to_u8(), span);
    Ok(())
}

/// Writes an opcode and a `u16` operand from `span`.
fn emit_op_u16<'a>(
    scope: &mut FunctionScope<'a>,
    op: Opcode,
    operand: u16,
    span: Range<usize>,
    source_id: &str,
) -> (r: Result<(), ScanError>)
    requires
        scope_ok(*old(scope)),
    ensures
        r is Ok ==> scope_ok(*final(scope)),
        r is Ok ==> final(scope).chunk.code@ == old(scope).chunk.code@ + seq![opcode_byte(op)]
            + le_u16(operand),
        r is Err ==> final(scope).chunk.code@ == old(scope).chunk.code@,
        final(scope).chunk.constants@ == old(scope).chunk.constants@,
        final(scope).constant_pool == old(scope).constant_pool,
        final(scope).chunk.source_id == old(scope).chunk.source_id,
{
    match code_room(scope, source_id) {
        Err(e) => return Err(e),
        Ok(()) => {},
    }
    scope.chunk.write_opcode_u16(op, operand, span);
    Ok(())
}

/// Writes `op` with the index of a constant as its operand, from `span`:
/// an equal constant already in the chunk is used again, else the value is
/// added. Past the last index a `u16` can hold, the result is the error for
/// too many constants.
fn emit_pooled<'a>(
    scope: &mut FunctionScope<'a>,
    op: Opcode,
    value: Value,
    span: Range<usize>,
    source_id: &str,
) -> (r: Result<u16, ScanError>)
    requires
        scope_ok(*old(scope)),
    ensures
        r matches Ok(i) ==> {
            &&& scope_ok(*final(scope))
            &&& final(scope).chunk.code@ == old(scope).chunk.code@ + seq![opcode_byte(op)] + le_u16(i)
            &&& (i as int) < final(scope).chunk.constants@.len()
            &&& final(scope).chunk.constants@[i as int] == value
            &&& old(scope).chunk.constants@.contains(value) ==> final(scope).chunk.constants@
                == old(scope).chunk.constants@
            &&& !old(scope).chunk.constants@.contains(value) ==> final(scope).chunk.constants@
                == old(scope).chunk.constants@.push(value)
        },
        final(scope).chunk.source_id == old(scope).chunk.source_id,
{
    match code_room(scope, source_id) {
        Err(e) => return Err(e),
        Ok(()) => {},
    }
    let ghost s0 = *scope;
    proof {
        lemma_pooled(scope.constant_pool@, value);
    }
    let index = match scope.add_constant_pooled(value, source_id) {
        Err(e) => return Err(e),
        Ok(i) => i,
    };
    proof {
        let pool = s0.constant_pool@;
        let cs = s0.chunk.constants@;
        match pooled_index(pool, value) {
            Some(i) => {
                let k = choose|k: int| 0 <= k < pool.len() && pool[k] == (value, i);
                assert(pool[k] == (cs[k], k as u16));
                assert(cs.contains(value));
            },
            None => {
                assert forall|k: int| 0 <= k < cs.len() implies cs[k] != value by {
                    assert(pool[k] == (cs[k], k as u16));
                }
                assert(!cs.contains(value));
                let c2 = scope.chunk.constants@;
                assert(c2[cs.len() as int] == value);
                assert forall|k: int| 0 <= k < scope.constant_pool@.len() implies #[trigger] scope.constant_pool@[k]
                    == (c2[k], k as u16) by {
                    if k < cs.len() {
                        assert(pool[k] == (cs[k], k as u16));
                    }
                }
            },
        }
    }
    scope.chunk.write_opcode_u16(op, index, span);
    Ok(index)
}

/// Writes a jump with a placeholder offset from `span` and gives the
/// position of the offset, which ends the code.
fn emit_jump_op<'a>(scope: &mut FunctionScope<'a>, op: Opcode, span: Range<usize>, source_id: &str) -> (r:
    Result<usize, ScanError>)
    requires
        scope_ok(*old(scope)),
    ensures
        r matches Ok(pos) ==> {
            &&& scope_ok(*final(scope))
            &&& pos == old(scope).chunk.code@.len() + 1
            &&& final(scope).chunk.code@.len() == old(scope).chunk.code@.len() + 5
            &&& final(scope).chunk.code@[old(scope).chunk.code@.len() as int] == opcode_byte(op)
            &&& final(scope).chunk.code@.take(old(scope).chunk.code@.len() as int)
                == old(scope).chunk.code@
        },
        final(scope).chunk.constants@ == old(scope).chunk.constants@,
        final(scope).constant_pool == old(scope).constant_pool,
        final(scope).chunk.source_id == old(scope).chunk.source_id,
{
    match code_room(scope, source_id) {
        Err(e) => return Err(e),
        Ok(()) => {},
    }
    let ghost s0 = scope.chunk.spans@;
    proof {
        law_table_can_grow(s0, span, 5);
    }
    let pos = scope.emit_jump(op, span);
    proof {
        lemma_extend_runs_expand(s0, span, 5);
        assert(scope.chunk.code@.take(old(scope).chunk.code@.len() as int) =~= old(
            scope,
        ).chunk.code@);
    }
    Ok(pos)
}

/// Points the jump whose offset is at `pos` at the end of the code.
fn patch<'a>(scope: &mut FunctionScope<'a>, pos: usize)
    requires
        scope_ok(*old(scope)),
        pos + 4 <= old(scope).chunk.code@.len(),
    ensures
        scope_ok(*final(scope)),
        final(scope).chunk.code@.len() == old(scope).chunk.code@.len(),
        final(scope).chunk.code@ == patched_i32(
            old(scope).chunk.code@,
            pos as int,
            crate::scopes::jump_offset(old(scope).chunk.code@.len(), pos as nat),
        ),
        final(scope).chunk.constants@ == old(scope).chunk.constants@,
        final(scope).constant_pool == old(scope).constant_pool,
        final(scope).chunk.source_id == old(scope).chunk.source_id,
{
    scope.patch_jump(pos);
}

/// Takes the type on top of the type stack, or `Unknown` on an empty one.
fn pop_type(stack: &mut Vec<ExpressionType>) -> (t: ExpressionType)
    ensures
        old(stack)@.len() > 0 ==> t == old(stack)@.last() && final(stack)@ == old(stack)@.drop_last(),
        old(stack)@.len() == 0 ==> t == ExpressionType::Unknown && final(stack)@.len() == 0,
{
    match stack.pop() {
        Some(t) => t,
        None => ExpressionType::Unknown,
    }
}

/// Room on the heap for one more string of `text`: an error past what the
/// byte count or the slot count can hold.
fn heap_room(mm: &MemoryManager, text: &str, source_id: &str) -> (r: Result<(), ScanError>)
    ensures
        r is Ok ==> mm.bytes() + 32 + utf8_len(text@) <= usize::MAX && mm.heap_view().dom().len()
            + 2 < u32::MAX,
{
    let n = text.as_bytes().len();
    proof {
        lemma_utf8_len_encode(text@);
    }
    let used = mm.allocated_bytes();
    let count = mm.entry_count();
    if used > usize::MAX - 32 || n > usize::MAX - 32 - used || count >= 4294967293usize {
        Err(ScanError::new(0..0, String::from_str("Heap full"), String::from_str(source_id)))
    } else {
        Ok(())
    }
}

/// The opcode and result type of a binary operator other than `+`, `&&`
/// and `||`.
fn binary_opcode(op: &String) -> (r: Option<(Opcode, ExpressionType)>)
    ensures
        r == binary_op_spec(op@),
        r matches Some((code, _)) ==> operator_of(code) == Some(op@),
{
    if op_is(op, "-") {
        Some((Opcode::Sub, ExpressionType::Number))
    } else if op_is(op, "*") {
        Some((Opcode::Mul, ExpressionType::Number))
    } else if op_is(op, "/") {
        Some((Opcode::Div, ExpressionType::Number))
    } else if op_is(op, "%") {
        Some((Opcode::Mod, ExpressionType::Number))
    } else if op_is(op, "<") {
        Some((Opcode::Lt, ExpressionType::Boolean))
    } else if op_is(op, "<=") {
        Some((Opcode::Le, ExpressionType::Boolean))
    } else if op_is(op, ">") {
        Some((Opcode::Gt, ExpressionType::Boolean))
    } else if op_is(op, ">=") {
        Some((Opcode::Ge, ExpressionType::Boolean))
    } else if op_is(op, "==") {
        Some((Opcode::Eq, ExpressionType::Boolean))
    } else if op_is(op, "!=") {
        Some((Opcode::Ne, ExpressionType::Boolean))
    } else if op_is(op, "<<") {
        Some((Opcode::Shl, ExpressionType::Number))
    } else if op_is(op, ">>") {
        Some((Opcode::Shr, ExpressionType::Number))
    } else if op_is(op, "&") {
        Some((Opcode::BitAnd, ExpressionType::Number))
    } else if op_is(op, "^") {
        Some((Opcode::BitXor, ExpressionType::Number))
    } else if op_is(op, "|") {
        Some((Opcode::BitOr, ExpressionType::Number))
    } else {
        None
    }
}

/// The opcode of a binary operator other than `+`, `&&` and `||`, and the
/// type of its result.
pub open spec fn binary_op_spec(op: Seq<char>) -> Option<(Opcode, ExpressionType)> {
    if op == "-"@ {
        Some((Opcode::Sub, ExpressionType::Number))
    } else if op == "*"@ {
        Some((Opcode::Mul, ExpressionType::Number))
    } else if op == "/"@ {
        Some((Opcode::Div, ExpressionType::Number))
    } else if op == "%"@ {
        Some((Opcode::Mod, ExpressionType::Number))
    } else if op == "<"@ {
        Some((Opcode::Lt, ExpressionType::Boolean))
    } else if op == "<="@ {
        Some((Opcode::Le, ExpressionType::Boolean))
    } else if op == ">"@ {
        Some((Opcode::Gt, ExpressionType::Boolean))
    } else if op == ">="@ {
        Some((Opcode::Ge, ExpressionType::Boolean))
    } else if op == "=="@ {
        Some((Opcode::Eq, ExpressionType::Boolean))
    } else if op == "!="@ {
        Some((Opcode::Ne, ExpressionType::Boolean))
    } else if op == "<<"@ {
        Some((Opcode::Shl, ExpressionType::Number))
    } else if op == ">>"@ {
        Some((Opcode::Shr, ExpressionType::Number))
    } else if op == "&"@ {
        Some((Opcode::BitAnd, ExpressionType::Number))
    } else if op == "^"@ {
        Some((Opcode::BitXor, ExpressionType::Number))
    } else if op == "|"@ {
        Some((Opcode::BitOr, ExpressionType::Number))
    } else {
        None
    }
}

/// The Jsonnet binary operator that an instruction carries out, for the
/// instructions that carry one out: `Add` and `StringConcat` are `+`,
/// `Sub` is `-`, and so on.
pub open spec fn operator_of(code: Opcode) -> Option<Seq<char>> {
    match code {
        Opcode::Add => Some("+"@),
        Opcode::StringConcat => Some("+"@),
        Opcode::Sub => Some("-"@),
        Opcode::Mul => Some("*"@),
        Opcode::Div => Some("/"@),
        Opcode::Mod => Some("%"@),
        Opcode::Lt => Some("<"@),
        Opcode::Le => Some("<="@),
        Opcode::Gt => Some(">"@),
        Opcode::Ge => Some(">="@),
        Opcode::Eq => Some("=="@),
        Opcode::Ne => Some("!="@),
        Opcode::Shl => Some("<<"@),
        Opcode::Shr => Some(">>"@),
        Opcode::BitAnd => Some("&"@),
        Opcode::BitXor => Some("^"@),
        Opcode::BitOr => Some("|"@),
        _ => None,
    }
}

/// The kind of value that an instruction's result always is, for the
/// binary instructions with a fixed result kind.
pub open spec fn result_kind_of(code: Opcode) -> Option<ExpressionType> {
    match code {
        Opcode::Sub | Opcode::Mul | Opcode::Div | Opcode::Mod | Opcode::Shl | Opcode::Shr
        | Opcode::BitAnd | Opcode::BitXor | Opcode::BitOr => Some(ExpressionType::Number),
        Opcode::Lt | Opcode::Le | Opcode::Gt | Opcode::Ge | Opcode::Eq | Opcode::Ne => Some(
            ExpressionType::Boolean,
        ),
        _ => None,
    }
}

/// The instruction that a binary operator compiles to carries out that
/// very operator, and the type recorded for its result is the kind of
/// value that instruction gives.
pub proof fn law_binary_opcode_carries_out_operator(op: Seq<char>)
    ensures
        binary_op_spec(op) matches Some((code, kind)) ==> operator_of(code) == Some(op)
            && result_kind_of(code) == Some(kind),
{
}

/// The unary operators compile to the instructions that carry them out.
pub proof fn law_unary_opcode_carries_out_operator(op: Seq<char>)
    ensures
        unary_op_spec(op) matches Some(code) ==> match code {
            Opcode::Neg => op == "-"@,
            Opcode::Pos => op == "+"@,
            Opcode::Not => op == "!"@,
            Opcode::BitNot => op == "~"@,
            _ => false,
        },
{
}

/// Where the input ends after the previous token: the end of its span, or
/// 0 before any token.
pub open spec fn eof_at(previous: Option<(TokenView, usize, usize)>) -> int {
    match previous {
        Some(p) => p.2 as int,
        None => 0,
    }
}

/// The opcode of a unary operator.
pub open spec fn unary_op_spec(op: Seq<char>) -> Option<Opcode> {
    if op == "-"@ {
        Some(Opcode::Neg)
    } else if op == "+"@ {
        Some(Opcode::Pos)
    } else if op == "!"@ {
        Some(Opcode::Not)
    } else if op == "~"@ {
        Some(Opcode::BitNot)
    } else {
        None
    }
}

/// The code ends with the opcode.
pub open spec fn ends_with(code: Seq<u8>, op: Opcode) -> bool {
    code.len() > 0 && code.last() == opcode_byte(op)
}

/// The error for a token that starts no expression.
pub open spec fn invalid_start(e: ScanError, c: (TokenView, usize, usize), source: Seq<char>) -> bool {
    error_is(e, c.1 as int, c.2 as int, "Invalid expression starting with "@ + token_debug(c.0), source)
}

/// The length of an instruction other than a closure.
pub open spec fn op_size(op: Opcode) -> nat {
    instruction_size(op, None)
}

/// Whether an opcode is a jump, whose four offset bytes are patched later.
pub open spec fn is_jump(op: Opcode) -> bool {
    op == Opcode::Jump || op == Opcode::JumpIfFalse || op == Opcode::JumpIfTrue
}

/// The instructions `ops` (offset and opcode) tile `code`: the first starts
/// at 0, each starts where the one before ends, and the last ends with the
/// code; each offset holds its opcode's byte; none is a closure; and each
/// constant load or import names a constant below `n`.
pub open spec fn tiled(code: Seq<u8>, ops: Seq<(nat, Opcode)>, n: nat) -> bool {
    &&& forall|i: int|
        0 <= i < ops.len() ==> {
            &&& (#[trigger] ops[i]).0 + op_size(ops[i].1) <= code.len()
            &&& code[ops[i].0 as int] == opcode_byte(ops[i].1)
            &&& ops[i].1 != Opcode::Closure
            &&& (ops[i].1 == Opcode::LoadConst || ops[i].1 == Opcode::Import) ==> (code_u16_at(
                code,
                (ops[i].0 + 1) as int,
            ) matches Some(x) && x < n)
        }
    &&& forall|i: int, j: int|
        0 <= i && j == i + 1 && j < ops.len() ==> (#[trigger] ops[j]).0 == (#[trigger] ops[i]).0
            + op_size(ops[i].1)
    &&& ops.len() == 0 ==> code.len() == 0
    &&& ops.len() > 0 ==> ops[0].0 == 0 && ops.last().0 + op_size(ops.last().1) == code.len()
}

/// `b` keeps the instructions of `a` and may add more after them.
pub open spec fn extends(a: Seq<(nat, Opcode)>, b: Seq<(nat, Opcode)>) -> bool {
    &&& a.len() <= b.len()
    &&& forall|i: int| 0 <= i < a.len() ==> #[trigger] b[i] == a[i]
}

/// The decoded instructions cover the code: the first starts at 0, each
/// starts where the one before ends, and the last ends with the code.
pub open spec fn whole_instructions(d: Seq<(nat, Opcode, nat)>, len: nat) -> bool {
    &&& d.len() > 0
    &&& d[0].0 == 0
    &&& forall|i: int, j: int|
        0 <= i && j == i + 1 && j < d.len() ==> (#[trigger] d[j]).0 == (#[trigger] d[i]).0 + d[i].2
    &&& d.last().0 + d.last().2 == len
}

/// A constant load or an import names a constant below `n`.
pub open spec fn operand_ok(code: Seq<u8>, e: (nat, Opcode, nat), n: nat) -> bool {
    (e.1 == Opcode::LoadConst || e.1 == Opcode::Import) ==> (code_u16_at(code, e.0 + 1int) matches Some(
        x,
    ) && x < n)
}

/// Every constant load and import among the instructions names a constant
/// below `n`.
pub open spec fn constants_named(code: Seq<u8>, d: Seq<(nat, Opcode, nat)>, n: nat) -> bool {
    forall|i: int| 0 <= i < d.len() ==> #[trigger] operand_ok(code, d[i], n)
}

/// Earlier tiles end before later ones start.
proof fn lemma_tiled_order(code: Seq<u8>, ops: Seq<(nat, Opcode)>, n: nat, m: int, k: int)
    requires
        tiled(code, ops, n),
        0 <= m < k < ops.len(),
    ensures
        ops[m].0 + op_size(ops[m].1) <= ops[k].0,
    decreases k - m,
{
    let a = ops[k - 1];
    let b = ops[k];
    assert(b.0 == a.0 + op_size(a.1));
    if m < k - 1 {
        lemma_tiled_order(code, ops, n, m, k - 1);
    }
}

/// Appending one whole instruction other than a closure extends a tiling.
proof fn lemma_tiled_push(
    code: Seq<u8>,
    ops: Seq<(nat, Opcode)>,
    n: nat,
    n2: nat,
    bytes: Seq<u8>,
    op: Opcode,
)
    requires
        tiled(code, ops, n),
        n <= n2,
        bytes.len() == op_size(op),
        bytes[0] == opcode_byte(op),
        op != Opcode::Closure,
        (op == Opcode::LoadConst || op == Opcode::Import) ==> (code_u16_at(
            code + bytes,
            code.len() + 1int,
        ) matches Some(x) && x < n2),
    ensures
        tiled(code + bytes, ops.push((code.len() as nat, op)), n2),
{
    let c2 = code + bytes;
    let o2 = ops.push((code.len() as nat, op));
    assert forall|i: int| 0 <= i < o2.len() implies {
        &&& (#[trigger] o2[i]).0 + op_size(o2[i].1) <= c2.len()
        &&& c2[o2[i].0 as int] == opcode_byte(o2[i].1)
        &&& o2[i].1 != Opcode::Closure
        &&& (o2[i].1 == Opcode::LoadConst || o2[i].1 == Opcode::Import) ==> (code_u16_at(
            c2,
            (o2[i].0 + 1) as int,
        ) matches Some(x) && x < n2)
    } by {
        if i < ops.len() {
            let e = ops[i];
            assert(o2[i] == e);
            if e.1 == Opcode::LoadConst || e.1 == Opcode::Import {
                assert(c2[e.0 + 1int] == code[e.0 + 1int]);
                assert(c2[e.0 + 2int] == code[e.0 + 2int]);
            }
        }
    }
    assert forall|i: int, j: int| 0 <= i && j == i + 1 && j < o2.len() implies (#[trigger] o2[j]).0
        == (#[trigger] o2[i]).0 + op_size(o2[i].1) by {
        if j < ops.len() {
            assert(o2[j] == ops[j] && o2[i] == ops[i]);
        }
    }
}

/// Patching the offset of a jump among the tiles keeps the tiling.
proof fn lemma_tiled_patch(code: Seq<u8>, ops: Seq<(nat, Opcode)>, n: nat, k: int, v: i32)
    requires
        tiled(code, ops, n),
        0 <= k < ops.len(),
        is_jump(ops[k].1),
    ensures
        tiled(patched_i32(code, ops[k].0 + 1int, v), ops, n),
        patched_i32(code, ops[k].0 + 1int, v).len() == code.len(),
{
    let pos: int = ops[k].0 + 1int;
    let c2 = patched_i32(code, pos, v);
    assert(pos + 4 <= code.len());
    assert(c2 =~= code.take(pos) + le_i32(v) + code.skip(pos + 4));
    assert forall|x: int| 0 <= x < code.len() && !(pos <= x < pos + 4) implies c2[x] == code[x] by {
        if x < pos {
        } else {
            assert(c2[x] == code.skip(pos + 4)[x - pos - 4]);
        }
    }
    assert forall|i: int| 0 <= i < ops.len() implies {
        &&& (#[trigger] ops[i]).0 + op_size(ops[i].1) <= c2.len()
        &&& c2[ops[i].0 as int] == opcode_byte(ops[i].1)
        &&& ops[i].1 != Opcode::Closure
        &&& (ops[i].1 == Opcode::LoadConst || ops[i].1 == Opcode::Import) ==> (code_u16_at(
            c2,
            (ops[i].0 + 1) as int,
        ) matches Some(x) && x < n)
    } by {
        let e = ops[i];
        if i < k {
            lemma_tiled_order(code, ops, n, i, k);
        } else if i > k {
            lemma_tiled_order(code, ops, n, k, i);
        }
        if e.1 == Opcode::LoadConst || e.1 == Opcode::Import {
            assert(c2[e.0 + 1int] == code[e.0 + 1int]);
            assert(c2[e.0 + 2int] == code[e.0 + 2int]);
        }
    }
}

/// The decoded instructions of a tiling, from tile `i` on.
pub open spec fn tiles_view(ops: Seq<(nat, Opcode)>, i: int) -> Seq<(nat, Opcode, nat)> {
    Seq::new((ops.len() - i) as nat, |j: int| (ops[i + j].0, ops[i + j].1, op_size(ops[i + j].1)))
}

/// Decoding tiled code from tile `i` gives the tiles from `i` on.
proof fn lemma_tiled_decode(code: Seq<u8>, ops: Seq<(nat, Opcode)>, n: nat, i: int)
    requires
        tiled(code, ops, n),
        0 <= i < ops.len(),
    ensures
        decode_from(code, ops[i].0) == tiles_view(ops, i),
    decreases ops.len() - i,
{
    let e = ops[i];
    law_opcode_byte_roundtrip(e.1);
    assert(opcode_of_byte(code[e.0 as int]) == Some(e.1));
    assert(instruction_size(e.1, code_u8_at(code, e.0 + 3int)) == op_size(e.1));
    if i + 1 < ops.len() {
        let f = ops[i + 1];
        assert(f.0 == e.0 + op_size(e.1));
        lemma_tiled_decode(code, ops, n, i + 1);
        assert(tiles_view(ops, i) =~= seq![(e.0, e.1, op_size(e.1))] + tiles_view(ops, i + 1));
    } else {
        assert(decode_from(code, e.0 + op_size(e.1)) == Seq::<(nat, Opcode, nat)>::empty());
        assert(tiles_view(ops, i) =~= seq![(e.0, e.1, op_size(e.1))]);
    }
}

/// Compiles a Jsonnet expression to the bytecode of a top-level chunk.
pub struct Compiler<'a> {
    pub scope: FunctionScope<'a>,
    pub parser: Parser<'a>,
    pub type_stack: Vec<ExpressionType>,
    pub source_id: &'a str,
    pub ops: Ghost<Seq<(nat, Opcode)>>,
}

/// The error for an expression nested past what the compiler counts.
fn too_deep_error(parser: &Parser) -> (e: ScanError) {
    let span = current_span(parser);
    error_at(parser, span, String::from_str("Expression nested too deeply"))
}

impl<'a> Compiler<'a> {
    /// The parser can go on, the chunk is sound, and it is the chunk of the
    /// compiled source.
    pub open spec fn inv(&self) -> bool {
        &&& self.parser.wf()
        &&& scope_ok(self.scope)
        &&& self.scope.chunk.source_id == self.source_id
        &&& tiled(self.scope.chunk.code@, self.ops@, self.scope.chunk.constants@.len())
    }

    /// A compiler for the text of a scanner, before its first token, with an
    /// empty chunk for `source_id`.
    pub fn new(scanner: &'a mut Scanner<'a>, source_id: &'a str) -> (c: Self)
        requires
            old(scanner).ready(),
        ensures
            c.inv(),
            c.source_id == source_id,
            c.parser.scan() == *old(scanner),
            c.parser@.current is None,
            c.parser@.previous is None,
            c.parser@.buffer.len() == 0,
            c.scope.chunk.code@.len() == 0,
            c.scope.chunk.constants@.len() == 0,
            c.type_stack@.len() == 0,
    {
        let parser = Parser::new(scanner);
        let scope = FunctionScope::new(source_id);
        let c = Compiler {
            scope,
            parser,
            type_stack: Vec::new(),
            source_id,
            ops: Ghost(Seq::empty()),
        };
        proof {
            assert(c.scope.chunk.spans@ =~= Seq::empty());
        }
        c
    }

    /// Writes an opcode without operands from `span`.
    fn put_op(&mut self, op: Opcode, span: Range<usize>) -> (r: Result<(), ScanError>)
        requires
            old(self).inv(),
            op_size(op) == 1,
        ensures
            final(self).parser == old(self).parser,
            final(self).type_stack == old(self).type_stack,
            final(self).source_id == old(self).source_id,
            r is Ok ==> final(self).inv(),
            r is Ok ==> final(self).scope.chunk.code@ == old(self).scope.chunk.code@.push(
                opcode_byte(op),
            ),
            r is Ok ==> extends(old(self).ops@, final(self).ops@),
            r is Ok ==> final(self).ops@ == old(self).ops@.push(
                (old(self).scope.chunk.code@.len() as nat, op),
            ),
    {
        let ghost code0 = self.scope.chunk.code@;
        let ghost n = self.scope.chunk.constants@.len();
        match emit_op(&mut self.scope, op, span, self.source_id) {
            Err(e) => return Err(e),
            Ok(()) => {},
        }
        proof {
            assert(code0.push(opcode_byte(op)) =~= code0 + seq![opcode_byte(op)]);
            lemma_tiled_push(code0, self.ops@, n, n, seq![opcode_byte(op)], op);
        }
        self.ops = Ghost(self.ops@.push((code0.len() as nat, op)));
        Ok(())
    }

    /// Writes an opcode and a `u16` operand that names no constant, from
    /// `span`.
    fn put_op_u16(&mut self, op: Opcode, operand: u16, span: Range<usize>) -> (r: Result<
        (),
        ScanError,
    >)
        requires
            old(self).inv(),
            op_size(op) == 3,
            op != Opcode::LoadConst,
            op != Opcode::Import,
        ensures
            final(self).parser == old(self).parser,
            final(self).type_stack == old(self).type_stack,
            final(self).source_id == old(self).source_id,
            r is Ok ==> final(self).inv(),
            r is Ok ==> final(self).scope.chunk.code@ == old(self).scope.chunk.code@ + seq![
                opcode_byte(op),
            ] + le_u16(operand),
            r is Ok ==> extends(old(self).ops@, final(self).ops@),
    {
        let ghost code0 = self.scope.chunk.code@;
        let ghost n = self.scope.chunk.constants@.len();
        match emit_op_u16(&mut self.scope, op, operand, span, self.source_id) {
            Err(e) => return Err(e),
            Ok(()) => {},
        }
        proof {
            let bytes = seq![opcode_byte(op)] + le_u16(operand);
            assert(code0 + seq![opcode_byte(op)] + le_u16(operand) =~= code0 + bytes);
            lemma_tiled_push(code0, self.ops@, n, n, bytes, op);
        }
        self.ops = Ghost(self.ops@.push((code0.len() as nat, op)));
        Ok(())
    }

    /// Writes `op` (a constant load or an import) with the index of the
    /// constant `value`, pooled, from `span`.
    fn put_pooled(&mut self, op: Opcode, value: Value, span: Range<usize>) -> (r: Result<
        u16,
        ScanError,
    >)
        requires
            old(self).inv(),
            op == Opcode::LoadConst || op == Opcode::Import,
        ensures
            final(self).parser == old(self).parser,
            final(self).type_stack == old(self).type_stack,
            final(self).source_id == old(self).source_id,
            r matches Ok(i) ==> {
                &&& final(self).inv()
                &&& final(self).scope.chunk.code@ == old(self).scope.chunk.code@ + seq![
                    opcode_byte(op),
                ] + le_u16(i)
                &&& (i as int) < final(self).scope.chunk.constants@.len()
                &&& final(self).scope.chunk.constants@[i as int] == value
                &&& extends(old(self).ops@, final(self).ops@)
            },
    {
        let ghost code0 = self.scope.chunk.code@;
        let ghost n = self.scope.chunk.constants@.len();
        let i = match emit_pooled(&mut self.scope, op, value, span, self.source_id) {
            Err(e) => return Err(e),
            Ok(i) => i,
        };
        proof {
            let bytes = seq![opcode_byte(op)] + le_u16(i);
            let c2 = code0 + bytes;
            assert(code0 + seq![opcode_byte(op)] + le_u16(i) =~= c2);
            lemma_u16_roundtrip(i);
            assert(c2[code0.len() + 1int] == le_u16(i)[0]);
            assert(c2[code0.len() + 2int] == le_u16(i)[1]);
            lemma_tiled_push(code0, self.ops@, n, self.scope.chunk.constants@.len(), bytes, op);
        }
        self.ops = Ghost(self.ops@.push((code0.len() as nat, op)));
        Ok(i)
    }

    /// Writes a jump with a placeholder offset from `span`, and gives the
    /// position of its offset.
    fn put_jump(&mut self, op: Opcode, span: Range<usize>) -> (r: Result<usize, ScanError>)
        requires
            old(self).inv(),
            is_jump(op),
        ensures
            final(self).parser == old(self).parser,
            final(self).type_stack == old(self).type_stack,
            final(self).source_id == old(self).source_id,
            r matches Ok(pos) ==> {
                &&& final(self).inv()
                &&& pos == old(self).scope.chunk.code@.len() + 1
                &&& final(self).scope.chunk.code@.len() == old(self).scope.chunk.code@.len() + 5
                &&& final(self).ops@ == old(self).ops@.push(((pos - 1) as nat, op))
            },
    {
        let ghost code0 = self.scope.chunk.code@;
        let ghost n = self.scope.chunk.constants@.len();
        let pos = match emit_jump_op(&mut self.scope, op, span, self.source_id) {
            Err(e) => return Err(e),
            Ok(p) => p,
        };
        proof {
            let c2 = self.scope.chunk.code@;
            let bytes = c2.skip(code0.len() as int);
            assert(c2 =~= code0 + bytes);
            lemma_tiled_push(code0, self.ops@, n, n, bytes, op);
        }
        self.ops = Ghost(self.ops@.push((code0.len() as nat, op)));
        Ok(pos)
    }

    /// Points the jump that is tile `k`, whose offset is at `pos`, at the
    /// end of the code.
    fn put_patch(&mut self, pos: usize, Ghost(k): Ghost<int>)
        requires
            old(self).inv(),
            0 <= k < old(self).ops@.len(),
            old(self).ops@[k].0 + 1 == pos,
            is_jump(old(self).ops@[k].1),
        ensures
            final(self).parser == old(self).parser,
            final(self).type_stack == old(self).type_stack,
            final(self).source_id == old(self).source_id,
            final(self).ops == old(self).ops,
            final(self).inv(),
            final(self).scope.chunk.code@.len() == old(self).scope.chunk.code@.len(),
    {
        let ghost code0 = self.scope.chunk.code@;
        proof {
            assert(self.ops@[k].0 + op_size(self.ops@[k].1) <= code0.len());
            lemma_tiled_patch(
                code0,
                self.ops@,
                self.scope.chunk.constants@.len(),
                k,
                crate::scopes::jump_offset(code0.len(), pos as nat),
            );
        }
        patch(&mut self.scope, pos);
        proof {
            assert(pos as int == self.ops@[k].0 + 1int);
            assert(self.scope.chunk.code@ == patched_i32(
                code0,
                self.ops@[k].0 + 1int,
                crate::scopes::jump_offset(code0.len(), pos as nat),
            ));
        }
    }

    /// Compiles the whole text: one expression, then nothing but the end of
    /// the input, then `Return` from the span of the last token. Numbers are
    /// turned into the bits of their doubles by `number_bits`. The chunk's
    /// span table stands for its code, it ends in `Return`, and no constant
    /// occurs twice in it.
    pub fn compile<N: Fn(&str) -> u64>(self, mm: &mut MemoryManager, number_bits: &N) -> (r: Result<
        Chunk<'a>,
        ScanError,
    >)
        requires
            self.inv(),
            old(mm).wf(),
            forall|s: &str| call_requires(*number_bits, (s,)),
        ensures
            final(mm).wf(),
            r matches Ok(c) ==> {
                &&& c.source_id == self.source_id
                &&& ends_with(c.code@, Opcode::Return)
                &&& whole_instructions(decode_from(c.code@, 0), c.code@.len())
                &&& decode_from(c.code@, 0).last().1 == Opcode::Return
                &&& constants_named(c.code@, decode_from(c.code@, 0), c.constants@.len())
                &&& expand(c.spans@).len() == c.code@.len()
                &&& distinct_values(c.constants@)
                &&& c.constants@.len() <= MAX_CONSTANTS + 1
            },
    {
        let mut this = self;
        match this.parser.advance() {
            Err(e) => return Err(e),
            Ok(()) => {},
        }
        match this.parse_expr(0, mm, number_bits, usize::MAX) {
            Err(e) => return Err(e),
            Ok(()) => {},
        }
        match check_end_of_input(&this.parser) {
            Err(e) => return Err(e),
            Ok(()) => {},
        }
        let span = current_span(&this.parser);
        match this.put_op(Opcode::Return, span) {
            Err(e) => return Err(e),
            Ok(()) => {},
        }
        proof {
            let code = this.scope.chunk.code@;
            let ops = this.ops@;
            let n = this.scope.chunk.constants@.len();
            lemma_tiled_decode(code, ops, n, 0);
            let d = decode_from(code, 0);
            assert(d == tiles_view(ops, 0));
            assert forall|i: int, j: int| 0 <= i && j == i + 1 && j < d.len() implies (#[trigger] d[j]).0
                == (#[trigger] d[i]).0 + d[i].2 by {
                assert(d[i] == (ops[i].0, ops[i].1, op_size(ops[i].1)));
                assert(d[j] == (ops[j].0, ops[j].1, op_size(ops[j].1)));
            }
            assert forall|i: int| 0 <= i < d.len() implies #[trigger] operand_ok(code, d[i], n) by {
                assert(d[i] == (ops[i].0, ops[i].1, op_size(ops[i].1)));
            }
        }
        Ok(this.scope.chunk)
    }

    /// Compiles an expression whose operators bind tighter than `min_bp`:
    /// a prefix expression, then postfix and binary operators for as long
    /// as they bind tighter. `depth` bounds the nesting.
    #[verifier::rlimit(100)]
    #[verifier::spinoff_prover]
    fn parse_expr<N: Fn(&str) -> u64>(
        &mut self,
        min_bp: u8,
        mm: &mut MemoryManager,
        nb: &N,
        depth: usize,
    ) -> (r: Result<(), ScanError>)
        requires
            old(self).inv(),
            old(mm).wf(),
            forall|s: &str| call_requires(*nb, (s,)),
        ensures
            final(mm).wf(),
            final(self).parser.wf(),
            r is Ok ==> final(self).source_id == old(self).source_id,
            r is Ok ==> final(self).inv(),
            r is Ok ==> old(self).scope.chunk.code@.len() <= final(self).scope.chunk.code@.len(),
            r is Ok ==> extends(old(self).ops@, final(self).ops@),
        decreases depth, 3nat,
    {
        if depth == 0 {
            return Err(too_deep_error(&self.parser));
        }
        match self.parse_prefix(mm, nb, depth) {
            Err(e) => return Err(e),
            Ok(()) => {},
        }
        let ghost start = old(self).scope.chunk.code@.len();
        let ghost ops0 = old(self).ops@;
        let ghost src = old(self).source_id;
        let mut steps: usize = 0;
        loop
            invariant
                self.inv(),
                mm.wf(),
                self.source_id == src,
                start <= self.scope.chunk.code@.len(),
                extends(ops0, self.ops@),
                forall|s: &str| call_requires(*nb, (s,)),
                depth > 0,
            decreases usize::MAX - steps,
        {
            if steps == usize::MAX {
                return Err(too_deep_error(&self.parser));
            }
            steps = steps + 1;
            if self.parser.is_at_end() {
                break;
            }
            let token = match self.parser.current_token() {
                Some(t) => t.clone(),
                None => break,
            };
            match get_postfix_binding_power(&token.token) {
                Some(postfix_bp) => {
                    if postfix_bp <= min_bp {
                        break;
                    }
                    match self.parse_postfix(mm, nb, depth) {
                        Err(e) => return Err(e),
                        Ok(()) => {},
                    }
                },
                None => match get_binding_power(&token.token) {
                    Some((left_bp, right_bp)) => {
                        if left_bp <= min_bp {
                            break;
                        }
                        match self.parse_infix(right_bp, mm, nb, depth) {
                            Err(e) => return Err(e),
                            Ok(()) => {},
                        }
                    },
                    None => break,
                },
            }
        }
        Ok(())
    }

    /// The current token, or the error for the end of the input at the end
    /// of the previous token.
    fn current_or_eof(&self) -> (r: Result<TokenInfo, ScanError>)
        ensures
            r matches Ok(t) ==> self.parser@.current == Some(crate::parser::tok(t)),
            r is Err <==> self.parser@.current is None,
            r matches Err(e) ==> error_is(
                e,
                eof_at(self.parser@.previous),
                eof_at(self.parser@.previous),
                "Unexpected end of input"@,
                self.parser.scan().source(),
            ),
    {
        match self.parser.current_token() {
            Some(t) => Ok(t.clone()),
            None => {
                let span = match self.parser.previous_token() {
                    Some(p) => p.span.end..p.span.end,
                    None => 0..0,
                };
                Err(unexpected_eof_error(&self.parser, span))
            },
        }
    }
    /// Compiles a prefix expression: a literal, a unary operator applied to
    /// what follows, a parenthesized expression, `error`, `if`, or a
    /// variable.
    #[verifier::rlimit(100)]
    #[verifier::spinoff_prover]
    fn parse_prefix<N: Fn(&str) -> u64>(&mut self, mm: &mut MemoryManager, nb: &N, depth: usize) -> (r:
        Result<(), ScanError>)
        requires
            old(self).inv(),
            old(mm).wf(),
            forall|s: &str| call_requires(*nb, (s,)),
            depth > 0,
        ensures
            final(mm).wf(),
            final(self).parser.wf(),
            r is Ok ==> final(self).source_id == old(self).source_id,
            r is Ok ==> final(self).inv(),
            r is Ok ==> old(self).scope.chunk.code@.len() <= final(self).scope.chunk.code@.len(),
            r is Ok ==> extends(old(self).ops@, final(self).ops@),
            match old(self).parser@.current {
                None => r matches Err(e) && error_is(
                    e,
                    eof_at(old(self).parser@.previous),
                    eof_at(old(self).parser@.previous),
                    "Unexpected end of input"@,
                    old(self).parser.scan().source(),
                ),
                Some(c) => match c.0 {
                    TokenView::True => r is Ok ==> final(self).scope.chunk.code@ == old(
                        self,
                    ).scope.chunk.code@.push(opcode_byte(Opcode::LoadTrue)),
                    TokenView::False => r is Ok ==> final(self).scope.chunk.code@ == old(
                        self,
                    ).scope.chunk.code@.push(opcode_byte(Opcode::LoadFalse)),
                    TokenView::Null => r is Ok ==> final(self).scope.chunk.code@ == old(
                        self,
                    ).scope.chunk.code@.push(opcode_byte(Opcode::LoadNull)),
                    TokenView::Number(lexeme) => r is Ok ==> exists|i: u16, text: &str, bits: u64|
                        #![trigger final(self).scope.chunk.constants@[i as int], call_ensures(*nb, (text,), bits)]
                        {
                            &&& text@ == lexeme
                            &&& call_ensures(*nb, (text,), bits)
                            &&& final(self).scope.chunk.code@ == old(self).scope.chunk.code@
                                + seq![opcode_byte(Opcode::LoadConst)] + le_u16(i)
                            &&& final(self).scope.chunk.constants@[i as int] == Value::Number(
                                bits,
                            )
                        },
                    TokenView::Str(text) => r is Ok ==> exists|i: u16|
                        #![trigger final(self).scope.chunk.constants@[i as int]]
                        {
                            &&& final(self).scope.chunk.code@ == old(self).scope.chunk.code@
                                + seq![opcode_byte(Opcode::LoadConst)] + le_u16(i)
                            &&& final(self).scope.chunk.constants@[i as int] matches Value::String(
                                key,
                            ) && string_at(final(mm).heap_view(), key, text)
                        },
                    TokenView::Operator(op) => match unary_op_spec(op) {
                        Some(code) => r is Ok ==> ends_with(final(self).scope.chunk.code@, code),
                        None => op != "$"@ ==> (r matches Err(e) && invalid_start(
                            e,
                            c,
                            old(self).parser.scan().source(),
                        )),
                    },
                    TokenView::Identifier(name) => local_slot(
                        locals_view(old(self).scope.locals@),
                        name,
                    ) is None && resolve_frames(frames_of_opt(old(self).scope.enclosing), name).1
                        is None ==> r is Err,
                    TokenView::Self_ => r is Ok ==> final(self).type_stack@ == old(
                        self,
                    ).type_stack@.push(ExpressionType::Object),
                    TokenView::Super => r is Ok ==> ends_with(
                        final(self).scope.chunk.code@,
                        Opcode::LoadSuper,
                    ),
                    TokenView::LeftParen | TokenView::Error | TokenView::If | TokenView::Import => true,
                    _ => r matches Err(e) && invalid_start(e, c, old(self).parser.scan().source()),
                },
            },
        decreases depth, 2nat,
    {
        let token = match self.current_or_eof() {
            Ok(t) => t,
            Err(e) => return Err(e),
        };
        let span = copy_range(&token.span);
        match &token.token {
            Token::Number(lexeme) => {
                let bits = nb(lexeme.as_str());
                let at = current_span(&self.parser);
                match self.put_pooled(Opcode::LoadConst, Value::Number(bits), at) {
                    Err(e) => return Err(e),
                    Ok(_) => {},
                }
                self.type_stack.push(ExpressionType::Number);
                self.parser.advance()
            },
            Token::String(text) => {
                match heap_room(mm, text.as_str(), self.source_id) {
                    Err(e) => return Err(e),
                    Ok(()) => {},
                }
                let allocated = mm.allocate_string(text.as_str());
                let at = current_span(&self.parser);
                match self.put_pooled(Opcode::LoadConst, Value::String(allocated.index),
                    at) {
                    Err(e) => return Err(e),
                    Ok(_) => {},
                }
                self.type_stack.push(ExpressionType::String);
                self.parser.advance()
            },
            Token::True => {
                match self.put_op(Opcode::LoadTrue, span) {
                    Err(e) => return Err(e),
                    Ok(()) => {},
                }
                self.type_stack.push(ExpressionType::Boolean);
                self.parser.advance()
            },
            Token::False => {
                match self.put_op(Opcode::LoadFalse, span) {
                    Err(e) => return Err(e),
                    Ok(()) => {},
                }
                self.type_stack.push(ExpressionType::Boolean);
                self.parser.advance()
            },
            Token::Null => {
                match self.put_op(Opcode::LoadNull, span) {
                    Err(e) => return Err(e),
                    Ok(()) => {},
                }
                self.type_stack.push(ExpressionType::Null);
                self.parser.advance()
            },
            Token::Operator(op) => {
                let unary = if op_is(op, "-") {
                    Some(Opcode::Neg)
                } else if op_is(op, "+") {
                    Some(Opcode::Pos)
                } else if op_is(op, "!") {
                    Some(Opcode::Not)
                } else if op_is(op, "~") {
                    Some(Opcode::BitNot)
                } else {
                    None
                };
                match unary {
                    None => {
                        if op_is(op, "$") {
                            return self.load_named(
                                "$",
                                span,
                                String::from_str("'$' used outside of object scope"),
                            );
                        }
                        self.type_stack.push(ExpressionType::Unknown);
                        Err(invalid_expression_error(&self.parser, &token))
                    },
                    Some(code) => {
                        match self.parser.advance() {
                            Err(e) => return Err(e),
                            Ok(()) => {},
                        }
                        match self.parse_expr(PRECEDENCE_UNARY, mm, nb, depth - 1) {
                            Err(e) => return Err(e),
                            Ok(()) => {},
                        }
                        match self.put_op(code, span) {
                            Err(e) => return Err(e),
                            Ok(()) => {},
                        }
                        let operand = pop_type(&mut self.type_stack);
                        let result = match code {
                            Opcode::Not => ExpressionType::Boolean,
                            _ => if operand == ExpressionType::Number {
                                ExpressionType::Number
                            } else {
                                ExpressionType::Unknown
                            },
                        };
                        self.type_stack.push(result);
                        Ok(())
                    },
                }
            },
            Token::LeftParen => {
                match self.parser.advance() {
                    Err(e) => return Err(e),
                    Ok(()) => {},
                }
                match self.parse_expr(0, mm, nb, depth - 1) {
                    Err(e) => return Err(e),
                    Ok(()) => {},
                }
                match self.parser.consume(Token::RightParen, "Expected closing parenthesis") {
                    Err(e) => Err(e),
                    Ok(_) => Ok(()),
                }
            },
            Token::Error => {
                let error_start = token.span.start;
                match self.parser.advance() {
                    Err(e) => return Err(e),
                    Ok(()) => {},
                }
                match self.parse_expr(0, mm, nb, depth - 1) {
                    Err(e) => return Err(e),
                    Ok(()) => {},
                }
                let error_end = match self.parser.previous_token() {
                    Some(p) => p.span.end,
                    None => match self.parser.current_token() {
                        Some(c) => c.span.start,
                        None => token.span.end,
                    },
                };
                match self.put_op(Opcode::Error,
                    error_start..error_end) {
                    Err(e) => return Err(e),
                    Ok(()) => {},
                }
                self.type_stack.push(ExpressionType::Unknown);
                Ok(())
            },
            Token::Import => {
                let start = token.span.start;
                match self.parser.advance() {
                    Err(e) => return Err(e),
                    Ok(()) => {},
                }
                let path = match self.parser.current_token() {
                    Some(t) => t.clone(),
                    None => {
                        let end = match start.checked_add(6) {
                            Some(e) => e,
                            None => usize::MAX,
                        };
                        return Err(unexpected_eof_error(&self.parser, start..end));
                    },
                };
                match &path.token {
                    Token::String(text) => {
                        match heap_room(mm, text.as_str(), self.source_id) {
                            Err(e) => return Err(e),
                            Ok(()) => {},
                        }
                        let allocated = mm.allocate_string(text.as_str());
                        match self.put_pooled(Opcode::Import,
                            Value::String(allocated.index),
                            start..path.span.end) {
                            Err(e) => return Err(e),
                            Ok(_) => {},
                        }
                        self.type_stack.push(ExpressionType::Unknown);
                        self.parser.advance()
                    },
                    _ => Err(
                        error_at(
                            &self.parser,
                            copy_range(&path.span),
                            String::from_str("Expected string literal after 'import'"),
                        ),
                    ),
                }
            },
            Token::Self_ => {
                match self.parser.advance() {
                    Err(e) => return Err(e),
                    Ok(()) => {},
                }
                match self.scope.resolve_local("<self>") {
                    Some(slot) => {
                        match self.put_op_u16(Opcode::LoadVar,
                            slot as u16,
                            span) {
                            Err(e) => return Err(e),
                            Ok(()) => {},
                        }
                    },
                    None => match self.scope.resolve_upvalue("<self>") {
                        Some(index) => {
                            match self.put_op_u16(Opcode::GetUpvalue,
                                index as u16,
                                span) {
                                Err(e) => return Err(e),
                                Ok(()) => {},
                            }
                        },
                        None => {
                            match self.put_op(Opcode::LoadSelf, span) {
                                Err(e) => return Err(e),
                                Ok(()) => {},
                            }
                        },
                    },
                }
                self.type_stack.push(ExpressionType::Object);
                Ok(())
            },
            Token::Super => {
                match self.parser.advance() {
                    Err(e) => return Err(e),
                    Ok(()) => {},
                }
                let indexed = match self.parser.current_token() {
                    Some(t) => matches!(t.token, Token::Dot | Token::LeftBracket),
                    None => false,
                };
                if indexed {
                    return Err(
                        error_at(
                            &self.parser,
                            span,
                            String::from_str("Indexing 'super' has no instruction"),
                        ),
                    );
                }
                match self.put_op(Opcode::LoadSuper, span) {
                    Err(e) => return Err(e),
                    Ok(()) => {},
                }
                self.type_stack.push(ExpressionType::Object);
                Ok(())
            },
            Token::If => {
                match self.parse_if(mm, nb, depth) {
                    Err(e) => return Err(e),
                    Ok(()) => {},
                }
                self.type_stack.push(ExpressionType::Unknown);
                Ok(())
            },
            Token::Identifier(name) => {
                match self.parser.advance() {
                    Err(e) => return Err(e),
                    Ok(()) => {},
                }
                match self.scope.resolve_local(name.as_str()) {
                    Some(slot) => {
                        match self.put_op_u16(Opcode::LoadVar,
                            slot as u16,
                            span) {
                            Err(e) => return Err(e),
                            Ok(()) => {},
                        }
                    },
                    None => match self.scope.resolve_upvalue(name.as_str()) {
                        Some(index) => {
                            match self.put_op_u16(Opcode::GetUpvalue,
                                index as u16,
                                span) {
                                Err(e) => return Err(e),
                                Ok(()) => {},
                            }
                        },
                        None => {
                            let mut message = String::new();
                            push_str(&mut message, "Undefined variable '");
                            push_str(&mut message, name.as_str());
                            push_str(&mut message, "'");
                            return Err(error_at(&self.parser, span, message));
                        },
                    },
                }
                self.type_stack.push(ExpressionType::Unknown);
                Ok(())
            },
            _ => {
                self.type_stack.push(ExpressionType::Unknown);
                Err(invalid_expression_error(&self.parser, &token))
            },
        }
    }

    /// Loads the local or upvalue `name` (after its token was taken) from
    /// `span`; when neither is in scope, the error `missing` at `span`.
    fn load_named(&mut self, name: &str, span: Range<usize>, missing: String) -> (r: Result<
        (),
        ScanError,
    >)
        requires
            old(self).inv(),
        ensures
            final(self).parser.wf(),
            r is Ok ==> final(self).source_id == old(self).source_id,
            r is Ok ==> final(self).inv(),
            r is Ok ==> old(self).scope.chunk.code@.len() <= final(self).scope.chunk.code@.len(),
            r is Ok ==> extends(old(self).ops@, final(self).ops@),
    {
        match self.parser.advance() {
            Err(e) => return Err(e),
            Ok(()) => {},
        }
        match self.scope.resolve_local(name) {
            Some(slot) => {
                match self.put_op_u16(Opcode::LoadVar,
                    slot as u16,
                    span) {
                    Err(e) => return Err(e),
                    Ok(()) => {},
                }
            },
            None => match self.scope.resolve_upvalue(name) {
                Some(index) => {
                    match self.put_op_u16(Opcode::GetUpvalue,
                        index as u16,
                        span) {
                        Err(e) => return Err(e),
                        Ok(()) => {},
                    }
                },
                None => return Err(error_at(&self.parser, span, missing)),
            },
        }
        self.type_stack.push(ExpressionType::Object);
        Ok(())
    }

    /// Compiles `if c then a else b`: `JumpIfFalse` over the `then` branch,
    /// `Jump` over the `else` branch, which is `null` when it is missing.
    #[verifier::rlimit(100)]
    #[verifier::spinoff_prover]
    fn parse_if<N: Fn(&str) -> u64>(&mut self, mm: &mut MemoryManager, nb: &N, depth: usize) -> (r:
        Result<(), ScanError>)
        requires
            old(self).inv(),
            old(mm).wf(),
            forall|s: &str| call_requires(*nb, (s,)),
            depth > 0,
        ensures
            final(mm).wf(),
            final(self).parser.wf(),
            r is Ok ==> final(self).source_id == old(self).source_id,
            r is Ok ==> final(self).inv(),
            r is Ok ==> old(self).scope.chunk.code@.len() <= final(self).scope.chunk.code@.len(),
            r is Ok ==> extends(old(self).ops@, final(self).ops@),
        decreases depth, 1nat,
    {
        let if_span = current_span(&self.parser);
        match self.parser.advance() {
            Err(e) => return Err(e),
            Ok(()) => {},
        }
        match self.parse_expr(0, mm, nb, depth - 1) {
            Err(e) => return Err(e),
            Ok(()) => {},
        }
        pop_type(&mut self.type_stack);
        match self.parser.consume(Token::Then, "Expected 'then' after if condition") {
            Err(e) => return Err(e),
            Ok(_) => {},
        }
        let ghost k_to_else = self.ops@.len();
        let to_else = match self.put_jump(Opcode::JumpIfFalse,
            copy_range(&if_span)) {
            Err(e) => return Err(e),
            Ok(p) => p,
        };
        match self.parse_expr(0, mm, nb, depth - 1) {
            Err(e) => return Err(e),
            Ok(()) => {},
        }
        let ghost k_to_end = self.ops@.len();
        let to_end = match self.put_jump(Opcode::Jump,
            copy_range(&if_span)) {
            Err(e) => return Err(e),
            Ok(p) => p,
        };
        self.put_patch(to_else, Ghost(k_to_else as int));
        let has_else = match self.parser.current_token() {
            Some(t) => matches!(t.token, Token::Else),
            None => false,
        };
        if has_else {
            match self.parser.advance() {
                Err(e) => return Err(e),
                Ok(()) => {},
            }
            match self.parse_expr(0, mm, nb, depth - 1) {
                Err(e) => return Err(e),
                Ok(()) => {},
            }
        } else {
            match self.put_op(Opcode::LoadNull, if_span) {
                Err(e) => return Err(e),
                Ok(()) => {},
            }
        }
        self.put_patch(to_end, Ghost(k_to_end as int));
        Ok(())
    }
    /// Compiles the binary operator at the current token and its right
    /// operand, whose operators bind tighter than `right_bp`. `&&` and `||`
    /// short-circuit: the left value is tested and, when it decides, left
    /// as `false` or `true` without the right operand being run.
    #[verifier::rlimit(100)]
    #[verifier::spinoff_prover]
    fn parse_infix<N: Fn(&str) -> u64>(
        &mut self,
        right_bp: u8,
        mm: &mut MemoryManager,
        nb: &N,
        depth: usize,
    ) -> (r: Result<(), ScanError>)
        requires
            old(self).inv(),
            old(mm).wf(),
            forall|s: &str| call_requires(*nb, (s,)),
            depth > 0,
        ensures
            final(mm).wf(),
            final(self).parser.wf(),
            r is Ok ==> final(self).source_id == old(self).source_id,
            r is Ok ==> final(self).inv(),
            r is Ok ==> old(self).scope.chunk.code@.len() <= final(self).scope.chunk.code@.len(),
            r is Ok ==> extends(old(self).ops@, final(self).ops@),
            match old(self).parser@.current {
                None => r is Err,
                Some(c) => match c.0 {
                    TokenView::Operator(op) => if op == "&&"@ || op == "||"@ {
                        true
                    } else if op == "+"@ {
                        r is Ok ==> ends_with(final(self).scope.chunk.code@, Opcode::Add)
                            || ends_with(final(self).scope.chunk.code@, Opcode::StringConcat)
                    } else {
                        match binary_op_spec(op) {
                            Some(p) => r is Ok ==> ends_with(final(self).scope.chunk.code@, p.0),
                            None => r is Err,
                        }
                    },
                    _ => r is Err,
                },
            },
        decreases depth, 2nat,
    {
        let token = match self.current_or_eof() {
            Ok(t) => t,
            Err(e) => return Err(e),
        };
        let span = copy_range(&token.span);
        let (is_and, is_or) = match &token.token {
            Token::Operator(op) => (op_is(op, "&&"), op_is(op, "||")),
            _ => (false, false),
        };
        match self.parser.advance() {
            Err(e) => return Err(e),
            Ok(()) => {},
        }
        if is_and || is_or {
            return self.parse_logical(is_and, span, right_bp, mm, nb, depth);
        }
        match self.parse_expr(right_bp, mm, nb, depth - 1) {
            Err(e) => return Err(e),
            Ok(()) => {},
        }
        match &token.token {
            Token::Operator(op) => {
                if op_is(op, "+") {
                    let right = pop_type(&mut self.type_stack);
                    let left = pop_type(&mut self.type_stack);
                    let both_strings = left == ExpressionType::String && right
                        == ExpressionType::String;
                    let code = if both_strings {
                        Opcode::StringConcat
                    } else {
                        Opcode::Add
                    };
                    match self.put_op(code, span) {
                        Err(e) => return Err(e),
                        Ok(()) => {},
                    }
                    let result = if left == ExpressionType::String || right
                        == ExpressionType::String {
                        ExpressionType::String
                    } else if left == ExpressionType::Number && right == ExpressionType::Number {
                        ExpressionType::Number
                    } else {
                        ExpressionType::Unknown
                    };
                    self.type_stack.push(result);
                    Ok(())
                } else {
                    match binary_opcode(op) {
                        Some((code, result)) => {
                            match self.put_op(code, span) {
                                Err(e) => return Err(e),
                                Ok(()) => {},
                            }
                            pop_type(&mut self.type_stack);
                            pop_type(&mut self.type_stack);
                            self.type_stack.push(result);
                            Ok(())
                        },
                        None => Err(invalid_expression_error(&self.parser, &token)),
                    }
                }
            },
            _ => Err(invalid_expression_error(&self.parser, &token)),
        }
    }

    /// Compiles the right operand of `&&` (when `is_and`) or `||` after the
    /// operator's token was taken, with code from `span`: the left value is
    /// tested and, when it decides, replaced by `false` or `true` without
    /// the right operand being run.
    #[verifier::rlimit(100)]
    #[verifier::spinoff_prover]
    fn parse_logical<N: Fn(&str) -> u64>(
        &mut self,
        is_and: bool,
        span: Range<usize>,
        right_bp: u8,
        mm: &mut MemoryManager,
        nb: &N,
        depth: usize,
    ) -> (r: Result<(), ScanError>)
        requires
            old(self).inv(),
            old(mm).wf(),
            forall|s: &str| call_requires(*nb, (s,)),
            depth > 0,
        ensures
            final(mm).wf(),
            final(self).parser.wf(),
            r is Ok ==> final(self).source_id == old(self).source_id,
            r is Ok ==> final(self).inv(),
            r is Ok ==> old(self).scope.chunk.code@.len() <= final(self).scope.chunk.code@.len(),
            r is Ok ==> extends(old(self).ops@, final(self).ops@),
        decreases depth, 1nat,
    {
        let test = if is_and {
            Opcode::JumpIfFalse
        } else {
            Opcode::JumpIfTrue
        };
        let decided = if is_and {
            Opcode::LoadFalse
        } else {
            Opcode::LoadTrue
        };
        match self.put_op(Opcode::Dup, copy_range(&span)) {
            Err(e) => return Err(e),
            Ok(()) => {},
        }
        let ghost k_jump_decided = self.ops@.len();
    let jump_decided = match self.put_jump(test,
            copy_range(&span)) {
            Err(e) => return Err(e),
            Ok(p) => p,
        };
        match self.put_op(Opcode::Pop, copy_range(&span)) {
            Err(e) => return Err(e),
            Ok(()) => {},
        }
        match self.parse_expr(right_bp, mm, nb, depth - 1) {
            Err(e) => return Err(e),
            Ok(()) => {},
        }
        pop_type(&mut self.type_stack);
        let ghost k_jump_end = self.ops@.len();
    let jump_end = match self.put_jump(Opcode::Jump,
            copy_range(&span)) {
            Err(e) => return Err(e),
            Ok(p) => p,
        };
        self.put_patch(jump_decided, Ghost(k_jump_decided as int));
        match self.put_op(Opcode::Pop, copy_range(&span)) {
            Err(e) => return Err(e),
            Ok(()) => {},
        }
        match self.put_op(decided, copy_range(&span)) {
            Err(e) => return Err(e),
            Ok(()) => {},
        }
        self.put_patch(jump_end, Ghost(k_jump_end as int));
        pop_type(&mut self.type_stack);
        self.type_stack.push(ExpressionType::Unknown);
        Ok(())
    }

    /// Compiles the postfix operator at the current token: `.name` indexes
    /// an object by a string constant, `[e]` indexes by an expression.
    #[verifier::rlimit(100)]
    #[verifier::spinoff_prover]
    fn parse_postfix<N: Fn(&str) -> u64>(&mut self, mm: &mut MemoryManager, nb: &N, depth: usize) -> (r:
        Result<(), ScanError>)
        requires
            old(self).inv(),
            old(mm).wf(),
            forall|s: &str| call_requires(*nb, (s,)),
            depth > 0,
        ensures
            final(mm).wf(),
            final(self).parser.wf(),
            r is Ok ==> final(self).source_id == old(self).source_id,
            r is Ok ==> final(self).inv(),
            r is Ok ==> old(self).scope.chunk.code@.len() <= final(self).scope.chunk.code@.len(),
            r is Ok ==> extends(old(self).ops@, final(self).ops@),
            match old(self).parser@.current {
                None => r is Err,
                Some(c) => match c.0 {
                    TokenView::Dot => r is Ok ==> ends_with(
                        final(self).scope.chunk.code@,
                        Opcode::ObjectIndex,
                    ),
                    TokenView::LeftBracket => r is Ok ==> ends_with(
                        final(self).scope.chunk.code@,
                        Opcode::ArrayIndex,
                    ),
                    _ => r is Err,
                },
            },
        decreases depth, 2nat,
    {
        let token = match self.current_or_eof() {
            Ok(t) => t,
            Err(e) => return Err(e),
        };
        match &token.token {
            Token::Dot => {
                match self.parser.advance() {
                    Err(e) => return Err(e),
                    Ok(()) => {},
                }
                let property = match self.parser.current_token() {
                    Some(t) => t.clone(),
                    None => {
                        let end = token.span.end;
                        return Err(unexpected_eof_error(&self.parser, end..end));
                    },
                };
                match &property.token {
                    Token::Identifier(name) => {
                        match self.parser.advance() {
                            Err(e) => return Err(e),
                            Ok(()) => {},
                        }
                        match heap_room(mm, name.as_str(), self.source_id) {
                            Err(e) => return Err(e),
                            Ok(()) => {},
                        }
                        let allocated = mm.allocate_string(name.as_str());
                        let at = current_span(&self.parser);
                        match self.put_pooled(Opcode::LoadConst, Value::String(allocated.index),
                            at) {
                            Err(e) => return Err(e),
                            Ok(_) => {},
                        }
                        match self.put_op(Opcode::ObjectIndex,
                            copy_range(&property.span)) {
                            Err(e) => return Err(e),
                            Ok(()) => {},
                        }
                        pop_type(&mut self.type_stack);
                        self.type_stack.push(ExpressionType::Unknown);
                        Ok(())
                    },
                    _ => Err(
                        error_at(
                            &self.parser,
                            copy_range(&property.span),
                            String::from_str("Expected property name after '.'"),
                        ),
                    ),
                }
            },
            Token::LeftBracket => {
                match self.parser.advance() {
                    Err(e) => return Err(e),
                    Ok(()) => {},
                }
                match self.parse_expr(0, mm, nb, depth - 1) {
                    Err(e) => return Err(e),
                    Ok(()) => {},
                }
                match self.parser.consume(
                    Token::RightBracket,
                    "Expected ']' after property expression",
                ) {
                    Err(e) => return Err(e),
                    Ok(_) => {},
                }
                match self.put_op(Opcode::ArrayIndex,
                    copy_range(&token.span)) {
                    Err(e) => return Err(e),
                    Ok(()) => {},
                }
                pop_type(&mut self.type_stack);
                pop_type(&mut self.type_stack);
                self.type_stack.push(ExpressionType::Unknown);
                Ok(())
            },
            _ => Err(invalid_expression_error(&self.parser, &token)),
        }
    }

}

} // verus!
