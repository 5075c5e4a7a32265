//! The state of the function being compiled: locals with their stack slots,
//! nested block scopes and the code that leaves them, the upvalues through
//! which closures reach the locals of enclosing functions, the pool of
//! constants, and the code for constants, jumps and closures. Also the
//! binding powers of operators.

use vstd::prelude::*;
use std::ops::Range;
use crate::chunk::Chunk;
use crate::chunk::Opcode;
use crate::chunk::Value;
use crate::chunk::le_i32;
use crate::chunk::le_u16;
use crate::chunk::patched_i32;
use crate::chunk::code_i32_at;
use crate::chunk::same_value;
use crate::chunk::can_extend;
use crate::chunk::extend_runs;
use crate::chunk::opcode_byte;
use crate::lexical::TokenView;
use crate::scanner::ScanError;
use crate::scanner::Token;
use crate::scanner::error_is;
use crate::text::push_str;

verus! {

// ---------------------------------------------------------------- binding powers

pub const PRECEDENCE_POSTFIX: u8 = 90;
pub const PRECEDENCE_UNARY: u8 = 80;
pub const PRECEDENCE_MULTIPLICATIVE: u8 = 60;
pub const PRECEDENCE_ADDITIVE: u8 = 50;
pub const PRECEDENCE_SHIFT: u8 = 45;
pub const PRECEDENCE_COMPARISON: u8 = 40;
pub const PRECEDENCE_EQUALITY: u8 = 35;
pub const PRECEDENCE_BITAND: u8 = 30;
pub const PRECEDENCE_BITXOR: u8 = 25;
pub const PRECEDENCE_BITOR: u8 = 20;
pub const PRECEDENCE_LOGICAL_AND: u8 = 15;
pub const PRECEDENCE_LOGICAL_OR: u8 = 10;

/// The precedence of a binary operator token, if it is one.
pub open spec fn infix_precedence(t: TokenView) -> Option<u8> {
    match t {
        TokenView::In => Some(PRECEDENCE_COMPARISON),
        TokenView::Operator(op) => if op == "*"@ || op == "/"@ || op == "%"@ {
            Some(PRECEDENCE_MULTIPLICATIVE)
        } else if op == "+"@ || op == "-"@ {
            Some(PRECEDENCE_ADDITIVE)
        } else if op == "<"@ || op == "<="@ || op == ">"@ || op == ">="@ {
            Some(PRECEDENCE_COMPARISON)
        } else if op == "=="@ || op == "!="@ {
            Some(PRECEDENCE_EQUALITY)
        } else if op == "<<"@ || op == ">>"@ {
            Some(PRECEDENCE_SHIFT)
        } else if op == "&"@ {
            Some(PRECEDENCE_BITAND)
        } else if op == "^"@ {
            Some(PRECEDENCE_BITXOR)
        } else if op == "|"@ {
            Some(PRECEDENCE_BITOR)
        } else if op == "&&"@ {
            Some(PRECEDENCE_LOGICAL_AND)
        } else if op == "||"@ {
            Some(PRECEDENCE_LOGICAL_OR)
        } else {
            None
        },
        _ => None,
    }
}

pub(crate) fn op_is(op: &String, lit: &str) -> (r: bool)
    ensures
        r == (op@ == lit@),
{
    *op == String::from_str(lit)
}

/// The left and right binding powers of a binary operator: every binary
/// operator is left associative, so the right power is one more.
pub fn get_binding_power(token: &Token) -> (r: Option<(u8, u8)>)
    ensures
        match infix_precedence(token@) {
            Some(p) => r == Some((p, (p + 1) as u8)),
            None => r is None,
        },
{
    let p: Option<u8> = match token {
        Token::In => Some(PRECEDENCE_COMPARISON),
        Token::Operator(op) => {
            if op_is(op, "*") || op_is(op, "/") || op_is(op, "%") {
                Some(PRECEDENCE_MULTIPLICATIVE)
            } else if op_is(op, "+") || op_is(op, "-") {
                Some(PRECEDENCE_ADDITIVE)
            } else if op_is(op, "<") || op_is(op, "<=") || op_is(op, ">") || op_is(op, ">=") {
                Some(PRECEDENCE_COMPARISON)
            } else if op_is(op, "==") || op_is(op, "!=") {
                Some(PRECEDENCE_EQUALITY)
            } else if op_is(op, "<<") || op_is(op, ">>") {
                Some(PRECEDENCE_SHIFT)
            } else if op_is(op, "&") {
                Some(PRECEDENCE_BITAND)
            } else if op_is(op, "^") {
                Some(PRECEDENCE_BITXOR)
            } else if op_is(op, "|") {
                Some(PRECEDENCE_BITOR)
            } else if op_is(op, "&&") {
                Some(PRECEDENCE_LOGICAL_AND)
            } else if op_is(op, "||") {
                Some(PRECEDENCE_LOGICAL_OR)
            } else {
                None
            }
        },
        _ => None,
    };
    match p {
        Some(v) => Some((v, v + 1)),
        None => None,
    }
}

/// The binding power of a postfix token: member access, indexing, call and
/// object application all bind tightest.
pub fn get_postfix_binding_power(token: &Token) -> (r: Option<u8>)
    ensures
        r == (match token@ {
            TokenView::Dot | TokenView::LeftBracket | TokenView::LeftParen
            | TokenView::LeftBrace => Some(PRECEDENCE_POSTFIX),
            _ => None::<u8>,
        }),
{
    match token {
        Token::Dot | Token::LeftBracket | Token::LeftParen | Token::LeftBrace => Some(
            PRECEDENCE_POSTFIX,
        ),
        _ => None,
    }
}

/// Binding powers strictly order the binary operators: a tighter operator
/// has a left power above the right power of a looser one, and an operator
/// binds its right side tighter than its left.
pub proof fn law_binding_powers_associate_left(t: TokenView)
    ensures
        infix_precedence(t) matches Some(p) ==> p < p + 1 < PRECEDENCE_UNARY < PRECEDENCE_POSTFIX,
{
}

// ---------------------------------------------------------------- locals and upvalues

/// A local variable: its name, the block depth it was declared at, its
/// absolute stack slot and whether a closure captures it.
#[derive(Debug)]
pub struct Local {
    pub name: String,
    pub depth: u32,
    pub stack_slot: usize,
    pub is_captured: bool,
}

/// What a closure captures: a local of the enclosing function (by stack
/// slot) or one of its upvalues (by index).
#[derive(Debug, Clone, Copy, PartialEq, Eq, Structural)]
pub struct CompilerUpvalue {
    pub index: u8,
    pub is_local: bool,
}

/// The value of a local.
pub struct LocalView {
    pub name: Seq<char>,
    pub depth: u32,
    pub stack_slot: usize,
    pub is_captured: bool,
}

pub open spec fn local_view(l: Local) -> LocalView {
    LocalView { name: l.name@, depth: l.depth, stack_slot: l.stack_slot, is_captured: l.is_captured }
}

pub open spec fn locals_view(ls: Seq<Local>) -> Seq<LocalView> {
    ls.map_values(|l: Local| local_view(l))
}

/// The innermost (last) local with a name.
pub open spec fn innermost(ls: Seq<LocalView>, name: Seq<char>) -> Option<int>
    decreases ls.len(),
{
    if ls.len() == 0 {
        None
    } else if ls.last().name == name {
        Some(ls.len() - 1)
    } else {
        innermost(ls.drop_last(), name)
    }
}

/// Whether a name is declared among the trailing locals of depth at least
/// `depth` (the current block).
pub open spec fn declared_in_block(ls: Seq<LocalView>, depth: u32, name: Seq<char>) -> bool
    decreases ls.len(),
{
    if ls.len() == 0 || ls.last().depth < depth {
        false
    } else {
        ls.last().name == name || declared_in_block(ls.drop_last(), depth, name)
    }
}

/// The first upvalue equal to `u`.
pub open spec fn first_upvalue(ups: Seq<CompilerUpvalue>, u: CompilerUpvalue) -> Option<int>
    decreases ups.len(),
{
    if ups.len() == 0 {
        None
    } else if ups[0] == u {
        Some(0)
    } else {
        match first_upvalue(ups.drop_first(), u) {
            Some(k) => Some(k + 1),
            None => None,
        }
    }
}

/// The upvalue list after adding `u`, and the index that refers to it: an
/// equal entry is reused, else `u` is appended (the index is the list length
/// truncated to a byte).
pub open spec fn with_upvalue(ups: Seq<CompilerUpvalue>, u: CompilerUpvalue) -> (
    Seq<CompilerUpvalue>,
    u8,
) {
    match first_upvalue(ups, u) {
        Some(k) => (ups, k as u8),
        None => (ups.push(u), ups.len() as u8),
    }
}

/// A local marked as captured.
pub open spec fn captured(l: LocalView) -> LocalView {
    LocalView { is_captured: true, ..l }
}

/// One enclosing function: its locals and upvalues.
pub struct FrameView {
    pub locals: Seq<LocalView>,
    pub upvalues: Seq<CompilerUpvalue>,
}

/// Resolving a name through enclosing functions, innermost first: a local
/// of the first frame is captured directly; otherwise what an outer frame
/// resolves is added to this frame's upvalues and captured through them.
/// Gives the frames after the marks and additions, and the capture.
pub open spec fn resolve_frames(frames: Seq<FrameView>, name: Seq<char>) -> (
    Seq<FrameView>,
    Option<CompilerUpvalue>,
)
    decreases frames.len(),
{
    if frames.len() == 0 {
        (frames, None)
    } else {
        let f = frames[0];
        match innermost(f.locals, name) {
            Some(i) => (
                frames.update(
                    0,
                    FrameView { locals: f.locals.update(i, captured(f.locals[i])), upvalues: f.upvalues },
                ),
                Some(CompilerUpvalue { index: f.locals[i].stack_slot as u8, is_local: true }),
            ),
            None => {
                let (rest, r) = resolve_frames(frames.drop_first(), name);
                match r {
                    Some(u) => {
                        let (ups, idx) = with_upvalue(f.upvalues, u);
                        (
                            seq![FrameView { locals: f.locals, upvalues: ups }] + rest,
                            Some(CompilerUpvalue { index: idx, is_local: false }),
                        )
                    },
                    None => (seq![f] + rest, None),
                }
            },
        }
    }
}

/// The state of an enclosing function kept while an inner one compiles.
pub struct EnclosingScope<'a> {
    pub locals: Vec<Local>,
    pub upvalues: Vec<CompilerUpvalue>,
    pub enclosing: Option<Box<EnclosingScope<'a>>>,
    pub chunk: Chunk<'a>,
    pub constant_pool: Vec<(Value, u16)>,
    pub anon_stack_depth: usize,
}

/// The frames of a chain of enclosing functions, innermost first.
pub open spec fn frames_of<'a>(e: EnclosingScope<'a>) -> Seq<FrameView>
    decreases e,
{
    let f = FrameView { locals: locals_view(e.locals@), upvalues: e.upvalues@ };
    match e.enclosing {
        Some(b) => seq![f] + frames_of(*b),
        None => seq![f],
    }
}

/// The frames of an optional chain.
pub open spec fn frames_of_opt<'a>(e: Option<Box<EnclosingScope<'a>>>) -> Seq<FrameView> {
    match e {
        Some(b) => frames_of(*b),
        None => Seq::empty(),
    }
}

/// Where the upvalues before `i` all differ from `u`, the first equal one is
/// at `i` if it matches there, and there is none if `i` is the end.
proof fn lemma_first_upvalue(ups: Seq<CompilerUpvalue>, u: CompilerUpvalue, i: int)
    requires
        0 <= i <= ups.len(),
        forall|j: int| 0 <= j < i ==> ups[j] != u,
    ensures
        i < ups.len() && ups[i] == u ==> first_upvalue(ups, u) == Some(i),
        i == ups.len() ==> first_upvalue(ups, u) is None,
    decreases ups.len(),
{
    if ups.len() > 0 && i > 0 {
        let rest = ups.drop_first();
        assert forall|j: int| 0 <= j < i - 1 implies rest[j] != u by {
            assert(rest[j] == ups[j + 1]);
        }
        lemma_first_upvalue(rest, u, i - 1);
        if i < ups.len() {
            assert(rest[i - 1] == ups[i]);
        }
    }
}

/// Finds the first upvalue equal to `(index, is_local)`, or appends it.
fn add_upvalue_to(ups: &mut Vec<CompilerUpvalue>, index: u8, is_local: bool) -> (r: u8)
    ensures
        (final(ups)@, r) == with_upvalue(old(ups)@, CompilerUpvalue { index, is_local }),
{
    let u = CompilerUpvalue { index, is_local };
    let mut i: usize = 0;
    while i < ups.len()
        invariant
            i <= ups@.len(),
            ups@ == old(ups)@,
            u == (CompilerUpvalue { index, is_local }),
            forall|j: int| 0 <= j < i ==> ups@[j] != u,
        decreases ups.len() - i,
    {
        let e = ups[i];
        if e.index == index && e.is_local == is_local {
            proof {
                assert(ups@[i as int] == u);
                lemma_first_upvalue(ups@, u, i as int);
            }
            return i as u8;
        }
        assert(ups@[i as int] != u);
        i += 1;
    }
    proof {
        lemma_first_upvalue(ups@, u, i as int);
    }
    let n = ups.len() as u8;
    ups.push(u);
    n
}

/// The innermost local with a name is one of the locals, and carries it.
proof fn lemma_innermost(ls: Seq<LocalView>, name: Seq<char>)
    ensures
        match innermost(ls, name) {
            Some(i) => 0 <= i < ls.len() && ls[i].name == name,
            None => true,
        },
    decreases ls.len(),
{
    if ls.len() > 0 && ls.last().name != name {
        lemma_innermost(ls.drop_last(), name);
    }
}

/// Finds the innermost local with a name.
fn find_innermost(locals: &Vec<Local>, name: &str) -> (r: Option<usize>)
    ensures
        match r {
            Some(i) => innermost(locals_view(locals@), name@) == Some(i as int),
            None => innermost(locals_view(locals@), name@) is None,
        },
{
    let key = String::from_str(name);
    let mut i = locals.len();
    proof {
        assert(locals@.take(i as int) =~= locals@);
    }
    while i > 0
        invariant
            i <= locals@.len(),
            key@ == name@,
            innermost(locals_view(locals@), name@) == innermost(
                locals_view(locals@.take(i as int)),
                name@,
            ),
        decreases i,
    {
        proof {
            assert(locals_view(locals@.take(i as int)).drop_last() =~= locals_view(
                locals@.take(i - 1),
            ));
            assert(locals_view(locals@.take(i as int)).last() == local_view(locals@[i - 1]));
        }
        if locals[i - 1].name == key {
            return Some(i - 1);
        }
        i -= 1;
    }
    proof {
        assert(locals_view(locals@.take(0)) =~= Seq::<LocalView>::empty());
    }
    None
}

/// Marks a local as captured.
fn mark_captured(locals: &mut Vec<Local>, i: usize)
    requires
        i < old(locals)@.len(),
    ensures
        locals_view(final(locals)@) == locals_view(old(locals)@).update(
            i as int,
            captured(locals_view(old(locals)@)[i as int]),
        ),
{
    let ghost before = locals@;
    let mut l = locals.remove(i);
    l.is_captured = true;
    locals.insert(i, l);
    proof {
        assert(locals_view(locals@) =~= locals_view(before).update(
            i as int,
            captured(locals_view(before)[i as int]),
        ));
    }
}

impl<'a> EnclosingScope<'a> {
    /// Adds an upvalue to this function, reusing an equal one.
    pub fn add_upvalue(&mut self, index: u8, is_local: bool) -> (r: u8)
        ensures
            (final(self).upvalues@, r) == with_upvalue(
                old(self).upvalues@,
                CompilerUpvalue { index, is_local },
            ),
            final(self).locals@ == old(self).locals@,
            final(self).enclosing == old(self).enclosing,
            final(self).chunk == old(self).chunk,
            final(self).anon_stack_depth == old(self).anon_stack_depth,
            final(self).constant_pool == old(self).constant_pool,
    {
        add_upvalue_to(&mut self.upvalues, index, is_local)
    }

    /// Resolves a name in this function or, through upvalues, in the
    /// functions around it.
    pub fn resolve_upvalue(&mut self, name: &str) -> (r: Option<CompilerUpvalue>)
        ensures
            (frames_of(*final(self)), r) == resolve_frames(frames_of(*old(self)), name@),
            final(self).chunk == old(self).chunk,
            final(self).anon_stack_depth == old(self).anon_stack_depth,
            final(self).constant_pool == old(self).constant_pool,
        decreases frames_of(*old(self)).len(),
    {
        match find_innermost(&self.locals, name) {
            Some(i) => {
                proof {
                    lemma_innermost(locals_view(self.locals@), name@);
                }
                let slot = self.locals[i].stack_slot;
                mark_captured(&mut self.locals, i);
                proof {
                    let f = FrameView { locals: locals_view(old(self).locals@), upvalues: old(self).upvalues@ };
                    assert(frames_of(*old(self))[0] == f);
                    assert(frames_of(*old(self)).len() > 0);
                    assert(innermost(f.locals, name@) == Some(i as int));
                    assert(frames_of(*self) =~= frames_of(*old(self)).update(
                        0,
                        FrameView {
                            locals: f.locals.update(i as int, captured(f.locals[i as int])),
                            upvalues: f.upvalues,
                        },
                    ));
                    assert(resolve_frames(frames_of(*old(self)), name@).1 == Some(CompilerUpvalue { index: slot as u8, is_local: true }));
                    assert(resolve_frames(frames_of(*old(self)), name@).0 == frames_of(*self));
                }
                Some(CompilerUpvalue { index: slot as u8, is_local: true })
            },
            None => {
                let taken = self.enclosing.take();
                match taken {
                    Some(mut b) => {
                        let ghost b0 = *b;
                        proof {
                            assert(frames_of(*old(self)).len() == frames_of(b0).len() + 1);
                        }
                        let found = (&mut *b).resolve_upvalue(name);
                        let ghost b1 = *b;
                        self.enclosing = Some(b);
                        match found {
                            Some(u) => {
                                let idx = add_upvalue_to(&mut self.upvalues, u.index, u.is_local);
                                proof {
                                    assert(frames_of(*old(self)).drop_first() =~= frames_of(b0));
                                    assert(frames_of(*self) =~= seq![
                                        FrameView {
                                            locals: locals_view(self.locals@),
                                            upvalues: self.upvalues@,
                                        },
                                    ] + frames_of(b1));
                                }
                                Some(CompilerUpvalue { index: idx, is_local: false })
                            },
                            None => {
                                proof {
                                    assert(frames_of(*old(self)).drop_first() =~= frames_of(b0));
                                    assert(frames_of(*self) =~= seq![
                                        FrameView {
                                            locals: locals_view(self.locals@),
                                            upvalues: self.upvalues@,
                                        },
                                    ] + frames_of(b1));
                                    assert(resolve_frames(frames_of(*old(self)), name@).1 is None);
                                    assert(resolve_frames(frames_of(*old(self)), name@).0 == frames_of(*self));
                                }
                                None
                            },
                        }
                    },
                    None => {
                        proof {
                            assert(frames_of(*old(self)).drop_first() =~= Seq::<FrameView>::empty());
                            assert(innermost(locals_view(old(self).locals@), name@) is None);
                            assert(resolve_frames(Seq::<FrameView>::empty(), name@).1 is None);
                            assert(resolve_frames(frames_of(*old(self)), name@).1 is None);
                            assert(resolve_frames(frames_of(*old(self)), name@).0 == frames_of(*self));
                        }
                        None
                    },
                }
            },
        }
    }
}

// ---------------------------------------------------------------- the function being compiled

/// The bytes that leave a block for one of its locals: a `Swap` that brings
/// the local above the block's result, a `CloseUpvalue` if a closure
/// captured it, and a `Pop`.
pub open spec fn local_exit_code(l: LocalView) -> Seq<u8> {
    if l.is_captured {
        seq![
            opcode_byte(Opcode::Swap),
            opcode_byte(Opcode::CloseUpvalue),
            opcode_byte(Opcode::Pop),
        ]
    } else {
        seq![opcode_byte(Opcode::Swap), opcode_byte(Opcode::Pop)]
    }
}

/// The code that leaves the block at `depth`: the exit bytes of each of
/// its trailing locals, innermost first.
pub open spec fn scope_exit_code(ls: Seq<LocalView>, depth: u32) -> Seq<u8>
    decreases ls.len(),
{
    if ls.len() == 0 || ls.last().depth != depth {
        Seq::empty()
    } else {
        local_exit_code(ls.last()) + scope_exit_code(ls.drop_last(), depth)
    }
}

/// How many locals remain when the block at `depth` ends.
pub open spec fn scope_kept(ls: Seq<LocalView>, depth: u32) -> nat
    decreases ls.len(),
{
    if ls.len() == 0 || ls.last().depth != depth {
        ls.len()
    } else {
        scope_kept(ls.drop_last(), depth)
    }
}

/// The error text for a name declared twice in one block.
pub open spec fn already_declared_message(name: Seq<char>) -> Seq<char> {
    "Variable '"@ + name + "' already declared in this scope"@
}

/// The local a name resolves to in one function, and its stack slot.
pub open spec fn local_slot(ls: Seq<LocalView>, name: Seq<char>) -> Option<usize> {
    match innermost(ls, name) {
        Some(i) => Some(ls[i].stack_slot),
        None => None,
    }
}

/// The state of the function being compiled: its locals and upvalues, the
/// block depth, the anonymous temporaries on the stack above its locals,
/// its chunk, and the functions around it.
pub struct FunctionScope<'a> {
    pub locals: Vec<Local>,
    pub upvalues: Vec<CompilerUpvalue>,
    pub scope_depth: u32,
    pub anon_stack_depth: usize,
    pub chunk: Chunk<'a>,
    pub constant_pool: Vec<(Value, u16)>,
    pub enclosing: Option<Box<EnclosingScope<'a>>>,
}

/// `after` is `before` once a nested function began: `before`'s state is
/// kept as the innermost enclosing scope and the new function starts empty
/// with a fresh chunk for `source_id`; `saved` is `before`'s block depth.
pub open spec fn begins_function<'a>(
    before: FunctionScope<'a>,
    after: FunctionScope<'a>,
    saved: u32,
    source_id: &'a str,
) -> bool {
    &&& after.enclosing == Some(
        Box::new(
            EnclosingScope {
                locals: before.locals,
                upvalues: before.upvalues,
                enclosing: before.enclosing,
                chunk: before.chunk,
                constant_pool: before.constant_pool,
                anon_stack_depth: before.anon_stack_depth,
            },
        ),
    )
    &&& after.locals@.len() == 0
    &&& after.upvalues@.len() == 0
    &&& after.scope_depth == 0
    &&& after.anon_stack_depth == 0
    &&& after.constant_pool@.len() == 0
    &&& after.chunk.source_id == source_id
    &&& after.chunk.code@.len() == 0
    &&& after.chunk.spans@.len() == 0
    &&& after.chunk.constants@.len() == 0
    &&& saved == before.scope_depth
}

/// `after` is `before` once its nested function ended: the enclosing
/// scope's state is back, the block depth is `saved`, and the nested
/// function's chunk and upvalues were handed out.
pub open spec fn ends_function<'a>(
    before: FunctionScope<'a>,
    saved: u32,
    after: FunctionScope<'a>,
    chunk: Chunk<'a>,
    upvalues: Vec<CompilerUpvalue>,
) -> bool {
    match before.enclosing {
        Some(e) => {
            &&& after.locals == e.locals
            &&& after.upvalues == e.upvalues
            &&& after.enclosing == e.enclosing
            &&& after.chunk == e.chunk
            &&& after.anon_stack_depth == e.anon_stack_depth
            &&& after.constant_pool == e.constant_pool
            &&& after.scope_depth == saved
            &&& chunk == before.chunk
            &&& upvalues == before.upvalues
        },
        None => false,
    }
}

/// The index the constant pool holds for a value: that of its first entry.
pub open spec fn pooled_index(pool: Seq<(Value, u16)>, v: Value) -> Option<u16>
    decreases pool.len(),
{
    if pool.len() == 0 {
        None
    } else if pool[0].0 == v {
        Some(pool[0].1)
    } else {
        pooled_index(pool.drop_first(), v)
    }
}

/// Every pooled value sits at its index among the chunk's constants.
pub open spec fn pool_consistent(pool: Seq<(Value, u16)>, constants: Seq<Value>) -> bool {
    forall|k: int|
        0 <= k < pool.len() ==> (#[trigger] pool[k]).1 < constants.len() && constants[pool[k].1 as int]
            == pool[k].0
}

/// The largest number of constants a chunk can index.
pub const MAX_CONSTANTS: usize = 65535;

/// The placeholder offset of a jump that is not patched yet.
pub const JUMP_PLACEHOLDER: i32 = 0x7FFFFFFF;

/// The bytes that describe the captures of a closure: for each upvalue, 1
/// for a local of the enclosing function or 0 for one of its upvalues, then
/// the index as a little-endian `u16`.
pub open spec fn upvalue_descriptors(ups: Seq<CompilerUpvalue>) -> Seq<u8>
    decreases ups.len(),
{
    if ups.len() == 0 {
        Seq::empty()
    } else {
        upvalue_descriptors(ups.drop_last()) + seq![
            if ups.last().is_local {
                1u8
            } else {
                0u8
            },
            ups.last().index,
            0u8,
        ]
    }
}

/// Each upvalue takes three bytes to describe.
pub proof fn lemma_descriptors_len(ups: Seq<CompilerUpvalue>)
    ensures
        upvalue_descriptors(ups).len() == 3 * ups.len(),
    decreases ups.len(),
{
    if ups.len() > 0 {
        lemma_descriptors_len(ups.drop_last());
    }
}

/// The code that makes a closure from the function constant at `index`:
/// `Closure`, the index, the number of upvalues (as a byte) and their
/// descriptors.
pub open spec fn closure_code(index: u16, ups: Seq<CompilerUpvalue>) -> Seq<u8> {
    seq![opcode_byte(Opcode::Closure)] + le_u16(index) + seq![ups.len() as u8] + upvalue_descriptors(
        ups,
    )
}

/// The offset that makes a jump whose offset bytes start at `jump_pos`
/// land at `end`, kept to its low 32 bits.
pub open spec fn jump_offset(end: nat, jump_pos: nat) -> i32 {
    (end - (jump_pos + 4)) as i32
}

/// `after` is `before` once a constant was loaded: the constant was pooled
/// (see `add_constant_pooled`) and, when that worked, `LoadConst` with its
/// index was written from `span`.
pub open spec fn emits_constant<'a>(
    before: FunctionScope<'a>,
    after: FunctionScope<'a>,
    value: Value,
    span: Range<usize>,
    source_id: Seq<char>,
    r: Result<u16, ScanError>,
) -> bool {
    let n = before.chunk.constants@.len();
    let constants = match pooled_index(before.constant_pool@, value) {
        Some(_) => before.chunk.constants@,
        None => before.chunk.constants@.push(value),
    };
    let pool = match pooled_index(before.constant_pool@, value) {
        Some(_) => before.constant_pool@,
        None => if n > MAX_CONSTANTS {
            before.constant_pool@
        } else {
            before.constant_pool@.push((value, n as u16))
        },
    };
    &&& after.chunk.constants@ == constants
    &&& after.constant_pool@ == pool
    &&& after.chunk.source_id == before.chunk.source_id
    &&& after.locals == before.locals
    &&& after.upvalues == before.upvalues
    &&& after.scope_depth == before.scope_depth
    &&& after.anon_stack_depth == before.anon_stack_depth
    &&& after.enclosing == before.enclosing
    &&& match pooled_index(before.constant_pool@, value) {
        Some(i) => {
            &&& r == Ok::<u16, ScanError>(i)
            &&& after.chunk.code@ == before.chunk.code@ + seq![opcode_byte(Opcode::LoadConst)] + le_u16(i)
            &&& after.chunk.spans@ == extend_runs(before.chunk.spans@, span, 3)
        },
        None => if n > MAX_CONSTANTS {
            &&& r matches Err(e) && error_is(e, 0, 0, "Too many constants (maximum 65535)"@, source_id)
            &&& after.chunk.code@ == before.chunk.code@
            &&& after.chunk.spans@ == before.chunk.spans@
        } else {
            &&& r == Ok::<u16, ScanError>(n as u16)
            &&& after.chunk.code@ == before.chunk.code@ + seq![opcode_byte(Opcode::LoadConst)] + le_u16(
                n as u16,
            )
            &&& after.chunk.spans@ == extend_runs(before.chunk.spans@, span, 3)
        },
    }
}

impl<'a> FunctionScope<'a> {
    /// The scope of a top-level script: no locals, no upvalues, block depth
    /// zero and an empty chunk.
    pub fn new(source_id: &'a str) -> (s: Self)
        ensures
            s.locals@.len() == 0,
            s.upvalues@.len() == 0,
            s.scope_depth == 0,
            s.anon_stack_depth == 0,
            s.constant_pool@.len() == 0,
            s.enclosing is None,
            s.chunk.source_id == source_id,
            s.chunk.code@.len() == 0,
            s.chunk.spans@.len() == 0,
            s.chunk.constants@.len() == 0,
    {
        FunctionScope {
            locals: Vec::new(),
            upvalues: Vec::new(),
            scope_depth: 0,
            anon_stack_depth: 0,
            chunk: Chunk::new(source_id),
            constant_pool: Vec::new(),
            enclosing: None,
        }
    }

    /// Enters a block.
    pub fn begin_scope(&mut self)
        requires
            old(self).scope_depth < u32::MAX,
        ensures
            final(self).scope_depth == old(self).scope_depth + 1,
            final(self).locals == old(self).locals,
            final(self).upvalues == old(self).upvalues,
            final(self).anon_stack_depth == old(self).anon_stack_depth,
            final(self).constant_pool == old(self).constant_pool,
            final(self).chunk == old(self).chunk,
            final(self).enclosing == old(self).enclosing,
    {
        self.scope_depth = self.scope_depth + 1;
    }

    /// Leaves a block: the block's result is on top of the stack and its
    /// locals below it; each local, innermost first, is swapped to the top,
    /// closed if captured, and popped. The code comes from `span`.
    pub fn end_scope(&mut self, span: Range<usize>)
        requires
            old(self).scope_depth > 0,
            can_extend(
                old(self).chunk.spans@,
                span,
                scope_exit_code(locals_view(old(self).locals@), old(self).scope_depth).len(),
            ),
            old(self).chunk.code@.len() + scope_exit_code(
                locals_view(old(self).locals@),
                old(self).scope_depth,
            ).len() <= usize::MAX,
        ensures
            ({
                let exit = scope_exit_code(locals_view(old(self).locals@), old(self).scope_depth);
                &&& final(self).chunk.code@ == old(self).chunk.code@ + exit
                &&& exit.len() > 0 ==> final(self).chunk.spans@ == extend_runs(
                    old(self).chunk.spans@,
                    span,
                    exit.len(),
                )
                &&& exit.len() == 0 ==> final(self).chunk.spans@ == old(self).chunk.spans@
            }),
            final(self).chunk.constants@ == old(self).chunk.constants@,
            final(self).chunk.source_id == old(self).chunk.source_id,
            final(self).locals@ == old(self).locals@.take(
                scope_kept(locals_view(old(self).locals@), old(self).scope_depth) as int,
            ),
            final(self).scope_depth == old(self).scope_depth - 1,
            final(self).upvalues == old(self).upvalues,
            final(self).anon_stack_depth == old(self).anon_stack_depth,
            final(self).constant_pool == old(self).constant_pool,
            final(self).enclosing == old(self).enclosing,
    {
        let depth = self.scope_depth;
        let ghost ls0 = locals_view(self.locals@);
        let mut bytes: Vec<u8> = Vec::new();
        while self.locals.len() > 0 && self.locals[self.locals.len() - 1].depth == depth
            invariant
                depth == old(self).scope_depth,
                ls0 == locals_view(old(self).locals@),
                self.locals@.len() <= old(self).locals@.len(),
                self.locals@ == old(self).locals@.take(self.locals@.len() as int),
                bytes@ + scope_exit_code(locals_view(self.locals@), depth) == scope_exit_code(
                    ls0,
                    depth,
                ),
                scope_kept(locals_view(self.locals@), depth) == scope_kept(ls0, depth),
                self.scope_depth == old(self).scope_depth,
                self.upvalues == old(self).upvalues,
                self.anon_stack_depth == old(self).anon_stack_depth,
                self.constant_pool == old(self).constant_pool,
                self.chunk == old(self).chunk,
                self.enclosing == old(self).enclosing,
            decreases self.locals@.len(),
        {
            let n = self.locals.len();
            let is_captured = self.locals[n - 1].is_captured;
            let ghost cur = locals_view(self.locals@);
            let ghost before = bytes@;
            bytes.push(Opcode::Swap.to_u8());
            if is_captured {
                bytes.push(Opcode::CloseUpvalue.to_u8());
            }
            bytes.push(Opcode::Pop.to_u8());
            let ghost prefix = self.locals@;
            self.locals.pop();
            proof {
                assert(cur.last() == local_view(prefix[n - 1]));
                assert(bytes@ =~= before + local_exit_code(cur.last()));
                assert(locals_view(self.locals@) =~= cur.drop_last());
                assert(self.locals@ =~= old(self).locals@.take(self.locals@.len() as int));
                assert(bytes@ + scope_exit_code(locals_view(self.locals@), depth) =~= before + (
                local_exit_code(cur.last()) + scope_exit_code(cur.drop_last(), depth)));
            }
        }
        proof {
            assert(bytes@ + scope_exit_code(locals_view(self.locals@), depth) =~= bytes@);
        }
        if bytes.len() > 0 {
            self.chunk.write_all(bytes, span);
        }
        self.scope_depth = depth - 1;
    }

    /// Declares a local for the value on top of the stack, in the current
    /// block. A name already declared in this block is an error, reported
    /// at `span` in `source_id`.
    pub fn declare_local(&mut self, name: String, span: Range<usize>, source_id: &str) -> (r: Result<
        (),
        ScanError,
    >)
        requires
            old(self).locals@.len() + old(self).anon_stack_depth <= usize::MAX,
        ensures
            declared_in_block(locals_view(old(self).locals@), old(self).scope_depth, name@) ==> {
                &&& r is Err
                &&& error_is(
                    r->Err_0,
                    span.start as int,
                    span.end as int,
                    already_declared_message(name@),
                    source_id@,
                )
                &&& final(self).locals == old(self).locals
            },
            !declared_in_block(locals_view(old(self).locals@), old(self).scope_depth, name@) ==> {
                &&& r is Ok
                &&& final(self).locals@ == old(self).locals@.push(
                    Local {
                        name: name,
                        depth: old(self).scope_depth,
                        stack_slot: (old(self).locals@.len() + old(self).anon_stack_depth) as usize,
                        is_captured: false,
                    },
                )
            },
            final(self).upvalues == old(self).upvalues,
            final(self).scope_depth == old(self).scope_depth,
            final(self).anon_stack_depth == old(self).anon_stack_depth,
            final(self).constant_pool == old(self).constant_pool,
            final(self).chunk == old(self).chunk,
            final(self).enclosing == old(self).enclosing,
    {
        let mut i = self.locals.len();
        proof {
            assert(locals_view(self.locals@).take(i as int) =~= locals_view(self.locals@));
        }
        while i > 0
            invariant
                i <= self.locals@.len(),
                self.locals == old(self).locals,
                self.scope_depth == old(self).scope_depth,
                declared_in_block(locals_view(self.locals@), self.scope_depth, name@)
                    == declared_in_block(
                    locals_view(self.locals@).take(i as int),
                    self.scope_depth,
                    name@,
                ),
            ensures
                self.locals == old(self).locals,
                !declared_in_block(locals_view(self.locals@), self.scope_depth, name@),
            decreases i,
        {
            let ghost pre = locals_view(self.locals@).take(i as int);
            proof {
                assert(pre.last() == local_view(self.locals@[i - 1]));
                assert(pre.drop_last() =~= locals_view(self.locals@).take(i - 1));
                if i == 1 {
                    assert(locals_view(self.locals@).take(0) =~= Seq::<LocalView>::empty());
                }
            }
            if self.locals[i - 1].depth < self.scope_depth {
                assert(!declared_in_block(pre, self.scope_depth, name@));
                break;
            }
            if self.locals[i - 1].name == name {
                let mut message = String::new();
                push_str(&mut message, "Variable '");
                push_str(&mut message, name.as_str());
                push_str(&mut message, "' already declared in this scope");
                return Err(ScanError::new(span, message, String::from_str(source_id)));
            }
            i -= 1;
        }
        let stack_slot = self.locals.len() + self.anon_stack_depth;
        self.locals.push(Local { name, depth: self.scope_depth, stack_slot, is_captured: false });
        Ok(())
    }

    /// The stack slot of the innermost local with a name, if any.
    pub fn resolve_local(&self, name: &str) -> (r: Option<usize>)
        ensures
            r == local_slot(locals_view(self.locals@), name@),
    {
        match find_innermost(&self.locals, name) {
            Some(i) => {
                proof {
                    lemma_innermost(locals_view(self.locals@), name@);
                }
                Some(self.locals[i].stack_slot)
            },
            None => None,
        }
    }

    /// Adds an upvalue to this function, reusing an equal one.
    pub fn add_upvalue(&mut self, index: u8, is_local: bool) -> (r: u8)
        ensures
            (final(self).upvalues@, r) == with_upvalue(
                old(self).upvalues@,
                CompilerUpvalue { index, is_local },
            ),
            final(self).locals == old(self).locals,
            final(self).scope_depth == old(self).scope_depth,
            final(self).anon_stack_depth == old(self).anon_stack_depth,
            final(self).constant_pool == old(self).constant_pool,
            final(self).chunk == old(self).chunk,
            final(self).enclosing == old(self).enclosing,
    {
        add_upvalue_to(&mut self.upvalues, index, is_local)
    }

    /// Resolves a name that is not a local of this function through the
    /// functions around it; what is found becomes an upvalue of this
    /// function, and the result is its index.
    pub fn resolve_upvalue(&mut self, name: &str) -> (r: Option<u8>)
        ensures
            ({
                let (frames, found) = resolve_frames(frames_of_opt(old(self).enclosing), name@);
                &&& frames_of_opt(final(self).enclosing) == frames
                &&& match found {
                    Some(u) => r is Some && (final(self).upvalues@, r->Some_0) == with_upvalue(
                        old(self).upvalues@,
                        u,
                    ),
                    None => r is None && final(self).upvalues == old(self).upvalues,
                }
            }),
            final(self).enclosing is Some <==> old(self).enclosing is Some,
            final(self).locals == old(self).locals,
            final(self).scope_depth == old(self).scope_depth,
            final(self).anon_stack_depth == old(self).anon_stack_depth,
            final(self).constant_pool == old(self).constant_pool,
            final(self).chunk == old(self).chunk,
    {
        let taken = self.enclosing.take();
        match taken {
            None => {
                proof {
                    assert(resolve_frames(Seq::<FrameView>::empty(), name@).1 is None);
                }
                None
            },
            Some(mut e) => {
                let found = (&mut *e).resolve_upvalue(name);
                self.enclosing = Some(e);
                match found {
                    Some(u) => Some(add_upvalue_to(&mut self.upvalues, u.index, u.is_local)),
                    None => None,
                }
            },
        }
    }

    /// Begins a nested function: this function's state becomes the
    /// innermost enclosing scope and the nested function starts empty with
    /// a chunk for `source_id`. Gives the block depth to restore later.
    pub fn begin_function(&mut self, source_id: &'a str) -> (saved: u32)
        ensures
            begins_function(*old(self), *final(self), saved, source_id),
    {
        let mut locals: Vec<Local> = Vec::new();
        std::mem::swap(&mut locals, &mut self.locals);
        let mut upvalues: Vec<CompilerUpvalue> = Vec::new();
        std::mem::swap(&mut upvalues, &mut self.upvalues);
        let mut chunk = Chunk::new(source_id);
        std::mem::swap(&mut chunk, &mut self.chunk);
        let mut constant_pool: Vec<(Value, u16)> = Vec::new();
        std::mem::swap(&mut constant_pool, &mut self.constant_pool);
        let enclosing = self.enclosing.take();
        let anon_stack_depth = self.anon_stack_depth;
        self.anon_stack_depth = 0;
        self.enclosing = Some(
            Box::new(
                EnclosingScope { locals, upvalues, enclosing, chunk, constant_pool, anon_stack_depth },
            ),
        );
        let saved = self.scope_depth;
        self.scope_depth = 0;
        saved
    }

    /// Ends a nested function: the enclosing scope's state comes back and
    /// the block depth becomes `saved`. Gives the nested function's chunk
    /// and upvalues.
    pub fn end_function(&mut self, saved: u32) -> (r: (Chunk<'a>, Vec<CompilerUpvalue>))
        requires
            old(self).enclosing is Some,
        ensures
            ends_function(*old(self), saved, *final(self), r.0, r.1),
    {
        let e = self.enclosing.take().unwrap();
        let EnclosingScope { locals, upvalues, enclosing, chunk, constant_pool, anon_stack_depth } =
            *e;
        self.constant_pool = constant_pool;
        let mut function_chunk = chunk;
        std::mem::swap(&mut function_chunk, &mut self.chunk);
        let mut function_upvalues = upvalues;
        std::mem::swap(&mut function_upvalues, &mut self.upvalues);
        self.locals = locals;
        self.enclosing = enclosing;
        self.anon_stack_depth = anon_stack_depth;
        self.scope_depth = saved;
        (function_chunk, function_upvalues)
    }

    /// The index of a constant in the chunk, added unless the pool already
    /// holds an equal one. A chunk holds at most 65536 constants that a
    /// `u16` can index; past that the constant is still added, but the
    /// result is an error that names no token of `source_id`.
    pub fn add_constant_pooled(&mut self, value: Value, source_id: &str) -> (r: Result<
        u16,
        ScanError,
    >)
        ensures
            match pooled_index(old(self).constant_pool@, value) {
                Some(i) => {
                    &&& r == Ok::<u16, ScanError>(i)
                    &&& final(self).chunk == old(self).chunk
                    &&& final(self).constant_pool == old(self).constant_pool
                },
                None => {
                    let n = old(self).chunk.constants@.len();
                    &&& final(self).chunk.constants@ == old(self).chunk.constants@.push(value)
                    &&& final(self).chunk.code@ == old(self).chunk.code@
                    &&& final(self).chunk.spans@ == old(self).chunk.spans@
                    &&& final(self).chunk.source_id == old(self).chunk.source_id
                    &&& if n > MAX_CONSTANTS {
                        &&& r matches Err(e) && error_is(
                            e,
                            0,
                            0,
                            "Too many constants (maximum 65535)"@,
                            source_id@,
                        )
                        &&& final(self).constant_pool == old(self).constant_pool
                    } else {
                        &&& r == Ok::<u16, ScanError>(n as u16)
                        &&& final(self).constant_pool@ == old(self).constant_pool@.push(
                            (value, n as u16),
                        )
                    }
                },
            },
            final(self).locals == old(self).locals,
            final(self).upvalues == old(self).upvalues,
            final(self).scope_depth == old(self).scope_depth,
            final(self).anon_stack_depth == old(self).anon_stack_depth,
            final(self).enclosing == old(self).enclosing,
    {
        let mut i: usize = 0;
        proof {
            assert(self.constant_pool@.skip(0) =~= self.constant_pool@);
        }
        while i < self.constant_pool.len()
            invariant
                i <= self.constant_pool@.len(),
                *self == *old(self),
                pooled_index(self.constant_pool@, value) == pooled_index(
                    self.constant_pool@.skip(i as int),
                    value,
                ),
            decreases self.constant_pool.len() - i,
        {
            proof {
                assert(self.constant_pool@.skip(i as int)[0] == self.constant_pool@[i as int]);
                assert(self.constant_pool@.skip(i as int).drop_first() =~= self.constant_pool@.skip(
                    i + 1,
                ));
            }
            let entry = self.constant_pool[i];
            if same_value(&entry.0, &value) {
                return Ok(entry.1);
            }
            i += 1;
        }
        proof {
            assert(self.constant_pool@.skip(i as int) =~= Seq::<(Value, u16)>::empty());
        }
        let index = self.chunk.add_constant(value);
        if index > MAX_CONSTANTS {
            return Err(
                ScanError::new(
                    0..0,
                    String::from_str("Too many constants (maximum 65535)"),
                    String::from_str(source_id),
                ),
            );
        }
        let small = index as u16;
        self.constant_pool.push((value, small));
        Ok(small)
    }

    /// Loads a number constant, given by the bits of its double, with code
    /// from `span`.
    pub fn emit_constant(&mut self, bits: u64, span: Range<usize>, source_id: &str) -> (r: Result<
        u16,
        ScanError,
    >)
        requires
            can_extend(old(self).chunk.spans@, span, 3),
        ensures
            emits_constant(*old(self), *final(self), Value::Number(bits), span, source_id@, r),
    {
        self.emit_value_constant(Value::Number(bits), span, source_id)
    }

    /// Loads a string constant, given by its key, with code from `span`.
    pub fn emit_string_constant(
        &mut self,
        key: crate::chunk::StringIndex,
        span: Range<usize>,
        source_id: &str,
    ) -> (r: Result<u16, ScanError>)
        requires
            can_extend(old(self).chunk.spans@, span, 3),
        ensures
            emits_constant(*old(self), *final(self), Value::String(key), span, source_id@, r),
    {
        self.emit_value_constant(Value::String(key), span, source_id)
    }

    fn emit_value_constant(&mut self, value: Value, span: Range<usize>, source_id: &str) -> (r: Result<
        u16,
        ScanError,
    >)
        requires
            can_extend(old(self).chunk.spans@, span, 3),
        ensures
            emits_constant(*old(self), *final(self), value, span, source_id@, r),
    {
        let index = self.add_constant_pooled(value, source_id);
        match index {
            Ok(i) => {
                self.chunk.write_opcode_u16(Opcode::LoadConst, i, span);
                Ok(i)
            },
            Err(e) => Err(e),
        }
    }

    /// Makes a closure of a compiled function: its key is pooled as a
    /// constant, then `Closure` with the constant's index, the number of
    /// upvalues and their descriptors are written, all from `span`.
    pub fn emit_closure(
        &mut self,
        function: crate::chunk::FunctionIndex,
        upvalues: &Vec<CompilerUpvalue>,
        span: Range<usize>,
        source_id: &str,
    ) -> (r: Result<(), ScanError>)
        requires
            can_extend(old(self).chunk.spans@, span, 4 + 3 * upvalues@.len()),
            4 + 3 * upvalues@.len() <= usize::MAX,
        ensures
            ({
                let value = Value::Function(function);
                let n = old(self).chunk.constants@.len();
                let index = match pooled_index(old(self).constant_pool@, value) {
                    Some(i) => Some(i),
                    None => if n > MAX_CONSTANTS {
                        None
                    } else {
                        Some(n as u16)
                    },
                };
                match index {
                    Some(i) => {
                        &&& r is Ok
                        &&& final(self).chunk.code@ == old(self).chunk.code@ + closure_code(
                            i,
                            upvalues@,
                        )
                        &&& final(self).chunk.spans@ == extend_runs(
                            old(self).chunk.spans@,
                            span,
                            4 + 3 * upvalues@.len(),
                        )
                    },
                    None => {
                        &&& r matches Err(e) && error_is(
                            e,
                            0,
                            0,
                            "Too many constants (maximum 65535)"@,
                            source_id@,
                        )
                        &&& final(self).chunk.code@ == old(self).chunk.code@
                        &&& final(self).chunk.spans@ == old(self).chunk.spans@
                    },
                }
            }),
            final(self).chunk.constants@ == (match pooled_index(
                old(self).constant_pool@,
                Value::Function(function),
            ) {
                Some(_) => old(self).chunk.constants@,
                None => old(self).chunk.constants@.push(Value::Function(function)),
            }),
            final(self).chunk.source_id == old(self).chunk.source_id,
            final(self).locals == old(self).locals,
            final(self).upvalues == old(self).upvalues,
            final(self).scope_depth == old(self).scope_depth,
            final(self).anon_stack_depth == old(self).anon_stack_depth,
            final(self).enclosing == old(self).enclosing,
    {
        let index = match self.add_constant_pooled(Value::Function(function), source_id) {
            Ok(i) => i,
            Err(e) => {
                return Err(e);
            },
        };
        let (b0, b1) = crate::chunk::le_bytes_u16(index);
        let mut bytes: Vec<u8> = Vec::new();
        bytes.push(Opcode::Closure.to_u8());
        bytes.push(b0);
        bytes.push(b1);
        bytes.push(upvalues.len() as u8);
        proof {
            assert(bytes@ =~= seq![opcode_byte(Opcode::Closure)] + le_u16(index) + seq![
                upvalues@.len() as u8,
            ]);
        }
        let ghost head = bytes@;
        let mut k: usize = 0;
        while k < upvalues.len()
            invariant
                k <= upvalues@.len(),
                bytes@ == head + upvalue_descriptors(upvalues@.take(k as int)),
            decreases upvalues.len() - k,
        {
            let u = upvalues[k];
            bytes.push(if u.is_local {
                1u8
            } else {
                0u8
            });
            bytes.push(u.index);
            bytes.push(0u8);
            proof {
                let t = upvalues@.take(k + 1);
                assert(t.drop_last() =~= upvalues@.take(k as int));
                assert(t.last() == upvalues@[k as int]);
            }
            k += 1;
        }
        proof {
            assert(upvalues@.take(upvalues@.len() as int) =~= upvalues@);
            lemma_descriptors_len(upvalues@);
        }
        self.chunk.write_all(bytes, span);
        Ok(())
    }

    /// Points the jump whose offset is at `jump_pos` at the current end of
    /// the code: the offset counts from the end of the offset's four bytes,
    /// kept to its low 32 bits.
    pub fn patch_jump(&mut self, jump_pos: usize)
        requires
            jump_pos + 4 <= old(self).chunk.code@.len(),
        ensures
            final(self).chunk.code@ == patched_i32(
                old(self).chunk.code@,
                jump_pos as int,
                jump_offset(old(self).chunk.code@.len(), jump_pos as nat),
            ),
            final(self).chunk.spans@ == old(self).chunk.spans@,
            final(self).chunk.constants@ == old(self).chunk.constants@,
            final(self).chunk.source_id == old(self).chunk.source_id,
            final(self).locals == old(self).locals,
            final(self).upvalues == old(self).upvalues,
            final(self).scope_depth == old(self).scope_depth,
            final(self).anon_stack_depth == old(self).anon_stack_depth,
            final(self).constant_pool == old(self).constant_pool,
            final(self).enclosing == old(self).enclosing,
    {
        let current = self.chunk.count();
        let distance = current - (jump_pos + 4);
        let offset = distance as i32;
        self.chunk.patch_i32(jump_pos, offset);
    }

    /// Stores the value on top of the stack into the local at `slot` (the
    /// slot kept to its low 16 bits), with code from `span`.
    pub fn emit_store_var(&mut self, slot: usize, span: Range<usize>)
        requires
            can_extend(old(self).chunk.spans@, span, 3),
        ensures
            final(self).chunk.code@ == old(self).chunk.code@ + seq![opcode_byte(Opcode::StoreVar)]
                + le_u16(slot as u16),
            final(self).chunk.spans@ == extend_runs(old(self).chunk.spans@, span, 3),
            final(self).chunk.constants@ == old(self).chunk.constants@,
            final(self).chunk.source_id == old(self).chunk.source_id,
            final(self).locals == old(self).locals,
            final(self).upvalues == old(self).upvalues,
            final(self).scope_depth == old(self).scope_depth,
            final(self).anon_stack_depth == old(self).anon_stack_depth,
            final(self).constant_pool == old(self).constant_pool,
            final(self).enclosing == old(self).enclosing,
    {
        self.chunk.write_opcode_u16(Opcode::StoreVar, slot as u16, span);
    }

    /// Emits a jump with a placeholder offset, all five bytes from `span`,
    /// and gives the position of the offset, for patching.
    pub fn emit_jump(&mut self, opcode: Opcode, span: Range<usize>) -> (pos: usize)
        requires
            can_extend(old(self).chunk.spans@, span, 5),
            old(self).chunk.code@.len() < usize::MAX,
        ensures
            final(self).chunk.code@ == old(self).chunk.code@ + seq![opcode_byte(opcode)] + le_i32(
                JUMP_PLACEHOLDER,
            ),
            final(self).chunk.spans@ == extend_runs(old(self).chunk.spans@, span, 5),
            final(self).chunk.constants@ == old(self).chunk.constants@,
            final(self).chunk.source_id == old(self).chunk.source_id,
            pos == old(self).chunk.code@.len() + 1,
            final(self).locals == old(self).locals,
            final(self).upvalues == old(self).upvalues,
            final(self).scope_depth == old(self).scope_depth,
            final(self).anon_stack_depth == old(self).anon_stack_depth,
            final(self).constant_pool == old(self).constant_pool,
            final(self).enclosing == old(self).enclosing,
    {
        let start = self.chunk.count();
        self.chunk.write_opcode_i32(opcode, JUMP_PLACEHOLDER, span);
        start + 1
    }
}

/// Local depths never decrease from the outermost local to the innermost,
/// and none is deeper than the current block.
pub open spec fn locals_ordered(ls: Seq<LocalView>, depth: u32) -> bool {
    &&& forall|i: int| 0 <= i < ls.len() ==> #[trigger] ls[i].depth <= depth
    &&& forall|i: int, j: int| 0 <= i < j < ls.len() ==> ls[i].depth <= ls[j].depth
}

/// Entering a block keeps the locals in order.
pub proof fn law_begin_scope_keeps_order(ls: Seq<LocalView>, depth: u32)
    requires
        locals_ordered(ls, depth),
        depth < u32::MAX,
    ensures
        locals_ordered(ls, (depth + 1) as u32),
{
}

/// Declaring a local in the current block keeps the locals in order.
pub proof fn law_declare_keeps_order(ls: Seq<LocalView>, depth: u32, l: LocalView)
    requires
        locals_ordered(ls, depth),
        l.depth == depth,
    ensures
        locals_ordered(ls.push(l), depth),
{
    let t = ls.push(l);
    assert forall|i: int| 0 <= i < t.len() implies #[trigger] t[i].depth <= depth by {
        if i < ls.len() {
            assert(t[i] == ls[i]);
        }
    }
    assert forall|i: int, j: int| 0 <= i < j < t.len() implies t[i].depth <= t[j].depth by {
        assert(t[i] == ls[i]);
        if j < ls.len() {
            assert(t[j] == ls[j]);
        }
    }
}

/// Ending a block keeps a prefix of the locals.
pub proof fn lemma_scope_kept_len(ls: Seq<LocalView>, depth: u32)
    ensures
        scope_kept(ls, depth) <= ls.len(),
    decreases ls.len(),
{
    if ls.len() > 0 && ls.last().depth == depth {
        lemma_scope_kept_len(ls.drop_last(), depth);
    }
}

/// Ending the block at `depth` leaves only locals of outer blocks, still in
/// order: every local of the block is gone.
pub proof fn law_end_scope_leaves_outer_locals(ls: Seq<LocalView>, depth: u32)
    requires
        locals_ordered(ls, depth),
        depth > 0,
    ensures
        scope_kept(ls, depth) <= ls.len(),
        forall|i: int| 0 <= i < scope_kept(ls, depth) ==> #[trigger] ls[i].depth < depth,
        locals_ordered(ls.take(scope_kept(ls, depth) as int), (depth - 1) as u32),
    decreases ls.len(),
{
    lemma_scope_kept_len(ls, depth);
    let k = scope_kept(ls, depth);
    if ls.len() == 0 {
    } else if ls.last().depth != depth {
        assert forall|i: int| 0 <= i < k implies #[trigger] ls[i].depth < depth by {
            if i < ls.len() - 1 {
                assert(ls[i].depth <= ls[ls.len() - 1].depth);
            }
        }
    } else {
        let rest = ls.drop_last();
        assert(locals_ordered(rest, depth)) by {
            assert forall|i: int| 0 <= i < rest.len() implies #[trigger] rest[i].depth <= depth by {
                assert(rest[i] == ls[i]);
            }
            assert forall|i: int, j: int| 0 <= i < j < rest.len() implies rest[i].depth
                <= rest[j].depth by {
                assert(rest[i] == ls[i]);
                assert(rest[j] == ls[j]);
            }
        }
        law_end_scope_leaves_outer_locals(rest, depth);
        assert forall|i: int| 0 <= i < k implies #[trigger] ls[i].depth < depth by {
            assert(rest[i] == ls[i]);
        }
        assert(rest.take(k as int) =~= ls.take(k as int));
    }
    let kept = ls.take(k as int);
    assert forall|i: int| 0 <= i < kept.len() implies #[trigger] kept[i].depth <= (depth - 1) as u32 by {
        assert(kept[i] == ls[i]);
    }
    assert forall|i: int, j: int| 0 <= i < j < kept.len() implies kept[i].depth
        <= kept[j].depth by {
        assert(kept[i] == ls[i]);
        assert(kept[j] == ls[j]);
    }
}

/// The locals declared in a block are exactly what ending it removes:
/// with outer locals `outer` (all shallower) and block locals `block`,
/// the locals `outer` remain.
pub proof fn law_end_scope_removes_block(
    outer: Seq<LocalView>,
    block: Seq<LocalView>,
    depth: u32,
)
    requires
        forall|i: int| 0 <= i < outer.len() ==> #[trigger] outer[i].depth < depth,
        forall|i: int| 0 <= i < block.len() ==> #[trigger] block[i].depth == depth,
    ensures
        scope_kept(outer + block, depth) == outer.len(),
    decreases block.len(),
{
    let all = outer + block;
    if block.len() == 0 {
        assert(all =~= outer);
        if outer.len() > 0 {
            assert(outer.last().depth < depth);
        }
    } else {
        assert(all.last() == block.last());
        assert(all.drop_last() =~= outer + block.drop_last());
        assert forall|i: int| 0 <= i < block.drop_last().len() implies #[trigger] block.drop_last()[i].depth
            == depth by {
            assert(block.drop_last()[i] == block[i]);
        }
        law_end_scope_removes_block(outer, block.drop_last(), depth);
    }
}

/// Ending a nested function right after beginning it gives back the
/// state from before, and hands out the fresh chunk and no upvalues.
pub proof fn law_function_round_trip<'a>(
    s0: FunctionScope<'a>,
    s1: FunctionScope<'a>,
    s2: FunctionScope<'a>,
    saved: u32,
    source_id: &'a str,
    chunk: Chunk<'a>,
    upvalues: Vec<CompilerUpvalue>,
)
    requires
        begins_function(s0, s1, saved, source_id),
        ends_function(s1, saved, s2, chunk, upvalues),
    ensures
        s2 == s0,
        chunk == s1.chunk,
        chunk.code@.len() == 0,
        upvalues@.len() == 0,
{
}

/// What the pool holds for a value is the index of an equal constant.
pub proof fn law_pooled_constant_is_in_chunk(pool: Seq<(Value, u16)>, constants: Seq<Value>, v: Value)
    requires
        pool_consistent(pool, constants),
    ensures
        pooled_index(pool, v) matches Some(i) ==> i < constants.len() && constants[i as int] == v,
    decreases pool.len(),
{
    if pool.len() > 0 && pool[0].0 != v {
        let rest = pool.drop_first();
        assert forall|k: int| 0 <= k < rest.len() implies (#[trigger] rest[k]).1 < constants.len()
            && constants[rest[k].1 as int] == rest[k].0 by {
            assert(rest[k] == pool[k + 1]);
        }
        law_pooled_constant_is_in_chunk(rest, constants, v);
    } else if pool.len() > 0 {
        assert(pool[0] == pool[0]);
    }
}

/// The pool finds what an earlier entry holds, else what was appended.
proof fn lemma_pooled_index_push(pool: Seq<(Value, u16)>, e: (Value, u16), v: Value)
    ensures
        pooled_index(pool.push(e), v) == match pooled_index(pool, v) {
            Some(i) => Some(i),
            None => if e.0 == v {
                Some(e.1)
            } else {
                None
            },
        },
    decreases pool.len(),
{
    let t = pool.push(e);
    if pool.len() == 0 {
        assert(t[0] == e);
        assert(t.drop_first() =~= Seq::<(Value, u16)>::empty());
        assert(pooled_index(Seq::<(Value, u16)>::empty(), v) is None);
    } else {
        assert(t[0] == pool[0]);
        assert(t.drop_first() =~= pool.drop_first().push(e));
        lemma_pooled_index_push(pool.drop_first(), e, v);
    }
}

/// Adding a new constant keeps the pool consistent with the chunk, and the
/// pool then gives the new index for it: loading the same constant again
/// reuses it.
pub proof fn law_pool_add_consistent(pool: Seq<(Value, u16)>, constants: Seq<Value>, v: Value)
    requires
        pool_consistent(pool, constants),
        pooled_index(pool, v) is None,
        constants.len() <= MAX_CONSTANTS,
    ensures
        pool_consistent(pool.push((v, constants.len() as u16)), constants.push(v)),
        pooled_index(pool.push((v, constants.len() as u16)), v) == Some(constants.len() as u16),
{
    let e = (v, constants.len() as u16);
    let t = pool.push(e);
    let c = constants.push(v);
    assert forall|k: int| 0 <= k < t.len() implies (#[trigger] t[k]).1 < c.len() && c[t[k].1 as int]
        == t[k].0 by {
        if k < pool.len() {
            assert(t[k] == pool[k]);
            assert(pool[k].1 < constants.len());
        }
    }
    lemma_pooled_index_push(pool, e, v);
}

/// A patched jump lands where the code ended when it was patched: its
/// offset reads back, and counted from the end of the offset bytes it
/// reaches that end, when the distance fits an `i32`.
pub proof fn law_patched_jump_lands_at_end(code: Seq<u8>, jump_pos: nat)
    requires
        jump_pos + 4 <= code.len(),
        code.len() - (jump_pos + 4) <= i32::MAX,
    ensures
        code_i32_at(
            patched_i32(code, jump_pos as int, jump_offset(code.len(), jump_pos)),
            jump_pos as int,
        ) == Some(jump_offset(code.len(), jump_pos)),
        jump_pos + 4 + jump_offset(code.len(), jump_pos) == code.len(),
        patched_i32(code, jump_pos as int, jump_offset(code.len(), jump_pos)).len() == code.len(),
{
    crate::chunk::law_patch_reads_back(code, jump_pos as int, jump_offset(code.len(), jump_pos));
}

} // verus!
