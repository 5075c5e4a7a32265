//! Bytecode chunks: opcodes, the run-length table of source spans, and
//! little-endian operand encoding.

use vstd::prelude::*;
use std::ops::Range;

verus! {
/// Opcodes of the Jsonnet virtual machine; each has a one-byte encoding.
#[derive(Debug, Clone, Copy, PartialEq, Eq, Structural)]
pub enum Opcode {
    LoadNull,
    LoadTrue,
    LoadFalse,
    LoadConst,
    LoadSelf,
    LoadSuper,
    LoadVar,
    CreateObject,
    ObjectInsert,
    FieldDef,
    Assert,
    ObjectIndex,
    ObjectMerge,
    CreateArray,
    ArrayIndex,
    ArrayConcat,
    ArrayLength,
    ArrayAppend,
    CreateFunction,
    Call,
    Return,
    BindDefault,
    Jump,
    JumpIfFalse,
    JumpIfTrue,
    LocalScope,
    Add,
    Sub,
    Mul,
    Div,
    Lt,
    Le,
    Gt,
    Ge,
    Eq,
    Ne,
    Shl,
    Shr,
    BitAnd,
    BitXor,
    BitOr,
    Mod,
    StringConcat,
    Neg,
    Pos,
    Not,
    BitNot,
    StdCall,
    Error,
    Import,
    Pop,
    Dup,
    Swap,
    StoreVar,
    Closure,
    GetUpvalue,
    SetUpvalue,
    CloseUpvalue,
}

/// The byte that encodes an opcode.
pub open spec fn opcode_byte(op: Opcode) -> u8 {
    match op {
        Opcode::LoadNull => 0u8,
        Opcode::LoadTrue => 1u8,
        Opcode::LoadFalse => 2u8,
        Opcode::LoadConst => 3u8,
        Opcode::LoadSelf => 4u8,
        Opcode::LoadSuper => 5u8,
        Opcode::LoadVar => 6u8,
        Opcode::CreateObject => 10u8,
        Opcode::ObjectInsert => 11u8,
        Opcode::FieldDef => 12u8,
        Opcode::Assert => 13u8,
        Opcode::ObjectIndex => 14u8,
        Opcode::ObjectMerge => 15u8,
        Opcode::CreateArray => 20u8,
        Opcode::ArrayIndex => 21u8,
        Opcode::ArrayConcat => 22u8,
        Opcode::ArrayLength => 23u8,
        Opcode::ArrayAppend => 24u8,
        Opcode::CreateFunction => 30u8,
        Opcode::Call => 31u8,
        Opcode::Return => 32u8,
        Opcode::BindDefault => 33u8,
        Opcode::Jump => 40u8,
        Opcode::JumpIfFalse => 41u8,
        Opcode::JumpIfTrue => 42u8,
        Opcode::LocalScope => 43u8,
        Opcode::Add => 50u8,
        Opcode::Sub => 51u8,
        Opcode::Mul => 52u8,
        Opcode::Div => 53u8,
        Opcode::Lt => 54u8,
        Opcode::Le => 55u8,
        Opcode::Gt => 56u8,
        Opcode::Ge => 57u8,
        Opcode::Eq => 58u8,
        Opcode::Ne => 59u8,
        Opcode::Shl => 60u8,
        Opcode::Shr => 61u8,
        Opcode::BitAnd => 62u8,
        Opcode::BitXor => 63u8,
        Opcode::BitOr => 64u8,
        Opcode::Mod => 65u8,
        Opcode::StringConcat => 67u8,
        Opcode::Neg => 70u8,
        Opcode::Pos => 71u8,
        Opcode::Not => 72u8,
        Opcode::BitNot => 73u8,
        Opcode::StdCall => 80u8,
        Opcode::Error => 81u8,
        Opcode::Import => 82u8,
        Opcode::Pop => 90u8,
        Opcode::Dup => 91u8,
        Opcode::Swap => 92u8,
        Opcode::StoreVar => 93u8,
        Opcode::Closure => 100u8,
        Opcode::GetUpvalue => 101u8,
        Opcode::SetUpvalue => 102u8,
        Opcode::CloseUpvalue => 103u8,
    }
}

/// The opcode that a byte encodes, if any.
pub open spec fn opcode_of_byte(b: u8) -> Option<Opcode> {
    match b {
        0u8 => Some(Opcode::LoadNull),
        1u8 => Some(Opcode::LoadTrue),
        2u8 => Some(Opcode::LoadFalse),
        3u8 => Some(Opcode::LoadConst),
        4u8 => Some(Opcode::LoadSelf),
        5u8 => Some(Opcode::LoadSuper),
        6u8 => Some(Opcode::LoadVar),
        10u8 => Some(Opcode::CreateObject),
        11u8 => Some(Opcode::ObjectInsert),
        12u8 => Some(Opcode::FieldDef),
        13u8 => Some(Opcode::Assert),
        14u8 => Some(Opcode::ObjectIndex),
        15u8 => Some(Opcode::ObjectMerge),
        20u8 => Some(Opcode::CreateArray),
        21u8 => Some(Opcode::ArrayIndex),
        22u8 => Some(Opcode::ArrayConcat),
        23u8 => Some(Opcode::ArrayLength),
        24u8 => Some(Opcode::ArrayAppend),
        30u8 => Some(Opcode::CreateFunction),
        31u8 => Some(Opcode::Call),
        32u8 => Some(Opcode::Return),
        33u8 => Some(Opcode::BindDefault),
        40u8 => Some(Opcode::Jump),
        41u8 => Some(Opcode::JumpIfFalse),
        42u8 => Some(Opcode::JumpIfTrue),
        43u8 => Some(Opcode::LocalScope),
        50u8 => Some(Opcode::Add),
        51u8 => Some(Opcode::Sub),
        52u8 => Some(Opcode::Mul),
        53u8 => Some(Opcode::Div),
        54u8 => Some(Opcode::Lt),
        55u8 => Some(Opcode::Le),
        56u8 => Some(Opcode::Gt),
        57u8 => Some(Opcode::Ge),
        58u8 => Some(Opcode::Eq),
        59u8 => Some(Opcode::Ne),
        60u8 => Some(Opcode::Shl),
        61u8 => Some(Opcode::Shr),
        62u8 => Some(Opcode::BitAnd),
        63u8 => Some(Opcode::BitXor),
        64u8 => Some(Opcode::BitOr),
        65u8 => Some(Opcode::Mod),
        67u8 => Some(Opcode::StringConcat),
        70u8 => Some(Opcode::Neg),
        71u8 => Some(Opcode::Pos),
        72u8 => Some(Opcode::Not),
        73u8 => Some(Opcode::BitNot),
        80u8 => Some(Opcode::StdCall),
        81u8 => Some(Opcode::Error),
        82u8 => Some(Opcode::Import),
        90u8 => Some(Opcode::Pop),
        91u8 => Some(Opcode::Dup),
        92u8 => Some(Opcode::Swap),
        93u8 => Some(Opcode::StoreVar),
        100u8 => Some(Opcode::Closure),
        101u8 => Some(Opcode::GetUpvalue),
        102u8 => Some(Opcode::SetUpvalue),
        103u8 => Some(Opcode::CloseUpvalue),
        _ => None,
    }
}

impl Opcode {
    /// Convert a byte to an opcode, returning `None` for bytes that encode none.
    pub fn from_u8(byte: u8) -> (res: Option<Opcode>)
        ensures
            res == opcode_of_byte(byte),
    {
        match byte {
            0 => Some(Opcode::LoadNull),
            1 => Some(Opcode::LoadTrue),
            2 => Some(Opcode::LoadFalse),
            3 => Some(Opcode::LoadConst),
            4 => Some(Opcode::LoadSelf),
            5 => Some(Opcode::LoadSuper),
            6 => Some(Opcode::LoadVar),
            10 => Some(Opcode::CreateObject),
            11 => Some(Opcode::ObjectInsert),
            12 => Some(Opcode::FieldDef),
            13 => Some(Opcode::Assert),
            14 => Some(Opcode::ObjectIndex),
            15 => Some(Opcode::ObjectMerge),
            20 => Some(Opcode::CreateArray),
            21 => Some(Opcode::ArrayIndex),
            22 => Some(Opcode::ArrayConcat),
            23 => Some(Opcode::ArrayLength),
            24 => Some(Opcode::ArrayAppend),
            30 => Some(Opcode::CreateFunction),
            31 => Some(Opcode::Call),
            32 => Some(Opcode::Return),
            33 => Some(Opcode::BindDefault),
            40 => Some(Opcode::Jump),
            41 => Some(Opcode::JumpIfFalse),
            42 => Some(Opcode::JumpIfTrue),
            43 => Some(Opcode::LocalScope),
            50 => Some(Opcode::Add),
            51 => Some(Opcode::Sub),
            52 => Some(Opcode::Mul),
            53 => Some(Opcode::Div),
            54 => Some(Opcode::Lt),
            55 => Some(Opcode::Le),
            56 => Some(Opcode::Gt),
            57 => Some(Opcode::Ge),
            58 => Some(Opcode::Eq),
            59 => Some(Opcode::Ne),
            60 => Some(Opcode::Shl),
            61 => Some(Opcode::Shr),
            62 => Some(Opcode::BitAnd),
            63 => Some(Opcode::BitXor),
            64 => Some(Opcode::BitOr),
            65 => Some(Opcode::Mod),
            67 => Some(Opcode::StringConcat),
            70 => Some(Opcode::Neg),
            71 => Some(Opcode::Pos),
            72 => Some(Opcode::Not),
            73 => Some(Opcode::BitNot),
            80 => Some(Opcode::StdCall),
            81 => Some(Opcode::Error),
            82 => Some(Opcode::Import),
            90 => Some(Opcode::Pop),
            91 => Some(Opcode::Dup),
            92 => Some(Opcode::Swap),
            93 => Some(Opcode::StoreVar),
            100 => Some(Opcode::Closure),
            101 => Some(Opcode::GetUpvalue),
            102 => Some(Opcode::SetUpvalue),
            103 => Some(Opcode::CloseUpvalue),
            _ => None,
        }
    }

    /// The byte that encodes this opcode.
    pub fn to_u8(self) -> (res: u8)
        ensures
            res == opcode_byte(self),
    {
        match self {
            Opcode::LoadNull => 0,
            Opcode::LoadTrue => 1,
            Opcode::LoadFalse => 2,
            Opcode::LoadConst => 3,
            Opcode::LoadSelf => 4,
            Opcode::LoadSuper => 5,
            Opcode::LoadVar => 6,
            Opcode::CreateObject => 10,
            Opcode::ObjectInsert => 11,
            Opcode::FieldDef => 12,
            Opcode::Assert => 13,
            Opcode::ObjectIndex => 14,
            Opcode::ObjectMerge => 15,
            Opcode::CreateArray => 20,
            Opcode::ArrayIndex => 21,
            Opcode::ArrayConcat => 22,
            Opcode::ArrayLength => 23,
            Opcode::ArrayAppend => 24,
            Opcode::CreateFunction => 30,
            Opcode::Call => 31,
            Opcode::Return => 32,
            Opcode::BindDefault => 33,
            Opcode::Jump => 40,
            Opcode::JumpIfFalse => 41,
            Opcode::JumpIfTrue => 42,
            Opcode::LocalScope => 43,
            Opcode::Add => 50,
            Opcode::Sub => 51,
            Opcode::Mul => 52,
            Opcode::Div => 53,
            Opcode::Lt => 54,
            Opcode::Le => 55,
            Opcode::Gt => 56,
            Opcode::Ge => 57,
            Opcode::Eq => 58,
            Opcode::Ne => 59,
            Opcode::Shl => 60,
            Opcode::Shr => 61,
            Opcode::BitAnd => 62,
            Opcode::BitXor => 63,
            Opcode::BitOr => 64,
            Opcode::Mod => 65,
            Opcode::StringConcat => 67,
            Opcode::Neg => 70,
            Opcode::Pos => 71,
            Opcode::Not => 72,
            Opcode::BitNot => 73,
            Opcode::StdCall => 80,
            Opcode::Error => 81,
            Opcode::Import => 82,
            Opcode::Pop => 90,
            Opcode::Dup => 91,
            Opcode::Swap => 92,
            Opcode::StoreVar => 93,
            Opcode::Closure => 100,
            Opcode::GetUpvalue => 101,
            Opcode::SetUpvalue => 102,
            Opcode::CloseUpvalue => 103,
        }
    }
}

/// Decoding the byte of an opcode gives the opcode back.
pub proof fn law_opcode_byte_roundtrip(op: Opcode)
    ensures
        opcode_of_byte(opcode_byte(op)) == Some(op),
{
}

/// A byte that decodes to an opcode is that opcode's byte.
pub proof fn law_opcode_decode_unique(b: u8)
    ensures
        opcode_of_byte(b) matches Some(op) ==> opcode_byte(op) == b,
{
}

/// How an object field is shown: `:`, `::` or `:::`.
#[derive(Debug, Clone, Copy, PartialEq, Eq, Structural)]
pub enum FieldVisibility {
    Visible,
    Hidden,
    ForceVisible,
}

/// The byte that encodes a field visibility.
pub open spec fn visibility_byte(v: FieldVisibility) -> u8 {
    match v {
        FieldVisibility::Visible => 0u8,
        FieldVisibility::Hidden => 1u8,
        FieldVisibility::ForceVisible => 2u8,
    }
}

impl FieldVisibility {
    /// The byte that encodes this visibility.
    pub fn to_u8(self) -> (b: u8)
        ensures
            b == visibility_byte(self),
    {
        match self {
            FieldVisibility::Visible => 0,
            FieldVisibility::Hidden => 1,
            FieldVisibility::ForceVisible => 2,
        }
    }
}

#[verifier::external_type_specification]
#[verifier::external_body]
pub struct ExDefaultKey(slotmap::DefaultKey);

/// Key of a heap object of the virtual machine.
pub type ObjectIndex = slotmap::DefaultKey;

/// Key of an interned string of the virtual machine.
pub type StringIndex = slotmap::DefaultKey;

/// Key of a heap array.
pub type ArrayIndex = slotmap::DefaultKey;

/// Key of a compiled function.
pub type FunctionIndex = slotmap::DefaultKey;

/// Key of a closure.
pub type ClosureIndex = slotmap::DefaultKey;

/// Key of an import.
pub type ImportIndex = slotmap::DefaultKey;

/// Key of an upvalue.
pub type UpvalueIndex = slotmap::DefaultKey;

/// A value of the virtual machine. A number is held as the bit pattern of
/// its IEEE-754 double.
#[derive(Debug, Clone, Copy, PartialEq, Eq, Hash)]
pub enum Value {
    Null,
    Boolean(bool),
    Number(u64),
    String(StringIndex),
    Object(ObjectIndex),
    Array(ArrayIndex),
    Function(FunctionIndex),
    Closure(ClosureIndex),
    Import(ImportIndex),
}

/// Calls `==` on slotmap keys. `DefaultKey` derives `PartialEq` over its
/// slot index and version, so two keys compare equal exactly when they are
/// the same key.
#[verifier::external_body]
pub(crate) fn key_eq(a: slotmap::DefaultKey, b: slotmap::DefaultKey) -> (r: bool)
    ensures
        r == (a == b),
{
    a == b
}

/// Whether two values are the same: the same variant with the same payload
/// (numbers by their bit patterns).
pub fn same_value(a: &Value, b: &Value) -> (r: bool)
    ensures
        r == (*a == *b),
{
    match (a, b) {
        (Value::Null, Value::Null) => true,
        (Value::Boolean(x), Value::Boolean(y)) => *x == *y,
        (Value::Number(x), Value::Number(y)) => *x == *y,
        (Value::String(x), Value::String(y)) => key_eq(*x, *y),
        (Value::Object(x), Value::Object(y)) => key_eq(*x, *y),
        (Value::Array(x), Value::Array(y)) => key_eq(*x, *y),
        (Value::Function(x), Value::Function(y)) => key_eq(*x, *y),
        (Value::Closure(x), Value::Closure(y)) => key_eq(*x, *y),
        (Value::Import(x), Value::Import(y)) => key_eq(*x, *y),
        _ => false,
    }
}

/// One run of the span table: `repeated_values` consecutive code bytes that
/// share a source span.
#[derive(Debug, PartialEq, Eq)]
pub struct SpanRunLength {
    pub span: Range<usize>,
    pub repeated_values: usize,
}

impl Clone for SpanRunLength {
    fn clone(&self) -> (r: Self)
        ensures
            r == *self,
    {
        SpanRunLength { span: copy_range(&self.span), repeated_values: self.repeated_values }
    }
}

impl SpanRunLength {
    pub fn new(span: Range<usize>, repeated_values: usize) -> (r: Self)
        ensures
            r.span == span,
            r.repeated_values == repeated_values,
    {
        SpanRunLength { span, repeated_values }
    }
}

/// A copy of a range.
pub fn copy_range(r: &Range<usize>) -> (c: Range<usize>)
    ensures
        c == *r,
{
    Range { start: r.start, end: r.end }
}

/// The span of each code byte that a run stands for.
pub open spec fn run_spans(r: SpanRunLength) -> Seq<Range<usize>> {
    Seq::new(r.repeated_values as nat, |_i: int| r.span)
}

/// The span of each code byte, in order, that a span table stands for.
pub open spec fn expand(spans: Seq<SpanRunLength>) -> Seq<Range<usize>>
    decreases spans.len(),
{
    if spans.len() == 0 {
        Seq::empty()
    } else {
        run_spans(spans[0]) + expand(spans.drop_first())
    }
}

/// The span table after `n` more bytes with `span` were written: the last
/// run grows when it has the same span, else a run is appended.
pub open spec fn extend_runs(spans: Seq<SpanRunLength>, span: Range<usize>, n: nat) -> Seq<
    SpanRunLength,
> {
    if spans.len() > 0 && spans.last().span == span {
        spans.update(
            spans.len() - 1,
            (SpanRunLength { span, repeated_values: (spans.last().repeated_values + n) as usize }),
        )
    } else {
        spans.push((SpanRunLength { span, repeated_values: n as usize }))
    }
}

/// Writing `n` more bytes with `span` keeps every run count within a `usize`.
pub open spec fn can_extend(spans: Seq<SpanRunLength>, span: Range<usize>, n: nat) -> bool {
    spans.len() > 0 && spans.last().span == span ==> spans.last().repeated_values + n <= usize::MAX
}

/// `n` copies of a span.
pub open spec fn repeat_span(span: Range<usize>, n: nat) -> Seq<Range<usize>> {
    Seq::new(n, |_i: int| span)
}

/// Expanding two tables one after the other expands their concatenation.
pub proof fn lemma_expand_concat(a: Seq<SpanRunLength>, b: Seq<SpanRunLength>)
    ensures
        expand(a + b) == expand(a) + expand(b),
    decreases a.len(),
{
    if a.len() == 0 {
        assert(a + b =~= b);
        assert(expand(a) + expand(b) =~= expand(b));
    } else {
        assert((a + b).drop_first() =~= a.drop_first() + b);
        assert((a + b)[0] == a[0]);
        lemma_expand_concat(a.drop_first(), b);
        assert(expand(a + b) =~= expand(a) + expand(b));
    }
}

/// A table of one run expands to that run.
pub proof fn lemma_expand_single(r: SpanRunLength)
    ensures
        expand(seq![r]) == run_spans(r),
{
    let t = seq![r];
    assert(t.drop_first() =~= Seq::<SpanRunLength>::empty());
    assert(t[0] == r);
    assert(expand(t.drop_first()) == Seq::<Range<usize>>::empty());
    assert(expand(t) == run_spans(t[0]) + expand(t.drop_first()));
    assert(expand(t) =~= run_spans(r));
}

/// A table expands to its first `k` runs followed by the rest.
pub proof fn lemma_expand_split(s: Seq<SpanRunLength>, k: int)
    requires
        0 <= k <= s.len(),
    ensures
        expand(s) == expand(s.take(k)) + expand(s.skip(k)),
{
    assert(s =~= s.take(k) + s.skip(k));
    lemma_expand_concat(s.take(k), s.skip(k));
}

/// Writing `n` bytes with a span adds `n` copies of it to the expansion.
pub proof fn lemma_extend_runs_expand(s: Seq<SpanRunLength>, span: Range<usize>, n: nat)
    requires
        n > 0,
        can_extend(s, span, n),
        n <= usize::MAX,
    ensures
        expand(extend_runs(s, span, n)) == expand(s) + repeat_span(span, n),
{
    let new_run = SpanRunLength { span, repeated_values: n as usize };
    if s.len() > 0 && s.last().span == span {
        let pre = s.drop_last();
        let grown = SpanRunLength { span, repeated_values: (s.last().repeated_values + n) as usize };
        assert(s =~= pre + seq![s.last()]);
        assert(extend_runs(s, span, n) =~= pre + seq![grown]);
        lemma_expand_concat(pre, seq![s.last()]);
        lemma_expand_concat(pre, seq![grown]);
        lemma_expand_single(s.last());
        lemma_expand_single(grown);
        assert(run_spans(grown) =~= run_spans(s.last()) + repeat_span(span, n));
        assert(expand(extend_runs(s, span, n)) =~= expand(s) + repeat_span(span, n));
    } else {
        assert(extend_runs(s, span, n) =~= s + seq![new_run]);
        lemma_expand_concat(s, seq![new_run]);
        lemma_expand_single(new_run);
        assert(run_spans(new_run) =~= repeat_span(span, n));
    }
}

/// Two writes with one span extend the table as one write of both counts.
pub proof fn lemma_extend_runs_twice(s: Seq<SpanRunLength>, span: Range<usize>, a: nat, b: nat)
    requires
        a > 0,
        a + b <= usize::MAX,
        can_extend(s, span, a + b),
    ensures
        extend_runs(extend_runs(s, span, a), span, b) == extend_runs(s, span, a + b),
        can_extend(extend_runs(s, span, a), span, b),
{
    let t = extend_runs(s, span, a);
    assert(t.len() > 0 && t.last().span == span);
    assert(extend_runs(t, span, b) =~= extend_runs(s, span, a + b));
}

/// The span of code byte `index`, if the table covers it.
pub fn lookup_span(spans: &Vec<SpanRunLength>, index: usize) -> (r: Option<&Range<usize>>)
    ensures
        match r {
            Some(s) => index < expand(spans@).len() && *s == expand(spans@)[index as int],
            None => index >= expand(spans@).len(),
        },
{
    let mut current: usize = 0;
    let mut k: usize = 0;
    while k < spans.len()
        invariant
            k <= spans@.len(),
            current <= index,
            current == expand(spans@.take(k as int)).len(),
        decreases spans.len() - k,
    {
        let rv = spans[k].repeated_values;
        proof {
            let s = spans@;
            lemma_expand_split(s, k as int);
            assert(s.skip(k as int)[0] == s[k as int]);
            assert(s.skip(k as int).drop_first() =~= s.skip(k + 1));
            assert(s.take(k + 1) =~= s.take(k as int) + seq![s[k as int]]);
            lemma_expand_concat(s.take(k as int), seq![s[k as int]]);
            lemma_expand_single(s[k as int]);
        }
        if index - current < rv {
            return Some(&spans[k].span);
        }
        current = current + rv;
        k += 1;
    }
    proof {
        lemma_expand_split(spans@, spans@.len() as int);
        assert(spans@.skip(spans@.len() as int) =~= Seq::<SpanRunLength>::empty());
    }
    None
}

/// The little-endian bytes of a `u16`.
pub open spec fn le_u16(v: u16) -> Seq<u8> {
    seq![(v % 256) as u8, (v / 256) as u8]
}

/// The little-endian bytes of a `u32`.
pub open spec fn le_u32(v: u32) -> Seq<u8> {
    seq![(v % 256) as u8, ((v / 256) % 256) as u8, ((v / 65536) % 256) as u8, (v / 16777216) as u8]
}

/// The little-endian bytes of an `i32`: those of its two's-complement bits.
pub open spec fn le_i32(v: i32) -> Seq<u8> {
    le_u32(v as u32)
}

/// The `u16` of two little-endian bytes.
pub open spec fn u16_of(b0: u8, b1: u8) -> u16 {
    (b0 + 256 * b1) as u16
}

/// The `u32` of four little-endian bytes.
pub open spec fn u32_of(b0: u8, b1: u8, b2: u8, b3: u8) -> u32 {
    (b0 + 256 * b1 + 65536 * b2 + 16777216 * b3) as u32
}

/// The byte at `i`, if there is one.
pub open spec fn code_u8_at(code: Seq<u8>, i: int) -> Option<u8> {
    if 0 <= i < code.len() {
        Some(code[i])
    } else {
        None
    }
}

/// The little-endian `u16` at `i`, if both bytes are there.
pub open spec fn code_u16_at(code: Seq<u8>, i: int) -> Option<u16> {
    if 0 <= i && i + 1 < code.len() {
        Some(u16_of(code[i], code[i + 1]))
    } else {
        None
    }
}

/// The little-endian `u32` at `i`, if all four bytes are there.
pub open spec fn code_u32_at(code: Seq<u8>, i: int) -> Option<u32> {
    if 0 <= i && i + 3 < code.len() {
        Some(u32_of(code[i], code[i + 1], code[i + 2], code[i + 3]))
    } else {
        None
    }
}

/// The little-endian `i32` at `i`, if all four bytes are there.
pub open spec fn code_i32_at(code: Seq<u8>, i: int) -> Option<i32> {
    match code_u32_at(code, i) {
        Some(u) => Some(u as i32),
        None => None,
    }
}

/// The opcode at `i`, if the byte is there and encodes one.
pub open spec fn code_opcode_at(code: Seq<u8>, i: int) -> Option<Opcode> {
    if 0 <= i < code.len() {
        opcode_of_byte(code[i])
    } else {
        None
    }
}

/// `code` with the four bytes from `pos` replaced by those of `v`, when they fit.
pub open spec fn patched_i32(code: Seq<u8>, pos: int, v: i32) -> Seq<u8> {
    if 0 <= pos && pos + 4 <= code.len() {
        code.take(pos) + le_i32(v) + code.skip(pos + 4)
    } else {
        code
    }
}

/// Reading a `u16` back from its little-endian bytes gives it back.
pub proof fn lemma_u16_roundtrip(v: u16)
    ensures
        u16_of(le_u16(v)[0], le_u16(v)[1]) == v,
{
}

/// Reading a `u32` back from its little-endian bytes gives it back.
pub proof fn lemma_u32_roundtrip(v: u32)
    ensures
        u32_of(le_u32(v)[0], le_u32(v)[1], le_u32(v)[2], le_u32(v)[3]) == v,
{
    assert((v % 256) + 256 * ((v / 256) % 256) + 65536 * ((v / 65536) % 256) + 16777216 * (v
        / 16777216) == v) by (bit_vector);
}

/// Reading an `i32` back from its little-endian bytes gives it back.
pub proof fn lemma_i32_roundtrip(v: i32)
    ensures
        (u32_of(le_i32(v)[0], le_i32(v)[1], le_i32(v)[2], le_i32(v)[3]) as i32) == v,
{
    lemma_u32_roundtrip(v as u32);
    assert((v as u32) as i32 == v) by (bit_vector);
}

pub(crate) fn le_bytes_u16(v: u16) -> (r: (u8, u8))
    ensures
        seq![r.0, r.1] == le_u16(v),
{
    ((v % 256) as u8, (v / 256) as u8)
}

fn le_bytes_u32(v: u32) -> (r: (u8, u8, u8, u8))
    ensures
        seq![r.0, r.1, r.2, r.3] == le_u32(v),
{
    ((v % 256) as u8, ((v / 256) % 256) as u8, ((v / 65536) % 256) as u8, (v / 16777216) as u8)
}

/// The byte at `index`, if any.
pub fn code_read_u8(code: &Vec<u8>, index: usize) -> (r: Option<u8>)
    ensures
        r == code_u8_at(code@, index as int),
{
    if index < code.len() {
        Some(code[index])
    } else {
        None
    }
}

/// The little-endian `u16` at `index`, if both bytes are there.
pub fn code_read_u16(code: &Vec<u8>, index: usize) -> (r: Option<u16>)
    ensures
        r == code_u16_at(code@, index as int),
{
    if index < code.len() && code.len() - index > 1 {
        let b0 = code[index] as u16;
        let b1 = code[index + 1] as u16;
        Some(b0 + 256 * b1)
    } else {
        None
    }
}

/// The little-endian `u32` at `index`, if all four bytes are there.
pub fn code_read_u32(code: &Vec<u8>, index: usize) -> (r: Option<u32>)
    ensures
        r == code_u32_at(code@, index as int),
{
    if index < code.len() && code.len() - index > 3 {
        let b0 = code[index] as u32;
        let b1 = code[index + 1] as u32;
        let b2 = code[index + 2] as u32;
        let b3 = code[index + 3] as u32;
        Some(b0 + 256 * b1 + 65536 * b2 + 16777216 * b3)
    } else {
        None
    }
}

/// The little-endian `i32` at `index`, if all four bytes are there.
pub fn code_read_i32(code: &Vec<u8>, index: usize) -> (r: Option<i32>)
    ensures
        r == code_i32_at(code@, index as int),
{
    match code_read_u32(code, index) {
        Some(u) => Some(u as i32),
        None => None,
    }
}

/// The opcode at `index`, if the byte is there and encodes one.
pub fn code_read_opcode(code: &Vec<u8>, index: usize) -> (r: Option<Opcode>)
    ensures
        r == code_opcode_at(code@, index as int),
{
    if index < code.len() {
        Opcode::from_u8(code[index])
    } else {
        None
    }
}


/// The span of code byte `i`, if the table covers it.
pub open spec fn span_at(spans: Seq<SpanRunLength>, i: int) -> Option<Range<usize>> {
    if 0 <= i < expand(spans).len() {
        Some(expand(spans)[i])
    } else {
        None
    }
}

/// The source span to highlight for an error over the code bytes
/// `code_start..code_end`: from the span of the first byte to that of the
/// last, whichever of them is known, else the empty span at 0.
pub open spec fn error_span_of(spans: Seq<SpanRunLength>, code_start: usize, code_end: usize) -> Range<
    usize,
> {
    let last = if code_end == 0 {
        0
    } else {
        code_end - 1
    };
    match (span_at(spans, code_start as int), span_at(spans, last)) {
        (Some(a), Some(b)) => Range { start: a.start, end: b.end },
        (Some(a), None) => a,
        (None, Some(b)) => b,
        (None, None) => Range { start: 0, end: 0 },
    }
}

/// The number of bytes of an instruction, given its opcode and, for a
/// closure, the upvalue count byte (when the code holds it).
pub open spec fn instruction_size(op: Opcode, upvalue_count: Option<u8>) -> nat {
    match op {
        Opcode::LoadConst | Opcode::Import | Opcode::LoadVar | Opcode::CreateObject
        | Opcode::CreateArray | Opcode::Call | Opcode::BindDefault | Opcode::GetUpvalue
        | Opcode::SetUpvalue => 3,
        Opcode::FieldDef | Opcode::StdCall => 4,
        Opcode::CreateFunction => 6,
        Opcode::Jump | Opcode::JumpIfFalse | Opcode::JumpIfTrue => 5,
        Opcode::LocalScope => 2,
        Opcode::Closure => match upvalue_count {
            Some(c) => (4 + 3 * c) as nat,
            None => 4,
        },
        _ => 1,
    }
}

/// The instructions of `code` from offset `ip` on, as (offset, opcode, size):
/// a byte that encodes no opcode is skipped.
pub open spec fn decode_from(code: Seq<u8>, ip: nat) -> Seq<(nat, Opcode, nat)>
    decreases (if ip < code.len() {
        (code.len() - ip) as nat
    } else {
        0nat
    }),
{
    if ip >= code.len() {
        Seq::empty()
    } else {
        match opcode_of_byte(code[ip as int]) {
            Some(op) => {
                let size = instruction_size(op, code_u8_at(code, ip + 3int));
                seq![(ip, op, size)] + decode_from(code, ip + size)
            },
            None => decode_from(code, ip + 1),
        }
    }
}

/// One decoded instruction: where it starts, its opcode and its length in bytes.
#[derive(Debug, Clone, Copy, PartialEq, Eq, Structural)]
pub struct Instruction {
    pub offset: usize,
    pub opcode: Opcode,
    pub size: usize,
}

/// The value of a decoded instruction.
pub open spec fn instruction_view(i: Instruction) -> (nat, Opcode, nat) {
    (i.offset as nat, i.opcode, i.size as nat)
}

/// The instructions of `code`, in order.
pub fn decode_instructions(code: &Vec<u8>) -> (r: Vec<Instruction>)
    ensures
        r@.map_values(|i: Instruction| instruction_view(i)) == decode_from(code@, 0),
{
    let mut r: Vec<Instruction> = Vec::new();
    let mut ip: usize = 0;
    while ip < code.len()
        invariant
            ip <= code@.len(),
            decode_from(code@, 0) == r@.map_values(|i: Instruction| instruction_view(i))
                + decode_from(code@, ip as nat),
        decreases code.len() - ip,
    {
        let ghost before = r@;
        match Opcode::from_u8(code[ip]) {
            Some(op) => {
                let count: Option<u8> = if code.len() - ip > 3 {
                    Some(code[ip + 3])
                } else {
                    None
                };
                let size: usize = match op {
                    Opcode::LoadConst | Opcode::Import | Opcode::LoadVar | Opcode::CreateObject
                    | Opcode::CreateArray | Opcode::Call | Opcode::BindDefault
                    | Opcode::GetUpvalue | Opcode::SetUpvalue => 3,
                    Opcode::FieldDef | Opcode::StdCall => 4,
                    Opcode::CreateFunction => 6,
                    Opcode::Jump | Opcode::JumpIfFalse | Opcode::JumpIfTrue => 5,
                    Opcode::LocalScope => 2,
                    Opcode::Closure => match count {
                        Some(c) => 4 + 3 * (c as usize),
                        None => 4,
                    },
                    _ => 1,
                };
                proof {
                    assert(count == code_u8_at(code@, ip + 3));
                    assert(size == instruction_size(op, code_u8_at(code@, ip + 3)));
                }
                r.push(Instruction { offset: ip, opcode: op, size });
                let next: usize = if code.len() - ip <= size {
                    code.len()
                } else {
                    ip + size
                };
                proof {
                    let tail = decode_from(code@, (ip + size) as nat);
                    assert(decode_from(code@, ip as nat) == seq![(ip as nat, op, size as nat)]
                        + tail);
                    assert(decode_from(code@, next as nat) == tail);
                    assert(r@.map_values(|i: Instruction| instruction_view(i)) =~= before.map_values(
                        |i: Instruction| instruction_view(i),
                    ).push((ip as nat, op, size as nat)));
                    assert(decode_from(code@, 0) =~= r@.map_values(
                        |i: Instruction| instruction_view(i),
                    ) + decode_from(code@, next as nat));
                }
                ip = next;
            },
            None => {
                ip = ip + 1;
            },
        }
    }
    proof {
        assert(decode_from(code@, ip as nat) == Seq::<(nat, Opcode, nat)>::empty());
        assert(r@.map_values(|i: Instruction| instruction_view(i)) + Seq::<(nat, Opcode, nat)>::empty()
            =~= r@.map_values(|i: Instruction| instruction_view(i)));
    }
    r
}

/// A chunk of bytecode: the code, the source span of each code byte (run-length
/// encoded) and the constants that the code refers to.
#[derive(Debug, Clone, PartialEq)]
pub struct Chunk<'a> {
    pub source_id: &'a str,
    pub code: Vec<u8>,
    pub spans: Vec<SpanRunLength>,
    pub constants: Vec<Value>,
}

/// A chunk that owns the name of its source.
#[derive(Debug, Clone, PartialEq)]
pub struct OwnedChunk {
    pub source_id: String,
    pub code: Vec<u8>,
    pub spans: Vec<SpanRunLength>,
    pub constants: Vec<Value>,
}

impl<'a> Chunk<'a> {
    /// An empty chunk for a source.
    pub fn new(source_id: &'a str) -> (c: Self)
        ensures
            c.source_id == source_id,
            c.code@.len() == 0,
            c.spans@.len() == 0,
            c.constants@.len() == 0,
    {
        Chunk { source_id, code: Vec::new(), spans: Vec::new(), constants: Vec::new() }
    }

    /// Appends a code byte that came from `span`. On a chunk whose span
    /// table stands for its code, the table keeps standing for it (and in
    /// normal form when it was), and the byte's span is recorded at its index.
    pub fn write(&mut self, byte: u8, span: Range<usize>)
        requires
            can_extend(old(self).spans@, span, 1) || expand(old(self).spans@).len() == old(
                self,
            ).code@.len(),
        ensures
            final(self).code@ == old(self).code@.push(byte),
            final(self).spans@ == extend_runs(old(self).spans@, span, 1),
            final(self).source_id == old(self).source_id,
            final(self).constants@ == old(self).constants@,
            expand(old(self).spans@).len() == old(self).code@.len() ==> {
                &&& expand(final(self).spans@).len() == final(self).code@.len()
                &&& span_at(final(self).spans@, old(self).code@.len() as int) == Some(span)
                &&& runs_well_formed(old(self).spans@) ==> runs_well_formed(final(self).spans@)
            },
    {
        self.code.push(byte);
        let _count = self.code.len();
        proof {
            if expand(old(self).spans@).len() == old(self).code@.len() {
                law_table_can_grow(old(self).spans@, span, 1);
                law_write_records_span(old(self).spans@, span);
                if runs_well_formed(old(self).spans@) {
                    law_write_keeps_table(old(self).spans@, span);
                }
            }
        }
        let n = self.spans.len();
        if n > 0 && self.spans[n - 1].span.start == span.start && self.spans[n - 1].span.end
            == span.end {
            let ghost before = self.spans@;
            let last = self.spans.pop().unwrap();
            let grown = SpanRunLength { span, repeated_values: last.repeated_values + 1 };
            self.spans.push(grown);
            proof {
                assert(self.spans@ =~= extend_runs(before, span, 1));
            }
        } else {
            self.spans.push(SpanRunLength::new(span, 1));
        }
    }

    /// Appends bytes that all came from `span`.
    pub(crate) fn write_all(&mut self, bytes: Vec<u8>, span: Range<usize>)
        requires
            bytes@.len() > 0,
            can_extend(old(self).spans@, span, bytes@.len()),
        ensures
            final(self).code@ == old(self).code@ + bytes@,
            final(self).spans@ == extend_runs(old(self).spans@, span, bytes@.len()),
            final(self).source_id == old(self).source_id,
            final(self).constants@ == old(self).constants@,
    {
        let mut i: usize = 0;
        while i < bytes.len()
            invariant
                i <= bytes@.len(),
                bytes@.len() > 0,
                can_extend(old(self).spans@, span, bytes@.len()),
                self.code@ == old(self).code@ + bytes@.take(i as int),
                i == 0 ==> self.spans@ == old(self).spans@,
                i > 0 ==> self.spans@ == extend_runs(old(self).spans@, span, i as nat),
                self.source_id == old(self).source_id,
                self.constants@ == old(self).constants@,
            decreases bytes.len() - i,
        {
            proof {
                if i > 0 {
                    lemma_extend_runs_twice(
                        old(self).spans@,
                        span,
                        i as nat,
                        (bytes@.len() - i) as nat,
                    );
                }
            }
            let ghost before = self.spans@;
            self.write(bytes[i], copy_range(&span));
            proof {
                assert(bytes@.take(i + 1) =~= bytes@.take(i as int).push(bytes@[i as int]));
                if i > 0 {
                    lemma_extend_runs_twice(old(self).spans@, span, i as nat, 1);
                }
            }
            i += 1;
        }
        proof {
            assert(bytes@.take(bytes@.len() as int) =~= bytes@);
        }
    }

    /// Appends a constant and gives its index.
    pub fn add_constant(&mut self, value: Value) -> (index: usize)
        ensures
            final(self).constants@ == old(self).constants@.push(value),
            index == old(self).constants@.len(),
            final(self).code@ == old(self).code@,
            final(self).spans@ == old(self).spans@,
            final(self).source_id == old(self).source_id,
    {
        self.constants.push(value);
        self.constants.len() - 1
    }

    /// The source span of code byte `instruction_index`, if known.
    pub fn get_span(&self, instruction_index: usize) -> (r: Option<&Range<usize>>)
        ensures
            match r {
                Some(s) => span_at(self.spans@, instruction_index as int) == Some(*s),
                None => span_at(self.spans@, instruction_index as int) is None,
            },
    {
        lookup_span(&self.spans, instruction_index)
    }

    /// The source span that an error over a range of code bytes points at.
    pub fn error_span(&self, code_range: &Range<usize>) -> (r: Range<usize>)
        ensures
            r == error_span_of(self.spans@, code_range.start, code_range.end),
    {
        let last: usize = if code_range.end == 0 {
            0
        } else {
            code_range.end - 1
        };
        let a = lookup_span(&self.spans, code_range.start);
        let b = lookup_span(&self.spans, last);
        match (a, b) {
            (Some(x), Some(y)) => Range { start: x.start, end: y.end },
            (Some(x), None) => copy_range(x),
            (None, Some(y)) => copy_range(y),
            (None, None) => Range { start: 0, end: 0 },
        }
    }

    /// The number of code bytes.
    pub fn count(&self) -> (n: usize)
        ensures
            n == self.code@.len(),
    {
        self.code.len()
    }

    /// Whether the chunk holds no code.
    pub fn is_empty(&self) -> (b: bool)
        ensures
            b == (self.code@.len() == 0),
    {
        self.code.len() == 0
    }

    /// Appends an opcode without operands.
    pub fn write_opcode(&mut self, opcode: Opcode, span: Range<usize>)
        requires
            can_extend(old(self).spans@, span, 1),
        ensures
            final(self).code@ == old(self).code@.push(opcode_byte(opcode)),
            final(self).spans@ == extend_runs(old(self).spans@, span, 1),
            final(self).source_id == old(self).source_id,
            final(self).constants@ == old(self).constants@,
    {
        self.write(opcode.to_u8(), span);
    }

    /// Appends an opcode and a byte operand.
    pub fn write_opcode_u8(&mut self, opcode: Opcode, operand: u8, span: Range<usize>)
        requires
            can_extend(old(self).spans@, span, 2),
        ensures
            final(self).code@ == old(self).code@ + seq![opcode_byte(opcode), operand],
            final(self).spans@ == extend_runs(old(self).spans@, span, 2),
            final(self).source_id == old(self).source_id,
            final(self).constants@ == old(self).constants@,
    {
        let bytes = vec![opcode.to_u8(), operand];
        proof {
            assert(bytes@ =~= seq![opcode_byte(opcode), operand]);
        }
        self.write_all(bytes, span);
    }

    /// Appends an opcode and a little-endian `u16` operand. On a chunk whose
    /// span table stands for its code, the table keeps standing for it.
    pub fn write_opcode_u16(&mut self, opcode: Opcode, operand: u16, span: Range<usize>)
        requires
            can_extend(old(self).spans@, span, 3) || expand(old(self).spans@).len() == old(
                self,
            ).code@.len(),
        ensures
            final(self).code@ == old(self).code@ + seq![opcode_byte(opcode)] + le_u16(operand),
            final(self).spans@ == extend_runs(old(self).spans@, span, 3),
            final(self).source_id == old(self).source_id,
            final(self).constants@ == old(self).constants@,
            expand(old(self).spans@).len() == old(self).code@.len() ==> expand(
                final(self).spans@,
            ).len() == final(self).code@.len(),
    {
        let (b0, b1) = le_bytes_u16(operand);
        let ghost s0 = self.spans@;
        proof {
            if can_extend(s0, span, 3) {
                lemma_extend_runs_twice(s0, span, 1, 2);
                lemma_extend_runs_twice(s0, span, 1, 1);
                lemma_extend_runs_twice(s0, span, 2, 1);
            }
        }
        self.write(opcode.to_u8(), copy_range(&span));
        self.write(b0, copy_range(&span));
        self.write(b1, copy_range(&span));
        let _count = self.code.len();
        proof {
            if !can_extend(s0, span, 3) {
                law_table_can_grow(s0, span, 3);
            }
            lemma_extend_runs_twice(s0, span, 1, 1);
            lemma_extend_runs_twice(s0, span, 2, 1);
            assert(self.code@ =~= old(self).code@ + seq![opcode_byte(opcode)] + le_u16(operand));
        }
    }

    /// Appends an opcode and a little-endian `u32` operand.
    pub fn write_opcode_u32(&mut self, opcode: Opcode, operand: u32, span: Range<usize>)
        requires
            can_extend(old(self).spans@, span, 5),
        ensures
            final(self).code@ == old(self).code@ + seq![opcode_byte(opcode)] + le_u32(operand),
            final(self).spans@ == extend_runs(old(self).spans@, span, 5),
            final(self).source_id == old(self).source_id,
            final(self).constants@ == old(self).constants@,
    {
        let (b0, b1, b2, b3) = le_bytes_u32(operand);
        let bytes = vec![opcode.to_u8(), b0, b1, b2, b3];
        proof {
            assert(bytes@ =~= seq![opcode_byte(opcode)] + le_u32(operand));
        }
        self.write_all(bytes, span);
        proof {
            assert(old(self).code@ + (seq![opcode_byte(opcode)] + le_u32(operand)) =~= old(
                self,
            ).code@ + seq![opcode_byte(opcode)] + le_u32(operand));
        }
    }

    /// Appends an opcode and a little-endian `i32` operand.
    pub fn write_opcode_i32(&mut self, opcode: Opcode, operand: i32, span: Range<usize>)
        requires
            can_extend(old(self).spans@, span, 5),
        ensures
            final(self).code@ == old(self).code@ + seq![opcode_byte(opcode)] + le_i32(operand),
            final(self).spans@ == extend_runs(old(self).spans@, span, 5),
            final(self).source_id == old(self).source_id,
            final(self).constants@ == old(self).constants@,
    {
        self.write_opcode_u32(opcode, operand as u32, span);
    }

    /// Appends an opcode and two byte operands.
    pub fn write_opcode_u8_u8(&mut self, opcode: Opcode, op1: u8, op2: u8, span: Range<usize>)
        requires
            can_extend(old(self).spans@, span, 3),
        ensures
            final(self).code@ == old(self).code@ + seq![opcode_byte(opcode), op1, op2],
            final(self).spans@ == extend_runs(old(self).spans@, span, 3),
            final(self).source_id == old(self).source_id,
            final(self).constants@ == old(self).constants@,
    {
        let bytes = vec![opcode.to_u8(), op1, op2];
        proof {
            assert(bytes@ =~= seq![opcode_byte(opcode), op1, op2]);
        }
        self.write_all(bytes, span);
    }

    /// Appends an opcode, a little-endian `u16` and a byte.
    pub fn write_opcode_u16_u8(&mut self, opcode: Opcode, op1: u16, op2: u8, span: Range<usize>)
        requires
            can_extend(old(self).spans@, span, 4),
        ensures
            final(self).code@ == old(self).code@ + seq![opcode_byte(opcode)] + le_u16(op1) + seq![
                op2,
            ],
            final(self).spans@ == extend_runs(old(self).spans@, span, 4),
            final(self).source_id == old(self).source_id,
            final(self).constants@ == old(self).constants@,
    {
        let (b0, b1) = le_bytes_u16(op1);
        let bytes = vec![opcode.to_u8(), b0, b1, op2];
        proof {
            assert(bytes@ =~= seq![opcode_byte(opcode)] + le_u16(op1) + seq![op2]);
        }
        self.write_all(bytes, span);
        proof {
            assert(old(self).code@ + (seq![opcode_byte(opcode)] + le_u16(op1) + seq![op2]) =~= old(
                self,
            ).code@ + seq![opcode_byte(opcode)] + le_u16(op1) + seq![op2]);
        }
    }

    /// Appends an opcode, a byte and a little-endian `u32`.
    pub fn write_opcode_u8_u32(&mut self, opcode: Opcode, op1: u8, op2: u32, span: Range<usize>)
        requires
            can_extend(old(self).spans@, span, 6),
        ensures
            final(self).code@ == old(self).code@ + seq![opcode_byte(opcode), op1] + le_u32(op2),
            final(self).spans@ == extend_runs(old(self).spans@, span, 6),
            final(self).source_id == old(self).source_id,
            final(self).constants@ == old(self).constants@,
    {
        let (b0, b1, b2, b3) = le_bytes_u32(op2);
        let bytes = vec![opcode.to_u8(), op1, b0, b1, b2, b3];
        proof {
            assert(bytes@ =~= seq![opcode_byte(opcode), op1] + le_u32(op2));
        }
        self.write_all(bytes, span);
        proof {
            assert(old(self).code@ + (seq![opcode_byte(opcode), op1] + le_u32(op2)) =~= old(
                self,
            ).code@ + seq![opcode_byte(opcode), op1] + le_u32(op2));
        }
    }

    /// The code byte at `index`, if any.
    pub fn read_u8(&self, index: usize) -> (r: Option<u8>)
        ensures
            r == code_u8_at(self.code@, index as int),
    {
        code_read_u8(&self.code, index)
    }

    /// The little-endian `u16` at `index`, if both bytes are there.
    pub fn read_u16(&self, index: usize) -> (r: Option<u16>)
        ensures
            r == code_u16_at(self.code@, index as int),
    {
        code_read_u16(&self.code, index)
    }

    /// The little-endian `u32` at `index`, if all four bytes are there.
    pub fn read_u32(&self, index: usize) -> (r: Option<u32>)
        ensures
            r == code_u32_at(self.code@, index as int),
    {
        code_read_u32(&self.code, index)
    }

    /// Appends the little-endian bytes of an `i32`, with no span.
    pub fn write_i32(&mut self, value: i32)
        ensures
            final(self).code@ == old(self).code@ + le_i32(value),
            final(self).spans@ == old(self).spans@,
            final(self).source_id == old(self).source_id,
            final(self).constants@ == old(self).constants@,
    {
        let (b0, b1, b2, b3) = le_bytes_u32(value as u32);
        self.code.push(b0);
        self.code.push(b1);
        self.code.push(b2);
        self.code.push(b3);
        proof {
            assert(self.code@ =~= old(self).code@ + le_i32(value));
        }
    }

    /// Overwrites the four bytes at `pos` with those of `value`, when they
    /// are all there; otherwise does nothing.
    pub fn patch_i32(&mut self, pos: usize, value: i32)
        ensures
            final(self).code@ == patched_i32(old(self).code@, pos as int, value),
            final(self).spans@ == old(self).spans@,
            final(self).source_id == old(self).source_id,
            final(self).constants@ == old(self).constants@,
    {
        if pos <= self.code.len() && self.code.len() - pos >= 4 {
            let (b0, b1, b2, b3) = le_bytes_u32(value as u32);
            self.code.set(pos, b0);
            self.code.set(pos + 1, b1);
            self.code.set(pos + 2, b2);
            self.code.set(pos + 3, b3);
            proof {
                assert(self.code@ =~= patched_i32(old(self).code@, pos as int, value));
            }
        }
    }

    /// The little-endian `i32` at `index`, if all four bytes are there.
    pub fn read_i32(&self, index: usize) -> (r: Option<i32>)
        ensures
            r == code_i32_at(self.code@, index as int),
    {
        code_read_i32(&self.code, index)
    }

    /// The opcode at `index`, if the byte is there and encodes one.
    pub fn read_opcode(&self, index: usize) -> (r: Option<Opcode>)
        ensures
            r == code_opcode_at(self.code@, index as int),
    {
        code_read_opcode(&self.code, index)
    }

    /// The instructions of the code, in order, as a disassembly walks them.
    pub fn instructions(&self) -> (r: Vec<Instruction>)
        ensures
            r@.map_values(|i: Instruction| instruction_view(i)) == decode_from(self.code@, 0),
    {
        decode_instructions(&self.code)
    }

    /// The same chunk, owning the name of its source.
    pub fn into_owned(self) -> (o: OwnedChunk)
        ensures
            o.source_id@ == self.source_id@,
            o.code@ == self.code@,
            o.spans@ == self.spans@,
            o.constants@ == self.constants@,
    {
        OwnedChunk {
            source_id: String::from_str(self.source_id),
            code: self.code,
            spans: self.spans,
            constants: self.constants,
        }
    }
}

impl<'a> Default for Chunk<'a> {
    fn default() -> (c: Self)
        ensures
            c.source_id@ == Seq::<char>::empty(),
            c.code@.len() == 0,
            c.spans@.len() == 0,
            c.constants@.len() == 0,
    {
        let c = Self::new("");
        proof {
            reveal_strlit("");
        }
        c
    }
}

impl OwnedChunk {
    /// The source span of code byte `instruction_index`, if known.
    pub fn get_span(&self, instruction_index: usize) -> (r: Option<&Range<usize>>)
        ensures
            match r {
                Some(s) => span_at(self.spans@, instruction_index as int) == Some(*s),
                None => span_at(self.spans@, instruction_index as int) is None,
            },
    {
        lookup_span(&self.spans, instruction_index)
    }

    /// The number of code bytes.
    pub fn count(&self) -> (n: usize)
        ensures
            n == self.code@.len(),
    {
        self.code.len()
    }

    /// The little-endian `u16` at `index`, if both bytes are there.
    pub fn read_u16(&self, index: usize) -> (r: Option<u16>)
        ensures
            r == code_u16_at(self.code@, index as int),
    {
        code_read_u16(&self.code, index)
    }

    /// The little-endian `i32` at `index`, if all four bytes are there.
    pub fn read_i32(&self, index: usize) -> (r: Option<i32>)
        ensures
            r == code_i32_at(self.code@, index as int),
    {
        code_read_i32(&self.code, index)
    }

    /// The opcode at `index`, if the byte is there and encodes one.
    pub fn read_opcode(&self, index: usize) -> (r: Option<Opcode>)
        ensures
            r == code_opcode_at(self.code@, index as int),
    {
        code_read_opcode(&self.code, index)
    }
}


/// After an opcode is written, reading an opcode at its offset gives it back.
pub proof fn law_opcode_reads_back(code: Seq<u8>, op: Opcode)
    ensures
        code_opcode_at(code.push(opcode_byte(op)), code.len() as int) == Some(op),
{
    law_opcode_byte_roundtrip(op);
}

/// After an opcode with a `u16` operand is written, the operand reads back
/// right after the opcode byte.
pub proof fn law_u16_operand_reads_back(code: Seq<u8>, op: Opcode, v: u16)
    ensures
        code_u16_at(code + seq![opcode_byte(op)] + le_u16(v), code.len() + 1int) == Some(v),
        code_opcode_at(code + seq![opcode_byte(op)] + le_u16(v), code.len() as int) == Some(op),
{
    let c = code + seq![opcode_byte(op)] + le_u16(v);
    assert(c[code.len() as int] == opcode_byte(op));
    assert(c[code.len() + 1int] == le_u16(v)[0]);
    assert(c[code.len() + 2int] == le_u16(v)[1]);
    lemma_u16_roundtrip(v);
    law_opcode_byte_roundtrip(op);
}

/// After an opcode with a `u32` operand is written, the operand reads back
/// right after the opcode byte.
pub proof fn law_u32_operand_reads_back(code: Seq<u8>, op: Opcode, v: u32)
    ensures
        code_u32_at(code + seq![opcode_byte(op)] + le_u32(v), code.len() + 1int) == Some(v),
        code_opcode_at(code + seq![opcode_byte(op)] + le_u32(v), code.len() as int) == Some(op),
{
    let c = code + seq![opcode_byte(op)] + le_u32(v);
    let n = code.len() as int;
    assert(c[n] == opcode_byte(op));
    assert(c[n + 1] == le_u32(v)[0]);
    assert(c[n + 2] == le_u32(v)[1]);
    assert(c[n + 3] == le_u32(v)[2]);
    assert(c[n + 4] == le_u32(v)[3]);
    lemma_u32_roundtrip(v);
    law_opcode_byte_roundtrip(op);
}

/// After an opcode with an `i32` operand is written, the operand reads back
/// right after the opcode byte.
pub proof fn law_i32_operand_reads_back(code: Seq<u8>, op: Opcode, v: i32)
    ensures
        code_i32_at(code + seq![opcode_byte(op)] + le_i32(v), code.len() + 1int) == Some(v),
{
    let c = code + seq![opcode_byte(op)] + le_i32(v);
    let n = code.len() as int;
    assert(c[n + 1] == le_i32(v)[0]);
    assert(c[n + 2] == le_i32(v)[1]);
    assert(c[n + 3] == le_i32(v)[2]);
    assert(c[n + 4] == le_i32(v)[3]);
    lemma_i32_roundtrip(v);
}

/// After an `i32` is appended without an opcode, it reads back where it starts.
pub proof fn law_i32_reads_back(code: Seq<u8>, v: i32)
    ensures
        code_i32_at(code + le_i32(v), code.len() as int) == Some(v),
{
    let c = code + le_i32(v);
    let n = code.len() as int;
    assert(c[n] == le_i32(v)[0]);
    assert(c[n + 1] == le_i32(v)[1]);
    assert(c[n + 2] == le_i32(v)[2]);
    assert(c[n + 3] == le_i32(v)[3]);
    lemma_i32_roundtrip(v);
}

/// Patching an `i32` keeps the length and the other bytes, and the patched
/// value reads back at its position.
pub proof fn law_patch_reads_back(code: Seq<u8>, pos: int, v: i32)
    requires
        0 <= pos,
        pos + 4 <= code.len(),
    ensures
        patched_i32(code, pos, v).len() == code.len(),
        code_i32_at(patched_i32(code, pos, v), pos) == Some(v),
        forall|i: int|
            0 <= i < code.len() && !(pos <= i < pos + 4) ==> #[trigger] patched_i32(code, pos, v)[i]
                == code[i],
{
    let c = patched_i32(code, pos, v);
    assert(c[pos] == le_i32(v)[0]);
    assert(c[pos + 1] == le_i32(v)[1]);
    assert(c[pos + 2] == le_i32(v)[2]);
    assert(c[pos + 3] == le_i32(v)[3]);
    lemma_i32_roundtrip(v);
    assert forall|i: int| 0 <= i < code.len() && !(pos <= i < pos + 4) implies #[trigger] c[i]
        == code[i] by {
        if i < pos {
            assert(c[i] == code.take(pos)[i]);
        } else {
            assert(c[i] == code.skip(pos + 4)[i - pos - 4]);
        }
    }
}

/// Each byte written with a span has that span: the table, expanded, is the
/// spans of the code bytes in order.
pub proof fn law_write_records_span(spans: Seq<SpanRunLength>, span: Range<usize>)
    requires
        can_extend(spans, span, 1),
    ensures
        expand(extend_runs(spans, span, 1)) == expand(spans).push(span),
        span_at(extend_runs(spans, span, 1), expand(spans).len() as int) == Some(span),
        forall|i: int|
            0 <= i < expand(spans).len() ==> #[trigger] span_at(extend_runs(spans, span, 1), i)
                == span_at(spans, i),
{
    lemma_extend_runs_expand(spans, span, 1);
    assert(expand(spans) + repeat_span(span, 1) =~= expand(spans).push(span));
}

/// A span table in normal form: every run covers at least one byte, and
/// neighbouring runs have different spans.
pub open spec fn runs_well_formed(spans: Seq<SpanRunLength>) -> bool {
    &&& forall|k: int| 0 <= k < spans.len() ==> (#[trigger] spans[k]).repeated_values >= 1
    &&& forall|k: int| 0 <= k < spans.len() - 1 ==> (#[trigger] spans[k]).span != spans[k + 1].span
}

/// Writing a byte keeps a span table in normal form and one run per byte
/// more: the last run grows when it has the byte's span, else a run of one
/// byte is appended; the byte's span is recorded at its index.
pub proof fn law_write_keeps_table(spans: Seq<SpanRunLength>, span: Range<usize>)
    requires
        runs_well_formed(spans),
        expand(spans).len() < usize::MAX,
    ensures
        can_extend(spans, span, 1),
        runs_well_formed(extend_runs(spans, span, 1)),
        expand(extend_runs(spans, span, 1)).len() == expand(spans).len() + 1,
        span_at(extend_runs(spans, span, 1), expand(spans).len() as int) == Some(span),
        spans.len() > 0 && spans.last().span == span ==> {
            &&& extend_runs(spans, span, 1).len() == spans.len()
            &&& extend_runs(spans, span, 1).last().repeated_values == spans.last().repeated_values
                + 1
        },
        !(spans.len() > 0 && spans.last().span == span) ==> extend_runs(spans, span, 1) == spans.push(
            SpanRunLength { span, repeated_values: 1 },
        ),
{
    law_table_can_grow(spans, span, 1);
    law_write_records_span(spans, span);
    let t = extend_runs(spans, span, 1);
    if spans.len() > 0 && spans.last().span == span {
        assert forall|k: int| 0 <= k < t.len() - 1 implies (#[trigger] t[k]).span != t[k + 1].span by {
            assert(t[k] == spans[k]);
            if k + 1 < t.len() - 1 {
                assert(t[k + 1] == spans[k + 1]);
            }
        }
    } else {
        assert forall|k: int| 0 <= k < t.len() - 1 implies (#[trigger] t[k]).span != t[k + 1].span by {
            assert(t[k] == spans[k]);
            if k + 1 < spans.len() {
                assert(t[k + 1] == spans[k + 1]);
            }
        }
    }
}

/// A `u16` reads at `i` exactly when both its bytes are there.
pub proof fn law_read_u16_bounds(code: Seq<u8>, i: int)
    ensures
        code_u16_at(code, i) is None <==> !(0 <= i && i + 1 < code.len()),
{
}

/// Writing an opcode with a `u16` operand adds three bytes.
pub proof fn law_u16_write_length(code: Seq<u8>, op: Opcode, v: u16)
    ensures
        (code + seq![opcode_byte(op)] + le_u16(v)).len() == code.len() + 3,
{
}

proof fn lemma_run_within_expand(spans: Seq<SpanRunLength>, k: int)
    requires
        0 <= k < spans.len(),
    ensures
        spans[k].repeated_values <= expand(spans).len(),
    decreases spans.len(),
{
    if k > 0 {
        lemma_run_within_expand(spans.drop_first(), k - 1);
    }
}

/// A span table that stands for fewer than `usize::MAX - n` bytes (as the
/// table of any chunk whose code still fits does) can take `n` more bytes
/// of any span without a run count overflowing.
pub proof fn law_table_can_grow(spans: Seq<SpanRunLength>, span: Range<usize>, n: nat)
    requires
        expand(spans).len() + n <= usize::MAX,
    ensures
        can_extend(spans, span, n),
{
    if spans.len() > 0 {
        lemma_run_within_expand(spans, spans.len() - 1);
    }
}

} // verus!
