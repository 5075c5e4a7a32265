//! The flat, signed-integer form in which chunk code and span tables are
//! stored, and the conversions to and from it.

use vstd::prelude::*;
use std::ops::Range;
use crate::chunk::SpanRunLength;

verus! {

/// A span run with signed fields.
#[derive(Debug, PartialEq, Eq)]
pub struct SerializedSpan {
    pub span_start: i64,
    pub span_end: i64,
    pub repeated_values: i64,
}

/// The stored form of a run: each field reinterpreted as a signed 64-bit integer.
pub open spec fn stored_run(r: SpanRunLength) -> SerializedSpan {
    SerializedSpan {
        span_start: r.span.start as i64,
        span_end: r.span.end as i64,
        repeated_values: r.repeated_values as i64,
    }
}

/// The run that a stored form stands for: each field reinterpreted as a `usize`.
pub open spec fn loaded_run(s: SerializedSpan) -> SpanRunLength {
    SpanRunLength {
        span: Range { start: s.span_start as usize, end: s.span_end as usize },
        repeated_values: s.repeated_values as usize,
    }
}

/// The stored form of a span table.
pub fn serialize_spans(spans: &Vec<SpanRunLength>) -> (r: Vec<SerializedSpan>)
    ensures
        r@ == spans@.map_values(|x: SpanRunLength| stored_run(x)),
{
    let mut r: Vec<SerializedSpan> = Vec::new();
    let mut i: usize = 0;
    while i < spans.len()
        invariant
            i <= spans@.len(),
            r@ == spans@.take(i as int).map_values(|x: SpanRunLength| stored_run(x)),
        decreases spans.len() - i,
    {
        let s = &spans[i];
        r.push(
            SerializedSpan {
                span_start: s.span.start as i64,
                span_end: s.span.end as i64,
                repeated_values: s.repeated_values as i64,
            },
        );
        proof {
            assert(spans@.take(i + 1).map_values(|x: SpanRunLength| stored_run(x)) =~= spans@.take(
                i as int,
            ).map_values(|x: SpanRunLength| stored_run(x)).push(stored_run(spans@[i as int])));
        }
        i += 1;
    }
    proof {
        assert(spans@.take(spans@.len() as int) =~= spans@);
    }
    r
}

/// The span table of a stored form.
pub fn deserialize_spans(stored: &Vec<SerializedSpan>) -> (r: Vec<SpanRunLength>)
    ensures
        r@ == stored@.map_values(|x: SerializedSpan| loaded_run(x)),
{
    let mut r: Vec<SpanRunLength> = Vec::new();
    let mut i: usize = 0;
    while i < stored.len()
        invariant
            i <= stored@.len(),
            r@ == stored@.take(i as int).map_values(|x: SerializedSpan| loaded_run(x)),
        decreases stored.len() - i,
    {
        let s = &stored[i];
        r.push(
            SpanRunLength {
                span: Range { start: s.span_start as usize, end: s.span_end as usize },
                repeated_values: s.repeated_values as usize,
            },
        );
        proof {
            assert(stored@.take(i + 1).map_values(|x: SerializedSpan| loaded_run(x)) =~= stored@.take(
                i as int,
            ).map_values(|x: SerializedSpan| loaded_run(x)).push(loaded_run(stored@[i as int])));
        }
        i += 1;
    }
    proof {
        assert(stored@.take(stored@.len() as int) =~= stored@);
    }
    r
}

/// The stored form of code: each byte as a signed 32-bit integer.
pub fn serialize_code(code: &Vec<u8>) -> (r: Vec<i32>)
    ensures
        r@ == code@.map_values(|b: u8| b as i32),
{
    let mut r: Vec<i32> = Vec::new();
    let mut i: usize = 0;
    while i < code.len()
        invariant
            i <= code@.len(),
            r@ == code@.take(i as int).map_values(|b: u8| b as i32),
        decreases code.len() - i,
    {
        r.push(code[i] as i32);
        proof {
            assert(code@.take(i + 1).map_values(|b: u8| b as i32) =~= code@.take(i as int).map_values(
                |b: u8| b as i32,
            ).push(code@[i as int] as i32));
        }
        i += 1;
    }
    proof {
        assert(code@.take(code@.len() as int) =~= code@);
    }
    r
}

/// The code of a stored form: each integer truncated to its low byte.
pub fn deserialize_code(stored: &Vec<i32>) -> (r: Vec<u8>)
    ensures
        r@ == stored@.map_values(|v: i32| v as u8),
{
    let mut r: Vec<u8> = Vec::new();
    let mut i: usize = 0;
    while i < stored.len()
        invariant
            i <= stored@.len(),
            r@ == stored@.take(i as int).map_values(|v: i32| v as u8),
        decreases stored.len() - i,
    {
        r.push(stored[i] as u8);
        proof {
            assert(stored@.take(i + 1).map_values(|v: i32| v as u8) =~= stored@.take(i as int).map_values(
                |v: i32| v as u8,
            ).push(stored@[i as int] as u8));
        }
        i += 1;
    }
    proof {
        assert(stored@.take(stored@.len() as int) =~= stored@);
    }
    r
}

/// Loading what was stored gives the span table back.
pub proof fn law_spans_round_trip(spans: Seq<SpanRunLength>)
    ensures
        spans.map_values(|x: SpanRunLength| stored_run(x)).map_values(
            |x: SerializedSpan| loaded_run(x),
        ) == spans,
{
    assert forall|k: int| 0 <= k < spans.len() implies #[trigger] loaded_run(
        stored_run(spans[k]),
    ) == spans[k] by {
        let r = spans[k];
        let a = r.span.start;
        let b = r.span.end;
        let c = r.repeated_values;
        assert((a as i64) as usize == a) by (bit_vector);
        assert((b as i64) as usize == b) by (bit_vector);
        assert((c as i64) as usize == c) by (bit_vector);
    }
    assert(spans.map_values(|x: SpanRunLength| stored_run(x)).map_values(
        |x: SerializedSpan| loaded_run(x),
    ) =~= spans);
}

/// Loading stored code gives the code back.
pub proof fn law_code_round_trip(code: Seq<u8>)
    ensures
        code.map_values(|b: u8| b as i32).map_values(|v: i32| v as u8) == code,
{
    assert forall|k: int| 0 <= k < code.len() implies ((code[k] as i32) as u8) == code[k] by {
        let b = code[k];
        assert((b as i32) as u8 == b) by (bit_vector);
    }
    assert(code.map_values(|b: u8| b as i32).map_values(|v: i32| v as u8) =~= code);
}

} // verus!
