//! Alignment: every scalar stands on a multiple of its size.

use crate::frame::{lemma_start_aligned, start_of};
use crate::offsets::lemma_aligned_divisor;
use crate::ser::{array_items, field_types, inner_type, tuple_items};
use crate::types::{
    align_of, lemma_align_of, lemma_alignments_divide, lemma_max_align_index, TypeSpec,
};
use crate::variant::{type_of, typed, Value};
use vstd::prelude::*;

verus! {

/// Whether every scalar of the value `v` of type `t` stands on a multiple of
/// its alignment, when the encoding of `v` starts at the place `at`.
pub open spec fn scalars_aligned(big: bool, t: TypeSpec, v: Value, at: nat) -> bool
    decreases v,
{
    match v {
        Value::String(_) | Value::ObjectPath(_) | Value::Signature(_) => true,
        Value::Variant(inner) => scalars_aligned(big, type_of(*inner), *inner, at),
        Value::Maybe(None) => true,
        Value::Maybe(Some(inner)) => scalars_aligned(big, inner_type(t), *inner, at),
        Value::Array(items) => forall|i: int|
            0 <= i < items.len() ==> scalars_aligned(
                big,
                inner_type(t),
                #[trigger] items[i],
                at + start_of(array_items(big, inner_type(t), items), i),
            ),
        Value::Dictionary(items) => forall|i: int|
            0 <= i < items.len() ==> scalars_aligned(
                big,
                inner_type(t),
                #[trigger] items[i],
                at + start_of(array_items(big, inner_type(t), items), i),
            ),
        Value::Structure(fields) => forall|i: int|
            0 <= i < fields.len() ==> scalars_aligned(
                big,
                field_types(t)[i],
                #[trigger] fields[i],
                at + start_of(tuple_items(big, field_types(t), fields), i),
            ),
        _ => at % align_of(t) == 0,
    }
}

/// The sum of two multiples of `a` is a multiple of `a`.
pub proof fn lemma_sum_of_multiples(x: nat, y: nat, a: nat)
    requires
        a >= 1,
        x % a == 0,
        y % a == 0,
    ensures
        (x + y) % a == 0,
{
    assert((x + y) % a == 0) by (nonlinear_arith)
        requires
            a >= 1,
            x % a == 0,
            y % a == 0,
    {
        let p = x / a;
        let q = y / a;
        assert(x == p * a);
        assert(y == q * a);
        assert(x + y == (p + q) * a);
    }
}

/// In the encoding of a value that starts on a multiple of the alignment of
/// its type, every scalar, however deep inside, stands on a multiple of its
/// own alignment.
pub proof fn lemma_alignment(big: bool, t: TypeSpec, v: Value, at: nat)
    requires
        typed(t, v),
        at % align_of(t) == 0,
    ensures
        scalars_aligned(big, t, v, at),
    decreases v,
{
    lemma_align_of(t);
    match v {
        Value::Variant(inner) => {
            let carried = type_of(*inner);
            lemma_align_of(carried);
            lemma_alignments_divide(align_of(carried), 8);
            lemma_aligned_divisor(at, 8, align_of(carried));
            lemma_alignment(big, carried, *inner, at);
        },
        Value::Maybe(Some(inner)) => {
            lemma_alignment(big, inner_type(t), *inner, at);
        },
        Value::Array(items) => {
            let e = inner_type(t);
            let laid = array_items(big, e, items);
            lemma_align_of(e);
            assert forall|i: int| 0 <= i < items.len() implies scalars_aligned(
                big,
                e,
                #[trigger] items[i],
                at + start_of(laid, i),
            ) by {
                lemma_start_aligned(laid, i);
                lemma_sum_of_multiples(at, start_of(laid, i), align_of(e));
                lemma_alignment(big, e, items[i], at + start_of(laid, i));
            }
        },
        Value::Dictionary(items) => {
            let e = inner_type(t);
            let laid = array_items(big, e, items);
            lemma_align_of(e);
            assert forall|i: int| 0 <= i < items.len() implies scalars_aligned(
                big,
                e,
                #[trigger] items[i],
                at + start_of(laid, i),
            ) by {
                lemma_start_aligned(laid, i);
                lemma_sum_of_multiples(at, start_of(laid, i), align_of(e));
                lemma_alignment(big, e, items[i], at + start_of(laid, i));
            }
        },
        Value::Structure(fields) => {
            let ts = field_types(t);
            let laid = tuple_items(big, ts, fields);
            assert forall|i: int| 0 <= i < fields.len() implies scalars_aligned(
                big,
                ts[i],
                #[trigger] fields[i],
                at + start_of(laid, i),
            ) by {
                lemma_align_of(ts[i]);
                lemma_max_align_index(ts, i);
                lemma_aligned_divisor(at, align_of(t), align_of(ts[i]));
                lemma_start_aligned(laid, i);
                lemma_sum_of_multiples(at, start_of(laid, i), align_of(ts[i]));
                lemma_alignment(big, ts[i], fields[i], at + start_of(laid, i));
            }
        },
        _ => {},
    }
}

} // verus!
