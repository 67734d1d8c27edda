//! The law of the format: what is written is read back.

use crate::config::Config;
use crate::de::{
    bool_at, decode_array, decode_elems, decode_fields, decode_spec, decode_tuple,
    lemma_array_unfold, lemma_decode_array, lemma_decode_maybe, lemma_decode_structure,
    lemma_decode_variant, lemma_elems_none, lemma_elems_step, lemma_fields_none, lemma_fields_step,
    lemma_tuple_unfold, uint_at, var_count,
};
use crate::endian::{le_bytes, lemma_radix_values, lemma_uint_roundtrip, radix, uint_bytes};
use crate::errors::Error;
use crate::frame::{
    all_fixed, array_frame, body, end_of, is_front, lemma_body_step, lemma_item_window,
    lemma_mark_of, lemma_marks, lemma_marks_all, marks, start_of, tuple_frame, Item,
};
use crate::offsets::{
    lemma_slot_of_table, lemma_table_len, lemma_table_width, offset_width, padding, slot_value,
    slots_fit, table, table_width,
};
use crate::ser::{
    array_items, bool_byte, encode_spec, field_types, inner_type, markable, tuple_items, twos,
    untwos,
};
use crate::signature::{
    is_signature_byte, lemma_signature_bytes, lemma_signature_roundtrip, signature_of,
};
use crate::sizes::{
    items_follow, lemma_encoded_fixed, lemma_marks_count, lemma_tuple_items_follow, sized,
};
use crate::text::{lemma_last_zero_is, lemma_text_roundtrip, nul_free};
use crate::types::{
    align_of, fits, fixed_size, is_fixed, lemma_align_of, lemma_all_fit_index, lemma_fixed_size,
    TypeSpec,
};
use crate::variant::{shallow, type_of, typed, Value};
use crate::window::{array_count, element_window, field_window, table_start};
use vstd::prelude::*;
use vstd::utf8::encode_utf8;

verus! {

/// Whether every string in `v` can stand on the wire and be read back: it
/// holds no U+0000, and its UTF-8 form with the terminator is no longer than
/// `max_len`.
pub open spec fn storable(max_len: nat, v: Value) -> bool
    decreases v,
{
    match v {
        Value::String(s) => nul_free(s) && encode_utf8(s).len() + 1 <= max_len,
        Value::ObjectPath(s) => nul_free(s) && encode_utf8(s).len() + 1 <= max_len,
        Value::Signature(s) => nul_free(s) && encode_utf8(s).len() + 1 <= max_len,
        Value::Variant(inner) => storable(max_len, *inner),
        Value::Maybe(Some(inner)) => storable(max_len, *inner),
        Value::Array(items) => forall|i: int|
            0 <= i < items.len() ==> storable(max_len, #[trigger] items[i]),
        Value::Dictionary(items) => forall|i: int|
            0 <= i < items.len() ==> storable(max_len, #[trigger] items[i]),
        Value::Structure(items) => forall|i: int|
            0 <= i < items.len() ==> storable(max_len, #[trigger] items[i]),
        _ => true,
    }
}

/// An unsigned number is read back from the bytes that spell it.
pub proof fn lemma_uint_at(big: bool, x: nat, n: nat)
    requires
        x < radix(n),
    ensures
        uint_at(big, n, uint_bytes(big, x, n)) == Ok::<nat, Error>(x),
{
    lemma_uint_roundtrip(big, x, n);
    let b = uint_bytes(big, x, n);
    assert(b.take(n as int) =~= b);
}

/// A signed number is got back from the unsigned number that stands for it.
pub proof fn lemma_twos(x: int, n: nat)
    requires
        n == 1 || n == 2 || n == 4 || n == 8,
        -(radix(n) / 2) <= x < radix(n) / 2,
    ensures
        twos(x, n) < radix(n),
        untwos(twos(x, n), n) == x,
{
    lemma_radix_values();
}

/// A boolean is read back from its byte, strictly or not.
pub proof fn lemma_bool_at(strict: bool, x: bool)
    ensures
        bool_at(strict, seq![bool_byte(x)]) == Ok::<bool, Error>(x),
{
}

/// Whether each item of `items` stands in `b` where reading the array of
/// `count` elements looks for it, and holds the encoding of its value.
pub open spec fn elements_found(
    items: Seq<Item>,
    b: Seq<u8>,
    align: nat,
    fixed: Option<nat>,
) -> bool {
    forall|i: int|
        #![trigger items[i]]
        0 <= i < items.len() ==> {
            &&& element_window(b, align, fixed, items.len(), i as nat) == Ok::<(nat, nat), Error>(
                (start_of(items, i), end_of(items, i + 1)),
            )
            &&& start_of(items, i) <= end_of(items, i + 1) <= b.len()
            &&& b.subrange(start_of(items, i) as int, end_of(items, i + 1) as int)
                == items[i].bytes
        }
}

/// Where every element is found and read back, the elements are read back.
pub proof fn lemma_elems_roundtrip(
    cfg: Config, room: nat,
    e: TypeSpec,
    xs: Seq<Value>,
    items: Seq<Item>,
    b: Seq<u8>,
    upto: nat,
)
    requires
        upto <= xs.len(),
        items.len() == xs.len(),
        elements_found(items, b, align_of(e), fixed_size(e)),
        forall|i: int|
            0 <= i < xs.len() ==> decode_spec(cfg, room, e, (#[trigger] items[i]).bytes) == Ok::<
                Value,
                Error,
            >(xs[i]),
    ensures
        decode_elems(
            cfg,
            room,
            e,
            b,
            xs.len(),
            upto,
        ) == Ok::<Seq<Value>, Error>(xs.take(upto as int)),
    decreases upto,
{
    if upto == 0 {
        lemma_elems_none(cfg, room, e, b, xs.len());
        assert(xs.take(0) =~= Seq::<Value>::empty());
    } else {
        let i = (upto - 1) as nat;
        lemma_elems_roundtrip(cfg, room, e, xs, items, b, i);
        lemma_elems_step(cfg, room, e, b, xs.len(), i, xs.take(i as int));
        let found = items[i as int];
        assert(xs.take(i as int).push(xs[i as int]) =~= xs.take(upto as int));
    }
}

/// Whether each item of `items` stands in `b` where reading the structure
/// of the types `ts` looks for it, and holds the encoding of its value.
pub open spec fn fields_found(items: Seq<Item>, b: Seq<u8>, ts: Seq<TypeSpec>) -> bool {
    forall|i: int|
        #![trigger items[i]]
        0 <= i < items.len() ==> {
            &&& field_window(
                b,
                align_of(ts[i]),
                fixed_size(ts[i]),
                i + 1 == items.len(),
                var_count(ts),
                end_of(items, i),
                marks(items, markable(i as nat, items.len())).len(),
            ) == Ok::<(nat, nat, nat), Error>(
                (
                    start_of(items, i),
                    end_of(items, i + 1),
                    marks(items, markable((i + 1) as nat, items.len())).len(),
                ),
            )
            &&& start_of(items, i) <= end_of(items, i + 1) <= b.len()
            &&& b.subrange(start_of(items, i) as int, end_of(items, i + 1) as int)
                == items[i].bytes
        }
}

/// Where every field is found and read back, the fields are read back.
pub proof fn lemma_fields_roundtrip(
    cfg: Config, room: nat,
    ts: Seq<TypeSpec>,
    vs: Seq<Value>,
    items: Seq<Item>,
    b: Seq<u8>,
    upto: nat,
)
    requires
        upto <= vs.len(),
        items.len() == vs.len(),
        ts.len() == vs.len(),
        fields_found(items, b, ts),
        forall|i: int|
            0 <= i < vs.len() ==> decode_spec(
                cfg,
                room,
                ts[i],
                (#[trigger] items[i]).bytes,
            ) == Ok::<
                Value,
                Error,
            >(vs[i]),
    ensures
        decode_fields(cfg, room, ts, b, upto) == Ok::<(Seq<Value>, nat, nat), Error>(
            (
                vs.take(upto as int),
                end_of(items, upto as int),
                marks(items, markable(upto, items.len())).len(),
            ),
        ),
    decreases upto,
{
    if upto == 0 {
        lemma_fields_none(cfg, room, ts, b);
        assert(vs.take(0) =~= Seq::<Value>::empty());
        assert(items.take(0) =~= Seq::<Item>::empty());
    } else {
        let i = (upto - 1) as nat;
        lemma_fields_roundtrip(cfg, room, ts, vs, items, b, i);
        lemma_fields_step(
            cfg,
            room,
            ts,
            b,
            i,
            vs.take(i as int),
            end_of(items, i as int),
            marks(items, markable(i, items.len())).len(),
        );
        let found = items[i as int];
        assert(vs.take(i as int).push(vs[i as int]) =~= vs.take(upto as int));
    }
}

/// A multiple of a multiple of `a` is a multiple of `a`.
pub proof fn lemma_multiple(k: nat, s: nat, a: nat)
    requires
        a >= 1,
        s % a == 0,
    ensures
        (k * s) % a == 0,
{
    assert((k * s) % a == 0) by (nonlinear_arith)
        requires
            a >= 1,
            s % a == 0,
    {
        let q = s / a;
        assert(s == q * a);
        assert(k * s == (k * q) * a);
    }
}

/// In a table of the chosen width every place up to the end of the items
/// can be written, as long as the whole stays below `radix(8)` bytes.
pub proof fn lemma_width_bound(body_len: nat, n: nat)
    requires
        body_len + n * table_width(body_len, n) < radix(8),
    ensures
        body_len < radix(table_width(body_len, n)),
{
    lemma_radix_values();
}

/// Items of one fixed size, a multiple of their alignment, stand one behind
/// the other without padding.
pub proof fn lemma_ends_fixed(items: Seq<Item>, size: nat, align: nat, k: int)
    requires
        0 <= k <= items.len(),
        align >= 1,
        size % align == 0,
        forall|i: int|
            0 <= i < items.len() ==> (#[trigger] items[i]).bytes.len() == size && items[i].align
                == align,
    ensures
        end_of(items, k) == k * size,
    decreases k,
{
    if k == 0 {
        assert(items.take(0) =~= Seq::<Item>::empty());
    } else {
        lemma_ends_fixed(items, size, align, k - 1);
        lemma_body_step(items, k - 1);
        lemma_multiple((k - 1) as nat, size, align);
        assert(items[k - 1].align == align);
        assert((k - 1) * size + size == k * size) by (nonlinear_arith);
    }
}

/// The elements of an array of fixed-size elements are found where reading
/// looks for them, and as many are counted as were written.
pub proof fn lemma_array_fixed_found(items: Seq<Item>, size: nat, align: nat)
    requires
        align >= 1,
        size >= 1,
        size % align == 0,
        forall|i: int|
            0 <= i < items.len() ==> (#[trigger] items[i]).bytes.len() == size && items[i].align
                == align,
    ensures
        elements_found(items, body(items), align, Some(size)),
        array_count(body(items), Some(size)) == Ok::<nat, Error>(items.len()),
{
    let n = items.len();
    let b = body(items);
    lemma_ends_fixed(items, size, align, n as int);
    assert(items.take(n as int) =~= items);
    assert((n * size) / size == n) by (nonlinear_arith)
        requires
            size >= 1,
    ;
    assert(b.take(b.len() as int) =~= b);
    assert forall|i: int| #![trigger items[i]] 0 <= i < items.len() implies {
        &&& element_window(b, align, Some(size), items.len(), i as nat) == Ok::<(nat, nat), Error>(
            (start_of(items, i), end_of(items, i + 1)),
        )
        &&& start_of(items, i) <= end_of(items, i + 1) <= b.len()
        &&& b.subrange(start_of(items, i) as int, end_of(items, i + 1) as int) == items[i].bytes
    } by {
        lemma_ends_fixed(items, size, align, i);
        lemma_ends_fixed(items, size, align, i + 1);
        lemma_multiple(i as nat, size, align);
        lemma_item_window(items, i, b);
        assert(items[i].align == align);
        assert((i + 1) * size <= n * size) by (nonlinear_arith)
            requires
                i + 1 <= n,
                size >= 0,
        ;
    }
}

/// What the encoding of an array of elements without a fixed size is made
/// of: where its table starts, how wide its offsets are, and what each offset
/// says.
pub proof fn lemma_array_var_table(items: Seq<Item>)
    requires
        items.len() > 0,
        forall|i: int| 0 <= i < items.len() ==> !(#[trigger] items[i]).fixed,
        array_frame(items).len() < radix(8),
    ensures
        is_front(body(items), array_frame(items)),
        table_start(array_frame(items), items.len()) == body(items).len(),
        slots_fit(array_frame(items), items.len()),
        array_frame(items).len() == body(items).len() + items.len() * offset_width(
            array_frame(items).len(),
        ),
        forall|slot: int|
            0 <= slot < items.len() ==> #[trigger] slot_value(array_frame(items), slot as nat)
                == end_of(items, items.len() - slot),
{
    let n = items.len();
    let bd = body(items);
    let ends = marks(items, n as int);
    let w = table_width(bd.len(), ends.len());
    let b = array_frame(items);
    assert(!items[0].fixed);
    lemma_marks_all(items, n as int);
    lemma_table_len(ends, w);
    lemma_table_width(bd.len(), n);
    lemma_width_bound(bd.len(), n);
    lemma_marks(items, n as int);
    assert(items.take(n as int) =~= items);
    assert(b.take(bd.len() as int) =~= bd);
    assert forall|slot: int| 0 <= slot < items.len() implies #[trigger] slot_value(
        b,
        slot as nat,
    ) == end_of(items, items.len() - slot) by {
        lemma_slot_of_table(bd, ends, slot as nat);
        assert(ends[n - 1 - slot] == end_of(items, n - 1 - slot + 1));
    }
}

/// As many elements without a fixed size are counted as were written.
pub proof fn lemma_array_var_count(items: Seq<Item>)
    requires
        items.len() > 0,
        forall|i: int| 0 <= i < items.len() ==> !(#[trigger] items[i]).fixed,
        array_frame(items).len() < radix(8),
    ensures
        array_count(array_frame(items), None) == Ok::<nat, Error>(items.len()),
{
    let n = items.len();
    let b = array_frame(items);
    let w = offset_width(b.len());
    lemma_array_var_table(items);
    assert(items.take(n as int) =~= items);
    assert(slot_value(b, 0) == end_of(items, n - 0));
    assert(n * w >= w) by (nonlinear_arith)
        requires
            n >= 1,
            w >= 0,
    ;
    assert((n * w) % w == 0 && (n * w) / w == n) by (nonlinear_arith)
        requires
            w >= 1,
    ;
}

/// An element without a fixed size is found where reading looks for it.
pub proof fn lemma_array_var_element(items: Seq<Item>, align: nat, i: int)
    requires
        0 <= i < items.len(),
        align >= 1,
        forall|i: int|
            0 <= i < items.len() ==> !(#[trigger] items[i]).fixed && items[i].align == align,
        array_frame(items).len() < radix(8),
    ensures
        element_window(array_frame(items), align, None, items.len(), i as nat) == Ok::<
            (nat, nat),
            Error,
        >((start_of(items, i), end_of(items, i + 1))),
        start_of(items, i) <= end_of(items, i + 1) <= array_frame(items).len(),
        array_frame(items).subrange(start_of(items, i) as int, end_of(items, i + 1) as int)
            == items[i].bytes,
{
    let n = items.len();
    let b = array_frame(items);
    lemma_array_var_table(items);
    lemma_item_window(items, i, b);
    assert(items[i].align == align);
    assert(slot_value(b, (n - 1 - i) as nat) == end_of(items, n - (n - 1 - i)));
    if i == 0 {
        assert(items.take(0) =~= Seq::<Item>::empty());
    } else {
        assert(slot_value(b, (n - i) as nat) == end_of(items, n - (n - i)));
    }
}

/// The elements of an array of elements without a fixed size are found where
/// reading looks for them, and as many are counted as were written.
pub proof fn lemma_array_var_found(items: Seq<Item>, align: nat)
    requires
        items.len() > 0,
        align >= 1,
        forall|i: int|
            0 <= i < items.len() ==> !(#[trigger] items[i]).fixed && items[i].align == align,
        array_frame(items).len() < radix(8),
    ensures
        elements_found(items, array_frame(items), align, None),
        array_count(array_frame(items), None) == Ok::<nat, Error>(items.len()),
{
    let b = array_frame(items);
    lemma_array_var_count(items);
    assert forall|i: int| #![trigger items[i]] 0 <= i < items.len() implies {
        &&& element_window(b, align, None, items.len(), i as nat) == Ok::<(nat, nat), Error>(
            (start_of(items, i), end_of(items, i + 1)),
        )
        &&& start_of(items, i) <= end_of(items, i + 1) <= b.len()
        &&& b.subrange(start_of(items, i) as int, end_of(items, i + 1) as int) == items[i].bytes
    } by {
        lemma_array_var_element(items, align, i);
    }
}

/// Items of fixed size have no marks.
pub proof fn lemma_marks_none(items: Seq<Item>, k: int)
    requires
        all_fixed(items),
    ensures
        marks(items, k) == Seq::<nat>::empty(),
    decreases k,
{
    if 0 < k <= items.len() {
        lemma_marks_none(items, k - 1);
        assert(items[k - 1].fixed);
    }
}

/// Whether each item of fixed size takes the fixed size of its type.
pub open spec fn fixed_sized(items: Seq<Item>, ts: Seq<TypeSpec>) -> bool {
    forall|i: int| 0 <= i < items.len() ==> (#[trigger] items[i]).fixed ==> sized(items[i], ts[i])
}

/// The fields of a structure are found where reading looks for them, and the
/// table that reading expects fits.
pub proof fn lemma_tuple_found(items: Seq<Item>, ts: Seq<TypeSpec>)
    requires
        items.len() > 0,
        items_follow(items, ts),
        fixed_sized(items, ts),
        tuple_frame(items).len() < radix(8),
    ensures
        fields_found(items, tuple_frame(items), ts),
        slots_fit(tuple_frame(items), var_count(ts)),
{
    let n = items.len() as int;
    let bd = body(items);
    let b = tuple_frame(items);
    let k = var_count(ts);
    lemma_marks_count(items, ts, n - 1);
    assert(ts.take(n - 1) =~= ts.drop_last());
    assert(items.take(n) =~= items);
    assert(b.take(bd.len() as int) =~= bd);
    if all_fixed(items) {
        lemma_marks_none(items, n - 1);
        assert(0 * offset_width(b.len()) == 0);
        assert(table_start(b, 0) == b.len());
        assert forall|i: int| #![trigger items[i]] 0 <= i < items.len() implies {
            &&& field_window(
                b,
                align_of(ts[i]),
                fixed_size(ts[i]),
                i + 1 == items.len(),
                var_count(ts),
                end_of(items, i),
                marks(items, markable(i as nat, items.len())).len(),
            ) == Ok::<(nat, nat, nat), Error>(
                (
                    start_of(items, i),
                    end_of(items, i + 1),
                    marks(items, markable((i + 1) as nat, items.len())).len(),
                ),
            )
            &&& start_of(items, i) <= end_of(items, i + 1) <= b.len()
            &&& b.subrange(start_of(items, i) as int, end_of(items, i + 1) as int)
                == items[i].bytes
        } by {
            lemma_item_window(items, i, b);
            lemma_body_step(items, i);
            lemma_marks_none(items, markable(i as nat, items.len()));
            lemma_marks_none(items, markable((i + 1) as nat, items.len()));
            assert(items[i].fixed);
            assert(sized(items[i], ts[i]));
            assert(items[i].align == align_of(ts[i]));
        }
    } else {
        let ends = marks(items, n - 1);
        let w = table_width(bd.len(), ends.len());
        lemma_table_len(ends.reverse(), w);
        lemma_table_width(bd.len(), k);
        lemma_width_bound(bd.len(), k);
        lemma_marks(items, n - 1);
        crate::frame::lemma_end_of_monotonic(items, n - 1, n);
        assert(table_start(b, k) == bd.len());
        assert forall|i: int| #![trigger items[i]] 0 <= i < items.len() implies {
            &&& field_window(
                b,
                align_of(ts[i]),
                fixed_size(ts[i]),
                i + 1 == items.len(),
                var_count(ts),
                end_of(items, i),
                marks(items, markable(i as nat, items.len())).len(),
            ) == Ok::<(nat, nat, nat), Error>(
                (
                    start_of(items, i),
                    end_of(items, i + 1),
                    marks(items, markable((i + 1) as nat, items.len())).len(),
                ),
            )
            &&& start_of(items, i) <= end_of(items, i + 1) <= b.len()
            &&& b.subrange(start_of(items, i) as int, end_of(items, i + 1) as int)
                == items[i].bytes
        } by {
            lemma_item_window(items, i, b);
            lemma_body_step(items, i);
            assert(items[i].align == align_of(ts[i]));
            assert(items[i].fixed == crate::types::is_fixed(ts[i]));
            if items[i].fixed {
                assert(sized(items[i], ts[i]));
            } else if i + 1 == n {
            } else {
                lemma_mark_of(items, i, n - 1);
                let used = marks(items, i).len();
                lemma_slot_of_table(bd, ends.reverse(), used);
                assert(ends.reverse()[ends.len() - 1 - used] == ends[used as int]);
            }
        }
    }
}

/// A byte is read back from itself.
pub proof fn lemma_byte_at(big: bool, x: u8)
    ensures
        uint_at(big, 1, seq![x]) == Ok::<nat, Error>(x as nat),
{
    reveal_with_fuel(le_bytes, 2);
    lemma_radix_values();
    assert(le_bytes(x as nat, 1) =~= seq![x]);
    assert(seq![x].reverse() =~= seq![x]);
    lemma_uint_at(big, x as nat, 1);
}

/// A signed byte is read back from the byte that stands for it.
pub proof fn lemma_i8_roundtrip(big: bool, x: i8)
    ensures
        uint_at(big, 1, seq![twos(x as int, 1) as u8]) == Ok::<nat, Error>(twos(x as int, 1)),
        untwos(twos(x as int, 1), 1) == x,
{
    lemma_radix_values();
    lemma_twos(x as int, 1);
    lemma_byte_at(big, twos(x as int, 1) as u8);
}

/// The elements of an array are read back from its encoding, where each of
/// them is read back from its own.
pub proof fn lemma_array_roundtrip(cfg: Config, room: nat, e: TypeSpec, xs: Seq<Value>)
    requires
        fits(e),
        forall|i: int| 0 <= i < xs.len() ==> typed(e, #[trigger] xs[i]),
        forall|i: int|
            0 <= i < xs.len() ==> decode_spec(
                cfg,
                room,
                e,
                encode_spec(cfg.network_endian, e, #[trigger] xs[i]),
            ) == Ok::<Value, Error>(xs[i]),
        array_frame(array_items(cfg.network_endian, e, xs)).len() < radix(8),
    ensures
        decode_array(cfg, room, e, array_frame(array_items(cfg.network_endian, e, xs))) == Ok::<
            Seq<Value>,
            Error,
        >(xs),
{
    let big = cfg.network_endian;
    let items = array_items(big, e, xs);
    let b = array_frame(items);
    let n = xs.len();
    lemma_align_of(e);
    lemma_array_unfold(cfg, room, e, b);
    assert(xs.take(n as int) =~= xs);
    assert forall|i: int| 0 <= i < xs.len() implies decode_spec(
        cfg,
        room,
        e,
        (#[trigger] items[i]).bytes,
    ) == Ok::<Value, Error>(xs[i]) by {
        assert(typed(e, xs[i]));
    }
    if n == 0 {
        lemma_elems_none(cfg, room, e, b, 0);
        assert(xs =~= Seq::<Value>::empty());
        assert(b =~= Seq::<u8>::empty());
        if fixed_size(e) is Some {
            lemma_fixed_size(e);
            assert(0nat / fixed_size(e)->0 == 0) by (nonlinear_arith)
                requires
                    fixed_size(e)->0 >= 1,
            ;
        }
    } else {
        match fixed_size(e) {
            Some(size) => {
                lemma_fixed_size(e);
                assert forall|i: int| 0 <= i < items.len() implies (#[trigger] items[i]).bytes.len()
                    == size && items[i].align == align_of(e) by {
                    assert(typed(e, xs[i]));
                    lemma_encoded_fixed(big, e, xs[i]);
                }
                assert(items[0].fixed);
                lemma_array_fixed_found(items, size, align_of(e));
            },
            None => {
                lemma_array_var_found(items, align_of(e));
            },
        }
        lemma_elems_roundtrip(cfg, room, e, xs, items, b, n);
    }
}

/// The fields of a structure are read back from its encoding, where each of
/// them is read back from its own.
pub proof fn lemma_tuple_roundtrip(cfg: Config, room: nat, ts: Seq<TypeSpec>, vs: Seq<Value>)
    requires
        ts.len() == vs.len(),
        forall|i: int| 0 <= i < vs.len() ==> typed(ts[i], #[trigger] vs[i]),
        forall|i: int|
            0 <= i < vs.len() ==> decode_spec(
                cfg,
                room,
                ts[i],
                encode_spec(cfg.network_endian, ts[i], #[trigger] vs[i]),
            ) == Ok::<Value, Error>(vs[i]),
        tuple_frame(tuple_items(cfg.network_endian, ts, vs)).len() < radix(8),
    ensures
        decode_tuple(cfg, room, ts, tuple_frame(tuple_items(cfg.network_endian, ts, vs))) == Ok::<
            Seq<Value>,
            Error,
        >(vs),
{
    let big = cfg.network_endian;
    let items = tuple_items(big, ts, vs);
    let b = tuple_frame(items);
    let n = vs.len();
    lemma_tuple_unfold(cfg, room, ts, b);
    assert(vs.take(n as int) =~= vs);
    if n == 0 {
        assert(vs =~= Seq::<Value>::empty());
    } else {
        lemma_tuple_items_follow(big, ts, vs);
        assert forall|i: int| 0 <= i < items.len() && (#[trigger] items[i]).fixed implies sized(
            items[i],
            ts[i],
        ) by {
            assert(typed(ts[i], vs[i]));
            lemma_encoded_fixed(big, ts[i], vs[i]);
        }
        assert forall|i: int| 0 <= i < vs.len() implies decode_spec(
            cfg,
            room,
            ts[i],
            (#[trigger] items[i]).bytes,
        ) == Ok::<Value, Error>(vs[i]) by {
            assert(typed(ts[i], vs[i]));
        }
        lemma_tuple_found(items, ts);
        lemma_fields_roundtrip(cfg, room, ts, vs, items, b, n);
    }
}

/// No item of a container is longer than the container.
pub proof fn lemma_item_shorter(items: Seq<Item>, i: int)
    requires
        0 <= i < items.len(),
    ensures
        items[i].bytes.len() <= body(items).len(),
        body(items).len() <= array_frame(items).len(),
        body(items).len() <= tuple_frame(items).len(),
{
    let bd = body(items);
    assert(bd.take(bd.len() as int) =~= bd);
    lemma_item_window(items, i, bd);
}

/// Whether a value is a scalar or a string.
pub open spec fn is_leaf_value(v: Value) -> bool {
    !(v is Variant || v is Maybe || v is Array || v is Dictionary || v is Structure)
}

/// An unsigned scalar is read back.
pub proof fn lemma_roundtrip_unsigned(cfg: Config, room: nat, t: TypeSpec, v: Value)
    requires
        typed(t, v),
        v is Bool || v is U8 || v is U16 || v is U32 || v is U64 || v is F64,
    ensures
        decode_spec(cfg, room, t, encode_spec(cfg.network_endian, t, v)) == Ok::<Value, Error>(v),
{
    let big = cfg.network_endian;
    lemma_radix_values();
    reveal(decode_spec);
    match v {
        Value::Bool(x) => lemma_bool_at(cfg.strict, x),
        Value::U8(x) => lemma_byte_at(big, x),
        Value::U16(x) => lemma_uint_at(big, x as nat, 2),
        Value::U32(x) => lemma_uint_at(big, x as nat, 4),
        Value::U64(x) => lemma_uint_at(big, x as nat, 8),
        Value::F64(x) => lemma_uint_at(big, x as nat, 8),
        _ => {},
    }
}

/// A signed scalar is read back.
pub proof fn lemma_roundtrip_signed(cfg: Config, room: nat, t: TypeSpec, v: Value)
    requires
        typed(t, v),
        v is I16 || v is I32 || v is I64,
    ensures
        decode_spec(cfg, room, t, encode_spec(cfg.network_endian, t, v)) == Ok::<Value, Error>(v),
{
    let big = cfg.network_endian;
    lemma_radix_values();
    reveal(decode_spec);
    match v {
        Value::I16(x) => {
            lemma_twos(x as int, 2);
            lemma_uint_at(big, twos(x as int, 2), 2);
        },
        Value::I32(x) => {
            lemma_twos(x as int, 4);
            lemma_uint_at(big, twos(x as int, 4), 4);
        },
        Value::I64(x) => {
            lemma_twos(x as int, 8);
            lemma_uint_at(big, twos(x as int, 8), 8);
        },
        _ => {},
    }
}

/// A string without a zero byte, and no longer than the limit, is read back.
pub proof fn lemma_roundtrip_text(cfg: Config, room: nat, t: TypeSpec, v: Value)
    requires
        typed(t, v),
        v is String || v is ObjectPath || v is Signature,
        storable(cfg.max_string_len as nat, v),
    ensures
        decode_spec(cfg, room, t, encode_spec(cfg.network_endian, t, v)) == Ok::<Value, Error>(v),
{
    let max_len = cfg.max_string_len as nat;
    reveal(decode_spec);
    match v {
        Value::String(s) => lemma_text_roundtrip(max_len, cfg.strict, s),
        Value::ObjectPath(s) => lemma_text_roundtrip(max_len, cfg.strict, s),
        Value::Signature(s) => lemma_text_roundtrip(max_len, cfg.strict, s),
        _ => {},
    }
}

/// A variant is read back, where what it carries is read back.
pub proof fn lemma_roundtrip_variant(cfg: Config, room: nat, inner: Value)
    requires
        room > 0,
        typed(TypeSpec::Variant, Value::Variant(Box::new(inner))),
        decode_spec(
            cfg,
            (room - 1) as nat,
            type_of(inner),
            encode_spec(cfg.network_endian, type_of(inner), inner),
        ) == Ok::<Value, Error>(inner),
    ensures
        decode_spec(
            cfg,
            room,
            TypeSpec::Variant,
            encode_spec(cfg.network_endian, TypeSpec::Variant, Value::Variant(Box::new(inner))),
        ) == Ok::<Value, Error>(Value::Variant(Box::new(inner))),
{
    let big = cfg.network_endian;
    let b = encode_spec(big, TypeSpec::Variant, Value::Variant(Box::new(inner)));
    let carried = type_of(inner);
    let payload = encode_spec(big, carried, inner);
    let signature = signature_of(carried);
    lemma_signature_bytes(carried);
    assert forall|i: int| 0 <= i < signature.len() implies #[trigger] signature[i] != 0 by {
        assert(is_signature_byte(signature[i]));
    }
    assert(b.skip(payload.len() as int + 1) =~= signature);
    assert(b.take(payload.len() as int) =~= payload);
    lemma_last_zero_is(b, payload.len());
    lemma_signature_roundtrip(carried);
    lemma_decode_variant(cfg, room, b);
}

/// A maybe is read back, where what it holds is read back.
pub proof fn lemma_roundtrip_maybe(cfg: Config, room: nat, t: TypeSpec, v: Value)
    requires
        fits(t),
        typed(t, v),
        v is Maybe,
        v->Maybe_0 is Some ==> decode_spec(
            cfg,
            room,
            inner_type(t),
            encode_spec(cfg.network_endian, inner_type(t), *v->Maybe_0->0),
        ) == Ok::<Value, Error>(*v->Maybe_0->0),
    ensures
        decode_spec(cfg, room, t, encode_spec(cfg.network_endian, t, v)) == Ok::<Value, Error>(v),
{
    let big = cfg.network_endian;
    let b = encode_spec(big, t, v);
    lemma_decode_maybe(cfg, room, t, b);
    match v {
        Value::Maybe(Some(inner)) => {
            let held = inner_type(t);
            let payload = encode_spec(big, held, *inner);
            if is_fixed(held) {
                lemma_encoded_fixed(big, held, *inner);
                lemma_fixed_size(held);
                assert(b.take(b.len() as int) =~= payload);
            } else {
                assert(b.take(b.len() - 1) =~= payload);
            }
        },
        _ => {},
    }
}

/// What is written is read back: decoding the encoding of a value of a type
/// gives the value, for every value whose strings can stand on the wire,
/// whose variants stand no deeper inside one another than there is room for,
/// and whose encoding is shorter than `radix(8)` bytes.
pub proof fn lemma_roundtrip(cfg: Config, room: nat, t: TypeSpec, v: Value)
    requires
        fits(t),
        typed(t, v),
        storable(cfg.max_string_len as nat, v),
        shallow(room, v),
        encode_spec(cfg.network_endian, t, v).len() < radix(8),
    ensures
        decode_spec(cfg, room, t, encode_spec(cfg.network_endian, t, v)) == Ok::<Value, Error>(v),
    decreases v,
{
    let big = cfg.network_endian;
    let b = encode_spec(big, t, v);
    match v {
        Value::Variant(inner) => {
            lemma_roundtrip(cfg, (room - 1) as nat, type_of(*inner), *inner);
            lemma_roundtrip_variant(cfg, room, *inner);
        },
        Value::Maybe(None) => {
            lemma_roundtrip_maybe(cfg, room, t, v);
        },
        Value::Maybe(Some(inner)) => {
            lemma_roundtrip(cfg, room, inner_type(t), *inner);
            lemma_roundtrip_maybe(cfg, room, t, v);
        },
        Value::Array(items) => {
            let e = inner_type(t);
            assert forall|i: int| 0 <= i < items.len() implies decode_spec(
                cfg,
                room,
                e,
                encode_spec(big, e, #[trigger] items[i]),
            ) == Ok::<Value, Error>(items[i]) by {
                lemma_item_shorter(array_items(big, e, items), i);
                lemma_roundtrip(cfg, room, e, items[i]);
            }
            lemma_array_roundtrip(cfg, room, e, items);
            lemma_decode_array(cfg, room, t, b);
        },
        Value::Dictionary(entries) => {
            let e = inner_type(t);
            assert forall|i: int| 0 <= i < entries.len() implies decode_spec(
                cfg,
                room,
                e,
                encode_spec(big, e, #[trigger] entries[i]),
            ) == Ok::<Value, Error>(entries[i]) by {
                lemma_item_shorter(array_items(big, e, entries), i);
                lemma_roundtrip(cfg, room, e, entries[i]);
            }
            lemma_array_roundtrip(cfg, room, e, entries);
            lemma_decode_array(cfg, room, t, b);
        },
        Value::Structure(fields) => {
            let ts = field_types(t);
            assert forall|i: int| 0 <= i < fields.len() implies decode_spec(
                cfg,
                room,
                ts[i],
                encode_spec(big, ts[i], #[trigger] fields[i]),
            ) == Ok::<Value, Error>(fields[i]) by {
                lemma_item_shorter(tuple_items(big, ts, fields), i);
                lemma_all_fit_index(ts, i);
                lemma_roundtrip(cfg, room, ts[i], fields[i]);
            }
            lemma_tuple_roundtrip(cfg, room, ts, fields);
            lemma_decode_structure(cfg, room, t, b);
        },
        Value::I16(_) | Value::I32(_) | Value::I64(_) => lemma_roundtrip_signed(cfg, room, t, v),
        Value::String(_) | Value::ObjectPath(_) | Value::Signature(_) => lemma_roundtrip_text(
            cfg,
            room,
            t,
            v,
        ),
        _ => lemma_roundtrip_unsigned(cfg, room, t, v),
    }
}

} // verus!
