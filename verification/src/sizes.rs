//! Sizes: the length of an encoding is what the type and the value foretell.

use crate::de::count_variable;
use crate::endian::lemma_uint_bytes_len;
use crate::frame::{all_fixed, body, marks, widest, Item};
use crate::ser::{encode_spec, field_types, tuple_items, twos};
use crate::types::{
    align_of, fields_end, fixed_size, is_fixed, lemma_fields_end_take, max_align, TypeSpec,
};
use crate::variant::{typed, Value};
use vstd::prelude::*;

verus! {

/// Whether the items are laid out as the types `ts` ask: item by item the
/// alignment and the fixedness of the type.
pub open spec fn items_follow(items: Seq<Item>, ts: Seq<TypeSpec>) -> bool {
    &&& items.len() == ts.len()
    &&& forall|i: int|
        0 <= i < items.len() ==> (#[trigger] items[i]).align == align_of(ts[i]) && items[i].fixed
            == is_fixed(ts[i])
}

/// Whether the item takes the fixed size of the type.
pub open spec fn sized(item: Item, t: TypeSpec) -> bool {
    fixed_size(t) == Some(item.bytes.len())
}

/// Whether each item takes the fixed size of its type.
pub open spec fn items_sized(items: Seq<Item>, ts: Seq<TypeSpec>) -> bool {
    forall|i: int| 0 <= i < items.len() ==> #[trigger] sized(items[i], ts[i])
}

/// The widest of the items is the alignment of the structure.
pub proof fn lemma_widest(items: Seq<Item>, ts: Seq<TypeSpec>)
    requires
        items_follow(items, ts),
    ensures
        widest(items) == max_align(ts),
    decreases items.len(),
{
    if items.len() > 0 {
        assert(items.last().align == align_of(ts.last()));
        assert forall|i: int| 0 <= i < items.drop_last().len() implies (
        #[trigger] items.drop_last()[i]).align == align_of(ts.drop_last()[i])
            && items.drop_last()[i].fixed == is_fixed(ts.drop_last()[i]) by {
            assert(items[i].align == align_of(ts[i]));
        }
        lemma_widest(items.drop_last(), ts.drop_last());
    }
}

/// Fields of fixed size end where their types say.
pub proof fn lemma_body_fixed(items: Seq<Item>, ts: Seq<TypeSpec>)
    requires
        items_follow(items, ts),
        fields_end(ts) is Some,
        items_sized(items, ts),
    ensures
        body(items).len() == fields_end(ts)->0,
        all_fixed(items),
    decreases items.len(),
{
    if items.len() > 0 {
        let front = items.drop_last();
        let front_types = ts.drop_last();
        assert(items.last().align == align_of(ts.last()));
        assert forall|i: int| 0 <= i < front.len() implies (#[trigger] front[i]).align == align_of(
            front_types[i],
        ) && front[i].fixed == is_fixed(front_types[i]) by {
            assert(items[i].align == align_of(ts[i]));
        }
        assert(sized(items[items.len() - 1], ts[items.len() - 1]));
        assert forall|i: int| 0 <= i < front.len() implies #[trigger] sized(
            front[i],
            front_types[i],
        ) by {
            assert(sized(items[i], ts[i]));
        }
        lemma_body_fixed(front, front_types);
    }
    assert forall|i: int| 0 <= i < items.len() implies (#[trigger] items[i]).fixed by {
        assert(items[i].fixed == is_fixed(ts[i]));
        assert(sized(items[i], ts[i]));
    }
}

/// The items that typed fields make follow the field types.
pub proof fn lemma_tuple_items_follow(big: bool, ts: Seq<TypeSpec>, vs: Seq<Value>)
    requires
        ts.len() == vs.len(),
    ensures
        items_follow(tuple_items(big, ts, vs), ts),
        forall|i: int|
            0 <= i < vs.len() ==> (#[trigger] tuple_items(big, ts, vs)[i]).bytes == encode_spec(
                big,
                ts[i],
                vs[i],
            ),
{
}

/// A value whose type has a fixed size takes exactly that many bytes.
pub proof fn lemma_encoded_fixed(big: bool, t: TypeSpec, v: Value)
    requires
        typed(t, v),
        fixed_size(t) is Some,
    ensures
        encode_spec(big, t, v).len() == fixed_size(t)->0,
    decreases v,
{
    match v {
        Value::U16(x) => lemma_uint_bytes_len(big, x as nat, 2),
        Value::U32(x) => lemma_uint_bytes_len(big, x as nat, 4),
        Value::U64(x) => lemma_uint_bytes_len(big, x as nat, 8),
        Value::I16(x) => lemma_uint_bytes_len(big, twos(x as int, 2), 2),
        Value::I32(x) => lemma_uint_bytes_len(big, twos(x as int, 4), 4),
        Value::I64(x) => lemma_uint_bytes_len(big, twos(x as int, 8), 8),
        Value::F64(x) => lemma_uint_bytes_len(big, x as nat, 8),
        Value::Structure(vs) => {
            let ts = field_types(t);
            let items = tuple_items(big, ts, vs);
            lemma_tuple_items_follow(big, ts, vs);
            if vs.len() > 0 {
                assert forall|i: int| 0 <= i < items.len() implies #[trigger] sized(
                    items[i],
                    ts[i],
                ) by {
                    lemma_fields_end_take(ts, i);
                    assert(typed(ts[i], vs[i]));
                    lemma_encoded_fixed(big, ts[i], vs[i]);
                }
                lemma_body_fixed(items, ts);
                lemma_widest(items, ts);
            }
        },
        _ => {},
    }
}

/// As many of the first `k` items have a mark as of the first `k` types have
/// no fixed size.
pub proof fn lemma_marks_count(items: Seq<Item>, ts: Seq<TypeSpec>, k: int)
    requires
        items_follow(items, ts),
        0 <= k <= items.len(),
    ensures
        marks(items, k).len() == count_variable(ts.take(k)),
    decreases k,
{
    if k > 0 {
        lemma_marks_count(items, ts, k - 1);
        assert(ts.take(k).drop_last() =~= ts.take(k - 1));
        assert(ts.take(k).last() == ts[k - 1]);
        assert(items[k - 1].fixed == is_fixed(ts[k - 1]));
    }
}

} // verus!
