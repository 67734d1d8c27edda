//! The layout that arrays and structures share: items put one behind the
//! other, each on its alignment, and a table of framing offsets at the tail.

use crate::offsets::{align_up, lemma_padding, padding, table, table_width, zeros};
use crate::types::larger;
use vstd::prelude::*;

verus! {

/// One item of a container: its bytes and the two properties of its type.
pub struct Item {
    /// The alignment of the item's type.
    pub align: nat,
    /// Whether the item's type has a fixed size.
    pub fixed: bool,
    /// The encoding of the item.
    pub bytes: Seq<u8>,
}

/// The items one behind the other, with zero bytes between them where the next
/// item would otherwise start off its alignment.
pub open spec fn body(items: Seq<Item>) -> Seq<u8>
    decreases items.len(),
{
    if items.len() == 0 {
        Seq::empty()
    } else {
        let before = body(items.drop_last());
        before + zeros(padding(before.len(), items.last().align)) + items.last().bytes
    }
}

/// Where the first `k` items end.
pub open spec fn end_of(items: Seq<Item>, k: int) -> nat {
    body(items.take(k)).len()
}

/// Where item `i` starts.
pub open spec fn start_of(items: Seq<Item>, i: int) -> nat {
    align_up(end_of(items, i), items[i].align)
}

/// The ends of those of the first `k` items that have no fixed size.
pub open spec fn marks(items: Seq<Item>, k: int) -> Seq<nat>
    decreases k,
{
    if k <= 0 || k > items.len() {
        Seq::empty()
    } else if items[k - 1].fixed {
        marks(items, k - 1)
    } else {
        marks(items, k - 1).push(end_of(items, k))
    }
}

/// Whether each of the items has a fixed size.
pub open spec fn all_fixed(items: Seq<Item>) -> bool {
    forall|i: int| 0 <= i < items.len() ==> (#[trigger] items[i]).fixed
}

/// The largest alignment among the items, and at least 1.
pub open spec fn widest(items: Seq<Item>) -> nat
    decreases items.len(),
{
    if items.len() == 0 {
        1
    } else {
        larger(widest(items.drop_last()), items.last().align)
    }
}

/// The encoding of an array: nothing for no items; the items alone where they
/// have a fixed size; else the items and the end of each, in order.
pub open spec fn array_frame(items: Seq<Item>) -> Seq<u8> {
    if items.len() == 0 {
        Seq::empty()
    } else if items[0].fixed {
        body(items)
    } else {
        let b = body(items);
        let ends = marks(items, items.len() as int);
        b + table(ends, table_width(b.len(), ends.len()))
    }
}

/// The encoding of a structure: a single zero byte for no fields; for fields
/// of fixed size the fields and the zero bytes that bring the whole to a
/// multiple of its alignment; else the fields and the ends of the fields
/// without a fixed size other than the last field, last end first.
pub open spec fn tuple_frame(items: Seq<Item>) -> Seq<u8> {
    if items.len() == 0 {
        seq![0u8]
    } else if all_fixed(items) {
        let b = body(items);
        b + zeros(padding(b.len(), widest(items)))
    } else {
        let b = body(items);
        let ends = marks(items, items.len() - 1);
        b + table(ends.reverse(), table_width(b.len(), ends.len()))
    }
}

/// The encoding of a maybe: nothing for no value; else the value, closed by a
/// zero byte unless its type has a fixed size.
pub open spec fn maybe_frame(item: Option<Item>) -> Seq<u8> {
    match item {
        None => Seq::empty(),
        Some(item) => if item.fixed {
            item.bytes
        } else {
            item.bytes + seq![0u8]
        },
    }
}

/// The encoding of a variant: the value it carries, a zero byte, and the
/// signature of the value's type.
pub open spec fn variant_frame(payload: Seq<u8>, signature: Seq<u8>) -> Seq<u8> {
    payload + seq![0u8] + signature
}

/// Whether `a` is the front of `b`.
pub open spec fn is_front(a: Seq<u8>, b: Seq<u8>) -> bool {
    a.len() <= b.len() && b.take(a.len() as int) == a
}

/// The front of a front is a front.
pub proof fn lemma_front_chain(a: Seq<u8>, b: Seq<u8>, c: Seq<u8>)
    requires
        is_front(a, b),
        is_front(b, c),
    ensures
        is_front(a, c),
{
    assert(c.take(a.len() as int) =~= c.take(b.len() as int).take(a.len() as int));
}

/// How the body grows by one item.
pub proof fn lemma_body_step(items: Seq<Item>, k: int)
    requires
        0 <= k < items.len(),
    ensures
        body(items.take(k + 1)) == body(items.take(k)) + zeros(
            padding(end_of(items, k), items[k].align),
        ) + items[k].bytes,
        end_of(items, k + 1) == start_of(items, k) + items[k].bytes.len(),
        end_of(items, k) <= start_of(items, k),
        is_front(body(items.take(k)), body(items.take(k + 1))),
{
    assert(items.take(k + 1).drop_last() =~= items.take(k));
    assert(items.take(k + 1).last() == items[k]);
    let a = body(items.take(k));
    let b = body(items.take(k + 1));
    assert(b.take(a.len() as int) =~= a);
}

/// The body of the first `k` items is the front of the body of them all.
pub proof fn lemma_body_front(items: Seq<Item>, k: int)
    requires
        0 <= k <= items.len(),
    ensures
        is_front(body(items.take(k)), body(items)),
        end_of(items, k) <= body(items).len(),
    decreases items.len() - k,
{
    if k == items.len() {
        assert(items.take(k) =~= items);
        assert(body(items).take(body(items).len() as int) =~= body(items));
    } else {
        lemma_body_step(items, k);
        lemma_body_front(items, k + 1);
        lemma_front_chain(body(items.take(k)), body(items.take(k + 1)), body(items));
    }
}

/// The ends of the items do not fall back.
pub proof fn lemma_end_of_monotonic(items: Seq<Item>, j: int, k: int)
    requires
        0 <= j <= k <= items.len(),
    ensures
        end_of(items, j) <= end_of(items, k),
    decreases k - j,
{
    if j < k {
        lemma_body_step(items, k - 1);
        lemma_end_of_monotonic(items, j, k - 1);
    }
}

/// In any window that starts with the body of the items, item `i` stands
/// between its start and its end.
pub proof fn lemma_item_window(items: Seq<Item>, i: int, window: Seq<u8>)
    requires
        0 <= i < items.len(),
        is_front(body(items), window),
    ensures
        end_of(items, i) <= start_of(items, i) <= end_of(items, i + 1) <= body(items).len(),
        window.subrange(start_of(items, i) as int, end_of(items, i + 1) as int)
            == items[i].bytes,
{
    lemma_body_step(items, i);
    lemma_body_front(items, i + 1);
    let part = body(items.take(i + 1));
    lemma_front_chain(part, body(items), window);
    let lo = start_of(items, i) as int;
    let hi = end_of(items, i + 1) as int;
    assert(window.subrange(lo, hi) =~= window.take(part.len() as int).subrange(lo, hi));
    assert(part.subrange(lo, hi) =~= items[i].bytes);
}

/// The padding between the items is made of zero bytes, and every item
/// starts on its alignment.
pub proof fn lemma_start_aligned(items: Seq<Item>, i: int)
    requires
        0 <= i < items.len(),
        items[i].align >= 1,
    ensures
        start_of(items, i) % items[i].align == 0,
{
    lemma_padding(end_of(items, i), items[i].align);
}

/// There are at most as many marks as items, and none lies behind the end
/// of the items that it is taken from.
pub proof fn lemma_marks(items: Seq<Item>, k: int)
    requires
        0 <= k <= items.len(),
    ensures
        marks(items, k).len() <= k,
        forall|j: int|
            0 <= j < marks(items, k).len() ==> #[trigger] marks(items, k)[j] <= end_of(items, k),
    decreases k,
{
    if k > 0 {
        lemma_marks(items, k - 1);
        lemma_body_step(items, k - 1);
    }
}

/// The marks of the first `j` items are the first marks of the first `k`.
pub proof fn lemma_marks_front(items: Seq<Item>, j: int, k: int)
    requires
        0 <= j <= k <= items.len(),
    ensures
        marks(items, j).len() <= marks(items, k).len(),
        marks(items, k).take(marks(items, j).len() as int) == marks(items, j),
    decreases k - j,
{
    if j == k {
        assert(marks(items, k).take(marks(items, k).len() as int) =~= marks(items, k));
    } else {
        lemma_marks_front(items, j, k - 1);
        assert(marks(items, k).take(marks(items, j).len() as int) =~= marks(items, k - 1).take(
            marks(items, j).len() as int,
        ));
    }
}

/// Where no item has a fixed size, every item has its mark.
pub proof fn lemma_marks_all(items: Seq<Item>, k: int)
    requires
        0 <= k <= items.len(),
        forall|i: int| 0 <= i < items.len() ==> !(#[trigger] items[i]).fixed,
    ensures
        marks(items, k).len() == k,
        forall|j: int| 0 <= j < k ==> #[trigger] marks(items, k)[j] == end_of(items, j + 1),
    decreases k,
{
    if k > 0 {
        lemma_marks_all(items, k - 1);
    }
}

/// Where item `i` has no fixed size, its end is the mark that follows the
/// marks of the items before it.
pub proof fn lemma_mark_of(items: Seq<Item>, i: int, k: int)
    requires
        0 <= i < k <= items.len(),
        !items[i].fixed,
    ensures
        marks(items, i).len() < marks(items, k).len(),
        marks(items, k)[marks(items, i).len() as int] == end_of(items, i + 1),
{
    lemma_marks_front(items, i + 1, k);
    let upto = marks(items, i + 1);
    assert(marks(items, k).take(upto.len() as int)[marks(items, i).len() as int] == marks(
        items,
        k,
    )[marks(items, i).len() as int]);
}

/// The marks of the first `k` items do not depend on the items behind them.
pub proof fn lemma_marks_push(items: Seq<Item>, item: Item, k: int)
    requires
        0 <= k <= items.len(),
    ensures
        marks(items.push(item), k) == marks(items, k),
        end_of(items.push(item), k) == end_of(items, k),
    decreases k,
{
    assert(items.push(item).take(k) =~= items.take(k));
    if k > 0 {
        lemma_marks_push(items, item, k - 1);
    }
}

/// How body, marks and widest alignment grow by one item.
pub proof fn lemma_push_item(items: Seq<Item>, item: Item)
    ensures
        body(items.push(item)) == body(items) + zeros(padding(body(items).len(), item.align))
            + item.bytes,
        end_of(items.push(item), (items.len() + 1) as int) == body(items.push(item)).len(),
        widest(items.push(item)) == larger(widest(items), item.align),
        all_fixed(items.push(item)) == (all_fixed(items) && item.fixed),
        marks(items.push(item), items.len() as int) == marks(items, items.len() as int),
        marks(items.push(item), (items.len() + 1) as int) == if item.fixed {
            marks(items, items.len() as int)
        } else {
            marks(items, items.len() as int).push(body(items.push(item)).len())
        },
{
    let more = items.push(item);
    assert(more.drop_last() =~= items);
    assert(more.take((items.len() + 1) as int) =~= more);
    lemma_marks_push(items, item, items.len() as int);
    if all_fixed(items) && item.fixed {
        assert forall|i: int| 0 <= i < more.len() implies (#[trigger] more[i]).fixed by {
            if i < items.len() {
                assert(items[i].fixed);
            }
        }
    }
    if all_fixed(more) {
        assert(more[items.len() as int].fixed);
        assert forall|i: int| 0 <= i < items.len() implies (#[trigger] items[i]).fixed by {
            assert(more[i].fixed);
        }
    }
}

} // verus!
