//! Framing offsets: how wide they are, where they sit, and the padding that
//! keeps every item on its alignment.

use crate::endian::{
    get_uint, le_bytes, le_value, lemma_le_bytes_len, lemma_le_value_of_bytes, radix,
};
use crate::errors::Error;
use vstd::prelude::*;
use vstd::slice::slice_subrange;

verus! {

/// The number of bytes of each framing offset in a container of `len` bytes:
/// the smallest of 1, 2, 4 and 8 in which `len` fits.
pub open spec fn offset_width(len: nat) -> nat {
    if len <= 0xff {
        1
    } else if len <= 0xffff {
        2
    } else if len <= 0xffff_ffff {
        4
    } else {
        8
    }
}

/// The number of zero bytes to put at `pos` so that what follows starts on a
/// multiple of `align`: `(align - pos mod align) mod align`.
pub open spec fn padding(pos: nat, align: nat) -> nat {
    if align <= 1 || pos % align == 0 {
        0
    } else {
        (align - pos % align) as nat
    }
}

/// The first multiple of `align` at or after `pos`.
pub open spec fn align_up(pos: nat, align: nat) -> nat {
    pos + padding(pos, align)
}

/// `n` zero bytes.
pub open spec fn zeros(n: nat) -> Seq<u8> {
    Seq::new(n, |i: int| 0u8)
}

/// The width of the offsets of a container that holds `body` bytes of items and
/// `n` offsets: the smallest width in which the length of the whole fits.
pub open spec fn table_width(body: nat, n: nat) -> nat {
    if body + n <= 0xff {
        1
    } else if body + 2 * n <= 0xffff {
        2
    } else if body + 4 * n <= 0xffff_ffff {
        4
    } else {
        8
    }
}

/// The offsets of a table, each in `w` bytes, least significant byte first, one
/// after the other.
pub open spec fn table(offsets: Seq<nat>, w: nat) -> Seq<u8>
    decreases offsets.len(),
{
    if offsets.len() == 0 {
        Seq::empty()
    } else {
        table(offsets.drop_last(), w) + le_bytes(offsets.last(), w)
    }
}

/// The framing offset that sits `slot` places before the end of `window`, the
/// last one being place 0.
pub open spec fn slot_value(window: Seq<u8>, slot: nat) -> nat {
    let w = offset_width(window.len());
    let hi = window.len() - slot * w;
    le_value(window.subrange(hi - w, hi))
}

/// Whether `window` is long enough to hold `count` framing offsets.
pub open spec fn slots_fit(window: Seq<u8>, count: nat) -> bool {
    count * offset_width(window.len()) <= window.len()
}

/// Padding is shorter than the alignment and brings to a multiple of it; a
/// place on a multiple needs none.
pub proof fn lemma_padding(pos: nat, align: nat)
    requires
        align >= 1,
    ensures
        padding(pos, align) < align,
        align_up(pos, align) % align == 0,
        pos % align == 0 ==> padding(pos, align) == 0,
{
    if align > 1 {
        let r = pos % align;
        if r != 0 {
            assert((pos + (align - r)) % (align as int) == 0) by (nonlinear_arith)
                requires
                    r == pos % align,
                    0 < r < align,
            ;
        }
    } else {
        assert(pos % 1 == 0);
    }
}

/// A position on a multiple of `big` is on a multiple of every `small` that
/// divides `big`.
pub proof fn lemma_aligned_divisor(pos: nat, big: nat, small: nat)
    requires
        small >= 1,
        big % small == 0,
        big >= 1,
        pos % big == 0,
    ensures
        pos % small == 0,
{
    assert(pos % small == 0) by (nonlinear_arith)
        requires
            small >= 1,
            big >= 1,
            big % small == 0,
            pos % big == 0,
    {
        let k = pos / big;
        let m = big / small;
        assert(pos == k * big);
        assert(big == m * small);
        assert(pos == (k * m) * small);
    }
}

/// The width chosen when writing a table is the width found when reading it.
pub proof fn lemma_table_width(body: nat, n: nat)
    ensures
        offset_width(body + n * table_width(body, n)) == table_width(body, n),
        table_width(body, n) == 1 || table_width(body, n) == 2 || table_width(body, n) == 4
            || table_width(body, n) == 8,
{
}

/// A table takes as many bytes as it has offsets, times their width.
pub proof fn lemma_table_len(offsets: Seq<nat>, w: nat)
    ensures
        table(offsets, w).len() == offsets.len() * w,
    decreases offsets.len(),
{
    if offsets.len() > 0 {
        lemma_table_len(offsets.drop_last(), w);
        lemma_le_bytes_len(offsets.last(), w);
        assert(offsets.drop_last().len() * w + w == offsets.len() * w) by (nonlinear_arith)
            requires
                offsets.drop_last().len() + 1 == offsets.len(),
        ;
    } else {
        assert(offsets.len() * w == 0) by (nonlinear_arith)
            requires
                offsets.len() == 0,
        ;
    }
}

/// The `i`-th entry of a table is the spelling of the `i`-th offset.
pub proof fn lemma_table_entry(offsets: Seq<nat>, w: nat, i: int)
    requires
        0 <= i < offsets.len(),
    ensures
        (i + 1) * w <= table(offsets, w).len(),
        table(offsets, w).subrange(i * w, (i + 1) * w) == le_bytes(offsets[i], w),
    decreases offsets.len(),
{
    let t = table(offsets, w);
    let front = table(offsets.drop_last(), w);
    lemma_table_len(offsets, w);
    lemma_table_len(offsets.drop_last(), w);
    lemma_le_bytes_len(offsets.last(), w);
    let n = offsets.len() as int;
    assert((n - 1) * w + w == n * w) by (nonlinear_arith);
    if i == n - 1 {
        assert(t.subrange(i * w, (i + 1) * w) =~= le_bytes(offsets[i], w));
    } else {
        lemma_table_entry(offsets.drop_last(), w, i);
        assert((i + 1) * w <= (n - 1) * w) by (nonlinear_arith)
            requires
                i + 1 <= n - 1,
                w >= 0,
        ;
        assert(0 <= i * w) by (nonlinear_arith)
            requires
                0 <= i,
                w >= 0,
        ;
        assert(i * w <= (i + 1) * w) by (nonlinear_arith)
            requires
                w >= 0,
        ;
        assert(t.subrange(i * w, (i + 1) * w) =~= front.subrange(i * w, (i + 1) * w));
    }
}

/// Behind any `body`, the offset read at a place from the end of a table is the
/// offset that was written there.
pub proof fn lemma_slot_of_table(body: Seq<u8>, offsets: Seq<nat>, slot: nat)
    requires
        slot < offsets.len(),
        offsets[offsets.len() - 1 - slot] < radix(table_width(body.len(), offsets.len())),
    ensures
        slot_value(body + table(offsets, table_width(body.len(), offsets.len())), slot)
            == offsets[offsets.len() - 1 - slot],
        slots_fit(body + table(offsets, table_width(body.len(), offsets.len())), offsets.len()),
{
    let n = offsets.len();
    let w = table_width(body.len(), n);
    let t = table(offsets, w);
    let window = body + t;
    let i = (n - 1 - slot) as int;
    lemma_table_width(body.len(), n);
    lemma_table_len(offsets, w);
    lemma_table_entry(offsets, w, i);
    assert(window.len() == body.len() + n * w);
    assert(offset_width(window.len()) == w);
    let hi = window.len() - slot * w;
    assert(hi - w == body.len() + i * w && hi == body.len() + (i + 1) * w) by (nonlinear_arith)
        requires
            hi == body.len() + n * w - slot * w,
            i == n - 1 - slot,
    ;
    assert(0 <= i * w) by (nonlinear_arith)
        requires
            0 <= i,
            w >= 0,
    ;
    assert(i * w <= (i + 1) * w) by (nonlinear_arith)
        requires
            w >= 0,
    ;
    assert(window.subrange(hi - w, hi) =~= t.subrange(i * w, (i + 1) * w));
    lemma_le_value_of_bytes(offsets[i], w);
}

/// Computes the width of the framing offsets of a container of `len` bytes.
pub fn compute_size(len: u64) -> (size: u64)
    ensures
        size as nat == offset_width(len as nat),
        size == 1 || size == 2 || size == 4 || size == 8,
{
    if len <= 0xff {
        1
    } else if len <= 0xffff {
        2
    } else if len <= 0xffff_ffff {
        4
    } else {
        8
    }
}

/// Computes the width of the framing offsets of a container that holds `body`
/// bytes of items and `n` offsets.
pub fn choose_width(body: u64, n: u64) -> (size: u64)
    ensures
        size as nat == table_width(body as nat, n as nat),
        size == 1 || size == 2 || size == 4 || size == 8,
{
    let b: u128 = body as u128;
    let k: u128 = n as u128;
    if b + k <= 0xff {
        1
    } else if b + 2 * k <= 0xffff {
        2
    } else if b + 4 * k <= 0xffff_ffff {
        4
    } else {
        8
    }
}

/// Computes the number of padding bytes that bring `pos` to a multiple of
/// `alignment`; none for an alignment of 0 or 1.
pub fn padding_for(pos: u64, alignment: u64) -> (pad: u64)
    ensures
        pad as nat == padding(pos as nat, alignment as nat),
        alignment >= 1 ==> pad < alignment,
{
    if alignment <= 1 {
        0
    } else {
        let r = pos % alignment;
        assert((alignment - r) % (alignment as int) == if r == 0 {
            0
        } else {
            alignment - r
        }) by (nonlinear_arith)
            requires
                0 <= r < alignment,
        ;
        (alignment - r) % alignment
    }
}

/// Reads the framing offset that sits `slot` places before the end of `window`
/// (the last one is place 0), and says how wide the offsets of this window are.
///
/// Fails with `UnexpectedEof` exactly when the window is too short to hold
/// `slot + 1` offsets.
pub fn read_len(window: &[u8], slot: usize) -> (r: Result<(u64, u64), Error>)
    ensures
        match r {
            Ok((val, size)) => {
                &&& slots_fit(window@, (slot + 1) as nat)
                &&& size as nat == offset_width(window@.len())
                &&& val as nat == slot_value(window@, slot as nat)
            },
            Err(e) => e == Error::UnexpectedEof && !slots_fit(window@, (slot + 1) as nat),
        },
{
    let len = window.len();
    let w = compute_size(len as u64) as usize;
    let fit = len / w;
    assert(slot < fit <==> (slot + 1) * w <= len) by (nonlinear_arith)
        requires
            fit == len / w,
            w == 1 || w == 2 || w == 4 || w == 8,
    ;
    if slot >= fit {
        return Err(Error::UnexpectedEof);
    }
    assert(slot * w + w == (slot + 1) * w && 0 <= slot * w) by (nonlinear_arith);
    let hi = len - slot * w;
    let lo = hi - w;
    let piece = slice_subrange(window, lo, hi);
    assert(piece@.take(w as int) =~= window@.subrange(lo as int, hi as int));
    let val = get_uint(false, piece, w);
    Ok((val, w as u64))
}

} // verus!
