//! Windows: where, in the bytes of a container, each of its items stands.
//!
//! Every function here works on the window of one container, a slice that
//! holds exactly its bytes, and answers with positions inside that window.

use crate::errors::Error;
use crate::offsets::{
    align_up, compute_size, offset_width, padding_for, read_len, slot_value, slots_fit,
};
use crate::text::{find_last_zero, last_zero};
use vstd::prelude::*;

verus! {

/// Where the table of `slots` framing offsets starts in `b`; 0 where `b` is
/// too short to hold it.
pub open spec fn table_start(b: Seq<u8>, slots: nat) -> nat {
    if slots * offset_width(b.len()) <= b.len() {
        (b.len() - slots * offset_width(b.len())) as nat
    } else {
        0
    }
}

/// How many elements the array in `b` has, given the fixed size of its
/// element type, if that has one.
///
/// With a fixed size, as many as fit. Without, as many as the table has
/// offsets: the table starts where the last element ends, which its last
/// offset tells; no elements make no bytes.
pub open spec fn array_count(b: Seq<u8>, fixed: Option<nat>) -> Result<nat, Error> {
    match fixed {
        Some(size) => if size == 0 {
            Err(Error::UnsupportedShape)
        } else {
            Ok(b.len() / size)
        },
        None => if b.len() == 0 {
            Ok(0)
        } else {
            let w = offset_width(b.len());
            let last = slot_value(b, 0);
            if last > b.len() - w {
                Err(Error::OffsetOverflow)
            } else if (b.len() - last) % (w as int) != 0 {
                Err(Error::OffsetOverflow)
            } else {
                Ok(((b.len() - last) / (w as int)) as nat)
            }
        },
    }
}

/// Where element `i` of the `count` elements of the array in `b` starts and
/// ends.
///
/// With a fixed size the elements stand one behind the other. Without, an
/// element starts on its alignment behind the end of the one before, and ends
/// where its offset says: `LengthUnderflow` where that is before its start,
/// `OffsetOverflow` where it is behind the start of the table. An element
/// or a table that does not fit in `b` is an `UnexpectedEof`.
pub open spec fn element_window(
    b: Seq<u8>,
    align: nat,
    fixed: Option<nat>,
    count: nat,
    i: nat,
) -> Result<(nat, nat), Error> {
    match fixed {
        Some(size) => if (i + 1) * size > b.len() {
            Err(Error::UnexpectedEof)
        } else {
            Ok((i * size, (i + 1) * size))
        },
        None => if i >= count || !slots_fit(b, count) {
            Err(Error::UnexpectedEof)
        } else {
            let before = if i == 0 {
                0
            } else {
                slot_value(b, (count - i) as nat)
            };
            let end = slot_value(b, (count - 1 - i) as nat);
            let start = align_up(before, align);
            if end < start {
                Err(Error::LengthUnderflow)
            } else if end > table_start(b, count) {
                Err(Error::OffsetOverflow)
            } else {
                Ok((start, end))
            }
        },
    }
}

/// Where the next field of the structure in `b` starts and ends, and how
/// many framing offsets have been used once it is read.
///
/// `slots` is the number of framing offsets of the structure, `pos` the end
/// of the field before, `used` the number of offsets used so far. The field
/// starts on its alignment. With a fixed size it ends that many bytes on; the
/// last field ends where the table starts; any other field ends where the next
/// unused offset says. What does not fit before the table is an
/// `UnexpectedEof`; an offset before the start of its field is a
/// `LengthUnderflow`, one behind the start of the table an `OffsetOverflow`.
pub open spec fn field_window(
    b: Seq<u8>,
    align: nat,
    fixed: Option<nat>,
    last: bool,
    slots: nat,
    pos: nat,
    used: nat,
) -> Result<(nat, nat, nat), Error> {
    let limit = table_start(b, slots);
    let start = align_up(pos, align);
    if pos > b.len() {
        Err(Error::UnexpectedEof)
    } else {
        match fixed {
            Some(size) => if start + size > limit {
                Err(Error::UnexpectedEof)
            } else {
                Ok((start, start + size, used))
            },
            None => if last {
                if start > limit {
                    Err(Error::UnexpectedEof)
                } else {
                    Ok((start, limit, used))
                }
            } else if used >= slots || !slots_fit(b, slots) {
                Err(Error::UnexpectedEof)
            } else {
                let end = slot_value(b, used);
                if end < start {
                    Err(Error::LengthUnderflow)
                } else if end > limit {
                    Err(Error::OffsetOverflow)
                } else {
                    Ok((start, end, used + 1))
                }
            },
        }
    }
}

/// Where the value of the maybe in `b` ends, if there is one: no bytes hold
/// no value; a value of fixed size takes all the bytes; any other value is
/// followed by one zero byte.
pub open spec fn maybe_window(b: Seq<u8>, fixed: bool) -> Result<Option<nat>, Error> {
    if b.len() == 0 {
        Ok(None)
    } else if fixed {
        Ok(Some(b.len()))
    } else if b.last() != 0 {
        Err(Error::InvalidTerminator)
    } else {
        Ok(Some((b.len() - 1) as nat))
    }
}

/// Where the value carried by the variant in `b` ends: at the last zero byte,
/// behind which the signature stands.
pub open spec fn variant_window(b: Seq<u8>) -> Result<nat, Error> {
    match last_zero(b) {
        Some(at) => Ok(at),
        None => Err(Error::InvalidTerminator),
    }
}

/// An array opened for reading: what is needed to find its elements.
#[derive(Clone, Copy, Debug, PartialEq, Eq)]
pub struct ArrayFrame {
    /// The number of elements.
    pub count: usize,
    /// The alignment of the element type.
    pub align: usize,
    /// The fixed size of the element type, if it has one.
    pub fixed: Option<usize>,
}

/// The fixed size as contracts see it.
pub open spec fn size_model(fixed: Option<usize>) -> Option<nat> {
    match fixed {
        Some(size) => Some(size as nat),
        None => None,
    }
}

/// Counts the elements of the array in `window`.
///
/// Fails with `UnsupportedShape` for a fixed size of 0, and with
/// `OffsetOverflow` where the last framing offset points behind the place of
/// the last offset, or to a place from which the offsets do not come out even.
pub fn open_array(window: &[u8], align: usize, fixed: Option<usize>) -> (r: Result<
    ArrayFrame,
    Error,
>)
    ensures
        match r {
            Ok(frame) => {
                &&& array_count(window@, size_model(fixed)) == Ok::<nat, Error>(frame.count as nat)
                &&& frame.align == align
                &&& frame.fixed == fixed
                &&& fixed is Some ==> frame.count * fixed->0 <= window@.len()
                &&& fixed is None ==> slots_fit(window@, frame.count as nat)
            },
            Err(e) => array_count(window@, size_model(fixed)) == Err::<nat, Error>(e),
        },
{
    let len = window.len();
    match fixed {
        Some(size) => {
            if size == 0 {
                return Err(Error::UnsupportedShape);
            }
            let count = len / size;
            assert(count * size <= len) by (nonlinear_arith)
                requires
                    count == len / size,
                    size > 0,
            ;
            Ok(ArrayFrame { count, align, fixed })
        },
        None => {
            if len == 0 {
                assert(0 * offset_width(0) == 0);
                return Ok(ArrayFrame { count: 0, align, fixed });
            }
            let (last, width) = match read_len(window, 0) {
                Ok(pair) => pair,
                Err(e) => {
                    assert(1 * offset_width(len as nat) <= len);
                    return Err(e);
                },
            };
            let w = width as usize;
            if last > (len - w) as u64 {
                return Err(Error::OffsetOverflow);
            }
            let room = len - last as usize;
            if room % w != 0 {
                return Err(Error::OffsetOverflow);
            }
            let count = room / w;
            assert(count * w <= len) by (nonlinear_arith)
                requires
                    count == room / w,
                    room <= len,
                    w > 0,
            ;
            Ok(ArrayFrame { count, align, fixed })
        },
    }
}

/// Finds element `i` of the array in `window`: where it starts and ends.
///
/// Fails with `UnexpectedEof` where the element or the table does not fit in
/// the window, with `LengthUnderflow` where the element's offset points before
/// its start, and with `OffsetOverflow` where it points behind the start of
/// the table.
pub fn element_bounds(window: &[u8], frame: &ArrayFrame, i: usize) -> (r: Result<
    (usize, usize),
    Error,
>)
    ensures
        match r {
            Ok((start, end)) => {
                &&& element_window(
                    window@,
                    frame.align as nat,
                    size_model(frame.fixed),
                    frame.count as nat,
                    i as nat,
                ) == Ok::<(nat, nat), Error>((start as nat, end as nat))
                &&& start <= end <= window@.len()
            },
            Err(e) => element_window(
                window@,
                frame.align as nat,
                size_model(frame.fixed),
                frame.count as nat,
                i as nat,
            ) == Err::<(nat, nat), Error>(e),
        },
{
    let len = window.len();
    match frame.fixed {
        Some(size) => {
            assert((i + 1) * size <= 0x1_0000_0000_0000_0000 * 0xffff_ffff_ffff_ffff)
                by (nonlinear_arith)
                requires
                    0 <= i + 1 <= 0x1_0000_0000_0000_0000,
                    0 <= size <= 0xffff_ffff_ffff_ffff,
            ;
            let end: u128 = (i as u128 + 1) * (size as u128);
            assert(end == (i as nat + 1) * (size as nat));
            if end > len as u128 {
                return Err(Error::UnexpectedEof);
            }
            assert(i * size + size == (i + 1) * size && 0 <= i * size) by (nonlinear_arith);
            let start = i * size;
            assert(start as nat == (i as nat) * (size as nat));
            Ok((start, end as usize))
        },
        None => {
            let count = frame.count;
            let width = compute_size(len as u64) as usize;
            let fit = len / width;
            assert(count <= fit <==> count * width <= len) by (nonlinear_arith)
                requires
                    fit == len / width,
                    width == 1 || width == 2 || width == 4 || width == 8,
            ;
            if i >= count || count > fit {
                return Err(Error::UnexpectedEof);
            }
            let ghost w = offset_width(len as nat);
            assert(i >= 1 ==> (count - i + 1) * w <= count * w) by (nonlinear_arith)
                requires
                    i < count,
                    w >= 0,
            ;
            assert((count - 1 - i + 1) * w <= count * w) by (nonlinear_arith)
                requires
                    i < count,
                    w >= 0,
            ;
            let before: u64 = if i == 0 {
                0
            } else {
                match read_len(window, count - i) {
                    Ok((val, _)) => val,
                    Err(e) => {
                        return Err(e);
                    },
                }
            };
            let end: u64 = match read_len(window, count - 1 - i) {
                Ok((val, _)) => val,
                Err(e) => {
                    return Err(e);
                },
            };
            assert(0 <= count * width) by (nonlinear_arith);
            let limit = len - count * width;
            let pad = padding_for(before, frame.align as u64);
            // Positions are compared as wide numbers: an offset may be any `u64`.
            let start: u128 = before as u128 + pad as u128;
            if (end as u128) < start {
                return Err(Error::LengthUnderflow);
            }
            if end as u128 > limit as u128 {
                return Err(Error::OffsetOverflow);
            }
            Ok((start as usize, end as usize))
        },
    }
}

/// Finds the next field of the structure in `window`: where it starts and
/// ends, and how many framing offsets have been used once it is read.
///
/// Fails with `UnexpectedEof` where the field or the table does not fit in the
/// window, with `LengthUnderflow` where the field's offset points before its
/// start, and with `OffsetOverflow` where it points behind the start of the
/// table.
pub fn field_bounds(
    window: &[u8],
    align: usize,
    fixed: Option<usize>,
    last: bool,
    slots: usize,
    pos: usize,
    used: usize,
) -> (r: Result<(usize, usize, usize), Error>)
    ensures
        match r {
            Ok((start, end, next)) => {
                &&& field_window(
                    window@,
                    align as nat,
                    size_model(fixed),
                    last,
                    slots as nat,
                    pos as nat,
                    used as nat,
                ) == Ok::<(nat, nat, nat), Error>((start as nat, end as nat, next as nat))
                &&& start <= end <= window@.len()
            },
            Err(e) => field_window(
                window@,
                align as nat,
                size_model(fixed),
                last,
                slots as nat,
                pos as nat,
                used as nat,
            ) == Err::<(nat, nat, nat), Error>(e),
        },
{
    let len = window.len();
    if pos > len {
        return Err(Error::UnexpectedEof);
    }
    let width = compute_size(len as u64) as usize;
    let fit = len / width;
    assert(slots <= fit <==> slots * width <= len) by (nonlinear_arith)
        requires
            fit == len / width,
            width == 1 || width == 2 || width == 4 || width == 8,
    ;
    let limit: usize = if slots <= fit {
        assert(0 <= slots * width) by (nonlinear_arith);
        len - slots * width
    } else {
        0
    };
    let pad = padding_for(pos as u64, align as u64);
    let start: u128 = pos as u128 + pad as u128;
    match fixed {
        Some(size) => {
            if start + size as u128 > limit as u128 {
                Err(Error::UnexpectedEof)
            } else {
                Ok((start as usize, start as usize + size, used))
            }
        },
        None => {
            if last {
                if start > limit as u128 {
                    Err(Error::UnexpectedEof)
                } else {
                    Ok((start as usize, limit, used))
                }
            } else if used >= slots || slots > fit {
                Err(Error::UnexpectedEof)
            } else {
                assert((used + 1) * width <= slots * width) by (nonlinear_arith)
                    requires
                        used < slots,
                        width >= 0,
                ;
                let end: u64 = match read_len(window, used) {
                    Ok((val, _)) => val,
                    Err(e) => {
                        return Err(e);
                    },
                };
                if (end as u128) < start {
                    Err(Error::LengthUnderflow)
                } else if end as u128 > limit as u128 {
                    Err(Error::OffsetOverflow)
                } else {
                    Ok((start as usize, end as usize, used + 1))
                }
            }
        },
    }
}

/// Finds the value of the maybe in `window`: where it ends, if there is one.
///
/// Fails with `InvalidTerminator` exactly when the inner type has no fixed
/// size and the window does not end in a zero byte.
pub fn maybe_bounds(window: &[u8], fixed: bool) -> (r: Result<Option<usize>, Error>)
    ensures
        match r {
            Ok(Some(end)) => maybe_window(window@, fixed) == Ok::<Option<nat>, Error>(
                Some(end as nat),
            ) && end <= window@.len(),
            Ok(None) => maybe_window(window@, fixed) == Ok::<Option<nat>, Error>(None),
            Err(e) => maybe_window(window@, fixed) == Err::<Option<nat>, Error>(e),
        },
{
    let len = window.len();
    if len == 0 {
        Ok(None)
    } else if fixed {
        Ok(Some(len))
    } else if window[len - 1] != 0 {
        Err(Error::InvalidTerminator)
    } else {
        Ok(Some(len - 1))
    }
}

/// Finds the value carried by the variant in `window`: where it ends. The
/// signature stands behind the zero byte that follows it.
///
/// Fails with `InvalidTerminator` exactly when the window holds no zero byte.
pub fn variant_bounds(window: &[u8]) -> (r: Result<usize, Error>)
    ensures
        match r {
            Ok(end) => variant_window(window@) == Ok::<nat, Error>(end as nat) && end
                < window@.len(),
            Err(e) => variant_window(window@) == Err::<nat, Error>(e),
        },
{
    proof {
        crate::text::lemma_last_zero(window@);
    }
    match find_last_zero(window) {
        Some(at) => Ok(at),
        None => Err(Error::InvalidTerminator),
    }
}

} // verus!
