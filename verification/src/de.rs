//! Decoding: from bytes to values.

use crate::config::Config;
use crate::endian::{get_uint, lemma_radix_values, radix, uint_value};
use crate::errors::Error;
use crate::offsets::{compute_size, slots_fit};
use crate::ser::untwos;
use crate::signature::{parse, parse_signature, MAX_NESTING};
use crate::text::{decode_string, decode_text};
use crate::types::{align_of, fits, fixed_size, is_fixed, lemma_all_fit_index, Type, TypeSpec};
use crate::variant::{
    entries_model, is_entry, values_model, Array, Dictionary, Structure, Value, Variant,
};
use crate::window::{
    array_count, element_bounds, element_window, field_bounds, field_window, maybe_bounds,
    maybe_window, open_array, size_model, variant_bounds, variant_window,
};
use vstd::prelude::*;
use vstd::slice::slice_subrange;

verus! {

/// The unsigned number that the first `n` bytes of `b` spell.
pub open spec fn uint_at(big: bool, n: nat, b: Seq<u8>) -> Result<nat, Error> {
    if b.len() < n {
        Err(Error::UnexpectedEof)
    } else {
        Ok(uint_value(big, b.take(n as int)))
    }
}

/// The boolean that the first byte of `b` spells: any byte but 0 is true,
/// unless decoding is strict, which takes 1 only.
pub open spec fn bool_at(strict: bool, b: Seq<u8>) -> Result<bool, Error> {
    if b.len() < 1 {
        Err(Error::UnexpectedEof)
    } else if strict && b[0] > 1 {
        Err(Error::InvalidBool)
    } else {
        Ok(b[0] != 0)
    }
}

/// How many of `fields` have no fixed size.
pub open spec fn count_variable(fields: Seq<TypeSpec>) -> nat
    decreases fields.len(),
{
    if fields.len() == 0 {
        0
    } else {
        count_variable(fields.drop_last()) + if is_fixed(fields.last()) {
            0nat
        } else {
            1nat
        }
    }
}

/// How many framing offsets a structure of `fields` has: one for each field
/// without a fixed size, the last field left out.
pub open spec fn var_count(fields: Seq<TypeSpec>) -> nat {
    if fields.len() == 0 {
        0
    } else {
        count_variable(fields.drop_last())
    }
}

/// The value of type `t` that the window `b` holds, with room for `room`
/// variants inside one another.
///
/// A scalar is read from the front of the window. A container is taken apart
/// into the windows of its items, as the functions on windows say, and each
/// item is read from its own window; the first item that fails makes the
/// whole fail. A variant for which no room is left is a `BadSignature`.
#[verifier::opaque]
pub open spec fn decode_spec(
    cfg: Config,
    room: nat,
    t: TypeSpec,
    b: Seq<u8>,
) -> Result<Value, Error>
    decreases b.len(), t, 0nat, 0nat,
{
    let big = cfg.network_endian;
    if !fits(t) {
        Err(Error::UnsupportedShape)
    } else {
        match t {
            TypeSpec::Bool => match bool_at(cfg.strict, b) {
                Ok(x) => Ok(Value::Bool(x)),
                Err(e) => Err(e),
            },
            TypeSpec::U8 => match uint_at(big, 1, b) {
                Ok(x) => Ok(Value::U8(x as u8)),
                Err(e) => Err(e),
            },
            TypeSpec::U16 => match uint_at(big, 2, b) {
                Ok(x) => Ok(Value::U16(x as u16)),
                Err(e) => Err(e),
            },
            TypeSpec::U32 => match uint_at(big, 4, b) {
                Ok(x) => Ok(Value::U32(x as u32)),
                Err(e) => Err(e),
            },
            TypeSpec::U64 => match uint_at(big, 8, b) {
                Ok(x) => Ok(Value::U64(x as u64)),
                Err(e) => Err(e),
            },
            TypeSpec::I16 => match uint_at(big, 2, b) {
                Ok(x) => Ok(Value::I16(untwos(x, 2) as i16)),
                Err(e) => Err(e),
            },
            TypeSpec::I32 => match uint_at(big, 4, b) {
                Ok(x) => Ok(Value::I32(untwos(x, 4) as i32)),
                Err(e) => Err(e),
            },
            TypeSpec::I64 => match uint_at(big, 8, b) {
                Ok(x) => Ok(Value::I64(untwos(x, 8) as i64)),
                Err(e) => Err(e),
            },
            TypeSpec::F64 => match uint_at(big, 8, b) {
                Ok(x) => Ok(Value::F64(x as u64)),
                Err(e) => Err(e),
            },
            TypeSpec::String => match decode_text(cfg.max_string_len as nat, cfg.strict, b) {
                Ok(s) => Ok(Value::String(s)),
                Err(e) => Err(e),
            },
            TypeSpec::ObjectPath => match decode_text(cfg.max_string_len as nat, cfg.strict, b) {
                Ok(s) => Ok(Value::ObjectPath(s)),
                Err(e) => Err(e),
            },
            TypeSpec::Signature => match decode_text(cfg.max_string_len as nat, cfg.strict, b) {
                Ok(s) => Ok(Value::Signature(s)),
                Err(e) => Err(e),
            },
            TypeSpec::Variant => if room == 0 {
                Err(Error::BadSignature)
            } else {
                match variant_window(b) {
                    Err(e) => Err(e),
                    Ok(end) => match parse_signature(b.skip(end as int + 1)) {
                        None => Err(Error::BadSignature),
                        Some(inner) => if end < b.len() {
                            match decode_spec(cfg, (room - 1) as nat, inner, b.take(end as int)) {
                                Ok(x) => Ok(Value::Variant(Box::new(x))),
                                Err(e) => Err(e),
                            }
                        } else {
                            Err(Error::InvalidTerminator)
                        },
                    },
                }
            },
            TypeSpec::Maybe(inner) => match maybe_window(b, is_fixed(*inner)) {
                Err(e) => Err(e),
                Ok(None) => Ok(Value::Maybe(None)),
                Ok(Some(end)) => if end <= b.len() {
                    match decode_spec(cfg, room, *inner, b.take(end as int)) {
                        Ok(x) => Ok(Value::Maybe(Some(Box::new(x)))),
                        Err(e) => Err(e),
                    }
                } else {
                    Err(Error::UnexpectedEof)
                },
            },
            TypeSpec::Array(inner) => match decode_array(cfg, room, *inner, b) {
                Ok(items) => if is_entry(*inner) {
                    Ok(Value::Dictionary(items))
                } else {
                    Ok(Value::Array(items))
                },
                Err(e) => Err(e),
            },
            TypeSpec::Tuple(_, fields) => match decode_tuple(cfg, room, fields, b) {
                Ok(values) => Ok(Value::Structure(values)),
                Err(e) => Err(e),
            },
        }
    }
}

/// The elements of type `e` that the array in `b` holds.
#[verifier::opaque]
pub open spec fn decode_array(
    cfg: Config,
    room: nat,
    e: TypeSpec,
    b: Seq<u8>,
) -> Result<Seq<Value>, Error>
    decreases b.len(), e, 2nat, 0nat,
{
    match array_count(b, fixed_size(e)) {
        Err(err) => Err(err),
        Ok(count) => decode_elems(cfg, room, e, b, count, count),
    }
}

/// The first `upto` of the `count` elements of type `e` that the array in `b`
/// holds.
#[verifier::opaque]
pub open spec fn decode_elems(
    cfg: Config,
    room: nat,
    e: TypeSpec,
    b: Seq<u8>,
    count: nat,
    upto: nat,
) -> Result<
    Seq<Value>,
    Error,
>
    decreases b.len(), e, 1nat, upto,
{
    if upto == 0 {
        Ok(Seq::empty())
    } else {
        match decode_elems(cfg, room, e, b, count, (upto - 1) as nat) {
            Err(err) => Err(err),
            Ok(before) => match element_window(
                b,
                align_of(e),
                fixed_size(e),
                count,
                (upto - 1) as nat,
            ) {
                Err(err) => Err(err),
                Ok((start, end)) => if start <= end <= b.len() {
                    match decode_spec(cfg, room, e, b.subrange(start as int, end as int)) {
                        Ok(x) => Ok(before.push(x)),
                        Err(err) => Err(err),
                    }
                } else {
                    Err(Error::UnexpectedEof)
                },
            },
        }
    }
}

/// The fields that the structure in `b` holds: a structure without fields
/// is a single zero byte; any other must be long enough for its table.
#[verifier::opaque]
pub open spec fn decode_tuple(cfg: Config, room: nat, fields: Seq<TypeSpec>, b: Seq<u8>) -> Result<
    Seq<Value>,
    Error,
>
    decreases b.len(), fields, 2nat, 0nat,
{
    if fields.len() == 0 {
        if b.len() < 1 {
            Err(Error::UnexpectedEof)
        } else if b[0] != 0 {
            Err(Error::InvalidTerminator)
        } else {
            Ok(Seq::empty())
        }
    } else if !slots_fit(b, var_count(fields)) {
        Err(Error::UnexpectedEof)
    } else {
        match decode_fields(cfg, room, fields, b, fields.len()) {
            Ok((values, _, _)) => Ok(values),
            Err(e) => Err(e),
        }
    }
}

/// The first `upto` fields that the structure in `b` holds, where the last of
/// them ends, and how many framing offsets they have used.
#[verifier::opaque]
pub open spec fn decode_fields(
    cfg: Config,
    room: nat,
    fields: Seq<TypeSpec>,
    b: Seq<u8>,
    upto: nat,
) -> Result<
    (Seq<Value>, nat, nat),
    Error,
>
    decreases b.len(), fields, 1nat, upto,
{
    if upto == 0 {
        Ok((Seq::empty(), 0, 0))
    } else if upto > fields.len() {
        Err(Error::UnexpectedEof)
    } else {
        match decode_fields(cfg, room, fields, b, (upto - 1) as nat) {
            Err(err) => Err(err),
            Ok((before, pos, used)) => {
                let t = fields[upto - 1];
                match field_window(
                    b,
                    align_of(t),
                    fixed_size(t),
                    upto == fields.len(),
                    var_count(fields),
                    pos,
                    used,
                ) {
                    Err(err) => Err(err),
                    Ok((start, end, next)) => if start <= end <= b.len() {
                        match decode_spec(cfg, room, t, b.subrange(start as int, end as int)) {
                            Ok(x) => Ok((before.push(x), end, next)),
                            Err(err) => Err(err),
                        }
                    } else {
                        Err(Error::UnexpectedEof)
                    },
                }
            },
        }
    }
}

/// A type that cannot be laid out is refused.
pub proof fn lemma_decode_unfit(cfg: Config, room: nat, t: TypeSpec, b: Seq<u8>)
    requires
        !fits(t),
    ensures
        decode_spec(cfg, room, t, b) == Err::<Value, Error>(Error::UnsupportedShape),
{
    reveal(decode_spec);
}

/// A structure is read as its fields are.
pub proof fn lemma_decode_structure(cfg: Config, room: nat, t: TypeSpec, b: Seq<u8>)
    requires
        fits(t),
        t is Tuple,
    ensures
        decode_spec(cfg, room, t, b) == match decode_tuple(cfg, room, t->Tuple_1, b) {
            Ok(values) => Ok::<Value, Error>(Value::Structure(values)),
            Err(e) => Err::<Value, Error>(e),
        },
{
    reveal(decode_spec);
    reveal(decode_tuple);
}

/// An array is read as its elements are, and a dictionary as its entries.
pub proof fn lemma_decode_array(cfg: Config, room: nat, t: TypeSpec, b: Seq<u8>)
    requires
        fits(t),
        t is Array,
    ensures
        decode_spec(cfg, room, t, b) == match decode_array(cfg, room, *t->Array_0, b) {
            Ok(items) => if is_entry(*t->Array_0) {
                Ok::<Value, Error>(Value::Dictionary(items))
            } else {
                Ok::<Value, Error>(Value::Array(items))
            },
            Err(e) => Err::<Value, Error>(e),
        },
{
    reveal(decode_spec);
    reveal(decode_array);
}

/// A maybe is read as what it holds is.
pub proof fn lemma_decode_maybe(cfg: Config, room: nat, t: TypeSpec, b: Seq<u8>)
    requires
        fits(t),
        t is Maybe,
    ensures
        decode_spec(cfg, room, t, b) == match maybe_window(b, is_fixed(*t->Maybe_0)) {
            Err(e) => Err::<Value, Error>(e),
            Ok(None) => Ok::<Value, Error>(Value::Maybe(None)),
            Ok(Some(end)) => if end <= b.len() {
                match decode_spec(cfg, room, *t->Maybe_0, b.take(end as int)) {
                    Ok(x) => Ok::<Value, Error>(Value::Maybe(Some(Box::new(x)))),
                    Err(e) => Err::<Value, Error>(e),
                }
            } else {
                Err::<Value, Error>(Error::UnexpectedEof)
            },
        },
{
    reveal(decode_spec);
}

/// A variant is read as what it carries is, under the type that its
/// signature spells, as long as there is room for it.
pub proof fn lemma_decode_variant(cfg: Config, room: nat, b: Seq<u8>)
    ensures
        decode_spec(cfg, room, TypeSpec::Variant, b) == if room == 0 {
            Err::<Value, Error>(Error::BadSignature)
        } else {
            match variant_window(b) {
                Err(e) => Err::<Value, Error>(e),
                Ok(end) => match parse_signature(b.skip(end as int + 1)) {
                    None => Err::<Value, Error>(Error::BadSignature),
                    Some(inner) => if end < b.len() {
                        match decode_spec(cfg, (room - 1) as nat, inner, b.take(end as int)) {
                            Ok(x) => Ok::<Value, Error>(Value::Variant(Box::new(x))),
                            Err(e) => Err::<Value, Error>(e),
                        }
                    } else {
                        Err::<Value, Error>(Error::InvalidTerminator)
                    },
                },
            }
        },
{
    reveal(decode_spec);
}

/// The elements of an array are as many as its bytes tell, read one by one.
pub proof fn lemma_array_unfold(cfg: Config, room: nat, e: TypeSpec, b: Seq<u8>)
    ensures
        decode_array(cfg, room, e, b) == match array_count(b, fixed_size(e)) {
            Err(err) => Err::<Seq<Value>, Error>(err),
            Ok(count) => decode_elems(cfg, room, e, b, count, count),
        },
{
    reveal(decode_array);
    reveal(decode_elems);
}

/// The fields of a structure: none in a single zero byte, else read one by
/// one from a window that is long enough for the table.
pub proof fn lemma_tuple_unfold(cfg: Config, room: nat, fields: Seq<TypeSpec>, b: Seq<u8>)
    ensures
        decode_tuple(cfg, room, fields, b) == if fields.len() == 0 {
            if b.len() < 1 {
                Err::<Seq<Value>, Error>(Error::UnexpectedEof)
            } else if b[0] != 0 {
                Err::<Seq<Value>, Error>(Error::InvalidTerminator)
            } else {
                Ok::<Seq<Value>, Error>(Seq::empty())
            }
        } else if !slots_fit(b, var_count(fields)) {
            Err::<Seq<Value>, Error>(Error::UnexpectedEof)
        } else {
            match decode_fields(cfg, room, fields, b, fields.len()) {
                Ok((values, _, _)) => Ok::<Seq<Value>, Error>(values),
                Err(e) => Err::<Seq<Value>, Error>(e),
            }
        },
{
    reveal(decode_tuple);
    reveal(decode_fields);
}

/// No elements are read from any array without fail.
pub proof fn lemma_elems_none(cfg: Config, room: nat, e: TypeSpec, b: Seq<u8>, count: nat)
    ensures
        decode_elems(cfg, room, e, b, count, 0) == Ok::<Seq<Value>, Error>(Seq::empty()),
{
    reveal(decode_elems);
}

/// How one more element is read behind those read so far.
pub proof fn lemma_elems_step(
    cfg: Config, room: nat,
    e: TypeSpec,
    b: Seq<u8>,
    count: nat,
    i: nat,
    before: Seq<Value>,
)
    requires
        decode_elems(cfg, room, e, b, count, i) == Ok::<Seq<Value>, Error>(before),
    ensures
        decode_elems(cfg, room, e, b, count, i + 1) == match element_window(
            b,
            align_of(e),
            fixed_size(e),
            count,
            i,
        ) {
            Err(err) => Err::<Seq<Value>, Error>(err),
            Ok((start, end)) => if start <= end <= b.len() {
                match decode_spec(cfg, room, e, b.subrange(start as int, end as int)) {
                    Ok(x) => Ok(before.push(x)),
                    Err(err) => Err(err),
                }
            } else {
                Err(Error::UnexpectedEof)
            },
        },
{
    reveal(decode_elems);
    reveal(decode_spec);
    assert(((i + 1) - 1) as nat == i);
}

/// Once an element fails, the array fails in the same way.
pub proof fn lemma_elems_failure(
    cfg: Config, room: nat,
    e: TypeSpec,
    b: Seq<u8>,
    count: nat,
    upto: nat,
    later: nat,
)
    requires
        upto <= later,
        decode_elems(cfg, room, e, b, count, upto) is Err,
    ensures
        decode_elems(cfg, room, e, b, count, later) == decode_elems(cfg, room, e, b, count, upto),
    decreases later,
{
    reveal(decode_elems);
    if upto < later {
        lemma_elems_failure(cfg, room, e, b, count, upto, (later - 1) as nat);
    }
}

/// No fields are read from any structure without fail.
pub proof fn lemma_fields_none(cfg: Config, room: nat, fields: Seq<TypeSpec>, b: Seq<u8>)
    ensures
        decode_fields(cfg, room, fields, b, 0) == Ok::<(Seq<Value>, nat, nat), Error>(
            (Seq::empty(), 0, 0),
        ),
{
    reveal(decode_fields);
}

/// How one more field is read behind those read so far.
pub proof fn lemma_fields_step(
    cfg: Config, room: nat,
    fields: Seq<TypeSpec>,
    b: Seq<u8>,
    i: nat,
    before: Seq<Value>,
    pos: nat,
    used: nat,
)
    requires
        i < fields.len(),
        decode_fields(cfg, room, fields, b, i) == Ok::<(Seq<Value>, nat, nat), Error>(
            (before, pos, used),
        ),
    ensures
        decode_fields(cfg, room, fields, b, i + 1) == match field_window(
            b,
            align_of(fields[i as int]),
            fixed_size(fields[i as int]),
            i + 1 == fields.len(),
            var_count(fields),
            pos,
            used,
        ) {
            Err(err) => Err::<(Seq<Value>, nat, nat), Error>(err),
            Ok((start, end, next)) => if start <= end <= b.len() {
                match decode_spec(
                    cfg,
                    room,
                    fields[i as int],
                    b.subrange(start as int, end as int),
                ) {
                    Ok(x) => Ok((before.push(x), end, next)),
                    Err(err) => Err(err),
                }
            } else {
                Err(Error::UnexpectedEof)
            },
        },
{
    reveal(decode_fields);
    reveal(decode_spec);
    assert(((i + 1) - 1) as nat == i);
}

/// Once a field fails, the structure fails in the same way.
pub proof fn lemma_fields_failure(
    cfg: Config, room: nat,
    fields: Seq<TypeSpec>,
    b: Seq<u8>,
    upto: nat,
    later: nat,
)
    requires
        upto <= later <= fields.len(),
        decode_fields(cfg, room, fields, b, upto) is Err,
    ensures
        decode_fields(cfg, room, fields, b, later) == decode_fields(cfg, room, fields, b, upto),
    decreases later,
{
    reveal(decode_fields);
    if upto < later {
        lemma_fields_failure(cfg, room, fields, b, upto, (later - 1) as nat);
    }
}

/// Reads the unsigned number that the first `n` bytes of `window` spell.
pub fn decode_uint(cfg: &Config, window: &[u8], n: usize) -> (r: Result<u64, Error>)
    requires
        1 <= n <= 8,
    ensures
        match r {
            Ok(x) => uint_at(cfg.network_endian, n as nat, window@) == Ok::<nat, Error>(x as nat)
                && (x as nat) < radix(n as nat),
            Err(e) => uint_at(cfg.network_endian, n as nat, window@) == Err::<nat, Error>(e),
        },
{
    if window.len() < n {
        Err(Error::UnexpectedEof)
    } else {
        Ok(get_uint(cfg.network_endian, window, n))
    }
}

/// Reads a boolean from the first byte of `window`.
///
/// Fails with `UnexpectedEof` on an empty window and, in strict decoding, with
/// `InvalidBool` on a byte other than 0 and 1.
pub fn decode_bool(cfg: &Config, window: &[u8]) -> (r: Result<bool, Error>)
    ensures
        r == bool_at(cfg.strict, window@),
{
    if window.len() < 1 {
        Err(Error::UnexpectedEof)
    } else if cfg.strict && window[0] > 1 {
        Err(Error::InvalidBool)
    } else {
        Ok(window[0] != 0)
    }
}

/// Reads a byte from the front of `window`.
pub fn decode_u8(cfg: &Config, window: &[u8]) -> (r: Result<u8, Error>)
    ensures
        match r {
            Ok(x) => uint_at(cfg.network_endian, 1, window@) == Ok::<nat, Error>(x as nat),
            Err(e) => uint_at(cfg.network_endian, 1, window@) == Err::<nat, Error>(e),
        },
{
    proof {
        lemma_radix_values();
    }
    match decode_uint(cfg, window, 1) {
        Ok(x) => Ok(x as u8),
        Err(e) => Err(e),
    }
}

/// Reads a signed byte, in two's complement, from the front of `window`.
pub fn decode_i8(cfg: &Config, window: &[u8]) -> (r: Result<i8, Error>)
    ensures
        match r {
            Ok(x) => uint_at(cfg.network_endian, 1, window@) is Ok && x as int == untwos(
                uint_at(cfg.network_endian, 1, window@)->Ok_0,
                1,
            ),
            Err(e) => uint_at(cfg.network_endian, 1, window@) == Err::<nat, Error>(e),
        },
{
    proof {
        lemma_radix_values();
    }
    match decode_uint(cfg, window, 1) {
        Ok(x) => Ok(
            if x >= 0x80 {
                (x as i16 - 0x100) as i8
            } else {
                x as i8
            },
        ),
        Err(e) => Err(e),
    }
}

/// Reads an unsigned 16-bit integer from the front of `window`.
pub fn decode_u16(cfg: &Config, window: &[u8]) -> (r: Result<u16, Error>)
    ensures
        match r {
            Ok(x) => uint_at(cfg.network_endian, 2, window@) == Ok::<nat, Error>(x as nat),
            Err(e) => uint_at(cfg.network_endian, 2, window@) == Err::<nat, Error>(e),
        },
{
    proof {
        lemma_radix_values();
    }
    match decode_uint(cfg, window, 2) {
        Ok(x) => Ok(x as u16),
        Err(e) => Err(e),
    }
}

/// Reads an unsigned 32-bit integer from the front of `window`.
pub fn decode_u32(cfg: &Config, window: &[u8]) -> (r: Result<u32, Error>)
    ensures
        match r {
            Ok(x) => uint_at(cfg.network_endian, 4, window@) == Ok::<nat, Error>(x as nat),
            Err(e) => uint_at(cfg.network_endian, 4, window@) == Err::<nat, Error>(e),
        },
{
    proof {
        lemma_radix_values();
    }
    match decode_uint(cfg, window, 4) {
        Ok(x) => Ok(x as u32),
        Err(e) => Err(e),
    }
}

/// Reads an unsigned 64-bit integer from the front of `window`.
pub fn decode_u64(cfg: &Config, window: &[u8]) -> (r: Result<u64, Error>)
    ensures
        match r {
            Ok(x) => uint_at(cfg.network_endian, 8, window@) == Ok::<nat, Error>(x as nat),
            Err(e) => uint_at(cfg.network_endian, 8, window@) == Err::<nat, Error>(e),
        },
{
    decode_uint(cfg, window, 8)
}

/// Reads a signed 16-bit integer, in two's complement, from the front of
/// `window`.
pub fn decode_i16(cfg: &Config, window: &[u8]) -> (r: Result<i16, Error>)
    ensures
        match r {
            Ok(x) => uint_at(cfg.network_endian, 2, window@) is Ok && x as int == untwos(
                uint_at(cfg.network_endian, 2, window@)->Ok_0,
                2,
            ),
            Err(e) => uint_at(cfg.network_endian, 2, window@) == Err::<nat, Error>(e),
        },
{
    proof {
        lemma_radix_values();
    }
    match decode_uint(cfg, window, 2) {
        Ok(x) => Ok(
            if x >= 0x8000 {
                (x as i32 - 0x1_0000) as i16
            } else {
                x as i16
            },
        ),
        Err(e) => Err(e),
    }
}

/// Reads a signed 32-bit integer, in two's complement, from the front of
/// `window`.
pub fn decode_i32(cfg: &Config, window: &[u8]) -> (r: Result<i32, Error>)
    ensures
        match r {
            Ok(x) => uint_at(cfg.network_endian, 4, window@) is Ok && x as int == untwos(
                uint_at(cfg.network_endian, 4, window@)->Ok_0,
                4,
            ),
            Err(e) => uint_at(cfg.network_endian, 4, window@) == Err::<nat, Error>(e),
        },
{
    proof {
        lemma_radix_values();
    }
    match decode_uint(cfg, window, 4) {
        Ok(x) => Ok(
            if x >= 0x8000_0000 {
                (x as i64 - 0x1_0000_0000) as i32
            } else {
                x as i32
            },
        ),
        Err(e) => Err(e),
    }
}

/// Reads a signed 64-bit integer, in two's complement, from the front of
/// `window`.
pub fn decode_i64(cfg: &Config, window: &[u8]) -> (r: Result<i64, Error>)
    ensures
        match r {
            Ok(x) => uint_at(cfg.network_endian, 8, window@) is Ok && x as int == untwos(
                uint_at(cfg.network_endian, 8, window@)->Ok_0,
                8,
            ),
            Err(e) => uint_at(cfg.network_endian, 8, window@) == Err::<nat, Error>(e),
        },
{
    proof {
        lemma_radix_values();
    }
    match decode_uint(cfg, window, 8) {
        Ok(x) => Ok(
            if x >= 0x8000_0000_0000_0000 {
                (x as i128 - 0x1_0000_0000_0000_0000) as i64
            } else {
                x as i64
            },
        ),
        Err(e) => Err(e),
    }
}

/// Reads a double from the front of `window`, as the 64 bits of its IEEE 754
/// form.
pub fn decode_f64(cfg: &Config, window: &[u8]) -> (r: Result<u64, Error>)
    ensures
        match r {
            Ok(x) => uint_at(cfg.network_endian, 8, window@) == Ok::<nat, Error>(x as nat),
            Err(e) => uint_at(cfg.network_endian, 8, window@) == Err::<nat, Error>(e),
        },
{
    decode_uint(cfg, window, 8)
}

/// Whether `r` is the outcome `expected`, the value taken by its view.
pub open spec fn same_value(r: Result<Variant, Error>, expected: Result<Value, Error>) -> bool {
    match r {
        Ok(v) => expected == Ok::<Value, Error>(v@),
        Err(e) => expected == Err::<Value, Error>(e),
    }
}

/// Whether `r` is the outcome `expected`, the values taken by their views.
pub open spec fn same_values(
    r: Result<Vec<Variant>, Error>,
    expected: Result<Seq<Value>, Error>,
) -> bool {
    match r {
        Ok(vs) => expected == Ok::<Seq<Value>, Error>(values_model(vs@)),
        Err(e) => expected == Err::<Seq<Value>, Error>(e),
    }
}

/// Whether `r` is the outcome `expected`, the entries taken by their views.
pub open spec fn same_entries(
    r: Result<Vec<(Variant, Variant)>, Error>,
    expected: Result<Seq<Value>, Error>,
) -> bool {
    match r {
        Ok(es) => expected == Ok::<Seq<Value>, Error>(entries_model(es@)),
        Err(e) => expected == Err::<Seq<Value>, Error>(e),
    }
}

/// Reads the value of a type `ty` that can be laid out from `window`, which
/// holds exactly its bytes.
pub fn decode_value(
    cfg: &Config,
    room: usize,
    ty: &Type,
    window: &[u8],
) -> (r: Result<Variant, Error>)
    requires
        fits(ty@),
    ensures
        same_value(r, decode_spec(*cfg, room as nat, ty@, window@)),
    decreases window@.len(), ty, 1nat,
{
    match ty {
        Type::Variant => {
            proof {
                lemma_decode_variant(*cfg, room as nat, window@);
            }
            if room == 0 {
                return Err(Error::BadSignature);
            }
            let end = match variant_bounds(window) {
                Ok(end) => end,
                Err(e) => {
                    return Err(e);
                },
            };
            assert(end < window.len());
            let signature = slice_subrange(window, end + 1, window.len());
            assert(signature@ =~= window@.skip(end + 1));
            let inner_type = match parse(signature) {
                Ok(t) => t,
                Err(e) => {
                    return Err(e);
                },
            };
            let payload = slice_subrange(window, 0, end);
            assert(payload@ =~= window@.take(end as int));
            if inner_type.layout().is_err() {
                proof {
                    lemma_decode_unfit(*cfg, (room - 1) as nat, inner_type@, payload@);
                }
                return Err(Error::UnsupportedShape);
            }
            match decode_value(cfg, room - 1, &inner_type, payload) {
                Ok(x) => Ok(Variant::Variant(Box::new(x))),
                Err(e) => Err(e),
            }
        },
        Type::Maybe(inner) => {
            proof {
                lemma_decode_maybe(*cfg, room as nat, ty@, window@);
            }
            let layout = match inner.layout() {
                Ok(layout) => layout,
                Err(e) => {
                    return Err(e);
                },
            };
            match maybe_bounds(window, layout.fixed.is_some()) {
                Err(e) => Err(e),
                Ok(None) => Ok(Variant::Option(None)),
                Ok(Some(end)) => {
                    let inner_window = slice_subrange(window, 0, end);
                    assert(inner_window@ =~= window@.take(end as int));
                    match decode_value(cfg, room, inner, inner_window) {
                        Ok(x) => Ok(Variant::Option(Some(Box::new(x)))),
                        Err(e) => Err(e),
                    }
                },
            }
        },
        Type::Array(inner) => {
            proof {
                lemma_decode_array(*cfg, room as nat, ty@, window@);
            }
            if inner.is_dict_entry() {
                match decode_entries(cfg, room, inner, window) {
                    Ok(entries) => {
                        let v = Variant::Dictionary(Dictionary { inner: entries });
                        assert(v@->Dictionary_0 =~= entries_model(entries@));
                        Ok(v)
                    },
                    Err(e) => Err(e),
                }
            } else {
                match decode_elements(cfg, room, inner, window) {
                    Ok(items) => {
                        let v = Variant::Vec(Array { inner: items });
                        assert(v@->Array_0 =~= values_model(items@));
                        Ok(v)
                    },
                    Err(e) => Err(e),
                }
            }
        },
        Type::Structure(_) | Type::DictEntry(_, _) => {
            proof {
                lemma_decode_structure(*cfg, room as nat, ty@, window@);
            }
            match decode_struct(cfg, room, ty, window) {
                Ok(fields) => {
                    let v = Variant::Structure(Structure { fields });
                    assert(v@->Structure_0 =~= values_model(fields@));
                    Ok(v)
                },
                Err(e) => Err(e),
            }
        },
        _ => decode_scalar(cfg, room, ty, window),
    }
}

/// Whether a type is a scalar or a string.
pub open spec fn is_leaf(t: TypeSpec) -> bool {
    !(t is Variant || t is Maybe || t is Array || t is Tuple)
}

/// Reads the scalar or string of type `ty` from `window`.
pub fn decode_scalar(
    cfg: &Config,
    room: usize,
    ty: &Type,
    window: &[u8],
) -> (r: Result<Variant, Error>)
    requires
        is_leaf(ty@),
    ensures
        same_value(r, decode_spec(*cfg, room as nat, ty@, window@)),
{
    proof {
        reveal(decode_spec);
    }
    match ty {
        Type::Bool => match decode_bool(cfg, window) {
            Ok(x) => Ok(Variant::Bool(x)),
            Err(e) => Err(e),
        },
        Type::U8 => match decode_u8(cfg, window) {
            Ok(x) => Ok(Variant::U8(x)),
            Err(e) => Err(e),
        },
        Type::U16 => match decode_u16(cfg, window) {
            Ok(x) => Ok(Variant::U16(x)),
            Err(e) => Err(e),
        },
        Type::U32 => match decode_u32(cfg, window) {
            Ok(x) => Ok(Variant::U32(x)),
            Err(e) => Err(e),
        },
        Type::U64 => match decode_u64(cfg, window) {
            Ok(x) => Ok(Variant::U64(x)),
            Err(e) => Err(e),
        },
        Type::I16 => match decode_i16(cfg, window) {
            Ok(x) => Ok(Variant::I16(x)),
            Err(e) => Err(e),
        },
        Type::I32 => match decode_i32(cfg, window) {
            Ok(x) => Ok(Variant::I32(x)),
            Err(e) => Err(e),
        },
        Type::I64 => match decode_i64(cfg, window) {
            Ok(x) => Ok(Variant::I64(x)),
            Err(e) => Err(e),
        },
        Type::F64 => match decode_f64(cfg, window) {
            Ok(x) => Ok(Variant::F64(x)),
            Err(e) => Err(e),
        },
        Type::String => match decode_string(cfg, window) {
            Ok(s) => Ok(Variant::String(s)),
            Err(e) => Err(e),
        },
        Type::ObjectPath => match decode_string(cfg, window) {
            Ok(s) => Ok(Variant::ObjectPath(s)),
            Err(e) => Err(e),
        },
        Type::Signature => match decode_string(cfg, window) {
            Ok(s) => Ok(Variant::Signature(s)),
            Err(e) => Err(e),
        },
        _ => Err(Error::UnsupportedShape),
    }
}

/// Reads the elements of type `item_type` of the array in `window`.
pub fn decode_elements(cfg: &Config, room: usize, item_type: &Type, window: &[u8]) -> (r: Result<
    Vec<Variant>,
    Error,
>)
    requires
        fits(item_type@),
    ensures
        same_values(r, decode_array(*cfg, room as nat, item_type@, window@)),
    decreases window@.len(), item_type, 2nat,
{
    proof {
        lemma_array_unfold(*cfg, room as nat, item_type@, window@);
    }
    let layout = match item_type.layout() {
        Ok(layout) => layout,
        Err(e) => {
            return Err(e);
        },
    };
    assert(size_model(layout.fixed) == fixed_size(item_type@));
    let frame = match open_array(window, layout.align, layout.fixed) {
        Ok(frame) => frame,
        Err(e) => {
            return Err(e);
        },
    };
    let ghost e = item_type@;
    let ghost b = window@;
    let count = frame.count;
    let mut items: Vec<Variant> = Vec::new();
    let mut i: usize = 0;
    assert(values_model(items@) =~= Seq::<Value>::empty());
    proof {
        lemma_elems_none(*cfg, room as nat, e, b, count as nat);
    }
    while i < count
        invariant
            i <= count,
            count == frame.count,
            e == item_type@,
            b == window@,
            fits(e),
            frame.align as nat == align_of(e),
            size_model(frame.fixed) == fixed_size(e),
            array_count(b, fixed_size(e)) == Ok::<nat, Error>(count as nat),
            decode_array(*cfg, room as nat, e, b) == decode_elems(
                *cfg,
                room as nat,
                e,
                b,
                count as nat,
                count as nat,
            ),
            decode_elems(
                *cfg,
                room as nat,
                e,
                b,
                count as nat,
                i as nat,
            ) == Ok::<Seq<Value>, Error>(
                values_model(items@),
            ),
        decreases count - i,
    {
        let ghost before = values_model(items@);
        proof {
            lemma_elems_step(*cfg, room as nat, e, b, count as nat, i as nat, before);
        }
        let (start, end) = match element_bounds(window, &frame, i) {
            Ok(bounds) => bounds,
            Err(err) => {
                proof {
                    lemma_elems_failure(
                        *cfg,
                        room as nat,
                        e,
                        b,
                        count as nat,
                        (i + 1) as nat,
                        count as nat,
                    );
                }
                return Err(err);
            },
        };
        let item_window = slice_subrange(window, start, end);
        match decode_value(cfg, room, item_type, item_window) {
            Err(err) => {
                proof {
                    lemma_elems_failure(
                        *cfg,
                        room as nat,
                        e,
                        b,
                        count as nat,
                        (i + 1) as nat,
                        count as nat,
                    );
                }
                return Err(err);
            },
            Ok(x) => {
                items.push(x);
                assert(values_model(items@) =~= before.push(x@));
            },
        }
        i += 1;
    }
    Ok(items)
}

/// Reads the entries of type `entry_type` of the dictionary in `window`.
pub fn decode_entries(cfg: &Config, room: usize, entry_type: &Type, window: &[u8]) -> (r: Result<
    Vec<(Variant, Variant)>,
    Error,
>)
    requires
        fits(entry_type@),
        is_entry(entry_type@),
    ensures
        same_entries(r, decode_array(*cfg, room as nat, entry_type@, window@)),
    decreases window@.len(), entry_type, 2nat,
{
    proof {
        lemma_array_unfold(*cfg, room as nat, entry_type@, window@);
    }
    let layout = match entry_type.layout() {
        Ok(layout) => layout,
        Err(e) => {
            return Err(e);
        },
    };
    assert(size_model(layout.fixed) == fixed_size(entry_type@));
    let frame = match open_array(window, layout.align, layout.fixed) {
        Ok(frame) => frame,
        Err(e) => {
            return Err(e);
        },
    };
    let ghost e = entry_type@;
    let ghost b = window@;
    let count = frame.count;
    let mut entries: Vec<(Variant, Variant)> = Vec::new();
    let mut i: usize = 0;
    assert(entries_model(entries@) =~= Seq::<Value>::empty());
    proof {
        lemma_elems_none(*cfg, room as nat, e, b, count as nat);
    }
    while i < count
        invariant
            i <= count,
            count == frame.count,
            e == entry_type@,
            b == window@,
            fits(e),
            is_entry(e),
            frame.align as nat == align_of(e),
            size_model(frame.fixed) == fixed_size(e),
            array_count(b, fixed_size(e)) == Ok::<nat, Error>(count as nat),
            decode_array(*cfg, room as nat, e, b) == decode_elems(
                *cfg,
                room as nat,
                e,
                b,
                count as nat,
                count as nat,
            ),
            decode_elems(
                *cfg,
                room as nat,
                e,
                b,
                count as nat,
                i as nat,
            ) == Ok::<Seq<Value>, Error>(
                entries_model(entries@),
            ),
        decreases count - i,
    {
        let ghost before = entries_model(entries@);
        proof {
            lemma_elems_step(*cfg, room as nat, e, b, count as nat, i as nat, before);
        }
        let (start, end) = match element_bounds(window, &frame, i) {
            Ok(bounds) => bounds,
            Err(err) => {
                proof {
                    lemma_elems_failure(
                        *cfg,
                        room as nat,
                        e,
                        b,
                        count as nat,
                        (i + 1) as nat,
                        count as nat,
                    );
                }
                return Err(err);
            },
        };
        let entry_window = slice_subrange(window, start, end);
        proof {
            lemma_decode_structure(*cfg, room as nat, e, entry_window@);
        }
        match decode_struct(cfg, room, entry_type, entry_window) {
            Err(err) => {
                proof {
                    lemma_elems_failure(
                        *cfg,
                        room as nat,
                        e,
                        b,
                        count as nat,
                        (i + 1) as nat,
                        count as nat,
                    );
                }
                return Err(err);
            },
            Ok(pair) => {
                let mut pair = pair;
                let ghost both = values_model(pair@);
                let value = match pair.pop() {
                    Some(value) => value,
                    None => {
                        return Err(Error::UnsupportedShape);
                    },
                };
                let key = match pair.pop() {
                    Some(key) => key,
                    None => {
                        return Err(Error::UnsupportedShape);
                    },
                };
                assert(both =~= seq![key@, value@]);
                entries.push((key, value));
                assert(entries_model(entries@) =~= before.push(Value::Structure(both)));
            },
        }
        i += 1;
    }
    Ok(entries)
}

/// Reads the fields of the structure or dictionary entry of type `ty` in
/// `window`.
pub fn decode_struct(
    cfg: &Config,
    room: usize,
    ty: &Type,
    window: &[u8],
) -> (r: Result<Vec<Variant>, Error>)
    requires
        ty@ is Tuple,
        fits(ty@),
    ensures
        same_values(r, decode_tuple(*cfg, room as nat, ty@->Tuple_1, window@)),
        r is Ok ==> r->Ok_0@.len() == ty@->Tuple_1.len(),
    decreases window@.len(), ty, 0nat,
{
    let ghost fields = ty@->Tuple_1;
    let ghost b = window@;
    proof {
        lemma_tuple_unfold(*cfg, room as nat, fields, b);
    }
    let n = ty.arity();
    let len = window.len();
    if n == 0 {
        if len < 1 {
            return Err(Error::UnexpectedEof);
        }
        if window[0] != 0 {
            return Err(Error::InvalidTerminator);
        }
        let none: Vec<Variant> = Vec::new();
        assert(values_model(none@) =~= Seq::<Value>::empty());
        return Ok(none);
    }
    // How many framing offsets the structure has.

    let mut slots: usize = 0;
    let mut j: usize = 0;
    assert(fields.take(0) =~= Seq::<TypeSpec>::empty());
    while j < n - 1
        invariant
            j <= n - 1,
            n == fields.len(),
            n > 0,
            ty@ is Tuple,
            fields == ty@->Tuple_1,
            fits(ty@),
            slots <= j,
            slots as nat == count_variable(fields.take(j as int)),
        decreases n - 1 - j,
    {
        proof {
            lemma_all_fit_index(fields, j as int);
            assert(fields.take(j + 1).drop_last() =~= fields.take(j as int));
        }
        let layout = match ty.field(j).layout() {
            Ok(layout) => layout,
            Err(e) => {
                return Err(e);
            },
        };
        if layout.fixed.is_none() {
            slots += 1;
        }
        j += 1;
    }
    assert(fields.take(n - 1) =~= fields.drop_last());
    let width = compute_size(len as u64) as usize;
    let fit = len / width;
    assert(slots <= fit <==> slots * width <= len) by (nonlinear_arith)
        requires
            fit == len / width,
            width == 1 || width == 2 || width == 4 || width == 8,
    ;
    if slots > fit {
        return Err(Error::UnexpectedEof);
    }
    let mut values: Vec<Variant> = Vec::new();
    let mut pos: usize = 0;
    let mut used: usize = 0;
    let mut i: usize = 0;
    assert(values_model(values@) =~= Seq::<Value>::empty());
    proof {
        lemma_fields_none(*cfg, room as nat, fields, b);
    }
    while i < n
        invariant
            i <= n,
            n == fields.len(),
            n > 0,
            ty@ is Tuple,
            fields == ty@->Tuple_1,
            b == window@,
            fits(ty@),
            slots as nat == var_count(fields),
            slots_fit(b, slots as nat),
            decode_tuple(*cfg, room as nat, fields, b) == match decode_fields(
                *cfg,
                room as nat,
                fields,
                b,
                fields.len(),
            ) {
                Ok((values, _, _)) => Ok::<Seq<Value>, Error>(values),
                Err(e) => Err::<Seq<Value>, Error>(e),
            },
            pos <= b.len(),
            values@.len() == i,
            decode_fields(
                *cfg,
                room as nat,
                fields,
                b,
                i as nat,
            ) == Ok::<(Seq<Value>, nat, nat), Error>(
                (values_model(values@), pos as nat, used as nat),
            ),
        decreases n - i,
    {
        let ghost before = values_model(values@);
        proof {
            lemma_all_fit_index(fields, i as int);
            lemma_fields_step(
                *cfg,
                room as nat,
                fields,
                b,
                i as nat,
                before,
                pos as nat,
                used as nat,
            );
        }
        let field_type = ty.field(i);
        let layout = match field_type.layout() {
            Ok(layout) => layout,
            Err(e) => {
                return Err(e);
            },
        };
        assert(size_model(layout.fixed) == fixed_size(field_type@));
        let (start, end, next) = match field_bounds(
            window,
            layout.align,
            layout.fixed,
            i + 1 == n,
            slots,
            pos,
            used,
        ) {
            Ok(bounds) => bounds,
            Err(err) => {
                proof {
                    lemma_fields_failure(*cfg, room as nat, fields, b, (i + 1) as nat, n as nat);
                }
                return Err(err);
            },
        };
        let field_window = slice_subrange(window, start, end);
        match decode_value(cfg, room, field_type, field_window) {
            Err(err) => {
                proof {
                    lemma_fields_failure(*cfg, room as nat, fields, b, (i + 1) as nat, n as nat);
                }
                return Err(err);
            },
            Ok(x) => {
                values.push(x);
                assert(values_model(values@) =~= before.push(x@));
            },
        }
        pos = end;
        used = next;
        i += 1;
    }
    Ok(values)
}

/// Reads the value of type `ty` that `bytes` holds.
///
/// Fails with `UnsupportedShape` where the type cannot be laid out on this
/// machine, and else as the bytes demand: every outcome is that of
/// `decode_spec`, with room for `MAX_NESTING` variants inside one another.
pub fn decode(cfg: &Config, ty: &Type, bytes: &[u8]) -> (r: Result<Variant, Error>)
    ensures
        same_value(r, decode_spec(*cfg, MAX_NESTING as nat, ty@, bytes@)),
{
    match ty.layout() {
        Err(e) => {
            proof {
                lemma_decode_unfit(*cfg, MAX_NESTING as nat, ty@, bytes@);
            }
            Err(e)
        },
        Ok(_) => decode_value(cfg, MAX_NESTING, ty, bytes),
    }
}

} // verus!
