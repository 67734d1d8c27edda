//! Encoding: from values to bytes.

use crate::config::Config;
use crate::endian::{lemma_endianness_symmetry, lemma_radix_values, put_uint, radix, uint_bytes};
use crate::errors::Error;
use crate::frame::{
    all_fixed, array_frame, body, lemma_marks, lemma_push_item, marks, maybe_frame, tuple_frame,
    variant_frame, widest, Item,
};
use crate::offsets::{choose_width, padding, padding_for, table, zeros};
use crate::signature::{signature_of, MAX_NESTING};
use crate::text::text_bytes;
use crate::types::{align_of, fits, is_fixed, lemma_all_fit_index, Type, TypeSpec};
use crate::variant::{is_entry, shallow, type_of, typed, Value, Variant};
use vstd::prelude::*;

verus! {

/// The number below `radix(n)` that stands for `v` in two's complement.
pub open spec fn twos(v: int, n: nat) -> nat {
    if v < 0 {
        (v + radix(n)) as nat
    } else {
        v as nat
    }
}

/// The number that `u` stands for in two's complement of `n` bytes.
pub open spec fn untwos(u: nat, n: nat) -> int {
    if 2 * u >= radix(n) {
        u - radix(n)
    } else {
        u as int
    }
}

/// The type of what a maybe or an array holds.
pub open spec fn inner_type(t: TypeSpec) -> TypeSpec {
    match t {
        TypeSpec::Maybe(inner) => *inner,
        TypeSpec::Array(inner) => *inner,
        _ => TypeSpec::Bool,
    }
}

/// The types of the fields of a structure or dictionary entry.
pub open spec fn field_types(t: TypeSpec) -> Seq<TypeSpec> {
    match t {
        TypeSpec::Tuple(_, fields) => fields,
        _ => Seq::empty(),
    }
}

/// The byte of a boolean.
pub open spec fn bool_byte(v: bool) -> u8 {
    if v {
        1
    } else {
        0
    }
}

/// The encoding of a value `v` of type `t`, with multi-byte scalars most
/// significant byte first where `big` is set. Framing offsets are
/// little-endian in either case.
pub open spec fn encode_spec(big: bool, t: TypeSpec, v: Value) -> Seq<u8>
    decreases v,
{
    match v {
        Value::Bool(x) => seq![bool_byte(x)],
        Value::U8(x) => seq![x],
        Value::U16(x) => uint_bytes(big, x as nat, 2),
        Value::U32(x) => uint_bytes(big, x as nat, 4),
        Value::U64(x) => uint_bytes(big, x as nat, 8),
        Value::I16(x) => uint_bytes(big, twos(x as int, 2), 2),
        Value::I32(x) => uint_bytes(big, twos(x as int, 4), 4),
        Value::I64(x) => uint_bytes(big, twos(x as int, 8), 8),
        Value::F64(x) => uint_bytes(big, x as nat, 8),
        Value::String(s) => text_bytes(s),
        Value::ObjectPath(s) => text_bytes(s),
        Value::Signature(s) => text_bytes(s),
        Value::Variant(inner) => variant_frame(
            encode_spec(big, type_of(*inner), *inner),
            signature_of(type_of(*inner)),
        ),
        Value::Maybe(None) => maybe_frame(None),
        Value::Maybe(Some(inner)) => maybe_frame(
            Some(
                Item {
                    align: align_of(inner_type(t)),
                    fixed: is_fixed(inner_type(t)),
                    bytes: encode_spec(big, inner_type(t), *inner),
                },
            ),
        ),
        Value::Array(items) => array_frame(array_items(big, inner_type(t), items)),
        Value::Dictionary(entries) => array_frame(array_items(big, inner_type(t), entries)),
        Value::Structure(fields) => tuple_frame(tuple_items(big, field_types(t), fields)),
    }
}

/// The items that the values `vs` of one type `t` make in an array.
pub open spec fn array_items(big: bool, t: TypeSpec, vs: Seq<Value>) -> Seq<Item>
    decreases vs,
{
    Seq::new(
        vs.len(),
        |i: int|
            Item {
                align: align_of(t),
                fixed: is_fixed(t),
                bytes: if 0 <= i < vs.len() {
                    encode_spec(big, t, vs[i])
                } else {
                    Seq::empty()
                },
            },
    )
}

/// The items that the values `vs` of the types `ts` make in a structure.
pub open spec fn tuple_items(big: bool, ts: Seq<TypeSpec>, vs: Seq<Value>) -> Seq<Item>
    decreases vs,
{
    Seq::new(
        vs.len(),
        |i: int|
            Item {
                align: align_of(ts[i]),
                fixed: is_fixed(ts[i]),
                bytes: if 0 <= i < vs.len() {
                    encode_spec(big, ts[i], vs[i])
                } else {
                    Seq::empty()
                },
            },
    )
}

/// The bytes of a multi-byte scalar in network byte order are its bytes in
/// little-endian order, read backwards.
pub proof fn lemma_scalar_endianness(t: TypeSpec, v: Value)
    requires
        v is U16 || v is U32 || v is U64 || v is I16 || v is I32 || v is I64 || v is F64,
    ensures
        encode_spec(true, t, v) == encode_spec(false, t, v).reverse(),
        encode_spec(false, t, v) == encode_spec(true, t, v).reverse(),
{
    match v {
        Value::U16(x) => lemma_endianness_symmetry(x as nat, 2),
        Value::U32(x) => lemma_endianness_symmetry(x as nat, 4),
        Value::U64(x) => lemma_endianness_symmetry(x as nat, 8),
        Value::I16(x) => lemma_endianness_symmetry(twos(x as int, 2), 2),
        Value::I32(x) => lemma_endianness_symmetry(twos(x as int, 4), 4),
        Value::I64(x) => lemma_endianness_symmetry(twos(x as int, 8), 8),
        Value::F64(x) => lemma_endianness_symmetry(x as nat, 8),
        _ => {},
    }
}

/// What encoding reports of a value: whether its type has a fixed size, and
/// how many bytes the value takes.
#[derive(Clone, Copy, Debug, PartialEq, Eq)]
pub struct Properties {
    pub fixed_size: bool,
    pub size: u64,
}

/// A sink of bytes that knows how far its output has come.
#[derive(Debug)]
pub struct Serializer {
    /// The position of the next byte in the output.
    pub current_pos: u64,
    /// The bytes written so far.
    pub writer: Vec<u8>,
    /// The settings in use.
    pub options: Config,
}

/// Whether the position of `s` can move past padding to `align` and `len`
/// more bytes.
pub open spec fn has_room(s: Serializer, align: nat, len: nat) -> bool {
    s.current_pos + padding(s.current_pos as nat, align) + len <= u64::MAX
}

/// Whether `after` is `before` with padding to `align` and then `bytes`
/// written to it.
pub open spec fn wrote(before: Serializer, after: Serializer, align: nat, bytes: Seq<u8>) -> bool {
    let pad = padding(before.current_pos as nat, align);
    &&& after.writer@ == before.writer@ + zeros(pad) + bytes
    &&& after.current_pos == before.current_pos + pad + bytes.len()
    &&& after.options == before.options
}

/// Whether `r` is what writing `bytes` on `align` must give: the properties
/// of what was written, or `Io` and a sink left as it was where the position
/// cannot move that far.
pub open spec fn written(
    r: Result<Properties, Error>,
    before: Serializer,
    after: Serializer,
    align: nat,
    bytes: Seq<u8>,
    fixed: bool,
) -> bool {
    match r {
        Ok(p) => {
            &&& has_room(before, align, bytes.len())
            &&& wrote(before, after, align, bytes)
            &&& p == (Properties { fixed_size: fixed, size: bytes.len() as u64 })
        },
        Err(e) => {
            &&& e == Error::Io
            &&& !has_room(before, align, bytes.len())
            &&& after == before
        },
    }
}

/// Appends `bytes` to `out`.
pub fn append_bytes(out: &mut Vec<u8>, bytes: &[u8])
    ensures
        final(out)@ == old(out)@ + bytes@,
{
    out.extend_from_slice(bytes);
    assert(out@ =~= old(out)@ + bytes@);
}

/// Appends `n` zero bytes to `out`.
pub fn append_zeros(out: &mut Vec<u8>, n: u64)
    ensures
        final(out)@ == old(out)@ + zeros(n as nat),
{
    let mut i: u64 = 0;
    while i < n
        invariant
            i <= n,
            out@ == old(out)@ + zeros(i as nat),
        decreases n - i,
    {
        out.push(0u8);
        assert(out@ =~= old(out)@ + zeros((i + 1) as nat));
        i += 1;
    }
}

/// The encoding of a boolean.
pub fn bool_bytes(v: bool) -> (r: Vec<u8>)
    ensures
        r@ == seq![bool_byte(v)],
{
    let byte: u8 = if v {
        1
    } else {
        0
    };
    let bytes: Vec<u8> = vec![byte];
    assert(bytes@ =~= seq![bool_byte(v)]);
    bytes
}

/// The encoding of a byte.
pub fn byte_bytes(v: u8) -> (r: Vec<u8>)
    ensures
        r@ == seq![v],
{
    let bytes: Vec<u8> = vec![v];
    assert(bytes@ =~= seq![v]);
    bytes
}

/// The encoding of a string: its UTF-8 bytes and a closing zero byte.
pub fn str_bytes(v: &str) -> (r: Vec<u8>)
    ensures
        r@ == text_bytes(v@),
{
    let mut bytes: Vec<u8> = Vec::new();
    append_bytes(&mut bytes, v.as_bytes());
    bytes.push(0u8);
    assert(bytes@ =~= text_bytes(v@));
    bytes
}

/// The unsigned number that stands for `v` in two's complement of 2 bytes.
pub fn twos_i16(v: i16) -> (u: u64)
    ensures
        u as nat == twos(v as int, 2),
        (u as nat) < radix(2),
{
    proof {
        lemma_radix_values();
    }
    if v >= 0 {
        v as u64
    } else {
        (v as i32 + 0x1_0000) as u64
    }
}

/// The unsigned number that stands for `v` in two's complement of 4 bytes.
pub fn twos_i32(v: i32) -> (u: u64)
    ensures
        u as nat == twos(v as int, 4),
        (u as nat) < radix(4),
{
    proof {
        lemma_radix_values();
    }
    if v >= 0 {
        v as u64
    } else {
        (v as i64 + 0x1_0000_0000) as u64
    }
}

/// The unsigned number that stands for `v` in two's complement of 8 bytes.
pub fn twos_i64(v: i64) -> (u: u64)
    ensures
        u as nat == twos(v as int, 8),
        (u as nat) < radix(8),
{
    proof {
        lemma_radix_values();
    }
    if v >= 0 {
        v as u64
    } else {
        (v as i128 + 0x1_0000_0000_0000_0000) as u64
    }
}

impl Serializer {
    /// A sink at position 0 that holds no bytes yet.
    pub fn new(options: Config) -> (s: Serializer)
        ensures
            s.current_pos == 0,
            s.writer@ == Seq::<u8>::empty(),
            s.options == options,
    {
        Serializer { current_pos: 0, writer: Vec::new(), options }
    }

    /// Writes the zero bytes that bring the position to a multiple of
    /// `alignment`, and says how many they are; none for an alignment of 0 or 1.
    ///
    /// Fails with `Io`, and writes nothing, exactly when the position cannot
    /// move that far.
    pub fn pad_align(&mut self, alignment: u64) -> (r: Result<u64, Error>)
        ensures
            match r {
                Ok(pad) => {
                    &&& pad as nat == padding(old(self).current_pos as nat, alignment as nat)
                    &&& has_room(*old(self), alignment as nat, 0)
                    &&& wrote(*old(self), *final(self), alignment as nat, Seq::empty())
                },
                Err(e) => {
                    &&& e == Error::Io
                    &&& !has_room(*old(self), alignment as nat, 0)
                    &&& *final(self) == *old(self)
                },
            },
    {
        if alignment <= 1 {
            assert(self.writer@ + zeros(0) + Seq::<u8>::empty() =~= self.writer@);
            return Ok(0);
        }
        let pad = padding_for(self.current_pos, alignment);
        match self.current_pos.checked_add(pad) {
            None => Err(Error::Io),
            Some(next) => {
                append_zeros(&mut self.writer, pad);
                self.current_pos = next;
                assert(self.writer@ =~= old(self).writer@ + zeros(pad as nat) + Seq::<u8>::empty());
                Ok(pad)
            },
        }
    }

    /// Writes `bytes` on a multiple of `alignment`, as the encoding of a value
    /// whose type has a fixed size or not, as `fixed` says.
    pub fn write_item(&mut self, alignment: u64, bytes: &[u8], fixed: bool) -> (r: Result<
        Properties,
        Error,
    >)
        ensures
            written(r, *old(self), *final(self), alignment as nat, bytes@, fixed),
    {
        let pad = padding_for(self.current_pos, alignment);
        let len = bytes.len() as u64;
        let next = match self.current_pos.checked_add(pad) {
            None => {
                return Err(Error::Io);
            },
            Some(start) => match start.checked_add(len) {
                None => {
                    return Err(Error::Io);
                },
                Some(next) => next,
            },
        };
        append_zeros(&mut self.writer, pad);
        append_bytes(&mut self.writer, bytes);
        self.current_pos = next;
        Ok(Properties { fixed_size: fixed, size: len })
    }

    /// Writes the single zero byte of a structure without fields.
    pub fn serialize_unit(&mut self) -> (r: Result<Properties, Error>)
        ensures
            written(r, *old(self), *final(self), 1, seq![0u8], true),
    {
        let bytes: Vec<u8> = vec![0u8];
        assert(bytes@ =~= seq![0u8]);
        self.write_item(1, bytes.as_slice(), true)
    }

    /// Writes the single zero byte of a named structure without fields.
    pub fn serialize_unit_struct(&mut self) -> (r: Result<Properties, Error>)
        ensures
            written(r, *old(self), *final(self), 1, seq![0u8], true),
    {
        self.serialize_unit()
    }

    /// Writes a boolean: one byte, 1 for true and 0 for false.
    pub fn serialize_bool(&mut self, v: bool) -> (r: Result<Properties, Error>)
        ensures
            written(r, *old(self), *final(self), 1, seq![bool_byte(v)], true),
    {
        let bytes = bool_bytes(v);
        self.write_item(1, bytes.as_slice(), true)
    }

    /// Writes a byte.
    pub fn serialize_u8(&mut self, v: u8) -> (r: Result<Properties, Error>)
        ensures
            written(r, *old(self), *final(self), 1, seq![v], true),
    {
        let bytes = byte_bytes(v);
        self.write_item(1, bytes.as_slice(), true)
    }

    /// Writes a signed byte, in two's complement.
    pub fn serialize_i8(&mut self, v: i8) -> (r: Result<Properties, Error>)
        ensures
            written(r, *old(self), *final(self), 1, seq![twos(v as int, 1) as u8], true),
    {
        proof {
            lemma_radix_values();
        }
        let byte: u8 = if v >= 0 {
            v as u8
        } else {
            (v as i16 + 0x100) as u8
        };
        let bytes: Vec<u8> = vec![byte];
        assert(bytes@ =~= seq![twos(v as int, 1) as u8]);
        self.write_item(1, bytes.as_slice(), true)
    }

    /// Writes an unsigned 16-bit integer on a multiple of 2.
    pub fn serialize_u16(&mut self, v: u16) -> (r: Result<Properties, Error>)
        ensures
            written(
                r,
                *old(self),
                *final(self),
                2,
                uint_bytes(old(self).options.network_endian, v as nat, 2),
                true,
            ),
    {
        proof {
            lemma_radix_values();
        }
        let bytes = put_uint(self.options.network_endian, v as u64, 2);
        self.write_item(2, bytes.as_slice(), true)
    }

    /// Writes an unsigned 32-bit integer on a multiple of 4.
    pub fn serialize_u32(&mut self, v: u32) -> (r: Result<Properties, Error>)
        ensures
            written(
                r,
                *old(self),
                *final(self),
                4,
                uint_bytes(old(self).options.network_endian, v as nat, 4),
                true,
            ),
    {
        proof {
            lemma_radix_values();
        }
        let bytes = put_uint(self.options.network_endian, v as u64, 4);
        self.write_item(4, bytes.as_slice(), true)
    }

    /// Writes an unsigned 64-bit integer on a multiple of 8.
    pub fn serialize_u64(&mut self, v: u64) -> (r: Result<Properties, Error>)
        ensures
            written(
                r,
                *old(self),
                *final(self),
                8,
                uint_bytes(old(self).options.network_endian, v as nat, 8),
                true,
            ),
    {
        proof {
            lemma_radix_values();
        }
        let bytes = put_uint(self.options.network_endian, v, 8);
        self.write_item(8, bytes.as_slice(), true)
    }

    /// Writes a signed 16-bit integer, in two's complement, on a multiple of 2.
    pub fn serialize_i16(&mut self, v: i16) -> (r: Result<Properties, Error>)
        ensures
            written(
                r,
                *old(self),
                *final(self),
                2,
                uint_bytes(old(self).options.network_endian, twos(v as int, 2), 2),
                true,
            ),
    {
        let bytes = put_uint(self.options.network_endian, twos_i16(v), 2);
        self.write_item(2, bytes.as_slice(), true)
    }

    /// Writes a signed 32-bit integer, in two's complement, on a multiple of 4.
    pub fn serialize_i32(&mut self, v: i32) -> (r: Result<Properties, Error>)
        ensures
            written(
                r,
                *old(self),
                *final(self),
                4,
                uint_bytes(old(self).options.network_endian, twos(v as int, 4), 4),
                true,
            ),
    {
        let bytes = put_uint(self.options.network_endian, twos_i32(v), 4);
        self.write_item(4, bytes.as_slice(), true)
    }

    /// Writes a signed 64-bit integer, in two's complement, on a multiple of 8.
    pub fn serialize_i64(&mut self, v: i64) -> (r: Result<Properties, Error>)
        ensures
            written(
                r,
                *old(self),
                *final(self),
                8,
                uint_bytes(old(self).options.network_endian, twos(v as int, 8), 8),
                true,
            ),
    {
        let bytes = put_uint(self.options.network_endian, twos_i64(v), 8);
        self.write_item(8, bytes.as_slice(), true)
    }

    /// Writes a double, given by the 64 bits of its IEEE 754 form, on a
    /// multiple of 8.
    pub fn serialize_f64(&mut self, bits: u64) -> (r: Result<Properties, Error>)
        ensures
            written(
                r,
                *old(self),
                *final(self),
                8,
                uint_bytes(old(self).options.network_endian, bits as nat, 8),
                true,
            ),
    {
        self.serialize_u64(bits)
    }

    /// Writes a string: its UTF-8 bytes and a closing zero byte.
    pub fn serialize_str(&mut self, v: &str) -> (r: Result<Properties, Error>)
        ensures
            written(r, *old(self), *final(self), 1, text_bytes(v@), false),
    {
        let bytes = str_bytes(v);
        self.write_item(1, bytes.as_slice(), false)
    }

    /// Writes a sequence of bytes as it is, without a terminator.
    pub fn serialize_bytes(&mut self, v: &[u8]) -> (r: Result<Properties, Error>)
        ensures
            written(r, *old(self), *final(self), 1, v@, false),
    {
        self.write_item(1, v, false)
    }

    /// Writes an absent maybe: nothing.
    pub fn serialize_none(&mut self) -> (r: Result<Properties, Error>)
        ensures
            r == Ok::<Properties, Error>(Properties { fixed_size: true, size: 0 }),
            *final(self) == *old(self),
    {
        Ok(Properties { fixed_size: true, size: 0 })
    }
}

/// The numbers of a list of offsets.
pub open spec fn as_nats(offsets: Seq<u64>) -> Seq<nat> {
    Seq::new(offsets.len(), |i: int| offsets[i] as nat)
}

/// Appends to `out` the table of `offsets`, each `width` bytes wide and
/// little-endian; last offset first where `reversed` is set.
pub fn write_table(out: &mut Vec<u8>, offsets: &Vec<u64>, width: u64, reversed: bool)
    requires
        width == 1 || width == 2 || width == 4 || width == 8,
        forall|i: int|
            0 <= i < offsets@.len() ==> (#[trigger] offsets@[i] as nat) < radix(width as nat),
    ensures
        final(out)@ == old(out)@ + table(
            if reversed {
                as_nats(offsets@).reverse()
            } else {
                as_nats(offsets@)
            },
            width as nat,
        ),
{
    let n = offsets.len();
    let ghost order = if reversed {
        as_nats(offsets@).reverse()
    } else {
        as_nats(offsets@)
    };
    let mut i: usize = 0;
    assert(order.take(0) =~= Seq::<nat>::empty());
    assert(out@ =~= old(out)@ + table(order.take(0), width as nat));
    while i < n
        invariant
            i <= n,
            n == offsets@.len(),
            order.len() == n,
            order == if reversed {
                as_nats(offsets@).reverse()
            } else {
                as_nats(offsets@)
            },
            width == 1 || width == 2 || width == 4 || width == 8,
            forall|j: int|
                0 <= j < offsets@.len() ==> (#[trigger] offsets@[j] as nat) < radix(width as nat),
            out@ == old(out)@ + table(order.take(i as int), width as nat),
        decreases n - i,
    {
        let at = if reversed {
            n - 1 - i
        } else {
            i
        };
        let piece = put_uint(false, offsets[at], width as usize);
        assert(order.take(i + 1).drop_last() =~= order.take(i as int));
        assert(order.take(i + 1).last() == offsets@[at as int] as nat);
        append_bytes(out, piece.as_slice());
        assert(out@ =~= old(out)@ + table(order.take(i + 1), width as nat));
        i += 1;
    }
    assert(order.take(n as int) =~= order);
}

/// An array in the making: the elements written so far and the ends of those
/// without a fixed size.
pub struct SerSeq {
    /// The ends of the elements without a fixed size.
    pub framing_offsets: Vec<u64>,
    /// Whether the first element has a fixed size.
    pub fixed_size: bool,
    /// Whether there is an element yet.
    pub started: bool,
    /// The elements, each on its alignment.
    pub writer: Vec<u8>,
    /// The elements as contracts see them.
    pub items: Ghost<Seq<Item>>,
}

impl SerSeq {
    /// Whether the fields agree with the elements written so far.
    pub open spec fn wf(&self) -> bool {
        &&& self.writer@ == body(self.items@)
        &&& as_nats(self.framing_offsets@) == marks(self.items@, self.items@.len() as int)
        &&& self.started == (self.items@.len() > 0)
        &&& self.items@.len() > 0 ==> self.fixed_size == self.items@[0].fixed
    }

    /// An array without elements.
    pub fn new() -> (s: SerSeq)
        ensures
            s.wf(),
            s.items@ == Seq::<Item>::empty(),
    {
        let s = SerSeq {
            framing_offsets: Vec::new(),
            fixed_size: false,
            started: false,
            writer: Vec::new(),
            items: Ghost(Seq::empty()),
        };
        assert(as_nats(s.framing_offsets@) =~= marks(s.items@, 0));
        s
    }

    /// Adds an element: its encoding `bytes`, the alignment of its type, and
    /// whether that type has a fixed size.
    pub fn serialize_element(&mut self, alignment: u64, fixed: bool, bytes: &[u8])
        requires
            old(self).wf(),
        ensures
            final(self).wf(),
            final(self).items@ == old(self).items@.push(
                Item { align: alignment as nat, fixed, bytes: bytes@ },
            ),
    {
        let ghost item = Item { align: alignment as nat, fixed, bytes: bytes@ };
        proof {
            lemma_push_item(self.items@, item);
        }
        let pad = padding_for(self.writer.len() as u64, alignment);
        append_zeros(&mut self.writer, pad);
        append_bytes(&mut self.writer, bytes);
        if !fixed {
            self.framing_offsets.push(self.writer.len() as u64);
        }
        let ghost before = self.items@;
        self.items = Ghost(before.push(item));
        if !self.started {
            self.fixed_size = fixed;
            self.started = true;
        }
        proof {
            let ends = marks(self.items@, self.items@.len() as int);
            assert(as_nats(self.framing_offsets@) =~= ends);
            if before.len() == 0 {
                assert(self.items@[0] == item);
            } else {
                assert(self.items@[0] == before[0]);
            }
        }
    }

    /// Closes the array: writes the table of ends behind the elements where
    /// they have no fixed size, and gives the encoding and its properties.
    pub fn end(self) -> (r: (Vec<u8>, Properties))
        requires
            self.wf(),
        ensures
            r.0@ == array_frame(self.items@),
            r.1 == (Properties { fixed_size: false, size: r.0@.len() as u64 }),
    {
        let mut out = self.writer;
        if self.started && !self.fixed_size {
            let offsets = self.framing_offsets;
            let width = choose_width(out.len() as u64, offsets.len() as u64);
            proof {
                let n = self.items@.len() as int;
                lemma_marks(self.items@, n);
                assert(self.items@.take(n) =~= self.items@);
                lemma_radix_values();
                assert forall|i: int| 0 <= i < offsets@.len() implies (#[trigger] offsets@[i]
                    as nat) < radix(width as nat) by {
                    assert(as_nats(offsets@)[i] == offsets@[i] as nat);
                }
            }
            write_table(&mut out, &offsets, width, false);
        }
        let size = out.len() as u64;
        (out, Properties { fixed_size: false, size })
    }
}

/// How many of `n` fields written can have a mark, when `num_fields` fields
/// are to come in all: all but the last one.
pub open spec fn markable(n: nat, num_fields: nat) -> int {
    if n < num_fields {
        n as int
    } else {
        num_fields - 1
    }
}

/// A structure in the making: the fields written so far and the ends of
/// those without a fixed size.
pub struct SerStruct {
    /// The number of fields written.
    pub cur_field: u64,
    /// The number of fields that the structure has.
    pub num_fields: u64,
    /// The ends of the fields without a fixed size, the last field left out.
    pub framing_offsets: Vec<u64>,
    /// Whether every field so far has a fixed size.
    pub fixed_size: bool,
    /// The largest alignment among the fields so far.
    pub alignment: u64,
    /// The fields, each on its alignment.
    pub writer: Vec<u8>,
    /// The fields as contracts see them.
    pub items: Ghost<Seq<Item>>,
}

impl SerStruct {
    /// Whether the fields agree with the fields written so far.
    pub open spec fn wf(&self) -> bool {
        &&& self.cur_field as nat == self.items@.len()
        &&& self.cur_field <= self.num_fields
        &&& self.writer@ == body(self.items@)
        &&& as_nats(self.framing_offsets@) == marks(
            self.items@,
            markable(self.items@.len(), self.num_fields as nat),
        )
        &&& self.fixed_size == all_fixed(self.items@)
        &&& self.alignment as nat == widest(self.items@)
    }

    /// A structure of `num_fields` fields, none of them written yet.
    pub fn new(num_fields: u64) -> (s: SerStruct)
        ensures
            s.wf(),
            s.items@ == Seq::<Item>::empty(),
            s.num_fields == num_fields,
    {
        let s = SerStruct {
            cur_field: 0,
            num_fields,
            framing_offsets: Vec::new(),
            fixed_size: true,
            alignment: 1,
            writer: Vec::new(),
            items: Ghost(Seq::empty()),
        };
        assert(as_nats(s.framing_offsets@) =~= marks(
            s.items@,
            markable(s.items@.len(), s.num_fields as nat),
        ));
        s
    }

    /// Adds a field: its encoding `bytes`, the alignment of its type, and
    /// whether that type has a fixed size.
    ///
    /// Fails with `UnsupportedShape`, and changes nothing, exactly when all the
    /// fields of the structure have been written already.
    pub fn serialize_field(&mut self, alignment: u64, fixed: bool, bytes: &[u8]) -> (r: Result<
        (),
        Error,
    >)
        requires
            old(self).wf(),
        ensures
            final(self).wf(),
            final(self).num_fields == old(self).num_fields,
            match r {
                Ok(_) => old(self).cur_field < old(self).num_fields && final(self).items@ == old(
                    self,
                ).items@.push(Item { align: alignment as nat, fixed, bytes: bytes@ }),
                Err(e) => e == Error::UnsupportedShape && old(self).cur_field == old(
                    self,
                ).num_fields && *final(self) == *old(self),
            },
    {
        if self.cur_field >= self.num_fields {
            return Err(Error::UnsupportedShape);
        }
        let ghost item = Item { align: alignment as nat, fixed, bytes: bytes@ };
        let ghost before = self.items@;
        proof {
            lemma_push_item(before, item);
        }
        let pad = padding_for(self.writer.len() as u64, alignment);
        append_zeros(&mut self.writer, pad);
        append_bytes(&mut self.writer, bytes);
        self.cur_field = self.cur_field + 1;
        let last = self.cur_field == self.num_fields;
        if !fixed && !last {
            self.framing_offsets.push(self.writer.len() as u64);
        }
        if !fixed {
            self.fixed_size = false;
        }
        if alignment > self.alignment {
            self.alignment = alignment;
        }
        self.items = Ghost(before.push(item));
        proof {
            let ends = marks(self.items@, markable(self.items@.len(), self.num_fields as nat));
            assert(as_nats(self.framing_offsets@) =~= ends);
        }
        Ok(())
    }

    /// Closes the structure: writes what follows the fields, and gives the
    /// encoding and its properties.
    ///
    /// Fails with `UnsupportedShape` exactly when fields are still missing.
    pub fn end(self) -> (r: Result<(Vec<u8>, Properties), Error>)
        requires
            self.wf(),
        ensures
            match r {
                Ok((bytes, p)) => {
                    &&& self.cur_field == self.num_fields
                    &&& bytes@ == tuple_frame(self.items@)
                    &&& p == (Properties { fixed_size: self.fixed_size, size: bytes@.len() as u64 })
                },
                Err(e) => e == Error::UnsupportedShape && self.cur_field < self.num_fields,
            },
    {
        if self.cur_field != self.num_fields {
            return Err(Error::UnsupportedShape);
        }
        let mut out = self.writer;
        if self.num_fields == 0 {
            out.push(0u8);
            assert(out@ =~= seq![0u8]);
        } else if self.fixed_size {
            let pad = padding_for(out.len() as u64, self.alignment);
            append_zeros(&mut out, pad);
        } else {
            let offsets = self.framing_offsets;
            let width = choose_width(out.len() as u64, offsets.len() as u64);
            proof {
                let n = self.items@.len() as int;
                lemma_marks(self.items@, n - 1);
                crate::frame::lemma_end_of_monotonic(self.items@, n - 1, n);
                assert(self.items@.take(n) =~= self.items@);
                lemma_radix_values();
                assert forall|i: int| 0 <= i < offsets@.len() implies (#[trigger] offsets@[i]
                    as nat) < radix(width as nat) by {
                    assert(as_nats(offsets@)[i] == offsets@[i] as nat);
                }
            }
            write_table(&mut out, &offsets, width, true);
        }
        let size = out.len() as u64;
        Ok((out, Properties { fixed_size: self.fixed_size, size }))
    }
}

/// Encodes a present maybe from the encoding of what it holds: closes it
/// with a zero byte unless the inner type has a fixed size.
pub fn serialize_some(alignment: u64, fixed: bool, inner: Vec<u8>) -> (r: (Vec<u8>, Properties))
    ensures
        r.0@ == maybe_frame(Some(Item { align: alignment as nat, fixed, bytes: inner@ })),
        r.1 == (Properties { fixed_size: false, size: r.0@.len() as u64 }),
{
    let mut out = inner;
    if !fixed {
        out.push(0u8);
    }
    let size = out.len() as u64;
    (out, Properties { fixed_size: false, size })
}

/// Encodes a variant from the encoding of what it carries and the signature
/// of that value's type.
pub fn serialize_variant(payload: Vec<u8>, signature: &[u8]) -> (r: (Vec<u8>, Properties))
    ensures
        r.0@ == variant_frame(payload@, signature@),
        r.1 == (Properties { fixed_size: false, size: r.0@.len() as u64 }),
{
    let mut out = payload;
    out.push(0u8);
    append_bytes(&mut out, signature);
    let size = out.len() as u64;
    (out, Properties { fixed_size: false, size })
}

/// Whether `r` is what encoding `v` as a `t` must give: the encoding, or
/// `UnsupportedShape` where `v` is no value of type `t`.
pub open spec fn encoded(r: Result<Vec<u8>, Error>, big: bool, t: TypeSpec, v: Value) -> bool {
    match r {
        Ok(bytes) => typed(t, v) && bytes@ == encode_spec(big, t, v),
        Err(e) => e == Error::UnsupportedShape && !typed(t, v),
    }
}

/// Encodes the value `v` of a type `ty` that can be laid out.
///
/// Fails with `UnsupportedShape` exactly when `v` is no value of type `ty`.
pub fn encode_value(cfg: &Config, ty: &Type, v: &Variant) -> (r: Result<Vec<u8>, Error>)
    requires
        fits(ty@),
    ensures
        encoded(r, cfg.network_endian, ty@, v@),
    decreases v, 1nat,
{
    proof {
        lemma_radix_values();
    }
    match (ty, v) {
        (Type::Bool, Variant::Bool(x)) => Ok(bool_bytes(*x)),
        (Type::U8, Variant::U8(x)) => Ok(byte_bytes(*x)),
        (Type::U16, Variant::U16(x)) => Ok(put_uint(cfg.network_endian, *x as u64, 2)),
        (Type::U32, Variant::U32(x)) => Ok(put_uint(cfg.network_endian, *x as u64, 4)),
        (Type::U64, Variant::U64(x)) => Ok(put_uint(cfg.network_endian, *x, 8)),
        (Type::I16, Variant::I16(x)) => Ok(put_uint(cfg.network_endian, twos_i16(*x), 2)),
        (Type::I32, Variant::I32(x)) => Ok(put_uint(cfg.network_endian, twos_i32(*x), 4)),
        (Type::I64, Variant::I64(x)) => Ok(put_uint(cfg.network_endian, twos_i64(*x), 8)),
        (Type::F64, Variant::F64(x)) => Ok(put_uint(cfg.network_endian, *x, 8)),
        (Type::String, Variant::String(x)) => Ok(str_bytes(x.as_str())),
        (Type::ObjectPath, Variant::ObjectPath(x)) => Ok(str_bytes(x.as_str())),
        (Type::Signature, Variant::Signature(x)) => Ok(str_bytes(x.as_str())),
        (Type::Variant, Variant::Variant(inner)) => {
            let inner_type = inner.type_of();
            if inner_type.layout().is_err() || !inner_type.depth_at_most(MAX_NESTING) {
                return Err(Error::UnsupportedShape);
            }
            match encode_value(cfg, &inner_type, inner) {
                Err(e) => Err(e),
                Ok(payload) => {
                    let signature = inner_type.signature_bytes();
                    let (bytes, _) = serialize_variant(payload, signature.as_slice());
                    Ok(bytes)
                },
            }
        },
        (Type::Maybe(_), Variant::Option(None)) => Ok(Vec::new()),
        (Type::Maybe(inner_type), Variant::Option(Some(inner))) => {
            let layout = match inner_type.layout() {
                Ok(layout) => layout,
                Err(e) => {
                    return Err(e);
                },
            };
            match encode_value(cfg, inner_type, inner) {
                Err(e) => Err(e),
                Ok(payload) => {
                    let (bytes, _) = serialize_some(
                        layout.align as u64,
                        layout.fixed.is_some(),
                        payload,
                    );
                    Ok(bytes)
                },
            }
        },
        (Type::Array(item_type), Variant::Vec(_)) => {
            if item_type.is_dict_entry() {
                Err(Error::UnsupportedShape)
            } else {
                encode_array(cfg, item_type, v)
            }
        },
        (Type::Array(entry_type), Variant::Dictionary(_)) => {
            if entry_type.is_dict_entry() {
                encode_dictionary(cfg, entry_type, v)
            } else {
                Err(Error::UnsupportedShape)
            }
        },
        (Type::Structure(_), Variant::Structure(_)) => encode_structure(cfg, ty, v),
        (Type::DictEntry(_, _), Variant::Structure(_)) => encode_structure(cfg, ty, v),
        _ => Err(Error::UnsupportedShape),
    }
}

/// Encodes the array `v`, whose elements are to be of type `item_type`.
pub fn encode_array(cfg: &Config, item_type: &Type, v: &Variant) -> (r: Result<Vec<u8>, Error>)
    requires
        v is Vec,
        fits(item_type@),
        !is_entry(item_type@),
    ensures
        encoded(r, cfg.network_endian, TypeSpec::Array(Box::new(item_type@)), v@),
    decreases v, 0nat,
{
    let ghost big = cfg.network_endian;
    let ghost items = v@->Array_0;
    let n = match v {
        Variant::Vec(array) => array.len(),
        _ => 0,
    };
    let layout = match item_type.layout() {
        Ok(layout) => layout,
        Err(e) => {
            return Err(e);
        },
    };
    let mut seq = SerSeq::new();
    let mut i: usize = 0;
    assert(array_items(big, item_type@, items).take(0) =~= seq.items@);
    while i < n
        invariant
            i <= n,
            n == items.len(),
            v is Vec,
            n == v->Vec_0.inner@.len(),
            items == v@->Array_0,
            big == cfg.network_endian,
            fits(item_type@),
            layout.align as nat == align_of(item_type@),
            layout.fixed.is_some() == is_fixed(item_type@),
            seq.wf(),
            seq.items@ == array_items(big, item_type@, items).take(i as int),
            forall|j: int| 0 <= j < i ==> typed(item_type@, #[trigger] items[j]),
        decreases n - i,
    {
        let element = v.element(i);
        assert(items[i as int] == element@);
        match encode_value(cfg, item_type, element) {
            Err(e) => {
                return Err(e);
            },
            Ok(bytes) => {
                seq.serialize_element(
                    layout.align as u64,
                    layout.fixed.is_some(),
                    bytes.as_slice(),
                );
                assert(array_items(big, item_type@, items).take(i + 1) =~= array_items(
                    big,
                    item_type@,
                    items,
                ).take(i as int).push(array_items(big, item_type@, items)[i as int]));
            },
        }
        i += 1;
    }
    assert(array_items(big, item_type@, items).take(n as int) =~= array_items(
        big,
        item_type@,
        items,
    ));
    let (bytes, _) = seq.end();
    Ok(bytes)
}

/// Encodes the dictionary `v`, whose entries are to be of type `entry_type`.
pub fn encode_dictionary(cfg: &Config, entry_type: &Type, v: &Variant) -> (r: Result<
    Vec<u8>,
    Error,
>)
    requires
        v is Dictionary,
        fits(entry_type@),
        is_entry(entry_type@),
    ensures
        encoded(r, cfg.network_endian, TypeSpec::Array(Box::new(entry_type@)), v@),
    decreases v, 0nat,
{
    let ghost big = cfg.network_endian;
    let ghost entries = v@->Dictionary_0;
    let ghost pair_types = entry_type@->Tuple_1;
    let n = match v {
        Variant::Dictionary(dict) => dict.len(),
        _ => 0,
    };
    let layout = match entry_type.layout() {
        Ok(layout) => layout,
        Err(e) => {
            return Err(e);
        },
    };
    proof {
        lemma_all_fit_index(pair_types, 0);
        lemma_all_fit_index(pair_types, 1);
    }
    let key_type = entry_type.field(0);
    let value_type = entry_type.field(1);
    let key_layout = match key_type.layout() {
        Ok(layout) => layout,
        Err(e) => {
            return Err(e);
        },
    };
    let value_layout = match value_type.layout() {
        Ok(layout) => layout,
        Err(e) => {
            return Err(e);
        },
    };
    let mut seq = SerSeq::new();
    let mut i: usize = 0;
    assert(array_items(big, entry_type@, entries).take(0) =~= seq.items@);
    while i < n
        invariant
            i <= n,
            n == entries.len(),
            v is Dictionary,
            n == v->Dictionary_0.inner@.len(),
            entries == v@->Dictionary_0,
            big == cfg.network_endian,
            fits(entry_type@),
            entry_type@ is Tuple,
            pair_types == entry_type@->Tuple_1,
            pair_types.len() == 2,
            key_type@ == pair_types[0],
            value_type@ == pair_types[1],
            fits(key_type@),
            fits(value_type@),
            layout.align as nat == align_of(entry_type@),
            layout.fixed.is_some() == is_fixed(entry_type@),
            key_layout.align as nat == align_of(key_type@),
            key_layout.fixed.is_some() == is_fixed(key_type@),
            value_layout.align as nat == align_of(value_type@),
            value_layout.fixed.is_some() == is_fixed(value_type@),
            seq.wf(),
            seq.items@ == array_items(big, entry_type@, entries).take(i as int),
            forall|j: int| 0 <= j < i ==> typed(entry_type@, #[trigger] entries[j]),
        decreases n - i,
    {
        let (key, value) = v.entry(i);
        let ghost pair = seq![key@, value@];
        assert(entries[i as int] == Value::Structure(pair));
        let key_bytes = match encode_value(cfg, key_type, key) {
            Ok(bytes) => bytes,
            Err(e) => {
                assert(!typed(entry_type@, entries[i as int])) by {
                    reveal_with_fuel(typed, 2);
                    assert(pair[0] == key@);
                }
                return Err(e);
            },
        };
        let value_bytes = match encode_value(cfg, value_type, value) {
            Ok(bytes) => bytes,
            Err(e) => {
                assert(!typed(entry_type@, entries[i as int])) by {
                    reveal_with_fuel(typed, 2);
                    assert(pair[1] == value@);
                }
                return Err(e);
            },
        };
        let mut entry = SerStruct::new(2);
        match entry.serialize_field(
            key_layout.align as u64,
            key_layout.fixed.is_some(),
            key_bytes.as_slice(),
        ) {
            Ok(()) => {},
            Err(e) => {
                return Err(e);
            },
        }
        match entry.serialize_field(
            value_layout.align as u64,
            value_layout.fixed.is_some(),
            value_bytes.as_slice(),
        ) {
            Ok(()) => {},
            Err(e) => {
                return Err(e);
            },
        }
        assert(entry.items@ =~= tuple_items(big, pair_types, pair));
        let bytes = match entry.end() {
            Ok((bytes, _)) => bytes,
            Err(e) => {
                return Err(e);
            },
        };
        assert(typed(entry_type@, entries[i as int])) by {
            reveal_with_fuel(typed, 2);
            assert forall|k: int| 0 <= k < pair.len() implies typed(
                pair_types[k],
                #[trigger] pair[k],
            ) by {
                if k == 0 {
                } else {
                }
            }
        }
        seq.serialize_element(layout.align as u64, layout.fixed.is_some(), bytes.as_slice());
        assert(array_items(big, entry_type@, entries).take(i + 1) =~= array_items(
            big,
            entry_type@,
            entries,
        ).take(i as int).push(array_items(big, entry_type@, entries)[i as int]));
        i += 1;
    }
    assert(array_items(big, entry_type@, entries).take(n as int) =~= array_items(
        big,
        entry_type@,
        entries,
    ));
    let (bytes, _) = seq.end();
    Ok(bytes)
}

/// Encodes the structure `v`, whose fields are to be of the field types of
/// `ty`.
pub fn encode_structure(cfg: &Config, ty: &Type, v: &Variant) -> (r: Result<Vec<u8>, Error>)
    requires
        v is Structure,
        ty@ is Tuple,
        fits(ty@),
    ensures
        encoded(r, cfg.network_endian, ty@, v@),
    decreases v, 0nat,
{
    let ghost big = cfg.network_endian;
    let ghost fields = v@->Structure_0;
    let ghost types = ty@->Tuple_1;
    let n = match v {
        Variant::Structure(structure) => structure.len(),
        _ => 0,
    };
    if ty.arity() != n {
        return Err(Error::UnsupportedShape);
    }
    let mut builder = SerStruct::new(n as u64);
    let mut i: usize = 0;
    assert(tuple_items(big, types, fields).take(0) =~= builder.items@);
    while i < n
        invariant
            i <= n,
            n == fields.len(),
            n == types.len(),
            v is Structure,
            n == v->Structure_0.fields@.len(),
            fields == v@->Structure_0,
            ty@ is Tuple,
            types == ty@->Tuple_1,
            big == cfg.network_endian,
            fits(ty@),
            builder.wf(),
            builder.num_fields == n,
            builder.items@ == tuple_items(big, types, fields).take(i as int),
            forall|j: int| 0 <= j < i ==> typed(types[j], #[trigger] fields[j]),
        decreases n - i,
    {
        let field = v.field(i);
        let field_type = ty.field(i);
        assert(fields[i as int] == field@);
        proof {
            lemma_all_fit_index(types, i as int);
        }
        let layout = match field_type.layout() {
            Ok(layout) => layout,
            Err(e) => {
                return Err(e);
            },
        };
        match encode_value(cfg, field_type, field) {
            Err(e) => {
                return Err(e);
            },
            Ok(bytes) => {
                match builder.serialize_field(
                    layout.align as u64,
                    layout.fixed.is_some(),
                    bytes.as_slice(),
                ) {
                    Ok(()) => {},
                    Err(e) => {
                        return Err(e);
                    },
                }
                assert(tuple_items(big, types, fields).take(i + 1) =~= tuple_items(
                    big,
                    types,
                    fields,
                ).take(i as int).push(tuple_items(big, types, fields)[i as int]));
            },
        }
        i += 1;
    }
    assert(tuple_items(big, types, fields).take(n as int) =~= tuple_items(big, types, fields));
    match builder.end() {
        Ok((bytes, _)) => Ok(bytes),
        Err(e) => Err(e),
    }
}

/// Whether `v` can be encoded as a `t`: the type can be laid out on this
/// machine, `v` is a value of it, and the variants in `v` stand at most
/// `MAX_NESTING` deep inside one another.
pub open spec fn encodable(t: TypeSpec, v: Value) -> bool {
    fits(t) && typed(t, v) && shallow(MAX_NESTING as nat, v)
}

/// Encodes the value `v` as a `ty`.
///
/// Fails with `UnsupportedShape` exactly when `v` cannot be encoded as a `ty`.
pub fn encode(cfg: &Config, ty: &Type, v: &Variant) -> (r: Result<Vec<u8>, Error>)
    ensures
        match r {
            Ok(bytes) => encodable(ty@, v@) && bytes@ == encode_spec(cfg.network_endian, ty@, v@),
            Err(e) => e == Error::UnsupportedShape && !encodable(ty@, v@),
        },
{
    if !v.nests_within(MAX_NESTING) {
        return Err(Error::UnsupportedShape);
    }
    match ty.layout() {
        Err(e) => Err(e),
        Ok(_) => encode_value(cfg, ty, v),
    }
}

/// Encodes the value `v` as a `ty` and appends the encoding to `sink`, which is
/// left as it was where encoding fails.
pub fn encode_into(cfg: &Config, ty: &Type, v: &Variant, sink: &mut Vec<u8>) -> (r: Result<
    Properties,
    Error,
>)
    ensures
        match r {
            Ok(p) => {
                &&& encodable(ty@, v@)
                &&& final(sink)@ == old(sink)@ + encode_spec(cfg.network_endian, ty@, v@)
                &&& p.size as nat == encode_spec(cfg.network_endian, ty@, v@).len()
                &&& p.fixed_size == is_fixed(ty@)
            },
            Err(e) => {
                &&& e == Error::UnsupportedShape
                &&& !encodable(ty@, v@)
                &&& final(sink)@ == old(sink)@
            },
        },
{
    if !v.nests_within(MAX_NESTING) {
        return Err(Error::UnsupportedShape);
    }
    let layout = match ty.layout() {
        Err(e) => {
            return Err(e);
        },
        Ok(layout) => layout,
    };
    match encode_value(cfg, ty, v) {
        Err(e) => Err(e),
        Ok(bytes) => {
            append_bytes(sink, bytes.as_slice());
            Ok(Properties { fixed_size: layout.fixed.is_some(), size: bytes.len() as u64 })
        },
    }
}

} // verus!
