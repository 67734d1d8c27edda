//! Signatures: the ASCII strings that spell a type, one letter or bracket
//! per node of its tree.

use crate::errors::Error;
use crate::text::text_of;
use crate::types::{
    all_fit, depth, fits, lemma_all_fit_index, lemma_max_depth_index, max_depth, type_model,
    types_model, Type, TypeSpec,
};
use vstd::prelude::*;
use vstd::utf8::{
    decode_utf8, encode_utf8, encode_utf8_decode_utf8, encode_utf8_valid_utf8,
    is_ascii_chars_encode_utf8, valid_utf8,
};

verus! {

/// The deepest nesting of containers that a signature may spell.
pub const MAX_NESTING: usize = 64;

/// `b`, a boolean.
pub const SIG_BOOL: u8 = 0x62;

/// `y`, a byte.
pub const SIG_U8: u8 = 0x79;

/// `n`, a signed 16-bit integer.
pub const SIG_I16: u8 = 0x6e;

/// `q`, an unsigned 16-bit integer.
pub const SIG_U16: u8 = 0x71;

/// `i`, a signed 32-bit integer.
pub const SIG_I32: u8 = 0x69;

/// `u`, an unsigned 32-bit integer.
pub const SIG_U32: u8 = 0x75;

/// `x`, a signed 64-bit integer.
pub const SIG_I64: u8 = 0x78;

/// `t`, an unsigned 64-bit integer.
pub const SIG_U64: u8 = 0x74;

/// `d`, a double.
pub const SIG_F64: u8 = 0x64;

/// `s`, a string.
pub const SIG_STRING: u8 = 0x73;

/// `o`, an object path.
pub const SIG_OBJECT_PATH: u8 = 0x6f;

/// `g`, a signature string.
pub const SIG_SIGNATURE: u8 = 0x67;

/// `v`, a variant.
pub const SIG_VARIANT: u8 = 0x76;

/// `m`, before the type that a maybe holds.
pub const SIG_MAYBE: u8 = 0x6d;

/// `a`, before the type of the elements of an array.
pub const SIG_ARRAY: u8 = 0x61;

/// `(`, before the fields of a structure.
pub const SIG_STRUCT_OPEN: u8 = 0x28;

/// `)`, behind the fields of a structure.
pub const SIG_STRUCT_CLOSE: u8 = 0x29;

/// `{`, before the key and the value of a dictionary entry.
pub const SIG_ENTRY_OPEN: u8 = 0x7b;

/// `}`, behind the key and the value of a dictionary entry.
pub const SIG_ENTRY_CLOSE: u8 = 0x7d;

/// The type that a single letter spells, if it spells one.
pub open spec fn leaf_of(c: u8) -> Option<TypeSpec> {
    if c == SIG_BOOL {
        Some(TypeSpec::Bool)
    } else if c == SIG_U8 {
        Some(TypeSpec::U8)
    } else if c == SIG_I16 {
        Some(TypeSpec::I16)
    } else if c == SIG_U16 {
        Some(TypeSpec::U16)
    } else if c == SIG_I32 {
        Some(TypeSpec::I32)
    } else if c == SIG_U32 {
        Some(TypeSpec::U32)
    } else if c == SIG_I64 {
        Some(TypeSpec::I64)
    } else if c == SIG_U64 {
        Some(TypeSpec::U64)
    } else if c == SIG_F64 {
        Some(TypeSpec::F64)
    } else if c == SIG_STRING {
        Some(TypeSpec::String)
    } else if c == SIG_OBJECT_PATH {
        Some(TypeSpec::ObjectPath)
    } else if c == SIG_SIGNATURE {
        Some(TypeSpec::Signature)
    } else if c == SIG_VARIANT {
        Some(TypeSpec::Variant)
    } else {
        None
    }
}

/// The bracket that opens a structure or, with the flag set, a dictionary
/// entry.
pub open spec fn open_of(entry: bool) -> u8 {
    if entry {
        SIG_ENTRY_OPEN
    } else {
        SIG_STRUCT_OPEN
    }
}

/// The bracket that closes a structure or, with the flag set, a dictionary
/// entry.
pub open spec fn close_of(entry: bool) -> u8 {
    if entry {
        SIG_ENTRY_CLOSE
    } else {
        SIG_STRUCT_CLOSE
    }
}

/// The signature of a type.
pub open spec fn signature_of(t: TypeSpec) -> Seq<u8>
    decreases t,
{
    match t {
        TypeSpec::Bool => seq![SIG_BOOL],
        TypeSpec::U8 => seq![SIG_U8],
        TypeSpec::I16 => seq![SIG_I16],
        TypeSpec::U16 => seq![SIG_U16],
        TypeSpec::I32 => seq![SIG_I32],
        TypeSpec::U32 => seq![SIG_U32],
        TypeSpec::I64 => seq![SIG_I64],
        TypeSpec::U64 => seq![SIG_U64],
        TypeSpec::F64 => seq![SIG_F64],
        TypeSpec::String => seq![SIG_STRING],
        TypeSpec::ObjectPath => seq![SIG_OBJECT_PATH],
        TypeSpec::Signature => seq![SIG_SIGNATURE],
        TypeSpec::Variant => seq![SIG_VARIANT],
        TypeSpec::Maybe(inner) => seq![SIG_MAYBE] + signature_of(*inner),
        TypeSpec::Array(inner) => seq![SIG_ARRAY] + signature_of(*inner),
        TypeSpec::Tuple(entry, fields) => seq![open_of(entry)] + signatures_of(fields) + seq![
            close_of(entry),
        ],
    }
}

/// The signatures of `fields`, one after the other.
pub open spec fn signatures_of(fields: Seq<TypeSpec>) -> Seq<u8>
    decreases fields,
{
    if fields.len() == 0 {
        Seq::empty()
    } else {
        signatures_of(fields.drop_last()) + signature_of(fields.last())
    }
}

/// Reads one type from the front of `s`, with at most `budget` containers
/// nested in it, and gives the type and what follows it in `s`.
pub open spec fn parse_one(s: Seq<u8>, budget: nat) -> Option<(TypeSpec, Seq<u8>)>
    decreases s.len(), 0nat,
{
    if s.len() == 0 {
        None
    } else if leaf_of(s[0]) is Some {
        Some((leaf_of(s[0])->0, s.drop_first()))
    } else if budget == 0 {
        None
    } else if s[0] == SIG_MAYBE {
        match parse_one(s.drop_first(), (budget - 1) as nat) {
            Some((inner, rest)) => Some((TypeSpec::Maybe(Box::new(inner)), rest)),
            None => None,
        }
    } else if s[0] == SIG_ARRAY {
        match parse_one(s.drop_first(), (budget - 1) as nat) {
            Some((inner, rest)) => Some((TypeSpec::Array(Box::new(inner)), rest)),
            None => None,
        }
    } else if s[0] == SIG_STRUCT_OPEN {
        match parse_many(s.drop_first(), (budget - 1) as nat, SIG_STRUCT_CLOSE) {
            Some((fields, rest)) => Some((TypeSpec::Tuple(false, fields), rest)),
            None => None,
        }
    } else if s[0] == SIG_ENTRY_OPEN {
        match parse_many(s.drop_first(), (budget - 1) as nat, SIG_ENTRY_CLOSE) {
            Some((fields, rest)) => if fields.len() == 2 {
                Some((TypeSpec::Tuple(true, fields), rest))
            } else {
                None
            },
            None => None,
        }
    } else {
        None
    }
}

/// Reads types from the front of `s` up to the bracket `close`, and gives the
/// types and what follows the bracket in `s`.
pub open spec fn parse_many(s: Seq<u8>, budget: nat, close: u8) -> Option<
    (Seq<TypeSpec>, Seq<u8>),
>
    decreases s.len(), 1nat,
{
    if s.len() == 0 {
        None
    } else if s[0] == close {
        Some((Seq::empty(), s.drop_first()))
    } else {
        match parse_one(s, budget) {
            Some((first, rest)) => if rest.len() < s.len() {
                match parse_many(rest, budget, close) {
                    Some((others, after)) => Some((seq![first] + others, after)),
                    None => None,
                }
            } else {
                None
            },
            None => None,
        }
    }
}

/// The type that the whole of `s` spells, if it spells one whose containers
/// nest at most `MAX_NESTING` deep.
pub open spec fn parse_signature(s: Seq<u8>) -> Option<TypeSpec> {
    match parse_one(s, MAX_NESTING as nat) {
        Some((t, rest)) => if rest.len() == 0 {
            Some(t)
        } else {
            None
        },
        None => None,
    }
}

/// The text whose characters are the bytes of `bytes`, for bytes that are
/// ASCII.
pub open spec fn ascii_text(bytes: Seq<u8>) -> Seq<char> {
    Seq::new(bytes.len(), |i: int| bytes[i] as char)
}

/// Whether `c` is one of the letters and brackets that signatures are made of.
pub open spec fn is_signature_byte(c: u8) -> bool {
    leaf_of(c) is Some || c == SIG_MAYBE || c == SIG_ARRAY || c == SIG_STRUCT_OPEN || c
        == SIG_STRUCT_CLOSE || c == SIG_ENTRY_OPEN || c == SIG_ENTRY_CLOSE
}

/// Whether `s` is made of signature bytes only: none of them is zero, all of
/// them are ASCII.
pub open spec fn is_signature_text(s: Seq<u8>) -> bool {
    forall|i: int| 0 <= i < s.len() ==> is_signature_byte(#[trigger] s[i])
}

/// Two texts of signature bytes make one.
pub proof fn lemma_signature_text_concat(a: Seq<u8>, b: Seq<u8>)
    requires
        is_signature_text(a),
        is_signature_text(b),
    ensures
        is_signature_text(a + b),
{
    assert forall|i: int| 0 <= i < (a + b).len() implies is_signature_byte(
        #[trigger] (a + b)[i],
    ) by {
        if i < a.len() {
            assert((a + b)[i] == a[i]);
        } else {
            assert((a + b)[i] == b[i - a.len()]);
        }
    }
}

/// A signature is not empty, starts with no closing bracket, and is made of
/// signature bytes only.
pub proof fn lemma_signature_bytes(t: TypeSpec)
    ensures
        signature_of(t).len() >= 1,
        signature_of(t)[0] != SIG_STRUCT_CLOSE,
        signature_of(t)[0] != SIG_ENTRY_CLOSE,
        is_signature_text(signature_of(t)),
    decreases t,
{
    match t {
        TypeSpec::Maybe(inner) => {
            lemma_signature_bytes(*inner);
            lemma_signature_text_concat(seq![SIG_MAYBE], signature_of(*inner));
        },
        TypeSpec::Array(inner) => {
            lemma_signature_bytes(*inner);
            lemma_signature_text_concat(seq![SIG_ARRAY], signature_of(*inner));
        },
        TypeSpec::Tuple(entry, fields) => {
            lemma_signatures_bytes(fields);
            lemma_signature_text_concat(seq![open_of(entry)], signatures_of(fields));
            lemma_signature_text_concat(
                seq![open_of(entry)] + signatures_of(fields),
                seq![close_of(entry)],
            );
        },
        _ => {},
    }
}

/// The signatures of a list are made of signature bytes only.
pub proof fn lemma_signatures_bytes(fields: Seq<TypeSpec>)
    ensures
        is_signature_text(signatures_of(fields)),
    decreases fields,
{
    if fields.len() > 0 {
        lemma_signatures_bytes(fields.drop_last());
        lemma_signature_bytes(fields.last());
        lemma_signature_text_concat(
            signatures_of(fields.drop_last()),
            signature_of(fields.last()),
        );
    }
}

/// The signatures of a list start with the signature of its first type.
pub proof fn lemma_signatures_front(fields: Seq<TypeSpec>)
    requires
        fields.len() > 0,
    ensures
        signatures_of(fields) == signature_of(fields.first()) + signatures_of(fields.drop_first()),
    decreases fields.len(),
{
    if fields.len() == 1 {
        assert(fields.drop_last() =~= Seq::empty());
        assert(fields.drop_first() =~= Seq::empty());
        assert(signatures_of(fields) =~= signature_of(fields.first()) + signatures_of(
            fields.drop_first(),
        ));
    } else {
        lemma_signatures_front(fields.drop_last());
        assert(fields.drop_last().drop_first() =~= fields.drop_first().drop_last());
        assert(fields.drop_last().first() == fields.first());
        assert(fields.drop_first().last() == fields.last());
        assert(signatures_of(fields) =~= signature_of(fields.first()) + signatures_of(
            fields.drop_first(),
        ));
    }
}

/// Reading the signature of a type gives the type back, whatever follows it.
pub proof fn lemma_parse_signature_of(t: TypeSpec, rest: Seq<u8>, budget: nat)
    requires
        fits(t),
        depth(t) <= budget,
    ensures
        parse_one(signature_of(t) + rest, budget) == Some((t, rest)),
    decreases t,
{
    let s = signature_of(t) + rest;
    match t {
        TypeSpec::Maybe(inner) => {
            lemma_parse_signature_of(*inner, rest, (budget - 1) as nat);
            assert(s.drop_first() =~= signature_of(*inner) + rest);
        },
        TypeSpec::Array(inner) => {
            lemma_parse_signature_of(*inner, rest, (budget - 1) as nat);
            assert(s.drop_first() =~= signature_of(*inner) + rest);
        },
        TypeSpec::Tuple(entry, fields) => {
            lemma_parse_signatures_of(fields, close_of(entry), rest, (budget - 1) as nat);
            assert(s.drop_first() =~= signatures_of(fields) + seq![close_of(entry)] + rest);
        },
        _ => {
            assert(s.drop_first() =~= rest);
        },
    }
}

/// Reading the signatures of a list up to the closing bracket gives the list
/// back, whatever follows the bracket.
pub proof fn lemma_parse_signatures_of(
    fields: Seq<TypeSpec>,
    close: u8,
    rest: Seq<u8>,
    budget: nat,
)
    requires
        all_fit(fields),
        max_depth(fields) <= budget,
        close == SIG_STRUCT_CLOSE || close == SIG_ENTRY_CLOSE,
    ensures
        parse_many(signatures_of(fields) + seq![close] + rest, budget, close) == Some(
            (fields, rest),
        ),
    decreases fields, fields.len(),
{
    let s = signatures_of(fields) + seq![close] + rest;
    if fields.len() == 0 {
        assert(s.drop_first() =~= rest);
        assert(fields =~= Seq::empty());
    } else {
        let first = fields.first();
        let others = fields.drop_first();
        lemma_signatures_front(fields);
        lemma_signature_bytes(first);
        lemma_all_fit_index(fields, 0);
        lemma_max_depth_index(fields, 0);
        let tail = signatures_of(others) + seq![close] + rest;
        assert(s =~= signature_of(first) + tail);
        lemma_parse_signature_of(first, tail, budget);
        assert(s[0] == signature_of(first)[0]);
        lemma_all_fit_drop_first(fields);
        lemma_max_depth_drop_first(fields);
        lemma_parse_signatures_of(others, close, rest, budget);
        assert(seq![first] + others =~= fields);
    }
}

/// What can be laid out as a whole can be laid out without its first type.
pub proof fn lemma_all_fit_drop_first(fields: Seq<TypeSpec>)
    requires
        all_fit(fields),
        fields.len() > 0,
    ensures
        all_fit(fields.drop_first()),
    decreases fields.len(),
{
    if fields.len() > 1 {
        lemma_all_fit_drop_first(fields.drop_last());
        assert(fields.drop_last().drop_first() =~= fields.drop_first().drop_last());
        assert(fields.drop_first().last() == fields.last());
    }
}

/// A list nests no deeper without its first type.
pub proof fn lemma_max_depth_drop_first(fields: Seq<TypeSpec>)
    requires
        fields.len() > 0,
    ensures
        max_depth(fields.drop_first()) <= max_depth(fields),
    decreases fields.len(),
{
    if fields.len() > 1 {
        lemma_max_depth_drop_first(fields.drop_last());
        assert(fields.drop_last().drop_first() =~= fields.drop_first().drop_last());
        assert(fields.drop_first().last() == fields.last());
    }
}

/// A signature, read back whole, gives its type: printing and parsing agree.
pub proof fn lemma_signature_roundtrip(t: TypeSpec)
    requires
        fits(t),
        depth(t) <= MAX_NESTING,
    ensures
        parse_signature(signature_of(t)) == Some(t),
{
    lemma_parse_signature_of(t, Seq::empty(), MAX_NESTING as nat);
    assert(signature_of(t) + Seq::<u8>::empty() =~= signature_of(t));
}

/// Bytes below 128 are well-formed UTF-8 and spell the text of their own
/// characters.
pub proof fn lemma_ascii_text(bytes: Seq<u8>)
    requires
        forall|i: int| 0 <= i < bytes.len() ==> #[trigger] bytes[i] < 128,
    ensures
        valid_utf8(bytes),
        decode_utf8(bytes) == ascii_text(bytes),
{
    let chars = ascii_text(bytes);
    assert forall|i: int| 0 <= i < chars.len() implies '\0' <= #[trigger] chars[i] <= '\u{7f}' by {
        assert(bytes[i] < 128);
    }
    is_ascii_chars_encode_utf8(chars);
    assert forall|i: int| 0 <= i < bytes.len() implies encode_utf8(chars)[i] == bytes[i] by {
        assert(chars[i] as u8 == encode_utf8(chars)[i]);
        assert(bytes[i] < 128);
    }
    assert(encode_utf8(chars) =~= bytes);
    encode_utf8_valid_utf8(chars);
    encode_utf8_decode_utf8(chars);
}

/// Whether `r` is what reading one type from `bytes` at `pos` must give.
pub open spec fn parsed_one(
    r: Result<(Type, usize), Error>,
    bytes: Seq<u8>,
    pos: usize,
    budget: usize,
) -> bool {
    match r {
        Ok((t, next)) => {
            &&& pos < next <= bytes.len()
            &&& parse_one(bytes.skip(pos as int), budget as nat) == Some(
                (t@, bytes.skip(next as int)),
            )
        },
        Err(e) => e == Error::BadSignature && parse_one(bytes.skip(pos as int), budget as nat)
            is None,
    }
}

/// Whether `r` is what reading types from `bytes` at `pos` up to `close` must
/// give.
pub open spec fn parsed_many(
    r: Result<(Vec<Type>, usize), Error>,
    bytes: Seq<u8>,
    pos: usize,
    budget: usize,
    close: u8,
) -> bool {
    match r {
        Ok((fields, next)) => {
            &&& pos < next <= bytes.len()
            &&& parse_many(bytes.skip(pos as int), budget as nat, close) == Some(
                (types_model(fields@), bytes.skip(next as int)),
            )
        },
        Err(e) => e == Error::BadSignature && parse_many(
            bytes.skip(pos as int),
            budget as nat,
            close,
        ) is None,
    }
}

/// Reads one type that starts at `pos` in `bytes`, with at most `budget`
/// containers nested in it, and says where it ends.
pub fn parse_type(bytes: &[u8], pos: usize, budget: usize) -> (r: Result<(Type, usize), Error>)
    requires
        pos <= bytes@.len(),
    ensures
        parsed_one(r, bytes@, pos, budget),
    decreases budget, 0nat,
{
    if pos >= bytes.len() {
        return Err(Error::BadSignature);
    }
    let c = bytes[pos];
    let ghost s = bytes@.skip(pos as int);
    assert(s[0] == c);
    assert(s.drop_first() =~= bytes@.skip(pos + 1));
    if c == SIG_BOOL {
        Ok((Type::Bool, pos + 1))
    } else if c == SIG_U8 {
        Ok((Type::U8, pos + 1))
    } else if c == SIG_I16 {
        Ok((Type::I16, pos + 1))
    } else if c == SIG_U16 {
        Ok((Type::U16, pos + 1))
    } else if c == SIG_I32 {
        Ok((Type::I32, pos + 1))
    } else if c == SIG_U32 {
        Ok((Type::U32, pos + 1))
    } else if c == SIG_I64 {
        Ok((Type::I64, pos + 1))
    } else if c == SIG_U64 {
        Ok((Type::U64, pos + 1))
    } else if c == SIG_F64 {
        Ok((Type::F64, pos + 1))
    } else if c == SIG_STRING {
        Ok((Type::String, pos + 1))
    } else if c == SIG_OBJECT_PATH {
        Ok((Type::ObjectPath, pos + 1))
    } else if c == SIG_SIGNATURE {
        Ok((Type::Signature, pos + 1))
    } else if c == SIG_VARIANT {
        Ok((Type::Variant, pos + 1))
    } else if budget == 0 {
        Err(Error::BadSignature)
    } else if c == SIG_MAYBE {
        match parse_type(bytes, pos + 1, budget - 1) {
            Ok((inner, next)) => Ok((Type::Maybe(Box::new(inner)), next)),
            Err(e) => Err(e),
        }
    } else if c == SIG_ARRAY {
        match parse_type(bytes, pos + 1, budget - 1) {
            Ok((inner, next)) => Ok((Type::Array(Box::new(inner)), next)),
            Err(e) => Err(e),
        }
    } else if c == SIG_STRUCT_OPEN {
        match parse_fields(bytes, pos + 1, budget - 1, SIG_STRUCT_CLOSE) {
            Ok((fields, next)) => {
                assert(type_model(Type::Structure(fields))->Tuple_1 =~= types_model(fields@));
                Ok((Type::Structure(fields), next))
            },
            Err(e) => Err(e),
        }
    } else if c == SIG_ENTRY_OPEN {
        match parse_fields(bytes, pos + 1, budget - 1, SIG_ENTRY_CLOSE) {
            Ok((fields, next)) => {
                let mut fields = fields;
                if fields.len() != 2 {
                    return Err(Error::BadSignature);
                }
                let ghost both = types_model(fields@);
                let value = fields.pop().unwrap();
                let key = fields.pop().unwrap();
                assert(type_model(Type::DictEntry(Box::new(key), Box::new(value)))->Tuple_1
                    =~= both);
                Ok((Type::DictEntry(Box::new(key), Box::new(value)), next))
            },
            Err(e) => Err(e),
        }
    } else {
        Err(Error::BadSignature)
    }
}

/// Reads the types that start at `pos` in `bytes` up to the bracket `close`,
/// and says where the text goes on after the bracket.
pub fn parse_fields(bytes: &[u8], pos: usize, budget: usize, close: u8) -> (r: Result<
    (Vec<Type>, usize),
    Error,
>)
    requires
        pos <= bytes@.len(),
    ensures
        parsed_many(r, bytes@, pos, budget, close),
    decreases budget, 1nat,
{
    let mut fields: Vec<Type> = Vec::new();
    let mut p = pos;
    loop
        invariant
            pos <= p <= bytes@.len(),
            parse_many(bytes@.skip(pos as int), budget as nat, close) == match parse_many(
                bytes@.skip(p as int),
                budget as nat,
                close,
            ) {
                Some((others, after)) => Some((types_model(fields@) + others, after)),
                None => None,
            },
        decreases bytes@.len() - p,
    {
        if p >= bytes.len() {
            return Err(Error::BadSignature);
        }
        let ghost s = bytes@.skip(p as int);
        assert(s[0] == bytes@[p as int]);
        assert(s.drop_first() =~= bytes@.skip(p + 1));
        if bytes[p] == close {
            assert(types_model(fields@) + Seq::<TypeSpec>::empty() =~= types_model(fields@));
            return Ok((fields, p + 1));
        }
        match parse_type(bytes, p, budget) {
            Err(e) => {
                return Err(e);
            },
            Ok((t, next)) => {
                let ghost before = types_model(fields@);
                fields.push(t);
                proof {
                    assert(types_model(fields@) =~= before + seq![t@]);
                    let later = parse_many(bytes@.skip(next as int), budget as nat, close);
                    if later is Some {
                        let others = later.unwrap().0;
                        assert(before + (seq![t@] + others) =~= types_model(fields@) + others);
                    }
                }
                p = next;
            },
        }
    }
}

/// Reads the type that the whole of `sig` spells.
///
/// Fails with `BadSignature` exactly when `sig` spells no type, or one whose
/// containers nest more than `MAX_NESTING` deep.
pub fn parse(sig: &[u8]) -> (r: Result<Type, Error>)
    ensures
        match r {
            Ok(t) => parse_signature(sig@) == Some(t@),
            Err(e) => e == Error::BadSignature && parse_signature(sig@) is None,
        },
{
    assert(sig@.skip(0) =~= sig@);
    match parse_type(sig, 0, MAX_NESTING) {
        Ok((t, next)) => {
            if next == sig.len() {
                Ok(t)
            } else {
                Err(Error::BadSignature)
            }
        },
        Err(e) => Err(e),
    }
}

impl Type {
    /// Appends the signature of this type to `out`.
    pub fn write_signature(&self, out: &mut Vec<u8>)
        ensures
            final(out)@ == old(out)@ + signature_of(self@),
        decreases self,
    {
        match self {
            Type::Bool => out.push(SIG_BOOL),
            Type::U8 => out.push(SIG_U8),
            Type::I16 => out.push(SIG_I16),
            Type::U16 => out.push(SIG_U16),
            Type::I32 => out.push(SIG_I32),
            Type::U32 => out.push(SIG_U32),
            Type::I64 => out.push(SIG_I64),
            Type::U64 => out.push(SIG_U64),
            Type::F64 => out.push(SIG_F64),
            Type::String => out.push(SIG_STRING),
            Type::ObjectPath => out.push(SIG_OBJECT_PATH),
            Type::Signature => out.push(SIG_SIGNATURE),
            Type::Variant => out.push(SIG_VARIANT),
            Type::Maybe(inner) => {
                out.push(SIG_MAYBE);
                inner.write_signature(out);
            },
            Type::Array(inner) => {
                out.push(SIG_ARRAY);
                inner.write_signature(out);
            },
            Type::Structure(_) | Type::DictEntry(_, _) => {
                let entry = self.is_dict_entry();
                let ghost fields = self@->Tuple_1;
                let n = self.arity();
                out.push(
                    if entry {
                        SIG_ENTRY_OPEN
                    } else {
                        SIG_STRUCT_OPEN
                    },
                );
                let mut i: usize = 0;
                while i < n
                    invariant
                        i <= n,
                        n == fields.len(),
                        self@ is Tuple,
                        fields == self@->Tuple_1,
                        out@ == old(out)@ + seq![open_of(entry)] + signatures_of(
                            fields.take(i as int),
                        ),
                    decreases n - i,
                {
                    assert(fields.take(i + 1).drop_last() =~= fields.take(i as int));
                    self.field(i).write_signature(out);
                    i += 1;
                }
                assert(fields.take(n as int) =~= fields);
                out.push(
                    if entry {
                        SIG_ENTRY_CLOSE
                    } else {
                        SIG_STRUCT_CLOSE
                    },
                );
            },
        }
    }

    /// The signature of this type, as bytes.
    pub fn signature_bytes(&self) -> (sig: Vec<u8>)
        ensures
            sig@ == signature_of(self@),
    {
        let mut sig: Vec<u8> = Vec::new();
        self.write_signature(&mut sig);
        sig
    }

    /// The signature of this type.
    pub fn signature(&self) -> (sig: String)
        ensures
            sig@ == ascii_text(signature_of(self@)),
    {
        let bytes = self.signature_bytes();
        proof {
            lemma_signature_bytes(self@);
            assert forall|i: int| 0 <= i < bytes@.len() implies #[trigger] bytes@[i] < 128 by {
                assert(is_signature_byte(bytes@[i]));
            }
            lemma_ascii_text(bytes@);
        }
        text_of(bytes.as_slice())
    }
}

} // verus!
