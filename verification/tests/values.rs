use serde_gvariant::de::{decode_bool, decode_i16, decode_i8, decode_u32, decode_u64};
use serde_gvariant::ser::Serializer;
use serde_gvariant::signature::parse;
use serde_gvariant::text::{decode_string, find_first_zero, find_last_zero};
use serde_gvariant::window::{
    element_bounds, field_bounds, maybe_bounds, open_array, variant_bounds,
};
use serde_gvariant::{Array, Config, Dictionary, Error, Structure, Type, Variant};

fn array(items: Vec<Variant>) -> Variant {
    Array::from_elements(items).expect("array").into_variant()
}

fn text(s: &str) -> Variant {
    Variant::String(s.to_string())
}

fn arr(item: Type) -> Type {
    Type::Array(Box::new(item))
}

fn entry(key: Type, value: Type) -> Type {
    Type::DictEntry(Box::new(key), Box::new(value))
}

fn commit() -> Type {
    let related = Type::Structure(vec![Type::String, arr(Type::U8)]);
    let mut fields = vec![arr(entry(Type::String, Type::Variant)), arr(Type::U8)];
    fields.push(arr(related));
    fields.push(Type::String);
    fields.push(Type::String);
    fields.push(Type::U64);
    fields.push(arr(Type::U8));
    fields.push(arr(Type::U8));
    Type::Structure(fields)
}

#[test]
fn signatures_spell_types() {
    let cases: Vec<(&str, Type)> = vec![
        ("b", Type::Bool),
        ("y", Type::U8),
        ("n", Type::I16),
        ("q", Type::U16),
        ("i", Type::I32),
        ("u", Type::U32),
        ("x", Type::I64),
        ("t", Type::U64),
        ("d", Type::F64),
        ("s", Type::String),
        ("o", Type::ObjectPath),
        ("g", Type::Signature),
        ("v", Type::Variant),
        ("ms", Type::Maybe(Box::new(Type::String))),
        ("aay", arr(arr(Type::U8))),
        ("()", Type::Structure(vec![])),
        ("(si)", Type::Structure(vec![Type::String, Type::I32])),
        ("a{sv}", arr(entry(Type::String, Type::Variant))),
        ("(a{sv}aya(say)sstayay)", commit()),
    ];
    for (sig, ty) in cases {
        assert_eq!(ty.signature(), sig);
        assert_eq!(ty.signature_bytes(), sig.as_bytes().to_vec());
        assert_eq!(parse(sig.as_bytes()), Ok(ty.clone()));
        assert_eq!(ty.duplicate(), ty);
    }
    for bad in ["", "a", "m", "(", "(s", ")", "{s}", "{sss}", "{sv", "ss", "z", "(s))"] {
        assert_eq!(parse(bad.as_bytes()), Err(Error::BadSignature), "{:?}", bad);
    }
}

#[test]
fn values_tell_their_signature() {
    assert_eq!(Variant::Bool(true).signature(), "b");
    assert_eq!(Variant::F64(0).signature(), "d");
    assert_eq!(Variant::ObjectPath("/".to_string()).signature(), "o");
    assert_eq!(Variant::Signature("s".to_string()).signature(), "g");
    assert_eq!(Variant::Variant(Box::new(Variant::U8(1))).signature(), "v");
    assert_eq!(Variant::Option(None).signature(), "mv");
    assert_eq!(Variant::Option(Some(Box::new(Variant::I64(1)))).signature(), "mx");
    assert_eq!(array(vec![]).signature(), "av");
    assert_eq!(array(vec![text("a")]).signature(), "as");
    let a = Array::from_elements(vec![Variant::U16(1)]).expect("array");
    assert_eq!(a.signature(), "aq");
    let s = Structure { fields: vec![text("a"), Variant::I32(1), array(vec![])] };
    assert_eq!(s.signature(), "(siav)");
    assert_eq!(Variant::Structure(s).signature(), "(siav)");
    let d = Dictionary::from_map(vec![]).expect("dict");
    assert_eq!(d.signature(), "a{vv}");
    let d = Dictionary::from_map(vec![(text("k"), Variant::U8(1))]).expect("dict");
    assert_eq!(d.signature(), "a{sy}");
    assert_eq!(d.into_variant().signature(), "a{sy}");
}

#[test]
fn values_tell_their_type_and_kind() {
    let v = array(vec![Variant::U32(1)]);
    assert_eq!(v.type_of(), Type::Array(Box::new(Type::U32)));
    assert_eq!(Variant::Bool(false).discriminant(), 0);
    assert_eq!(Variant::F64(0).discriminant(), 8);
    assert_eq!(v.discriminant(), 14);
    assert_eq!(Dictionary::from_map(vec![]).expect("dict").into_variant().discriminant(), 16);
    assert!(Type::Array(Box::new(Type::U8)).depth_at_most(1));
    assert!(!Type::Array(Box::new(Type::U8)).depth_at_most(0));
    assert_eq!(Type::DictEntry(Box::new(Type::U8), Box::new(Type::U64)).arity(), 2);
}

#[test]
fn variants_carry_their_signature() {
    let cfg = Config::new();
    let v = Variant::Variant(Box::new(array(vec![])));
    let bytes = cfg.serialize(&Type::Variant, &v).expect("ser");
    assert_eq!(bytes, vec![0, b'a', b'v']);
    assert_eq!(cfg.deserialize_slice(&Type::Variant, &bytes), Ok(v));

    let inner = Variant::Variant(Box::new(Variant::U32(1)));
    let v = Variant::Variant(Box::new(inner));
    let bytes = cfg.serialize(&Type::Variant, &v).expect("ser");
    assert_eq!(bytes, vec![1, 0, 0, 0, 0, b'u', 0, b'v']);
    assert_eq!(cfg.deserialize_slice(&Type::Variant, &bytes), Ok(v));
}

#[test]
fn scalars_are_read_from_the_front() {
    let le = Config::new();
    let be = Config::new().network_endian(true);
    assert_eq!(decode_u32(&le, &[1, 2, 3, 4, 9]), Ok(0x04030201));
    assert_eq!(decode_u32(&be, &[1, 2, 3, 4, 9]), Ok(0x01020304));
    assert_eq!(decode_u64(&le, &[1, 2, 3, 4, 5, 6, 7, 8]), Ok(0x0807060504030201));
    assert_eq!(decode_u64(&be, &[1, 2, 3, 4, 5, 6, 7, 8]), Ok(0x0102030405060708));
    assert_eq!(decode_i16(&le, &[0xfe, 0xff]), Ok(-2));
    assert_eq!(decode_i16(&be, &[0x80, 0x00]), Ok(i16::MIN));
    assert_eq!(decode_i8(&le, &[0x80]), Ok(i8::MIN));
    assert_eq!(decode_i8(&le, &[0x7f]), Ok(i8::MAX));
    assert_eq!(decode_bool(&le, &[0]), Ok(false));
    assert_eq!(decode_bool(&le, &[7]), Ok(true));
    for x in [i8::MIN, -1, 0, 1, i8::MAX] {
        let mut sink = Serializer::new(le);
        sink.serialize_i8(x).expect("i8");
        assert_eq!(sink.writer, vec![x as u8]);
        assert_eq!(decode_i8(&le, &sink.writer), Ok(x));
    }
}

#[test]
fn extreme_scalars_come_back() {
    for cfg in [Config::new(), Config::new().network_endian(true)] {
        let cases = vec![
            (Type::U8, Variant::U8(u8::MAX)),
            (Type::U16, Variant::U16(u16::MAX)),
            (Type::U32, Variant::U32(u32::MAX)),
            (Type::U64, Variant::U64(u64::MAX)),
            (Type::I16, Variant::I16(i16::MIN)),
            (Type::I16, Variant::I16(i16::MAX)),
            (Type::I32, Variant::I32(i32::MIN)),
            (Type::I32, Variant::I32(i32::MAX)),
            (Type::I64, Variant::I64(i64::MIN)),
            (Type::I64, Variant::I64(i64::MAX)),
            (Type::F64, Variant::F64(f64::NAN.to_bits())),
            (Type::F64, Variant::F64((-0.0f64).to_bits())),
            (Type::String, text("h\u{e9}llo \u{1f600}")),
            (Type::ObjectPath, Variant::ObjectPath("/org/gnome".to_string())),
            (Type::Signature, Variant::Signature("a{sv}".to_string())),
        ];
        for (ty, v) in cases {
            let bytes = cfg.serialize(&ty, &v).expect("ser");
            assert_eq!(cfg.deserialize_slice(&ty, &bytes), Ok(v));
        }
    }
}

#[test]
fn string_with_a_zero_is_cut_short() {
    let cfg = Config::new();
    let bytes = cfg.serialize(&Type::String, &text("a\0b")).expect("ser");
    assert_eq!(bytes, vec![b'a', 0, b'b', 0]);
    assert_eq!(cfg.deserialize_slice(&Type::String, &bytes), Ok(text("a")));
}

#[test]
fn text_ends_at_the_first_zero() {
    let cfg = Config::new();
    assert_eq!(find_first_zero(&[1, 2, 0, 3, 0]), 2);
    assert_eq!(find_first_zero(&[1, 2]), 2);
    assert_eq!(find_last_zero(&[1, 2, 0, 3, 0, 4]), Some(4));
    assert_eq!(find_last_zero(&[1, 2]), None);
    assert_eq!(decode_string(&cfg, b"abc\0def\0"), Ok("abc".to_string()));
    assert_eq!(decode_string(&cfg, b"abc"), Err(Error::InvalidTerminator));
}

#[test]
fn windows_are_found() {
    let strings = [b'a', 0, b'b', 0, 2, 4];
    let frame = open_array(&strings, 1, None).expect("frame");
    assert_eq!(frame.count, 2);
    assert_eq!(element_bounds(&strings, &frame, 0), Ok((0, 2)));
    assert_eq!(element_bounds(&strings, &frame, 1), Ok((2, 4)));

    let words = [1, 0, 2, 0, 3, 0, 9];
    let frame = open_array(&words, 2, Some(2)).expect("frame");
    assert_eq!(frame.count, 3);
    assert_eq!(element_bounds(&words, &frame, 2), Ok((4, 6)));
    assert_eq!(open_array(&words, 2, Some(0)).map(|f| f.count), Err(Error::UnsupportedShape));
    assert_eq!(open_array(&[], 1, None).map(|f| f.count), Ok(0));

    let record = [b'f', b'o', b'o', 0, 0xff, 0xff, 0xff, 0xff, 4];
    assert_eq!(field_bounds(&record, 1, None, false, 1, 0, 0), Ok((0, 4, 1)));
    assert_eq!(field_bounds(&record, 4, Some(4), true, 1, 4, 1), Ok((4, 8, 1)));
    assert_eq!(field_bounds(&record, 1, None, true, 1, 4, 1), Ok((4, 8, 1)));
    assert_eq!(field_bounds(&record, 8, Some(8), true, 1, 4, 1), Err(Error::UnexpectedEof));
    assert_eq!(field_bounds(&record, 1, None, false, 1, 5, 0), Err(Error::LengthUnderflow));
    assert_eq!(field_bounds(&record, 1, None, false, 1, 0, 1), Err(Error::UnexpectedEof));

    assert_eq!(maybe_bounds(&[], false), Ok(None));
    assert_eq!(maybe_bounds(&[1, 2], true), Ok(Some(2)));
    assert_eq!(maybe_bounds(&[1, 0], false), Ok(Some(1)));
    assert_eq!(maybe_bounds(&[1, 2], false), Err(Error::InvalidTerminator));

    assert_eq!(variant_bounds(&[1, 0, 2, 0, b'a', b'y']), Ok(3));
    assert_eq!(variant_bounds(&[1, 2]), Err(Error::InvalidTerminator));
}

#[test]
fn trailing_bytes_are_left_alone() {
    let cfg = Config::new();
    assert_eq!(cfg.deserialize_slice(&Type::U8, &[1, 2, 3]), Ok(Variant::U8(1)));
    let ty = Type::Array(Box::new(Type::U16));
    assert_eq!(
        cfg.deserialize_slice(&ty, &[1, 0, 2, 0, 3]),
        Ok(array(vec![Variant::U16(1), Variant::U16(2)]))
    );
}

#[test]
fn config_builders_set_one_field() {
    let cfg = serde_gvariant::config();
    assert_eq!(cfg.max_string_len, 8192);
    assert!(!cfg.network_endian);
    assert!(!cfg.strict);
    let cfg = Config::new().network_endian(true).max_string_len(10).strict(true);
    assert!(cfg.network_endian);
    assert!(cfg.strict);
    assert_eq!(cfg.max_string_len, 10);
    assert!(!cfg.network_endian(false).network_endian);
}
