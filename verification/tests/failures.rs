use serde_gvariant::ser::Serializer;
use serde_gvariant::{Config, Error, Type, Variant};

fn strings() -> Type {
    Type::Array(Box::new(Type::String))
}

#[test]
fn short_scalar_is_unexpected_eof() {
    let r = serde_gvariant::from_slice(&Type::U32, &[0x01, 0x02]);
    assert_eq!(r, Err(Error::UnexpectedEof));
    assert_eq!(serde_gvariant::from_slice(&Type::Bool, &[]), Err(Error::UnexpectedEof));
}

#[test]
fn short_structure_is_unexpected_eof() {
    let ty = Type::Structure(vec![Type::U8, Type::U32]);
    // The second field would start at 4 and end at 8.
    let r = serde_gvariant::from_slice(&ty, &[0x01, 0x00, 0x00, 0x00, 0x02]);
    assert_eq!(r, Err(Error::UnexpectedEof));
}

#[test]
fn offset_before_start_is_length_underflow() {
    let ty = Type::Structure(vec![Type::U8, Type::String, Type::String]);
    // The offset of the second field says 0, but the field starts at 1.
    let r = serde_gvariant::from_slice(&ty, &[0x07, 0x61, 0x00, 0x62, 0x00, 0x00]);
    assert_eq!(r, Err(Error::LengthUnderflow));
}

#[test]
fn offset_past_end_is_offset_overflow() {
    // The last offset says 5 in a window of 3 bytes.
    let r = serde_gvariant::from_slice(&strings(), &[0x61, 0x00, 0x05]);
    assert_eq!(r, Err(Error::OffsetOverflow));
    // An element that ends behind the start of the table.
    let r = serde_gvariant::from_slice(&strings(), &[0x61, 0x00, 0x62, 0x00, 0x05, 0x04]);
    assert_eq!(r, Err(Error::OffsetOverflow));
}

#[test]
fn missing_zero_is_invalid_terminator() {
    let r = serde_gvariant::from_slice(&Type::String, &[0x61, 0x62]);
    assert_eq!(r, Err(Error::InvalidTerminator));
    let r = serde_gvariant::from_slice(&Type::String, &[]);
    assert_eq!(r, Err(Error::InvalidTerminator));
    let maybe = Type::Maybe(Box::new(Type::String));
    let r = serde_gvariant::from_slice(&maybe, &[0x61, 0x00, 0x01]);
    assert_eq!(r, Err(Error::InvalidTerminator));
    let r = serde_gvariant::from_slice(&Type::Variant, &[0x01, 0x62]);
    assert_eq!(r, Err(Error::InvalidTerminator));
    let r = serde_gvariant::from_slice(&Type::Structure(vec![]), &[0x01]);
    assert_eq!(r, Err(Error::InvalidTerminator));
}

#[test]
fn unknown_letter_is_bad_signature() {
    let r = serde_gvariant::from_slice(&Type::Variant, &[0x01, 0x00, b'z']);
    assert_eq!(r, Err(Error::BadSignature));
    // Nothing behind the zero byte.
    let r = serde_gvariant::from_slice(&Type::Variant, &[0x01, 0x00]);
    assert_eq!(r, Err(Error::BadSignature));
    // Two types where one is due.
    let r = serde_gvariant::from_slice(&Type::Variant, &[0x01, 0x00, b'y', b'y']);
    assert_eq!(r, Err(Error::BadSignature));
    // A dictionary entry of three.
    let r = serde_gvariant::from_slice(&Type::Variant, b"\0{yyy}");
    assert_eq!(r, Err(Error::BadSignature));
}

#[test]
fn deep_signature_is_bad_signature() {
    let mut deep: Vec<u8> = vec![0x00];
    deep.extend(std::iter::repeat(b'a').take(65));
    deep.push(b'y');
    assert_eq!(serde_gvariant::from_slice(&Type::Variant, &deep), Err(Error::BadSignature));

    let mut fine: Vec<u8> = vec![0x00];
    fine.extend(std::iter::repeat(b'a').take(64));
    fine.push(b'y');
    let got = serde_gvariant::from_slice(&Type::Variant, &fine).expect("64 levels");
    match got {
        Variant::Variant(inner) => assert_eq!(inner.signature(), "av"),
        other => panic!("not a variant: {:?}", other),
    }
}

#[test]
fn deep_variant_is_refused() {
    let nested = |levels: usize| {
        let mut v = Variant::U8(1);
        for _ in 0..levels {
            v = Variant::Variant(Box::new(v));
        }
        v
    };
    let wire = |levels: usize| {
        let mut bytes: Vec<u8> = vec![1, 0, b'y'];
        for _ in 1..levels {
            bytes.extend_from_slice(&[0, b'v']);
        }
        bytes
    };
    assert_eq!(serde_gvariant::to_vec(&Type::Variant, &nested(64)), Ok(wire(64)));
    assert_eq!(serde_gvariant::from_slice(&Type::Variant, &wire(64)), Ok(nested(64)));
    assert_eq!(
        serde_gvariant::to_vec(&Type::Variant, &nested(65)),
        Err(Error::UnsupportedShape)
    );
    assert_eq!(
        serde_gvariant::from_slice(&Type::Variant, &wire(65)),
        Err(Error::BadSignature)
    );
    assert!(nested(3).nests_within(3));
    assert!(!nested(3).nests_within(2));
}

#[test]
fn long_string_is_overlong_string() {
    let cfg = Config::new().max_string_len(3);
    let r = cfg.deserialize_slice(&Type::String, &[0x61, 0x62, 0x63, 0x00]);
    assert_eq!(r, Err(Error::OverlongString));
    let r = cfg.deserialize_slice(&Type::String, &[0x61, 0x62, 0x00]);
    assert_eq!(r, Ok(Variant::String("ab".to_string())));
}

#[test]
fn strict_bool_is_invalid_bool() {
    let strict = Config::new().strict(true);
    assert_eq!(strict.deserialize_slice(&Type::Bool, &[0x02]), Err(Error::InvalidBool));
    assert_eq!(strict.deserialize_slice(&Type::Bool, &[0x01]), Ok(Variant::Bool(true)));
    let lenient = Config::new();
    assert_eq!(lenient.deserialize_slice(&Type::Bool, &[0x02]), Ok(Variant::Bool(true)));
}

#[test]
fn wrong_shape_is_unsupported_shape() {
    let r = serde_gvariant::to_vec(&Type::Bool, &Variant::U8(1));
    assert_eq!(r, Err(Error::UnsupportedShape));
    let ty = Type::Structure(vec![Type::U8]);
    let v = Variant::Structure(serde_gvariant::Structure { fields: vec![] });
    assert_eq!(serde_gvariant::to_vec(&ty, &v), Err(Error::UnsupportedShape));
    // Elements of two types in one array inside a variant.
    let mixed = serde_gvariant::Array::from_elements(vec![Variant::U8(1), Variant::Bool(true)])
        .expect("array")
        .into_variant();
    let r = serde_gvariant::to_vec(&Type::Variant, &Variant::Variant(Box::new(mixed)));
    assert_eq!(r, Err(Error::UnsupportedShape));
}

#[test]
fn ill_formed_text_is_repaired_or_refused() {
    let bytes = [0x61, 0xff, 0x00];
    let lenient = Config::new();
    assert_eq!(
        lenient.deserialize_slice(&Type::String, &bytes),
        Ok(Variant::String("a\u{fffd}".to_string()))
    );
    let strict = Config::new().strict(true);
    assert_eq!(
        strict.deserialize_slice(&Type::String, &bytes),
        Err(Error::UnsupportedShape)
    );
    assert_eq!(
        strict.deserialize_slice(&Type::String, &[0xc3, 0xa9, 0x00]),
        Ok(Variant::String("\u{e9}".to_string()))
    );
}

#[test]
fn full_sink_is_io() {
    let mut sink = Serializer {
        current_pos: u64::MAX,
        writer: Vec::new(),
        options: Config::new(),
    };
    assert_eq!(sink.serialize_u8(1), Err(Error::Io));
    assert!(sink.writer.is_empty());
    assert_eq!(sink.current_pos, u64::MAX);
    let mut sink = Serializer {
        current_pos: u64::MAX - 1,
        writer: Vec::new(),
        options: Config::new(),
    };
    assert_eq!(sink.pad_align(4), Err(Error::Io));
}

#[test]
fn every_error_describes_itself() {
    let all = [
        Error::UnexpectedEof,
        Error::LengthUnderflow,
        Error::OffsetOverflow,
        Error::InvalidTerminator,
        Error::BadSignature,
        Error::OverlongString,
        Error::InvalidBool,
        Error::UnsupportedShape,
        Error::Io,
    ];
    for (i, a) in all.iter().enumerate() {
        assert!(!a.describe().is_empty());
        for b in all.iter().skip(i + 1) {
            assert_ne!(a.describe(), b.describe());
        }
    }
}

#[test]
fn arbitrary_bytes_never_abort() {
    let types = [
        Type::Variant,
        Type::String,
        strings(),
        Type::Array(Box::new(Type::U32)),
        Type::Maybe(Box::new(Type::Variant)),
        Type::Structure(vec![Type::String, Type::U64, strings()]),
        Type::Array(Box::new(Type::DictEntry(Box::new(Type::String), Box::new(Type::Variant)))),
    ];
    let mut state: u32 = 0x2545_f491;
    for round in 0..400 {
        let len = (round % 23) as usize;
        let mut bytes = Vec::with_capacity(len);
        for _ in 0..len {
            state ^= state << 13;
            state ^= state >> 17;
            state ^= state << 5;
            bytes.push((state >> 11) as u8 % 7);
        }
        for ty in types.iter() {
            let _ = serde_gvariant::from_slice(ty, &bytes);
        }
    }
}
