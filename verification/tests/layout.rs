use serde_gvariant::offsets::{compute_size, padding_for, read_len};
use serde_gvariant::ser::{encode_into, SerSeq, SerStruct, Serializer};
use serde_gvariant::{Array, Config, Dictionary, Error, Structure, Type, Variant};

fn array(items: Vec<Variant>) -> Variant {
    Array::from_elements(items).expect("array").into_variant()
}

fn structure(fields: Vec<Variant>) -> Variant {
    Variant::Structure(Structure { fields })
}

fn text(s: &str) -> Variant {
    Variant::String(s.to_string())
}

fn roundtrip(cfg: &Config, ty: &Type, v: &Variant) -> Vec<u8> {
    let bytes = cfg.serialize(ty, v).expect("ser");
    let back = cfg.deserialize_slice(ty, &bytes).expect("de");
    assert_eq!(&back, v);
    bytes
}

#[test]
fn offset_width_follows_the_length() {
    assert_eq!(compute_size(0), 1);
    assert_eq!(compute_size(0xff), 1);
    assert_eq!(compute_size(0x100), 2);
    assert_eq!(compute_size(0xffff), 2);
    assert_eq!(compute_size(0x1_0000), 4);
    assert_eq!(compute_size(0xffff_ffff), 4);
    assert_eq!(compute_size(0x1_0000_0000), 8);
    assert_eq!(compute_size(u64::MAX), 8);
}

#[test]
fn padding_brings_to_the_next_multiple() {
    assert_eq!(padding_for(0, 8), 0);
    assert_eq!(padding_for(1, 8), 7);
    assert_eq!(padding_for(4, 4), 0);
    assert_eq!(padding_for(5, 4), 3);
    assert_eq!(padding_for(5, 2), 1);
    assert_eq!(padding_for(5, 1), 0);
    assert_eq!(padding_for(5, 0), 0);
}

#[test]
fn pad_align_writes_zero_bytes() {
    let mut sink = Serializer::new(Config::new());
    assert_eq!(sink.serialize_u8(9).map(|p| p.size), Ok(1));
    assert_eq!(sink.pad_align(4), Ok(3));
    assert_eq!(sink.pad_align(4), Ok(0));
    assert_eq!(sink.pad_align(1), Ok(0));
    assert_eq!(sink.writer, vec![9, 0, 0, 0]);
    assert_eq!(sink.current_pos, 4);
    let p = sink.serialize_u16(0x0102).expect("u16");
    assert_eq!((p.fixed_size, p.size), (true, 2));
    assert_eq!(sink.writer, vec![9, 0, 0, 0, 2, 1]);
    let p = sink.serialize_u64(1).expect("u64");
    assert_eq!(p.size, 8);
    assert_eq!(sink.writer.len(), 16);
    assert_eq!(&sink.writer[6..8], &[0, 0]);
    assert_eq!(sink.current_pos, 16);
}

#[test]
fn read_len_reads_from_the_tail() {
    let window = [0xaa, 0xbb, 0x03, 0x07];
    assert_eq!(read_len(&window, 0), Ok((7, 1)));
    assert_eq!(read_len(&window, 1), Ok((3, 1)));
    assert_eq!(read_len(&window, 3), Ok((0xaa, 1)));
    assert_eq!(read_len(&window, 4), Err(Error::UnexpectedEof));
    let mut wide = vec![0u8; 300];
    wide[298] = 0x34;
    wide[299] = 0x12;
    wide[296] = 0x01;
    assert_eq!(read_len(&wide, 0), Ok((0x1234, 2)));
    assert_eq!(read_len(&wide, 1), Ok((0x0001, 2)));
    assert_eq!(read_len(&wide, 150), Err(Error::UnexpectedEof));
}

#[test]
fn fields_stand_on_their_alignment() {
    let cfg = Config::new();
    let ty = Type::Structure(vec![Type::U8, Type::U64]);
    let v = structure(vec![Variant::U8(1), Variant::U64(2)]);
    let bytes = roundtrip(&cfg, &ty, &v);
    assert_eq!(bytes, vec![1, 0, 0, 0, 0, 0, 0, 0, 2, 0, 0, 0, 0, 0, 0, 0]);

    let ty = Type::Structure(vec![Type::String, Type::U32, Type::U16]);
    let v = structure(vec![text("a"), Variant::U32(0x0a0b0c0d), Variant::U16(0x0102)]);
    let bytes = roundtrip(&cfg, &ty, &v);
    assert_eq!(
        bytes,
        vec![b'a', 0, 0, 0, 0x0d, 0x0c, 0x0b, 0x0a, 0x02, 0x01, 0x02]
    );
}

#[test]
fn fixed_structures_are_padded_at_the_end() {
    let cfg = Config::new();
    let pair = Type::Structure(vec![Type::I32, Type::U8]);
    let one = structure(vec![Variant::I32(1), Variant::U8(2)]);
    assert_eq!(roundtrip(&cfg, &pair, &one), vec![1, 0, 0, 0, 2, 0, 0, 0]);

    let ty = Type::Array(Box::new(pair));
    let two = structure(vec![Variant::I32(-1), Variant::U8(3)]);
    let bytes = roundtrip(&cfg, &ty, &array(vec![one, two]));
    assert_eq!(
        bytes,
        vec![1, 0, 0, 0, 2, 0, 0, 0, 0xff, 0xff, 0xff, 0xff, 3, 0, 0, 0]
    );
}

#[test]
fn structure_without_fields_is_one_zero_byte() {
    let cfg = Config::new();
    let ty = Type::Structure(vec![]);
    assert_eq!(roundtrip(&cfg, &ty, &structure(vec![])), vec![0]);
    assert_eq!(ty.signature(), "()");
}

#[test]
fn structure_offsets_stand_last_first() {
    let cfg = Config::new();
    let ty = Type::Structure(vec![Type::String, Type::String, Type::String]);
    let v = structure(vec![text("a"), text("bc"), text("d")]);
    let bytes = roundtrip(&cfg, &ty, &v);
    assert_eq!(bytes, vec![b'a', 0, b'b', b'c', 0, b'd', 0, 5, 2]);
}

#[test]
fn offsets_widen_with_the_container() {
    let cfg = Config::new();
    let ty = Type::Array(Box::new(Type::String));
    let long = "a".repeat(300);
    let bytes = roundtrip(&cfg, &ty, &array(vec![text(&long), text("b")]));
    assert_eq!(bytes.len(), 307);
    assert_eq!(&bytes[303..], &[0x2d, 0x01, 0x2f, 0x01]);

    // 253 bytes of items and two offsets of one byte each make 255.
    let fits = "a".repeat(250);
    let bytes = roundtrip(&cfg, &ty, &array(vec![text(&fits), text("b")]));
    assert_eq!(bytes.len(), 255);
    assert_eq!(&bytes[253..], &[251, 253]);

    // One byte more, and the offsets take two bytes each.
    let more = "a".repeat(251);
    let bytes = roundtrip(&cfg, &ty, &array(vec![text(&more), text("b")]));
    assert_eq!(bytes.len(), 258);
    assert_eq!(&bytes[254..], &[252, 0, 254, 0]);

    let ty = Type::Structure(vec![Type::String, Type::String]);
    let bytes = roundtrip(&cfg, &ty, &structure(vec![text(&long), text("b")]));
    assert_eq!(bytes.len(), 305);
    assert_eq!(&bytes[303..], &[0x2d, 0x01]);

    let huge = "x".repeat(70_000);
    let ty = Type::Array(Box::new(Type::String));
    let bytes = roundtrip(&cfg.max_string_len(100_000), &ty, &array(vec![text(&huge)]));
    assert_eq!(bytes.len(), 70_005);
    assert_eq!(&bytes[70_001..], &[0x71, 0x11, 0x01, 0x00]);
}

#[test]
fn offsets_stay_little_endian() {
    let cfg = Config::new().network_endian(true);
    let ty = Type::Array(Box::new(Type::String));
    let long = "a".repeat(300);
    let bytes = roundtrip(&cfg, &ty, &array(vec![text(&long), text("b")]));
    assert_eq!(&bytes[303..], &[0x2d, 0x01, 0x2f, 0x01]);
}

#[test]
fn byte_orders_mirror_each_other() {
    let le = Config::new();
    let be = Config::new().network_endian(true);
    let cases = vec![
        (Type::U16, Variant::U16(0x0102)),
        (Type::I16, Variant::I16(-2)),
        (Type::U32, Variant::U32(0x01020304)),
        (Type::I32, Variant::I32(-0x01020304)),
        (Type::U64, Variant::U64(0x0102030405060708)),
        (Type::I64, Variant::I64(-0x0102030405060708)),
        (Type::F64, Variant::F64(42.5f64.to_bits())),
    ];
    for (ty, v) in cases {
        let little = roundtrip(&le, &ty, &v);
        let mut big = roundtrip(&be, &ty, &v);
        big.reverse();
        assert_eq!(little, big);
    }
    assert_eq!(
        roundtrip(&be, &Type::U32, &Variant::U32(0x01020304)),
        vec![1, 2, 3, 4]
    );
    assert_eq!(
        roundtrip(&le, &Type::U32, &Variant::U32(0x01020304)),
        vec![4, 3, 2, 1]
    );
    assert_eq!(
        roundtrip(&be, &Type::I64, &Variant::I64(-2)),
        vec![0xff, 0xff, 0xff, 0xff, 0xff, 0xff, 0xff, 0xfe]
    );
}

#[test]
fn reported_size_is_the_length() {
    let cfg = Config::new();
    let ty = Type::Structure(vec![
        Type::U8,
        Type::Array(Box::new(Type::String)),
        Type::Maybe(Box::new(Type::U64)),
        Type::Variant,
    ]);
    let v = structure(vec![
        Variant::U8(1),
        array(vec![text("x"), text("yz")]),
        Variant::Option(Some(Box::new(Variant::U64(5)))),
        Variant::Variant(Box::new(text("w"))),
    ]);
    let mut sink = vec![0xee];
    let p = encode_into(&cfg, &ty, &v, &mut sink).expect("encode");
    assert_eq!(p.size as usize, sink.len() - 1);
    assert!(!p.fixed_size);
    assert_eq!(sink[0], 0xee);
    assert_eq!(cfg.serialize(&ty, &v).expect("ser"), sink[1..].to_vec());

    let fixed = Type::Structure(vec![Type::U8, Type::U32]);
    let mut sink = Vec::new();
    let p = encode_into(
        &cfg,
        &fixed,
        &structure(vec![Variant::U8(1), Variant::U32(2)]),
        &mut sink,
    )
    .expect("encode");
    assert_eq!((p.fixed_size, p.size), (true, 8));
    assert_eq!(fixed.layout().map(|l| (l.align, l.fixed)), Ok((4, Some(8))));

    let mut sink = vec![1, 2];
    let r = encode_into(&cfg, &fixed, &Variant::U8(1), &mut sink);
    assert_eq!(r, Err(Error::UnsupportedShape));
    assert_eq!(sink, vec![1, 2]);
}

#[test]
fn nested_values_come_back() {
    let entry = Type::DictEntry(Box::new(Type::String), Box::new(Type::Variant));
    let ty = Type::Structure(vec![
        Type::Array(Box::new(entry)),
        Type::Array(Box::new(Type::U8)),
        Type::Array(Box::new(Type::Structure(vec![
            Type::String,
            Type::Array(Box::new(Type::U8)),
        ]))),
        Type::String,
        Type::U64,
        Type::Maybe(Box::new(Type::Array(Box::new(Type::I16)))),
    ]);
    let dict = Dictionary::from_map(vec![
        (text("ostree.ref-binding"), Variant::Variant(Box::new(array(vec![text("master")])))),
        (text("version"), Variant::Variant(Box::new(Variant::F64(1.5f64.to_bits())))),
    ])
    .expect("dict")
    .into_variant();
    let v = structure(vec![
        dict,
        array(vec![]),
        array(vec![structure(vec![text("rel"), array(vec![Variant::U8(1), Variant::U8(2)])])]),
        text(""),
        Variant::U64(1527716235),
        Variant::Option(Some(Box::new(array(vec![Variant::I16(-1), Variant::I16(2)])))),
    ]);
    for cfg in [Config::new(), Config::new().network_endian(true), Config::new().strict(true)] {
        roundtrip(&cfg, &ty, &v);
    }
}

#[test]
fn dictionary_is_an_array_of_entries() {
    let cfg = Config::new();
    let ty = Type::Array(Box::new(Type::DictEntry(
        Box::new(Type::String),
        Box::new(Type::Variant),
    )));
    let v = Dictionary::from_map(vec![(text("k"), Variant::Variant(Box::new(Variant::U8(7))))])
        .expect("dict")
        .into_variant();
    let bytes = roundtrip(&cfg, &ty, &v);
    assert_eq!(
        bytes,
        vec![b'k', 0, 0, 0, 0, 0, 0, 0, 7, 0, b'y', 2, 12]
    );
    assert_eq!(ty.signature(), "a{sv}");
    // An array of entries is no plain array, and a plain array no dictionary.
    let plain = array(vec![structure(vec![text("k"), Variant::Variant(Box::new(Variant::U8(7)))])]);
    assert_eq!(cfg.serialize(&ty, &plain), Err(Error::UnsupportedShape));
}

#[test]
fn builders_frame_what_they_are_given() {
    let mut seq = SerSeq::new();
    seq.serialize_element(1, false, b"a\0");
    seq.serialize_element(1, false, b"b\0");
    let (bytes, p) = seq.end();
    assert_eq!(bytes, vec![b'a', 0, b'b', 0, 2, 4]);
    assert_eq!((p.fixed_size, p.size), (false, 6));

    let (bytes, p) = SerSeq::new().end();
    assert!(bytes.is_empty());
    assert_eq!(p.size, 0);

    let mut seq = SerSeq::new();
    seq.serialize_element(4, true, &[4, 0, 0, 0]);
    seq.serialize_element(4, true, &[2, 1, 0, 0]);
    let (bytes, _) = seq.end();
    assert_eq!(bytes, vec![4, 0, 0, 0, 2, 1, 0, 0]);

    let mut st = SerStruct::new(2);
    assert_eq!(st.serialize_field(1, false, b"foo\0"), Ok(()));
    assert_eq!(st.serialize_field(4, true, &[0xff, 0xff, 0xff, 0xff]), Ok(()));
    assert_eq!(
        st.serialize_field(1, true, &[0]),
        Err(Error::UnsupportedShape)
    );
    let (bytes, p) = st.end().expect("end");
    assert_eq!(bytes, vec![b'f', b'o', b'o', 0, 0xff, 0xff, 0xff, 0xff, 4]);
    assert_eq!((p.fixed_size, p.size), (false, 9));

    let mut st = SerStruct::new(2);
    assert_eq!(st.serialize_field(1, true, &[1]), Ok(()));
    assert_eq!(st.end().map(|r| r.0), Err(Error::UnsupportedShape));
}
