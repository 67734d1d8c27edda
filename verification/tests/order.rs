use serde_gvariant::order::{compare_bytes, compare_floats};
use serde_gvariant::{Array, Config, Dictionary, Error, Structure, Type, Variant};

fn array(items: Vec<Variant>) -> Variant {
    Array::from_elements(items).expect("array").into_variant()
}

fn text(s: &str) -> Variant {
    Variant::String(s.to_string())
}

fn double(x: f64) -> Variant {
    Variant::F64(x.to_bits())
}

/// Each value comes before all that follow it in the list.
fn ascending(list: &[Variant]) {
    for (i, a) in list.iter().enumerate() {
        assert_eq!(a.compare(a), 0, "{:?}", a);
        for b in list.iter().skip(i + 1) {
            assert_eq!(a.compare(b), -1, "{:?} before {:?}", a, b);
            assert_eq!(b.compare(a), 1, "{:?} after {:?}", b, a);
            assert_ne!(a, b);
        }
    }
}

#[test]
fn numbers_are_ordered_by_size() {
    ascending(&[Variant::Bool(false), Variant::Bool(true)]);
    ascending(&[Variant::U8(0), Variant::U8(1), Variant::U8(255)]);
    ascending(&[Variant::I16(i16::MIN), Variant::I16(-1), Variant::I16(0), Variant::I16(7)]);
    ascending(&[Variant::I64(i64::MIN), Variant::I64(-1), Variant::I64(i64::MAX)]);
    ascending(&[Variant::U64(0), Variant::U64(u64::MAX)]);
}

#[test]
fn doubles_are_ordered_in_total() {
    ascending(&[
        double(f64::NEG_INFINITY),
        double(-2.5),
        double(-1.0),
        double(-0.0),
        double(0.0),
        double(1.0),
        double(2.5),
        double(f64::INFINITY),
        double(f64::NAN),
    ]);
    assert_eq!(compare_floats(1.5f64.to_bits(), 1.5f64.to_bits()), 0);
    assert_eq!(compare_floats((-1.5f64).to_bits(), (-2.5f64).to_bits()), 1);
    for (a, b) in [(-3.0f64, 2.0f64), (0.5, 0.25), (-0.0, 0.0), (7.0, 7.0)] {
        let expected = match a.total_cmp(&b) {
            std::cmp::Ordering::Less => -1,
            std::cmp::Ordering::Equal => 0,
            std::cmp::Ordering::Greater => 1,
        };
        assert_eq!(compare_floats(a.to_bits(), b.to_bits()), expected);
    }
}

#[test]
fn strings_are_ordered_by_their_bytes() {
    ascending(&[text(""), text("a"), text("ab"), text("b"), text("\u{e9}")]);
    assert_eq!(compare_bytes(b"abc", b"abd"), -1);
    assert_eq!(compare_bytes(b"abc", b"ab"), 1);
    assert_eq!(compare_bytes(b"", b""), 0);
}

#[test]
fn kinds_are_ordered_first() {
    let dict = Dictionary::from_map(vec![]).expect("dict").into_variant();
    ascending(&[
        Variant::Bool(true),
        Variant::U8(0),
        Variant::U16(0),
        Variant::U32(0),
        Variant::U64(0),
        Variant::I16(0),
        Variant::I32(0),
        Variant::I64(0),
        double(0.0),
        text(""),
        Variant::ObjectPath("".to_string()),
        Variant::Signature("".to_string()),
        Variant::Variant(Box::new(Variant::Bool(false))),
        Variant::Option(None),
        array(vec![]),
        Variant::Structure(Structure { fields: vec![] }),
        dict,
    ]);
}

#[test]
fn containers_are_ordered_by_their_first_difference() {
    ascending(&[
        array(vec![]),
        array(vec![Variant::U8(1)]),
        array(vec![Variant::U8(1), Variant::U8(0)]),
        array(vec![Variant::U8(2)]),
    ]);
    ascending(&[
        Variant::Option(None),
        Variant::Option(Some(Box::new(Variant::U8(0)))),
        Variant::Option(Some(Box::new(Variant::U8(1)))),
    ]);
    ascending(&[
        Variant::Variant(Box::new(Variant::U8(9))),
        Variant::Variant(Box::new(text("a"))),
    ]);
    let entry = |k: &str, v: u8| (text(k), Variant::U8(v));
    let dict = |es: Vec<(Variant, Variant)>| Dictionary::from_map(es).expect("dict").into_variant();
    ascending(&[
        dict(vec![]),
        dict(vec![entry("a", 1)]),
        dict(vec![entry("a", 2)]),
        dict(vec![entry("a", 2), entry("b", 0)]),
        dict(vec![entry("b", 0)]),
    ]);
}

#[test]
fn a_map_lists_each_key_once_in_order() {
    let entry = |k: &str, v: u8| (text(k), Variant::U8(v));
    let dict = |es: Vec<(Variant, Variant)>| Dictionary { inner: es };
    assert!(dict(vec![]).is_map());
    assert!(dict(vec![entry("a", 1)]).is_map());
    assert!(dict(vec![entry("a", 9), entry("b", 1), entry("c", 5)]).is_map());
    assert!(!dict(vec![entry("b", 1), entry("a", 1)]).is_map());
    assert!(!dict(vec![entry("a", 1), entry("a", 2)]).is_map());
    assert!(!dict(vec![entry("a", 1), entry("c", 2), entry("b", 3)]).is_map());

    let sorted = vec![entry("a", 9), entry("b", 1)];
    assert_eq!(Dictionary::from_map(sorted).map(|d| d.inner.len()), Ok(2));
    let twice = vec![entry("a", 1), entry("a", 2)];
    assert_eq!(Dictionary::from_map(twice), Err(Error::UnsupportedShape));
    let unsorted = vec![entry("b", 1), entry("a", 1)];
    assert_eq!(Dictionary::from_map(unsorted), Err(Error::UnsupportedShape));
}

#[test]
fn a_dictionary_keeps_the_order_of_the_wire() {
    let entry = |k: &str, v: u8| (text(k), Variant::U8(v));
    let ty = Type::Array(Box::new(Type::DictEntry(
        Box::new(Type::String),
        Box::new(Type::U8),
    )));
    let listed = Dictionary { inner: vec![entry("b", 1), entry("a", 2), entry("b", 3)] };
    assert!(!listed.is_map());
    let cfg = Config::new();
    let bytes = cfg.serialize(&ty, &Variant::Dictionary(listed)).expect("ser");
    assert_eq!(
        bytes,
        vec![b'b', 0, 1, 2, b'a', 0, 2, 2, b'b', 0, 3, 2, 4, 8, 12]
    );
    match cfg.deserialize_slice(&ty, &bytes).expect("de") {
        Variant::Dictionary(back) => {
            assert_eq!(back.inner, vec![entry("b", 1), entry("a", 2), entry("b", 3)]);
            assert!(!back.is_map());
        }
        other => panic!("not a dictionary: {:?}", other),
    }
}
