use serde_gvariant::{Array, Structure, Type, Variant};

fn array(items: Vec<Variant>) -> Variant {
    Array::from_elements(items).expect("array").into_variant()
}

fn structure(fields: Vec<Variant>) -> Variant {
    Variant::Structure(Structure { fields })
}

fn check(ty: &Type, decoded: &Variant, encoded: &[u8]) {
    let ser: Vec<u8> = serde_gvariant::to_vec(ty, decoded).expect("ser");
    let de: Variant = serde_gvariant::from_slice(ty, encoded).expect("de");
    assert_eq!(ser, encoded.to_vec());
    assert_eq!(&de, decoded);
}

#[test]
fn test_string_example() {
    let encoded: Vec<u8> = vec![
        b'h', b'e', b'l', b'l', b'o', b' ', b'w', b'o', b'r', b'l', b'd', b'\0',
    ];
    let decoded = Variant::String("hello world".to_string());
    check(&Type::String, &decoded, &encoded);
}

#[test]
fn test_maybe_string_example() {
    let encoded: Vec<u8> = vec![
        b'h', b'e', b'l', b'l', b'o', b' ', b'w', b'o', b'r', b'l', b'd', b'\0', b'\0',
    ];
    let decoded = Variant::Option(Some(Box::new(Variant::String("hello world".to_string()))));
    check(&Type::Maybe(Box::new(Type::String)), &decoded, &encoded);
}

#[test]
fn test_array_booleans_example() {
    let encoded: Vec<u8> = vec![0x01, 0x00, 0x00, 0x01, 0x01];
    let decoded = array(vec![
        Variant::Bool(true),
        Variant::Bool(false),
        Variant::Bool(false),
        Variant::Bool(true),
        Variant::Bool(true),
    ]);
    check(&Type::Array(Box::new(Type::Bool)), &decoded, &encoded);
}

#[test]
fn test_struct() {
    let ty = Type::Structure(vec![Type::String, Type::I32]);
    let encoded: Vec<u8> = vec![b'f', b'o', b'o', 0x00, 0xff, 0xff, 0xff, 0xff, 0x04];
    let decoded = structure(vec![Variant::String("foo".to_string()), Variant::I32(-1)]);
    check(&ty, &decoded, &encoded);
}

#[test]
fn test_simple_struct() {
    let ty = Type::Structure(vec![Type::U8, Type::U8]);
    let encoded: Vec<u8> = vec![0x70, 0x80];
    let decoded = structure(vec![Variant::U8(0x70), Variant::U8(0x80)]);
    check(&ty, &decoded, &encoded);
}

#[test]
fn test_array_bytes_example() {
    let encoded: Vec<u8> = vec![0x04, 0x05, 0x06, 0x07];
    let decoded = array(vec![
        Variant::U8(0x04),
        Variant::U8(0x05),
        Variant::U8(0x06),
        Variant::U8(0x07),
    ]);
    check(&Type::Array(Box::new(Type::U8)), &decoded, &encoded);
}

#[test]
fn test_array_integers_example() {
    let encoded: Vec<u8> = vec![0x04, 0x00, 0x00, 0x00, 0x02, 0x01, 0x00, 0x00];
    let decoded = array(vec![Variant::U32(4), Variant::U32(258)]);
    check(&Type::Array(Box::new(Type::U32)), &decoded, &encoded);
}
