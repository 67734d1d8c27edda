use serde_gvariant::{Array, Config, Structure, Type, Variant};

fn array(items: Vec<Variant>) -> Variant {
    Array::from_elements(items).expect("array").into_variant()
}

fn bytes(data: &[u8]) -> Variant {
    array(data.iter().map(|b| Variant::U8(*b)).collect())
}

fn structure(fields: Vec<Variant>) -> Variant {
    Variant::Structure(Structure { fields })
}

fn byte_array() -> Type {
    Type::Array(Box::new(Type::U8))
}

#[test]
fn directory_metadata_record_is_read() {
    let xattr = Type::Structure(vec![byte_array(), byte_array()]);
    let ty = Type::Structure(vec![
        Type::U32,
        Type::U32,
        Type::U32,
        Type::Array(Box::new(xattr)),
    ]);
    let content: Vec<u8> = vec![
        0x00, 0x00, 0x03, 0xe8, 0x00, 0x00, 0x03, 0xe8, 0x00, 0x00, 0x41, 0xed,
    ];
    let cfg = Config::new().network_endian(true);
    let exp = structure(vec![
        Variant::U32(1000),
        Variant::U32(1000),
        Variant::U32(0o40755),
        array(vec![]),
    ]);
    assert_eq!(cfg.deserialize_slice(&ty, &content), Ok(exp));
    let exp = structure(vec![
        Variant::U32(1000),
        Variant::U32(1000),
        Variant::U32(0o40755),
        array(vec![]),
    ]);
    assert_eq!(cfg.serialize(&ty, &exp), Ok(content));
}

#[test]
fn directory_tree_record_is_read() {
    let file = Type::Structure(vec![Type::String, byte_array()]);
    let dir = Type::Structure(vec![Type::String, byte_array(), byte_array()]);
    let ty = Type::Structure(vec![
        Type::Array(Box::new(file)),
        Type::Array(Box::new(dir)),
    ]);
    let checksum: Vec<u8> = vec![
        194, 133, 83, 229, 238, 209, 11, 240, 114, 6, 157, 68, 104, 255, 239, 80, 35, 111, 214,
        232, 48, 112, 164, 46, 48, 178, 153, 120, 83, 140, 55, 120,
    ];
    let mut content: Vec<u8> = b"foo.txt\0".to_vec();
    content.extend_from_slice(&checksum);
    content.extend_from_slice(&[0x08, 0x29, 0x2a]);
    assert_eq!(content.len(), 43);

    let cfg = Config::new().network_endian(true);
    let exp = structure(vec![
        array(vec![structure(vec![
            Variant::String("foo.txt".to_string()),
            bytes(&checksum),
        ])]),
        array(vec![]),
    ]);
    let de = cfg.deserialize_slice(&ty, &content).expect("dirtree");
    assert_eq!(de, exp);
    assert_eq!(cfg.serialize(&ty, &exp), Ok(content));
}
