use serde_gvariant::{Array, Structure, Type, Variant};

fn array(items: Vec<Variant>) -> Variant {
    Array::from_elements(items).expect("array").into_variant()
}

fn structure(fields: Vec<Variant>) -> Variant {
    Variant::Structure(Structure { fields })
}

fn text(s: &str) -> Variant {
    Variant::String(s.to_string())
}

fn some(v: Variant) -> Variant {
    Variant::Option(Some(Box::new(v)))
}

#[test]
fn test_bytes_buf() {
    let data: Vec<u8> = vec![0x01, 0x02, 0x00, 0x03, 0x04];
    let ty = Type::Array(Box::new(Type::U8));
    let buf = array(data.iter().map(|b| Variant::U8(*b)).collect());
    let de = serde_gvariant::from_slice(&ty, &data).expect("bytes de");
    let ser: Vec<u8> = serde_gvariant::to_vec(&ty, &buf).expect("bytes ser");
    assert_eq!(ser, data);
    assert_eq!(de, buf);
}

#[test]
fn test_option() {
    {
        let ty = Type::Maybe(Box::new(Type::U8));
        let encoded: Vec<u8> = vec![];
        let decoded = Variant::Option(None);
        let ser: Vec<u8> = serde_gvariant::to_vec(&ty, &decoded).expect("Option ser");
        let de = serde_gvariant::from_slice(&ty, &encoded[..]).expect("Option de");
        assert_eq!(ser, encoded);
        assert_eq!(de, decoded);
    }
    {
        let ty = Type::Maybe(Box::new(Type::String));
        let encoded: Vec<u8> = vec![];
        let decoded = Variant::Option(None);
        let ser: Vec<u8> = serde_gvariant::to_vec(&ty, &decoded).expect("Option ser");
        let de = serde_gvariant::from_slice(&ty, &encoded[..]).expect("Option de");
        assert_eq!(ser, encoded);
        assert_eq!(de, decoded);
    }
    {
        let ty = Type::Maybe(Box::new(Type::Bool));
        let encoded: Vec<u8> = vec![0x01];
        let decoded = some(Variant::Bool(true));
        let ser: Vec<u8> = serde_gvariant::to_vec(&ty, &decoded).expect("Option ser");
        let de = serde_gvariant::from_slice(&ty, &encoded[..]).expect("Option de");
        assert_eq!(ser, encoded);
        assert_eq!(de, decoded);
    }
    {
        let ty = Type::Maybe(Box::new(Type::String));
        let encoded: Vec<u8> = vec![b'a', 0x00, 0x00];
        let decoded = some(text("a"));
        let ser: Vec<u8> = serde_gvariant::to_vec(&ty, &decoded).expect("Option ser");
        let de = serde_gvariant::from_slice(&ty, &encoded[..]).expect("Option de");
        assert_eq!(ser, encoded);
        assert_eq!(de, decoded);
    }
}

#[test]
fn test_fixed_struct() {
    let ty = Type::Structure(vec![Type::U8]);
    let encoded: Vec<u8> = vec![0x00];
    let decoded = structure(vec![Variant::U8(0)]);
    let ser: Vec<u8> = serde_gvariant::to_vec(&ty, &decoded).expect("fixed struct ser");
    let de = serde_gvariant::from_slice(&ty, &encoded[..]).expect("fixed struct de");
    assert_eq!(ser, encoded);
    assert_eq!(de, decoded);
}

#[test]
fn test_variable_struct() {
    {
        let ty = Type::Structure(vec![Type::U8, Type::String]);
        let encoded: Vec<u8> = vec![0x00, 0x00];
        let decoded = structure(vec![Variant::U8(0), text("")]);
        let ser: Vec<u8> = serde_gvariant::to_vec(&ty, &decoded).expect("fixed struct ser");
        let de = serde_gvariant::from_slice(&ty, &encoded[..]).expect("fixed struct de");
        assert_eq!(ser, encoded);
        assert_eq!(de, decoded);
    }
    {
        let ty = Type::Structure(vec![Type::U8, Type::String, Type::String]);
        let encoded: Vec<u8> = vec![0x00, 0x00, 0x00, 0x02];
        let decoded = structure(vec![Variant::U8(0), text(""), text("")]);
        let ser: Vec<u8> = serde_gvariant::to_vec(&ty, &decoded).expect("fixed struct ser");
        let de = serde_gvariant::from_slice(&ty, &encoded[..]).expect("fixed struct de");
        assert_eq!(ser, encoded);
        assert_eq!(de, decoded);
    }
    {
        let ty = Type::Structure(vec![Type::U16, Type::String, Type::U32, Type::String]);
        let encoded: Vec<u8> = vec![
            0x03, 0x00, b'f', b'o', b'o', 0x00, 0x00, 0x00, 0x06, 0x00, 0x00, 0x00, b'f', b'o',
            b'o', b'b', b'a', b'r', 0x00, 0x06,
        ];
        let decoded = structure(vec![
            Variant::U16(3),
            text("foo"),
            Variant::U32(6),
            text("foobar"),
        ]);
        let ser: Vec<u8> = serde_gvariant::to_vec(&ty, &decoded).expect("fixed struct ser");
        let de = serde_gvariant::from_slice(&ty, &encoded[..]).expect("fixed struct de");
        assert_eq!(ser, encoded);
        assert_eq!(de, decoded);
    }
}

#[test]
fn test_array() {
    let ty = Type::Array(Box::new(Type::String));
    let encoded: Vec<u8> = vec![b'a', 0x00, b'b', 0x00, 0x02, 0x04];
    let decoded = array(vec![text("a"), text("b")]);
    let ser: Vec<u8> = serde_gvariant::to_vec(&ty, &decoded).expect("Vector ser");
    let de = serde_gvariant::from_slice(&ty, &encoded[..]).expect("Vector de");
    assert_eq!(ser, encoded);
    assert_eq!(de, decoded);
}

#[test]
fn test_variant() {
    let ty = Type::Variant;
    let carry = |v: Variant| Variant::Variant(Box::new(v));
    {
        let encoded: Vec<u8> = vec![0x01, 0x00, b'b'];
        let decoded = carry(Variant::Bool(true));
        let ser: Vec<u8> = serde_gvariant::to_vec(&ty, &decoded).expect("Variant ser");
        let de = serde_gvariant::from_slice(&ty, &encoded[..]).expect("Variant de");
        assert_eq!(ser, encoded);
        assert_eq!(de, decoded);
    }
    {
        let encoded: Vec<u8> = vec![b'f', b'o', b'o', 0x00, 0x00, b's'];
        let decoded = carry(text("foo"));
        let ser: Vec<u8> = serde_gvariant::to_vec(&ty, &decoded).expect("Variant ser");
        let de = serde_gvariant::from_slice(&ty, &encoded[..]).expect("Variant de");
        assert_eq!(ser, encoded);
        assert_eq!(de, decoded);
    }
    {
        let encoded: Vec<u8> = vec![0x01, 0x02, 0x00, b'a', b'y'];
        let decoded = carry(array(vec![Variant::U8(1), Variant::U8(2)]));
        let ser: Vec<u8> = serde_gvariant::to_vec(&ty, &decoded).expect("Variant ser");
        let de = serde_gvariant::from_slice(&ty, &encoded[..]).expect("Variant de");
        assert_eq!(ser, encoded);
        assert_eq!(de, decoded);
    }
    {
        let encoded: Vec<u8> = vec![b'a', 0x00, 0x02, 0x00, b'a', b's'];
        let decoded = carry(array(vec![text("a")]));
        let ser: Vec<u8> = serde_gvariant::to_vec(&ty, &decoded).expect("Variant ser");
        let de = serde_gvariant::from_slice(&ty, &encoded[..]).expect("Variant de");
        assert_eq!(ser, encoded);
        assert_eq!(de, decoded);
    }
    {
        let encoded: Vec<u8> = vec![b'a', 0x00, b'b', 0x00, 0x02, 0x04, 0x00, b'a', b's'];
        let decoded = carry(array(vec![text("a"), text("b")]));
        let ser: Vec<u8> = serde_gvariant::to_vec(&ty, &decoded).expect("Variant ser");
        let de = serde_gvariant::from_slice(&ty, &encoded[..]).expect("Variant de");
        assert_eq!(ser, encoded);
        assert_eq!(de, decoded);
    }
}
