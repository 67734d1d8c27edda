// Test cases lifted from gvariant.js
// https://github.com/larskarlitski/gvariant.js/blob/8f140d1280664330d7916546247137a627950897/test/gvariant.js

use serde_gvariant::{Type, Variant};

fn both(ty: &Type, decoded: &Variant, encoded: &[u8], what: &str) {
    let ser: Vec<u8> = serde_gvariant::to_vec(ty, decoded).expect(what);
    let de: Variant = serde_gvariant::from_slice(ty, encoded).expect(what);
    assert_eq!(ser, encoded.to_vec());
    assert_eq!(&de, decoded);
}

#[test]
fn test_js_bool() {
    // 'should map gvariant booleans to javascript booleans'
    {
        // test('b', [ 0x0 ], false);
        let encoded: Vec<u8> = vec![0x0];
        both(&Type::Bool, &Variant::Bool(false), &encoded, "bool");
    }
    {
        // test('b', [ 0x1 ], true);
        let encoded: Vec<u8> = vec![0x1];
        both(&Type::Bool, &Variant::Bool(true), &encoded, "bool");
    }
}

#[test]
fn test_js_integer() {
    // 'should map gvariant integer types to javascript numbers'
    {
        // test('u', [ 0x2a, 0x0, 0x0, 0x0 ], 42);
        let encoded: Vec<u8> = vec![0x2a, 0x0, 0x0, 0x0];
        both(&Type::U32, &Variant::U32(42), &encoded, "u32");
    }
    {
        // test('y', [ 0x2a ], 42);
        let encoded: Vec<u8> = vec![0x2a];
        both(&Type::U8, &Variant::U8(42), &encoded, "u8");
    }
    {
        // test('i', [ 0xd6, 0xff, 0xff, 0xff ], -42);
        let encoded: Vec<u8> = vec![0xd6, 0xff, 0xff, 0xff];
        both(&Type::I32, &Variant::I32(-42), &encoded, "i32");
    }
    {
        // test('n', [ 0xd6, 0xff ], -42);
        let encoded: Vec<u8> = vec![0xd6, 0xff];
        both(&Type::I16, &Variant::I16(-42), &encoded, "i16");
    }
    {
        // test('q', [ 0x2a, 0x0 ], 42);
        let encoded: Vec<u8> = vec![0x2a, 0x00];
        both(&Type::U16, &Variant::U16(42), &encoded, "u16");
    }
    {
        // test('x', [ 0xd6, 0xff, 0xff, 0xff, 0xff, 0xff, 0xff, 0xff ], -42);
        let encoded: Vec<u8> = vec![0xd6, 0xff, 0xff, 0xff, 0xff, 0xff, 0xff, 0xff];
        both(&Type::I64, &Variant::I64(-42), &encoded, "i64");
    }
    {
        // test('t', [ 0x2a, 0x0, 0x0, 0x0, 0x0, 0x0, 0x0, 0x0 ], 42);
        let encoded: Vec<u8> = vec![0x2a, 0x0, 0x0, 0x0, 0x0, 0x0, 0x0, 0x0];
        both(&Type::U64, &Variant::U64(42), &encoded, "u64");
    }
}

#[test]
fn test_js_large_integer() {
    // 'should be able to read large integers'
    {
        let pos_cases = &[
            (vec![0x60, 0x0, 0x0, 0x0, 0x0, 0x0, 0x0, 0x0], 96u64),
            (vec![0x0, 0xc, 0x0, 0x0, 0x0, 0x0, 0x0, 0x0], 3072),
            (vec![0x0, 0x80, 0x1, 0x0, 0x0, 0x0, 0x0, 0x0], 98304),
            (vec![0x0, 0x0, 0x30, 0x0, 0x0, 0x0, 0x0, 0x0], 3145728),
            (vec![0x0, 0x0, 0x0, 0x6, 0x0, 0x0, 0x0, 0x0], 100663296),
            (vec![0x0, 0x0, 0x0, 0xc0, 0x0, 0x0, 0x0, 0x0], 3221225472),
            (vec![0x0, 0x0, 0x0, 0x0, 0x18, 0x0, 0x0, 0x0], 103079215104),
            (vec![0x0, 0x0, 0x0, 0x0, 0x0, 0x3, 0x0, 0x0], 3298534883328),
            (
                vec![0x0, 0x0, 0x0, 0x0, 0x0, 0x60, 0x0, 0x0],
                105553116266496,
            ),
            (
                vec![0x0, 0x0, 0x0, 0x0, 0x0, 0x0, 0xc, 0x0],
                3377699720527872,
            ),
        ];

        for t in pos_cases {
            let de_u64 = serde_gvariant::from_slice(&Type::U64, &t.0[..]).expect("u64 de");
            let ser_u64: Vec<u8> =
                serde_gvariant::to_vec(&Type::U64, &Variant::U64(t.1)).expect("u64 ser");
            assert_eq!(ser_u64, t.0);
            assert_eq!(de_u64, Variant::U64(t.1));

            let de_i64 = serde_gvariant::from_slice(&Type::I64, &t.0[..]).expect("i64 de");
            let ser_i64: Vec<u8> =
                serde_gvariant::to_vec(&Type::I64, &Variant::I64(t.1 as i64)).expect("i64 ser");
            assert_eq!(ser_i64, t.0);
            assert_eq!(de_i64, Variant::I64(t.1 as i64));
        }
    }
    {
        let neg_cases = &[
            (vec![0xa0, 0xff, 0xff, 0xff, 0xff, 0xff, 0xff, 0xff], -96i64),
            (vec![0x0, 0xf4, 0xff, 0xff, 0xff, 0xff, 0xff, 0xff], -3072),
            (vec![0x0, 0x80, 0xfe, 0xff, 0xff, 0xff, 0xff, 0xff], -98304),
            (vec![0x0, 0x0, 0xd0, 0xff, 0xff, 0xff, 0xff, 0xff], -3145728),
            (
                vec![0x0, 0x0, 0x0, 0xfa, 0xff, 0xff, 0xff, 0xff],
                -100663296,
            ),
            (
                vec![0x0, 0x0, 0x0, 0x40, 0xff, 0xff, 0xff, 0xff],
                -3221225472,
            ),
            (
                vec![0x0, 0x0, 0x0, 0x0, 0xe8, 0xff, 0xff, 0xff],
                -103079215104,
            ),
            (
                vec![0x0, 0x0, 0x0, 0x0, 0x0, 0xfd, 0xff, 0xff],
                -3298534883328,
            ),
            (
                vec![0x0, 0x0, 0x0, 0x0, 0x0, 0xa0, 0xff, 0xff],
                -105553116266496,
            ),
            (
                vec![0x0, 0x0, 0x0, 0x0, 0x0, 0x0, 0xf4, 0xff],
                -3377699720527872,
            ),
        ];

        for t in neg_cases {
            let de_i64 = serde_gvariant::from_slice(&Type::I64, &t.0[..]).expect("i64 de");
            let ser_i64: Vec<u8> =
                serde_gvariant::to_vec(&Type::I64, &Variant::I64(t.1)).expect("i64 ser");
            assert_eq!(ser_i64, t.0);
            assert_eq!(de_i64, Variant::I64(t.1 as i64));
        }
    }
}

#[test]
fn test_js_float() {
    // 'should map gvariant doubles to javascript numbers'
    // test('d', [ 0x0, 0x0, 0x0, 0x0, 0x0, 0x40, 0x45, 0x40 ], 42.5);
    let encoded: Vec<u8> = vec![0x0, 0x0, 0x0, 0x0, 0x0, 0x40, 0x45, 0x40];
    let decoded: f64 = 42.5;
    let ser: Vec<u8> =
        serde_gvariant::to_vec(&Type::F64, &Variant::F64(decoded.to_bits())).expect("f64 ser");
    let de = serde_gvariant::from_slice(&Type::F64, &encoded[..]).expect("f64 de");
    assert_eq!(ser, encoded);
    match de {
        Variant::F64(bits) => assert_eq!(f64::from_bits(bits), decoded),
        other => panic!("not a double: {:?}", other),
    }
}

#[test]
fn test_js_string() {
    // 'should map gvariant strings to javascript strings'
    {
        // test('s', [ 0x0 ], '');
        let encoded: Vec<u8> = vec![0x0];
        both(&Type::String, &Variant::String("".to_string()), &encoded, "string");
    }
    {
        // test('s', [ 0x61, 0x62, 0x63, 0x0 ], 'abc');
        let encoded: Vec<u8> = vec![0x61, 0x62, 0x63, 0x0];
        both(&Type::String, &Variant::String("abc".to_string()), &encoded, "string");
    }
}
