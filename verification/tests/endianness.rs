use serde_gvariant::{Type, Variant};

#[test]
fn test_network_endian() {
    let encoded: Vec<u8> = vec![0x2a, 0x00];
    {
        let le_cfg = serde_gvariant::config().network_endian(false);
        let le_decoded = Variant::U16(42);
        let le_ser: Vec<u8> = le_cfg.serialize(&Type::U16, &le_decoded).expect("u16 LE ser");
        let le_de = le_cfg
            .deserialize_slice(&Type::U16, &encoded[..])
            .expect("u16 LE de");
        assert_eq!(le_de, le_decoded);
        assert_eq!(le_ser, encoded);
    }
    {
        let be_cfg = serde_gvariant::config().network_endian(true);
        let be_decoded = Variant::U16(10752);
        let be_ser: Vec<u8> = be_cfg.serialize(&Type::U16, &be_decoded).expect("u16 BE ser");
        let be_de = be_cfg
            .deserialize_slice(&Type::U16, &encoded[..])
            .expect("u16 BE de");
        assert_eq!(be_de, be_decoded);
        assert_eq!(be_ser, encoded);
    }
}
