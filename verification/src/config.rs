//! Settings that steer encoding and decoding.

use crate::de::{decode, decode_spec, same_value};
use crate::errors::Error;
use crate::ser::{encodable, encode, encode_spec};
use crate::signature::MAX_NESTING;
use crate::types::Type;
use crate::variant::Variant;
use vstd::prelude::*;

verus! {

/// A configuration object whose settings are used while encoding and decoding.
#[derive(Clone, Copy, Debug)]
pub struct Config {
    /// The longest string, terminator included, that decoding accepts.
    pub max_string_len: usize,
    /// Whether multi-byte scalars are stored most significant byte first.
    pub network_endian: bool,
    /// Whether decoding rejects what it could otherwise repair.
    pub strict: bool,
}

impl Config {
    /// Builds a new configuration object, with default settings: little-endian
    /// scalars, strings of at most 8192 bytes, lenient decoding.
    pub fn new() -> (cfg: Config)
        ensures
            cfg == (Config { max_string_len: 8192, network_endian: false, strict: false }),
    {
        Config { max_string_len: 8192, network_endian: false, strict: false }
    }

    /// Sets whether to use network (i.e. big) endianness.
    pub fn network_endian(self, ne: bool) -> (cfg: Config)
        ensures
            cfg == (Config { network_endian: ne, ..self }),
    {
        let mut cfg = self;
        cfg.network_endian = ne;
        cfg
    }

    /// Sets the longest string, terminator included, that decoding accepts.
    pub fn max_string_len(self, n: usize) -> (cfg: Config)
        ensures
            cfg == (Config { max_string_len: n, ..self }),
    {
        let mut cfg = self;
        cfg.max_string_len = n;
        cfg
    }

    /// Sets whether decoding rejects booleans other than 0 and 1 and text that is
    /// not well-formed UTF-8.
    pub fn strict(self, on: bool) -> (cfg: Config)
        ensures
            cfg == (Config { strict: on, ..self }),
    {
        let mut cfg = self;
        cfg.strict = on;
        cfg
    }
}

impl Config {
    /// Serializes the value `v` of type `ty` into a `Vec` of bytes using this
    /// configuration.
    ///
    /// Fails with `UnsupportedShape` exactly when `v` cannot be encoded as a `ty`.
    pub fn serialize(&self, ty: &Type, v: &Variant) -> (r: Result<Vec<u8>, Error>)
        ensures
            match r {
                Ok(bytes) => encodable(ty@, v@) && bytes@ == encode_spec(
                    self.network_endian,
                    ty@,
                    v@,
                ),
                Err(e) => e == Error::UnsupportedShape && !encodable(ty@, v@),
            },
    {
        encode(self, ty, v)
    }

    /// Deserializes a slice of bytes into a value of type `ty` using this
    /// configuration. Every outcome, value or error, is that of `decode_spec`.
    pub fn deserialize_slice(&self, ty: &Type, bytes: &[u8]) -> (r: Result<Variant, Error>)
        ensures
            same_value(r, decode_spec(*self, MAX_NESTING as nat, ty@, bytes@)),
    {
        decode(self, ty, bytes)
    }
}

} // verus!
