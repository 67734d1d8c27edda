//! Reading and writing of the GVariant binary format.
//!
//! GVariant is the serialization format of the GLib family of systems: of
//! D-Bus message bodies, of OSTree repository metadata, of dconf values. A
//! value is described by a type, a tree of scalars, strings and containers
//! that a signature such as `a{sv}` spells; its bytes follow from the type
//! alone, by rules of alignment and of framing offsets at the tail of every
//! container of variable size.
//!
//! This crate encodes a [`Variant`] of a [`Type`] to bytes and decodes it
//! again, under a [`Config`] that chooses the byte order of scalars and the
//! limits of decoding:
//!
//! ```text
//! let ty = Type::Structure(vec![Type::String, Type::I32]);
//! let value = Variant::Structure(Structure {
//!     fields: vec![Variant::String("foo".to_string()), Variant::I32(-1)],
//! });
//! let bytes = to_vec(&ty, &value)?;      // 66 6F 6F 00 FF FF FF FF 04
//! assert_eq!(from_slice(&ty, &bytes)?, value);
//! ```
//!
//! What the functions do is stated in their contracts over mathematical
//! models: [`ser::encode_spec`] says what the bytes of a value are,
//! [`de::decode_spec`] what value, or what error, a byte string holds. The
//! laws that tie the two together are proved in [`roundtrip`], [`sizes`],
//! [`alignment`] and [`order`].
//!
//! The modules, from the bottom up:
//!
//! * [`endian`]: unsigned integers as bytes, through the `byteorder` crate;
//! * [`offsets`]: the width of framing offsets, padding, the tables of offsets;
//! * [`text`]: strings as UTF-8 bytes closed by a zero byte;
//! * [`types`], [`signature`]: the types of the format and how they are spelled;
//! * [`variant`], [`order`]: the values of the format and their canonical order;
//! * [`frame`], [`ser`]: how containers are laid out, and encoding;
//! * [`window`], [`de`]: where the items of a container stand, and decoding.

pub mod alignment;
pub mod config;
pub mod de;
pub mod endian;
pub mod errors;
pub mod frame;
pub mod offsets;
pub mod order;
pub mod roundtrip;
pub mod ser;
pub mod signature;
pub mod sizes;
pub mod text;
pub mod types;
pub mod variant;
pub mod window;

pub use config::Config;
pub use errors::Error;
pub use types::Type;
pub use variant::{Array, Dictionary, Structure, Variant};

use de::{decode_spec, same_value};
use ser::{encodable, encode_spec};
use signature::MAX_NESTING;
use vstd::prelude::*;

verus! {

/// Get a default configuration object: little-endian, strings of at most 8192
/// bytes, lenient decoding.
pub fn config() -> (cfg: Config)
    ensures
        cfg == (Config { max_string_len: 8192, network_endian: false, strict: false }),
{
    Config::new()
}

/// Serializes the value `v` of type `ty` into a `Vec` of bytes using the
/// default configuration.
///
/// Fails with `UnsupportedShape` exactly when `v` cannot be encoded as a `ty`.
pub fn to_vec(ty: &Type, v: &Variant) -> (r: Result<Vec<u8>, Error>)
    ensures
        match r {
            Ok(bytes) => encodable(ty@, v@) && bytes@ == encode_spec(false, ty@, v@),
            Err(e) => e == Error::UnsupportedShape && !encodable(ty@, v@),
        },
{
    config().serialize(ty, v)
}

/// Deserializes a slice of bytes into a value of type `ty` using the default
/// configuration. Every outcome, value or error, is that of `decode_spec`.
pub fn from_slice(ty: &Type, bytes: &[u8]) -> (r: Result<Variant, Error>)
    ensures
        same_value(
            r,
            decode_spec(
                Config { max_string_len: 8192, network_endian: false, strict: false },
                MAX_NESTING as nat,
                ty@,
                bytes@,
            ),
        ),
{
    config().deserialize_slice(ty, bytes)
}

} // verus!
