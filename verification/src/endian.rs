//! Unsigned integers as byte strings, in either byte order.
//!
//! The byte order itself is the work of the `byteorder` crate; this module
//! states what its routines compute and proves that reading undoes writing.

use byteorder::{BigEndian, ByteOrder, LittleEndian};
use vstd::prelude::*;

verus! {

/// `256` to the power `n`: the number of values that `n` bytes can spell.
pub open spec fn radix(n: nat) -> nat
    decreases n,
{
    if n == 0 {
        1
    } else {
        256 * radix((n - 1) as nat)
    }
}

/// The number that `bytes` spells with the least significant byte first.
pub open spec fn le_value(bytes: Seq<u8>) -> nat
    decreases bytes.len(),
{
    if bytes.len() == 0 {
        0
    } else {
        bytes[0] as nat + 256 * le_value(bytes.drop_first())
    }
}

/// The `n` bytes that spell `v` with the least significant byte first.
pub open spec fn le_bytes(v: nat, n: nat) -> Seq<u8>
    decreases n,
{
    if n == 0 {
        Seq::empty()
    } else {
        seq![(v % 256) as u8] + le_bytes(v / 256, (n - 1) as nat)
    }
}

/// The `n` bytes that spell `v` in the chosen byte order.
pub open spec fn uint_bytes(big: bool, v: nat, n: nat) -> Seq<u8> {
    if big {
        le_bytes(v, n).reverse()
    } else {
        le_bytes(v, n)
    }
}

/// The number that `bytes` spells in the chosen byte order.
pub open spec fn uint_value(big: bool, bytes: Seq<u8>) -> nat {
    if big {
        le_value(bytes.reverse())
    } else {
        le_value(bytes)
    }
}

/// The values of `radix` at the four widths this format uses.
pub proof fn lemma_radix_values()
    ensures
        radix(0) == 1,
        radix(1) == 0x100,
        radix(2) == 0x1_0000,
        radix(4) == 0x1_0000_0000,
        radix(8) == 0x1_0000_0000_0000_0000,
{
    reveal_with_fuel(radix, 10);
}

/// A number is spelled in as many bytes as asked for.
pub proof fn lemma_le_bytes_len(v: nat, n: nat)
    ensures
        le_bytes(v, n).len() == n,
    decreases n,
{
    if n > 0 {
        lemma_le_bytes_len(v / 256, (n - 1) as nat);
    }
}

/// Any `n` bytes spell a number below `radix(n)`.
pub proof fn lemma_le_value_bound(bytes: Seq<u8>)
    ensures
        le_value(bytes) < radix(bytes.len()),
    decreases bytes.len(),
{
    if bytes.len() > 0 {
        lemma_le_value_bound(bytes.drop_first());
    }
}

/// Reading a number back from the bytes that spell it gives the number.
pub proof fn lemma_le_value_of_bytes(v: nat, n: nat)
    requires
        v < radix(n),
    ensures
        le_value(le_bytes(v, n)) == v,
    decreases n,
{
    if n > 0 {
        let rest = le_bytes(v / 256, (n - 1) as nat);
        let all = le_bytes(v, n);
        lemma_le_bytes_len(v / 256, (n - 1) as nat);
        assert(all.drop_first() =~= rest);
        assert(v / 256 < radix((n - 1) as nat)) by (nonlinear_arith)
            requires
                v < 256 * radix((n - 1) as nat),
        ;
        lemma_le_value_of_bytes(v / 256, (n - 1) as nat);
        assert(all[0] == (v % 256) as u8);
    }
}

/// Turning a sequence round twice gives it back.
pub proof fn lemma_reverse_twice<A>(s: Seq<A>)
    ensures
        s.reverse().reverse() == s,
        s.reverse().len() == s.len(),
{
    assert(s.reverse().reverse() =~= s);
}

/// In either byte order the `n` bytes of a number below `radix(n)` spell it.
pub proof fn lemma_uint_roundtrip(big: bool, v: nat, n: nat)
    requires
        v < radix(n),
    ensures
        uint_bytes(big, v, n).len() == n,
        uint_value(big, uint_bytes(big, v, n)) == v,
{
    lemma_le_bytes_len(v, n);
    lemma_le_value_of_bytes(v, n);
    lemma_reverse_twice(le_bytes(v, n));
}

/// In either byte order a number is spelled in as many bytes as asked for.
pub proof fn lemma_uint_bytes_len(big: bool, v: nat, n: nat)
    ensures
        uint_bytes(big, v, n).len() == n,
{
    lemma_le_bytes_len(v, n);
    lemma_reverse_twice(le_bytes(v, n));
}

/// What one byte order writes is what the other writes, read backwards.
pub proof fn lemma_endianness_symmetry(v: nat, n: nat)
    ensures
        uint_bytes(true, v, n) == uint_bytes(false, v, n).reverse(),
        uint_bytes(false, v, n) == uint_bytes(true, v, n).reverse(),
{
    lemma_reverse_twice(le_bytes(v, n));
}

/// `byteorder::LittleEndian::read_uint`: the first `nbytes` bytes of `buf`, padded
/// with zero bytes to eight and read as a little-endian `u64`. It panics unless
/// `1 <= nbytes <= 8` and `buf` holds that many bytes.
#[verifier::external_body]
fn read_uint_le(buf: &[u8], nbytes: usize) -> (r: u64)
    requires
        1 <= nbytes <= 8,
        nbytes <= buf@.len(),
    ensures
        r as nat == le_value(buf@.take(nbytes as int)),
{
    LittleEndian::read_uint(buf, nbytes)
}

/// `byteorder::BigEndian::read_uint`: the first `nbytes` bytes of `buf`, preceded
/// by zero bytes to make eight and read as a big-endian `u64`, which is the
/// little-endian reading of those bytes taken backwards. It panics unless
/// `1 <= nbytes <= 8` and `buf` holds that many bytes.
#[verifier::external_body]
fn read_uint_be(buf: &[u8], nbytes: usize) -> (r: u64)
    requires
        1 <= nbytes <= 8,
        nbytes <= buf@.len(),
    ensures
        r as nat == le_value(buf@.take(nbytes as int).reverse()),
{
    BigEndian::read_uint(buf, nbytes)
}

/// `byteorder::LittleEndian::write_uint`: the low `nbytes` bytes of `n`, least
/// significant first. It panics unless `nbytes <= 8`, `n` fits in `nbytes` bytes
/// and the buffer is long enough.
#[verifier::external_body]
fn write_uint_le(n: u64, nbytes: usize) -> (r: Vec<u8>)
    requires
        1 <= nbytes <= 8,
        (n as nat) < radix(nbytes as nat),
    ensures
        r@ == le_bytes(n as nat, nbytes as nat),
{
    let mut buf = vec![0u8; nbytes];
    LittleEndian::write_uint(&mut buf, n, nbytes);
    buf
}

/// `byteorder::BigEndian::write_uint`: the low `nbytes` bytes of `n`, most
/// significant first. It panics unless `nbytes <= 8`, `n` fits in `nbytes` bytes
/// and the buffer is long enough.
#[verifier::external_body]
fn write_uint_be(n: u64, nbytes: usize) -> (r: Vec<u8>)
    requires
        1 <= nbytes <= 8,
        (n as nat) < radix(nbytes as nat),
    ensures
        r@ == le_bytes(n as nat, nbytes as nat).reverse(),
{
    let mut buf = vec![0u8; nbytes];
    BigEndian::write_uint(&mut buf, n, nbytes);
    buf
}

/// Reads the unsigned integer that the first `nbytes` bytes of `buf` spell.
pub fn get_uint(big: bool, buf: &[u8], nbytes: usize) -> (r: u64)
    requires
        1 <= nbytes <= 8,
        nbytes <= buf@.len(),
    ensures
        r as nat == uint_value(big, buf@.take(nbytes as int)),
        (r as nat) < radix(nbytes as nat),
{
    proof {
        lemma_le_value_bound(buf@.take(nbytes as int));
        lemma_le_value_bound(buf@.take(nbytes as int).reverse());
        lemma_reverse_twice(buf@.take(nbytes as int));
    }
    if big {
        read_uint_be(buf, nbytes)
    } else {
        read_uint_le(buf, nbytes)
    }
}

/// Spells `v` in `nbytes` bytes.
pub fn put_uint(big: bool, v: u64, nbytes: usize) -> (r: Vec<u8>)
    requires
        1 <= nbytes <= 8,
        (v as nat) < radix(nbytes as nat),
    ensures
        r@ == uint_bytes(big, v as nat, nbytes as nat),
        r@.len() == nbytes,
{
    proof {
        lemma_le_bytes_len(v as nat, nbytes as nat);
        lemma_reverse_twice(le_bytes(v as nat, nbytes as nat));
    }
    if big {
        write_uint_be(v, nbytes)
    } else {
        write_uint_le(v, nbytes)
    }
}

} // verus!
