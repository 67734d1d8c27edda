//! Text on the wire: UTF-8 bytes closed by a zero byte.

use crate::config::Config;
use crate::errors::Error;
use vstd::prelude::*;
use vstd::utf8::{decode_utf8, encode_scalar, encode_utf8, valid_utf8};

verus! {

/// The text that lossy decoding makes of bytes that are not well-formed UTF-8:
/// each ill-formed part replaced as the standard library replaces it.
pub uninterp spec fn lossy_text(bytes: Seq<u8>) -> Seq<char>;

/// The place of the first zero byte in `b`, or the length of `b` where it
/// holds none.
pub open spec fn first_zero(b: Seq<u8>) -> nat
    decreases b.len(),
{
    if b.len() == 0 || b[0] == 0 {
        0
    } else {
        1 + first_zero(b.drop_first())
    }
}

/// The place of the last zero byte in `b`, if it holds one.
pub open spec fn last_zero(b: Seq<u8>) -> Option<nat>
    decreases b.len(),
{
    if b.len() == 0 {
        None
    } else if b.last() == 0 {
        Some((b.len() - 1) as nat)
    } else {
        last_zero(b.drop_last())
    }
}

/// Whether no byte of `b` is zero.
pub open spec fn zero_free(b: Seq<u8>) -> bool {
    forall|i: int| 0 <= i < b.len() ==> #[trigger] b[i] != 0
}

/// The bytes of a string on the wire: its UTF-8 form and a closing zero.
pub open spec fn text_bytes(s: Seq<char>) -> Seq<u8> {
    encode_utf8(s) + seq![0u8]
}

/// The text that a window of bytes holds.
///
/// A window longer than `max_len` is refused, then one without a zero byte.
/// The text is what stands before the first zero byte; where that is not
/// well-formed UTF-8, strict decoding refuses it and lenient decoding
/// repairs it.
pub open spec fn decode_text(max_len: nat, strict: bool, b: Seq<u8>) -> Result<Seq<char>, Error> {
    if b.len() > max_len {
        Err(Error::OverlongString)
    } else if first_zero(b) >= b.len() {
        Err(Error::InvalidTerminator)
    } else {
        let raw = b.take(first_zero(b) as int);
        if valid_utf8(raw) {
            Ok(decode_utf8(raw))
        } else if strict {
            Err(Error::UnsupportedShape)
        } else {
            Ok(lossy_text(raw))
        }
    }
}

/// A place before which no byte is zero, and which is the end or holds a
/// zero, is the place of the first zero byte.
pub proof fn lemma_first_zero_is(b: Seq<u8>, at: nat)
    requires
        at <= b.len(),
        zero_free(b.take(at as int)),
        at < b.len() ==> b[at as int] == 0,
    ensures
        first_zero(b) == at,
    decreases at,
{
    if at == 0 {
    } else {
        assert(b.take(at as int)[0] == b[0]);
        let rest = b.drop_first();
        assert forall|i: int| 0 <= i < at - 1 implies #[trigger] rest.take(at - 1)[i] != 0 by {
            assert(b.take(at as int)[i + 1] == rest[i]);
        }
        lemma_first_zero_is(rest, (at - 1) as nat);
    }
}

/// Where the last zero byte is: no byte behind it is zero.
pub proof fn lemma_last_zero(b: Seq<u8>)
    ensures
        match last_zero(b) {
            Some(at) => at < b.len() && b[at as int] == 0 && zero_free(b.skip(at as int + 1)),
            None => zero_free(b),
        },
    decreases b.len(),
{
    if b.len() == 0 {
    } else if b.last() == 0 {
        assert(b.skip(b.len() as int) =~= Seq::empty());
    } else {
        let front = b.drop_last();
        lemma_last_zero(front);
        match last_zero(front) {
            Some(at) => {
                let rest = b.skip(at as int + 1);
                assert forall|i: int| 0 <= i < rest.len() implies #[trigger] rest[i] != 0 by {
                    if i < front.skip(at as int + 1).len() {
                        assert(front.skip(at as int + 1)[i] == rest[i]);
                    }
                }
            },
            None => {
                assert forall|i: int| 0 <= i < b.len() implies #[trigger] b[i] != 0 by {
                    if i < front.len() {
                        assert(front[i] == b[i]);
                    }
                }
            },
        }
    }
}

/// A zero byte behind which no byte is zero is the last zero byte.
pub proof fn lemma_last_zero_is(b: Seq<u8>, at: nat)
    requires
        at < b.len(),
        b[at as int] == 0,
        zero_free(b.skip(at as int + 1)),
    ensures
        last_zero(b) == Some(at),
    decreases b.len(),
{
    if at == b.len() - 1 {
    } else {
        assert(b.skip(at as int + 1)[b.len() - at - 2] == b.last());
        let front = b.drop_last();
        let rest = front.skip(at as int + 1);
        assert forall|i: int| 0 <= i < rest.len() implies #[trigger] rest[i] != 0 by {
            assert(b.skip(at as int + 1)[i] == rest[i]);
        }
        lemma_last_zero_is(front, at);
    }
}

/// Whether no character of `s` is U+0000.
pub open spec fn nul_free(s: Seq<char>) -> bool {
    forall|i: int| 0 <= i < s.len() ==> #[trigger] s[i] != '\0'
}

/// The UTF-8 form of a character other than U+0000 holds no zero byte.
pub proof fn lemma_scalar_zero_free(c: u32)
    requires
        c != 0,
    ensures
        zero_free(encode_scalar(c)),
{
    assert(c != 0 && c <= 0x7f ==> (c & 0x7F) as u8 != 0) by (bit_vector);
    assert(0xC0u8 | ((c >> 6) & 0x1F) as u8 != 0) by (bit_vector);
    assert(0xE0u8 | ((c >> 12) & 0x0F) as u8 != 0) by (bit_vector);
    assert(0xF0u8 | ((c >> 18) & 0x7) as u8 != 0) by (bit_vector);
    assert(0x80u8 | (c & 0x3F) as u8 != 0) by (bit_vector);
    assert(0x80u8 | ((c >> 6) & 0x3F) as u8 != 0) by (bit_vector);
    assert(0x80u8 | ((c >> 12) & 0x3F) as u8 != 0) by (bit_vector);
}

/// The UTF-8 form of a text without U+0000 holds no zero byte.
pub proof fn lemma_text_zero_free(s: Seq<char>)
    requires
        nul_free(s),
    ensures
        zero_free(encode_utf8(s)),
    decreases s.len(),
{
    if s.len() > 0 {
        let first = encode_scalar(s[0] as u32);
        let rest = encode_utf8(s.drop_first());
        assert(s[0] != '\0');
        assert(s[0] as u32 != 0) by {
            vstd::utf8::char_u32_cast(s[0], s[0] as u32);
            vstd::utf8::char_u32_cast('\0', 0u32);
        }
        lemma_scalar_zero_free(s[0] as u32);
        assert forall|i: int| 0 <= i < s.drop_first().len() implies #[trigger] s.drop_first()[i]
            != '\0' by {
            assert(s[i + 1] != '\0');
        }
        lemma_text_zero_free(s.drop_first());
        assert forall|i: int| 0 <= i < (first + rest).len() implies #[trigger] (first + rest)[i]
            != 0 by {
            if i < first.len() {
                assert(first[i] != 0);
            } else {
                assert(rest[i - first.len()] != 0);
            }
        }
    }
}

/// A string without U+0000, no longer than the limit, is read back from its
/// bytes on the wire.
pub proof fn lemma_text_roundtrip(max_len: nat, strict: bool, s: Seq<char>)
    requires
        nul_free(s),
        encode_utf8(s).len() + 1 <= max_len,
    ensures
        decode_text(max_len, strict, text_bytes(s)) == Ok::<Seq<char>, Error>(s),
{
    lemma_text_zero_free(s);
    let raw = encode_utf8(s);
    let b = text_bytes(s);
    assert(b.take(raw.len() as int) =~= raw);
    lemma_first_zero_is(b, raw.len());
    vstd::utf8::encode_utf8_valid_utf8(s);
    vstd::utf8::encode_utf8_decode_utf8(s);
}

/// `String::from_utf8_lossy`: for well-formed UTF-8 the text it spells; for
/// other bytes the text in which the standard library has put U+FFFD for each
/// ill-formed part, which is named here and not spelled out.
#[verifier::external_body]
fn text_lossy(bytes: &[u8]) -> (r: String)
    ensures
        valid_utf8(bytes@) ==> r@ == decode_utf8(bytes@),
        !valid_utf8(bytes@) ==> r@ == lossy_text(bytes@),
{
    String::from_utf8_lossy(bytes).into_owned()
}

/// `std::str::from_utf8`: the text that the bytes spell, exactly when they are
/// well-formed UTF-8.
#[verifier::external_body]
fn text_strict(bytes: &[u8]) -> (r: Option<String>)
    ensures
        r is Some <==> valid_utf8(bytes@),
        r is Some ==> r->0@ == decode_utf8(bytes@),
{
    match std::str::from_utf8(bytes) {
        Ok(s) => Some(s.to_owned()),
        Err(_) => None,
    }
}

/// Finds the first zero byte of `b`; gives the length of `b` where there is
/// none.
pub fn find_first_zero(b: &[u8]) -> (at: usize)
    ensures
        at as nat == first_zero(b@),
        at <= b@.len(),
{
    let mut i: usize = 0;
    while i < b.len() && b[i] != 0
        invariant
            i <= b@.len(),
            zero_free(b@.take(i as int)),
        decreases b@.len() - i,
    {
        assert forall|j: int| 0 <= j < i + 1 implies #[trigger] b@.take(i + 1)[j] != 0 by {
            if j < i {
                assert(b@.take(i as int)[j] == b@[j]);
            }
        }
        i += 1;
    }
    proof {
        lemma_first_zero_is(b@, i as nat);
    }
    i
}

/// Finds the last zero byte of `b`.
pub fn find_last_zero(b: &[u8]) -> (r: Option<usize>)
    ensures
        match r {
            Some(at) => last_zero(b@) == Some(at as nat),
            None => last_zero(b@) is None,
        },
{
    let mut i: usize = b.len();
    while i > 0 && b[i - 1] != 0
        invariant
            i <= b@.len(),
            zero_free(b@.skip(i as int)),
        decreases i,
    {
        assert forall|j: int| 0 <= j < b@.skip(i - 1).len() implies #[trigger] b@.skip(i - 1)[j]
            != 0 by {
            if j > 0 {
                assert(b@.skip(i as int)[j - 1] == b@[i - 1 + j]);
            }
        }
        i -= 1;
    }
    if i == 0 {
        proof {
            lemma_last_zero(b@);
            if last_zero(b@) is Some {
                let at = last_zero(b@)->0;
                assert(b@.skip(0)[at as int] == b@[at as int]);
            }
        }
        None
    } else {
        proof {
            lemma_last_zero_is(b@, (i - 1) as nat);
        }
        Some(i - 1)
    }
}

/// Whether `r` is the outcome `expected`, the text taken by its view.
pub open spec fn same_text(r: Result<String, Error>, expected: Result<Seq<char>, Error>) -> bool {
    match r {
        Ok(s) => expected == Ok::<Seq<char>, Error>(s@),
        Err(e) => expected == Err::<Seq<char>, Error>(e),
    }
}

/// Reads the string that `window` holds: the text before its first zero byte.
///
/// Fails with `OverlongString` when the window is longer than the configured
/// limit, else with `InvalidTerminator` when it holds no zero byte, else, in
/// strict decoding, with `UnsupportedShape` when the text is not well-formed
/// UTF-8.
pub fn decode_string(cfg: &Config, window: &[u8]) -> (r: Result<String, Error>)
    ensures
        same_text(r, decode_text(cfg.max_string_len as nat, cfg.strict, window@)),
{
    if window.len() > cfg.max_string_len {
        return Err(Error::OverlongString);
    }
    let at = find_first_zero(window);
    if at >= window.len() {
        return Err(Error::InvalidTerminator);
    }
    let raw = vstd::slice::slice_subrange(window, 0, at);
    assert(raw@ =~= window@.take(at as int));
    if cfg.strict {
        match text_strict(raw) {
            Some(s) => Ok(s),
            None => Err(Error::UnsupportedShape),
        }
    } else {
        Ok(text_lossy(raw))
    }
}

/// Reads text from bytes that are known to spell it.
pub fn text_of(bytes: &[u8]) -> (r: String)
    requires
        valid_utf8(bytes@),
    ensures
        r@ == decode_utf8(bytes@),
{
    text_lossy(bytes)
}

} // verus!
