//! The canonical order of values: by kind first, then by what they hold.

use crate::errors::Error;
use crate::variant::{entries_model, kind_of, Dictionary, Value, Variant};
use vstd::prelude::*;
use vstd::utf8::encode_utf8;

verus! {

/// -1, 0 or 1 as `a` is less than, equal to or greater than `b`.
pub open spec fn sign_of(a: int, b: int) -> int {
    if a < b {
        -1
    } else if a == b {
        0
    } else {
        1
    }
}

/// The place of a double, given by its 64 bits, in the total order of IEEE
/// 754: negative before positive, and among the negative the larger
/// magnitude first.
pub open spec fn float_rank(bits: u64) -> int {
    if bits < 0x8000_0000_0000_0000 {
        bits as int
    } else {
        0x7fff_ffff_ffff_ffff - bits
    }
}

/// The order of byte strings: by the first byte in which they differ, a
/// string before those that it starts.
pub open spec fn bytes_order(a: Seq<u8>, b: Seq<u8>) -> int
    decreases a.len(),
{
    if a.len() == 0 {
        if b.len() == 0 {
            0
        } else {
            -1
        }
    } else if b.len() == 0 {
        1
    } else if a[0] != b[0] {
        sign_of(a[0] as int, b[0] as int)
    } else {
        bytes_order(a.drop_first(), b.drop_first())
    }
}

/// The number of a boolean.
pub open spec fn bool_rank(x: bool) -> int {
    if x {
        1
    } else {
        0
    }
}

/// The canonical order of values: -1, 0 or 1 as `a` comes before, with or
/// after `b`. Values of one kind are ordered by what they hold: numbers by
/// size, doubles by the total order, strings by their bytes, containers by
/// the first item in which they differ. Values of different kinds are
/// ordered by kind.
pub open spec fn value_order(a: Value, b: Value) -> int
    decreases a,
{
    match (a, b) {
        (Value::Bool(x), Value::Bool(y)) => sign_of(bool_rank(x), bool_rank(y)),
        (Value::U8(x), Value::U8(y)) => sign_of(x as int, y as int),
        (Value::U16(x), Value::U16(y)) => sign_of(x as int, y as int),
        (Value::U32(x), Value::U32(y)) => sign_of(x as int, y as int),
        (Value::U64(x), Value::U64(y)) => sign_of(x as int, y as int),
        (Value::I16(x), Value::I16(y)) => sign_of(x as int, y as int),
        (Value::I32(x), Value::I32(y)) => sign_of(x as int, y as int),
        (Value::I64(x), Value::I64(y)) => sign_of(x as int, y as int),
        (Value::F64(x), Value::F64(y)) => sign_of(float_rank(x), float_rank(y)),
        (Value::String(x), Value::String(y)) => bytes_order(encode_utf8(x), encode_utf8(y)),
        (Value::ObjectPath(x), Value::ObjectPath(y)) => bytes_order(
            encode_utf8(x),
            encode_utf8(y),
        ),
        (Value::Signature(x), Value::Signature(y)) => bytes_order(encode_utf8(x), encode_utf8(y)),
        (Value::Variant(x), Value::Variant(y)) => value_order(*x, *y),
        (Value::Maybe(None), Value::Maybe(None)) => 0,
        (Value::Maybe(None), Value::Maybe(Some(_))) => -1,
        (Value::Maybe(Some(_)), Value::Maybe(None)) => 1,
        (Value::Maybe(Some(x)), Value::Maybe(Some(y))) => value_order(*x, *y),
        (Value::Array(xs), Value::Array(ys)) => values_order(xs, ys),
        (Value::Structure(xs), Value::Structure(ys)) => values_order(xs, ys),
        (Value::Dictionary(xs), Value::Dictionary(ys)) => values_order(xs, ys),
        _ => sign_of(kind_of(a) as int, kind_of(b) as int),
    }
}

/// The order of lists of values: by the first item in which they differ, a
/// list before those that it starts.
pub open spec fn values_order(xs: Seq<Value>, ys: Seq<Value>) -> int
    decreases xs,
{
    if xs.len() == 0 {
        if ys.len() == 0 {
            0
        } else {
            -1
        }
    } else if ys.len() == 0 {
        1
    } else if value_order(xs[0], ys[0]) != 0 {
        value_order(xs[0], ys[0])
    } else {
        values_order(xs.drop_first(), ys.drop_first())
    }
}

/// Byte strings that agree up to a place are ordered as what follows it.
pub proof fn lemma_bytes_order_skip(a: Seq<u8>, b: Seq<u8>, i: int)
    requires
        0 <= i <= a.len(),
        i <= b.len(),
        a.take(i) == b.take(i),
    ensures
        bytes_order(a, b) == bytes_order(a.skip(i), b.skip(i)),
    decreases i,
{
    if i == 0 {
        assert(a.skip(0) =~= a);
        assert(b.skip(0) =~= b);
    } else {
        assert(a[0] == a.take(i)[0]);
        assert(b[0] == b.take(i)[0]);
        assert(a[0] == b[0]);
        assert(a.drop_first().take(i - 1) =~= a.take(i).drop_first());
        assert(b.drop_first().take(i - 1) =~= b.take(i).drop_first());
        lemma_bytes_order_skip(a.drop_first(), b.drop_first(), i - 1);
        assert(a.drop_first().skip(i - 1) =~= a.skip(i));
        assert(b.drop_first().skip(i - 1) =~= b.skip(i));
    }
}

/// Lists of values that are level up to a place are ordered as what
/// follows it.
pub proof fn lemma_values_order_skip(xs: Seq<Value>, ys: Seq<Value>, i: int)
    requires
        0 <= i <= xs.len(),
        i <= ys.len(),
        forall|j: int| 0 <= j < i ==> value_order(#[trigger] xs[j], ys[j]) == 0,
    ensures
        values_order(xs, ys) == values_order(xs.skip(i), ys.skip(i)),
    decreases i,
{
    if i == 0 {
        assert(xs.skip(0) =~= xs);
        assert(ys.skip(0) =~= ys);
    } else {
        assert(value_order(xs[0], ys[0]) == 0);
        assert forall|j: int| 0 <= j < i - 1 implies value_order(
            #[trigger] xs.drop_first()[j],
            ys.drop_first()[j],
        ) == 0 by {
            assert(value_order(xs[j + 1], ys[j + 1]) == 0);
        }
        lemma_values_order_skip(xs.drop_first(), ys.drop_first(), i - 1);
        assert(xs.drop_first().skip(i - 1) =~= xs.skip(i));
        assert(ys.drop_first().skip(i - 1) =~= ys.skip(i));
    }
}

/// Every byte string is level with itself.
pub proof fn lemma_bytes_order_same(a: Seq<u8>)
    ensures
        bytes_order(a, a) == 0,
    decreases a.len(),
{
    if a.len() > 0 {
        lemma_bytes_order_same(a.drop_first());
    }
}

/// Every value is level with itself.
pub proof fn lemma_order_reflexive(a: Value)
    ensures
        value_order(a, a) == 0,
    decreases a,
{
    match a {
        Value::String(x) => lemma_bytes_order_same(encode_utf8(x)),
        Value::ObjectPath(x) => lemma_bytes_order_same(encode_utf8(x)),
        Value::Signature(x) => lemma_bytes_order_same(encode_utf8(x)),
        Value::Variant(x) => lemma_order_reflexive(*x),
        Value::Maybe(Some(x)) => lemma_order_reflexive(*x),
        Value::Array(xs) => lemma_values_order_reflexive(xs),
        Value::Structure(xs) => lemma_values_order_reflexive(xs),
        Value::Dictionary(xs) => lemma_values_order_reflexive(xs),
        _ => {},
    }
}

/// Every list of values is level with itself.
pub proof fn lemma_values_order_reflexive(xs: Seq<Value>)
    ensures
        values_order(xs, xs) == 0,
    decreases xs,
{
    if xs.len() > 0 {
        lemma_order_reflexive(xs[0]);
        lemma_values_order_reflexive(xs.drop_first());
    }
}

/// Turning two byte strings round turns their order round.
pub proof fn lemma_bytes_order_mirror(a: Seq<u8>, b: Seq<u8>)
    ensures
        bytes_order(b, a) == -bytes_order(a, b),
    decreases a.len(),
{
    if a.len() > 0 && b.len() > 0 && a[0] == b[0] {
        lemma_bytes_order_mirror(a.drop_first(), b.drop_first());
    }
}

/// Turning two values round turns their order round: the order is the same
/// whichever of the two is asked first.
pub proof fn lemma_order_mirror(a: Value, b: Value)
    ensures
        value_order(b, a) == -value_order(a, b),
    decreases a,
{
    match (a, b) {
        (Value::String(x), Value::String(y)) => lemma_bytes_order_mirror(
            encode_utf8(x),
            encode_utf8(y),
        ),
        (Value::ObjectPath(x), Value::ObjectPath(y)) => lemma_bytes_order_mirror(
            encode_utf8(x),
            encode_utf8(y),
        ),
        (Value::Signature(x), Value::Signature(y)) => lemma_bytes_order_mirror(
            encode_utf8(x),
            encode_utf8(y),
        ),
        (Value::Variant(x), Value::Variant(y)) => lemma_order_mirror(*x, *y),
        (Value::Maybe(Some(x)), Value::Maybe(Some(y))) => lemma_order_mirror(*x, *y),
        (Value::Array(xs), Value::Array(ys)) => lemma_values_order_mirror(xs, ys),
        (Value::Structure(xs), Value::Structure(ys)) => lemma_values_order_mirror(xs, ys),
        (Value::Dictionary(xs), Value::Dictionary(ys)) => lemma_values_order_mirror(xs, ys),
        _ => {},
    }
}

/// Turning two lists of values round turns their order round.
pub proof fn lemma_values_order_mirror(xs: Seq<Value>, ys: Seq<Value>)
    ensures
        values_order(ys, xs) == -values_order(xs, ys),
    decreases xs,
{
    if xs.len() > 0 && ys.len() > 0 {
        lemma_order_mirror(xs[0], ys[0]);
        lemma_values_order_mirror(xs.drop_first(), ys.drop_first());
    }
}

/// Byte strings that are level are the same.
pub proof fn lemma_bytes_level(a: Seq<u8>, b: Seq<u8>)
    requires
        bytes_order(a, b) == 0,
    ensures
        a == b,
    decreases a.len(),
{
    if a.len() > 0 && b.len() > 0 {
        lemma_bytes_level(a.drop_first(), b.drop_first());
        assert(a =~= seq![a[0]] + a.drop_first());
        assert(b =~= seq![b[0]] + b.drop_first());
    } else {
        assert(a =~= b);
    }
}

/// Texts whose bytes are level are the same.
pub proof fn lemma_text_level(x: Seq<char>, y: Seq<char>)
    requires
        bytes_order(encode_utf8(x), encode_utf8(y)) == 0,
    ensures
        x == y,
{
    lemma_bytes_level(encode_utf8(x), encode_utf8(y));
    vstd::utf8::encode_utf8_decode_utf8(x);
    vstd::utf8::encode_utf8_decode_utf8(y);
}

/// Values that are level in the canonical order are the same value: the
/// order tells any two values apart.
pub proof fn lemma_order_level(a: Value, b: Value)
    requires
        value_order(a, b) == 0,
    ensures
        a == b,
    decreases a,
{
    match (a, b) {
        (Value::String(x), Value::String(y)) => lemma_text_level(x, y),
        (Value::ObjectPath(x), Value::ObjectPath(y)) => lemma_text_level(x, y),
        (Value::Signature(x), Value::Signature(y)) => lemma_text_level(x, y),
        (Value::Variant(x), Value::Variant(y)) => lemma_order_level(*x, *y),
        (Value::Maybe(Some(x)), Value::Maybe(Some(y))) => lemma_order_level(*x, *y),
        (Value::Array(xs), Value::Array(ys)) => lemma_values_order_level(xs, ys),
        (Value::Structure(xs), Value::Structure(ys)) => lemma_values_order_level(xs, ys),
        (Value::Dictionary(xs), Value::Dictionary(ys)) => lemma_values_order_level(xs, ys),
        _ => {},
    }
}

/// Lists of values that are level are the same list.
pub proof fn lemma_values_order_level(xs: Seq<Value>, ys: Seq<Value>)
    requires
        values_order(xs, ys) == 0,
    ensures
        xs == ys,
    decreases xs,
{
    if xs.len() > 0 && ys.len() > 0 {
        lemma_order_level(xs[0], ys[0]);
        lemma_values_order_level(xs.drop_first(), ys.drop_first());
        assert(xs =~= seq![xs[0]] + xs.drop_first());
        assert(ys =~= seq![ys[0]] + ys.drop_first());
    } else {
        assert(xs =~= ys);
    }
}

/// Values of different kinds are ordered by kind.
pub proof fn lemma_order_kinds(a: Value, b: Value)
    ensures
        kind_of(a) < kind_of(b) ==> value_order(a, b) == -1,
        kind_of(a) > kind_of(b) ==> value_order(a, b) == 1,
{
}

/// What comes before or with a byte string that comes before or with a third
/// comes before or with the third, and before it if either step is strict.
pub proof fn lemma_bytes_order_transitive(a: Seq<u8>, b: Seq<u8>, c: Seq<u8>)
    requires
        bytes_order(a, b) <= 0,
        bytes_order(b, c) <= 0,
    ensures
        bytes_order(a, c) <= 0,
        bytes_order(a, b) < 0 || bytes_order(b, c) < 0 ==> bytes_order(a, c) < 0,
    decreases a.len(),
{
    if a.len() > 0 && b.len() > 0 && c.len() > 0 && a[0] == b[0] && b[0] == c[0] {
        lemma_bytes_order_transitive(a.drop_first(), b.drop_first(), c.drop_first());
    }
}

/// The canonical order is transitive: what comes before or with a value that
/// comes before or with a third comes before or with the third, and before it
/// if either step is strict.
pub proof fn lemma_order_transitive(a: Value, b: Value, c: Value)
    requires
        value_order(a, b) <= 0,
        value_order(b, c) <= 0,
    ensures
        value_order(a, c) <= 0,
        value_order(a, b) < 0 || value_order(b, c) < 0 ==> value_order(a, c) < 0,
    decreases a,
{
    lemma_order_kinds(a, b);
    lemma_order_kinds(b, c);
    lemma_order_kinds(a, c);
    if kind_of(a) == kind_of(b) && kind_of(b) == kind_of(c) {
        match (a, b, c) {
            (Value::String(x), Value::String(y), Value::String(z)) => {
                lemma_bytes_order_transitive(encode_utf8(x), encode_utf8(y), encode_utf8(z));
            },
            (Value::ObjectPath(x), Value::ObjectPath(y), Value::ObjectPath(z)) => {
                lemma_bytes_order_transitive(encode_utf8(x), encode_utf8(y), encode_utf8(z));
            },
            (Value::Signature(x), Value::Signature(y), Value::Signature(z)) => {
                lemma_bytes_order_transitive(encode_utf8(x), encode_utf8(y), encode_utf8(z));
            },
            (Value::Variant(x), Value::Variant(y), Value::Variant(z)) => {
                lemma_order_transitive(*x, *y, *z);
            },
            (Value::Maybe(Some(x)), Value::Maybe(Some(y)), Value::Maybe(Some(z))) => {
                lemma_order_transitive(*x, *y, *z);
            },
            (Value::Array(xs), Value::Array(ys), Value::Array(zs)) => {
                lemma_values_order_transitive(xs, ys, zs);
            },
            (Value::Structure(xs), Value::Structure(ys), Value::Structure(zs)) => {
                lemma_values_order_transitive(xs, ys, zs);
            },
            (Value::Dictionary(xs), Value::Dictionary(ys), Value::Dictionary(zs)) => {
                lemma_values_order_transitive(xs, ys, zs);
            },
            _ => {},
        }
    }
}

/// The order of lists of values is transitive.
pub proof fn lemma_values_order_transitive(xs: Seq<Value>, ys: Seq<Value>, zs: Seq<Value>)
    requires
        values_order(xs, ys) <= 0,
        values_order(ys, zs) <= 0,
    ensures
        values_order(xs, zs) <= 0,
        values_order(xs, ys) < 0 || values_order(ys, zs) < 0 ==> values_order(xs, zs) < 0,
    decreases xs,
{
    if xs.len() > 0 && ys.len() > 0 && zs.len() > 0 {
        lemma_order_transitive(xs[0], ys[0], zs[0]);
        if value_order(xs[0], ys[0]) == 0 && value_order(ys[0], zs[0]) == 0 {
            lemma_values_order_transitive(xs.drop_first(), ys.drop_first(), zs.drop_first());
        }
    }
}

/// The key of an entry.
pub open spec fn key_of(entry: Value) -> Value {
    match entry {
        Value::Structure(pair) => pair[0],
        _ => entry,
    }
}

/// Whether the keys of the entries ascend in the canonical order, so that no
/// key occurs twice: whether the entries are the listing of a map.
pub open spec fn keys_ascend(entries: Seq<Value>) -> bool {
    forall|i: int|
        0 <= i < entries.len() - 1 ==> value_order(
            key_of(#[trigger] entries[i]),
            key_of(entries[i + 1]),
        ) < 0
}

impl Dictionary {
    /// Whether this is the listing of a map: each key once, the keys ascending
    /// in the canonical order.
    pub open spec fn lists_map(&self) -> bool {
        keys_ascend(entries_model(self.inner@))
    }

    /// Build a dictionary from the entries of a map, a key and a value each, the
    /// keys ascending in the canonical order.
    ///
    /// Fails with `UnsupportedShape` exactly when the keys do not ascend.
    pub fn from_map(map: Vec<(Variant, Variant)>) -> (r: Result<Dictionary, Error>)
        ensures
            match r {
                Ok(dict) => dict.inner == map && dict.lists_map(),
                Err(e) => e == Error::UnsupportedShape && !keys_ascend(entries_model(map@)),
            },
    {
        let dict = Dictionary { inner: map };
        if dict.is_map() {
            Ok(dict)
        } else {
            Err(Error::UnsupportedShape)
        }
    }

    /// Tells whether the keys of the entries ascend in the canonical order, so
    /// that no key occurs twice: whether this is the listing of a map.
    pub fn is_map(&self) -> (b: bool)
        ensures
            b == self.lists_map(),
    {
        let ghost entries = entries_model(self.inner@);
        let n = self.len();
        if n == 0 {
            return true;
        }
        let mut i: usize = 0;
        while i < n - 1
            invariant
                i <= n - 1,
                n == self.inner@.len(),
                n > 0,
                entries == entries_model(self.inner@),
                forall|j: int|
                    0 <= j < i ==> value_order(
                        key_of(#[trigger] entries[j]),
                        key_of(entries[j + 1]),
                    ) < 0,
            decreases n - 1 - i,
        {
            let (key, _) = self.get(i);
            let (next, _) = self.get(i + 1);
            assert(key_of(entries[i as int]) == key@);
            assert(key_of(entries[i + 1]) == next@);
            if key.compare(next) >= 0 {
                return false;
            }
            i += 1;
        }
        true
    }
}

/// Compares two numbers.
pub fn compare_u64(a: u64, b: u64) -> (r: i8)
    ensures
        r as int == sign_of(a as int, b as int),
{
    if a < b {
        -1
    } else if a == b {
        0
    } else {
        1
    }
}

/// Compares two signed numbers.
pub fn compare_i64(a: i64, b: i64) -> (r: i8)
    ensures
        r as int == sign_of(a as int, b as int),
{
    if a < b {
        -1
    } else if a == b {
        0
    } else {
        1
    }
}

/// Compares two doubles, given by their 64 bits, in the total order.
pub fn compare_floats(a: u64, b: u64) -> (r: i8)
    ensures
        r as int == sign_of(float_rank(a), float_rank(b)),
{
    let high: u64 = 0x8000_0000_0000_0000;
    if a < high {
        if b < high {
            compare_u64(a, b)
        } else {
            1
        }
    } else if b < high {
        -1
    } else {
        compare_u64(b, a)
    }
}

/// Compares two byte strings.
pub fn compare_bytes(a: &[u8], b: &[u8]) -> (r: i8)
    ensures
        r as int == bytes_order(a@, b@),
{
    let mut i: usize = 0;
    while i < a.len() && i < b.len()
        invariant
            i <= a@.len(),
            i <= b@.len(),
            a@.take(i as int) == b@.take(i as int),
        decreases a@.len() - i,
    {
        proof {
            lemma_bytes_order_skip(a@, b@, i as int);
            assert(a@.skip(i as int)[0] == a@[i as int]);
            assert(b@.skip(i as int)[0] == b@[i as int]);
        }
        if a[i] != b[i] {
            return compare_u64(a[i] as u64, b[i] as u64);
        }
        assert(a@.take(i + 1) =~= a@.take(i as int).push(a@[i as int]));
        assert(b@.take(i + 1) =~= b@.take(i as int).push(b@[i as int]));
        i += 1;
    }
    proof {
        lemma_bytes_order_skip(a@, b@, i as int);
    }
    if i < b.len() {
        -1
    } else if i < a.len() {
        1
    } else {
        0
    }
}

/// Lists of one value each are ordered as their values.
pub proof fn lemma_single_order(v: Value, v2: Value)
    ensures
        values_order(seq![v], seq![v2]) == value_order(v, v2),
{
    let p = seq![v];
    let q = seq![v2];
    assert(p[0] == v && q[0] == v2);
    assert(p.drop_first() =~= Seq::<Value>::empty());
    assert(q.drop_first() =~= Seq::<Value>::empty());
    assert(values_order(p.drop_first(), q.drop_first()) == 0);
}

/// Two entries are ordered by their keys, and entries with level keys by
/// their values.
pub proof fn lemma_entry_order(k: Value, v: Value, k2: Value, v2: Value)
    ensures
        value_order(Value::Structure(seq![k, v]), Value::Structure(seq![k2, v2])) == if value_order(
            k,
            k2,
        ) != 0 {
            value_order(k, k2)
        } else {
            value_order(v, v2)
        },
{
    let p = seq![k, v];
    let q = seq![k2, v2];
    assert(p[0] == k && q[0] == k2);
    assert(p.drop_first() =~= seq![v]);
    assert(q.drop_first() =~= seq![v2]);
    lemma_single_order(v, v2);
    assert(value_order(Value::Structure(p), Value::Structure(q)) == values_order(p, q));
}

/// How the order of two lists follows from their first items that are not
/// level, or from their lengths.
pub proof fn lemma_values_order_at(xs: Seq<Value>, ys: Seq<Value>, i: int)
    requires
        0 <= i <= xs.len(),
        i <= ys.len(),
        forall|j: int| 0 <= j < i ==> value_order(#[trigger] xs[j], ys[j]) == 0,
    ensures
        i < xs.len() && i < ys.len() && value_order(xs[i], ys[i]) != 0 ==> values_order(xs, ys)
            == value_order(xs[i], ys[i]),
        i == xs.len() && i == ys.len() ==> values_order(xs, ys) == 0,
        i == xs.len() && i < ys.len() ==> values_order(xs, ys) == -1,
        i < xs.len() && i == ys.len() ==> values_order(xs, ys) == 1,
{
    lemma_values_order_skip(xs, ys, i);
    if i < xs.len() && i < ys.len() {
        assert(xs.skip(i)[0] == xs[i]);
        assert(ys.skip(i)[0] == ys[i]);
    }
}

impl Variant {
    /// Compares this value with `other` in the canonical order: -1, 0 or 1 as
    /// it comes before, with or after `other`.
    pub fn compare(&self, other: &Variant) -> (r: i8)
        ensures
            r as int == value_order(self@, other@),
        decreases self, 1nat,
    {
        match (self, other) {
            (Variant::Bool(x), Variant::Bool(y)) => compare_u64(
                if *x {
                    1
                } else {
                    0
                },
                if *y {
                    1
                } else {
                    0
                },
            ),
            (Variant::U8(x), Variant::U8(y)) => compare_u64(*x as u64, *y as u64),
            (Variant::U16(x), Variant::U16(y)) => compare_u64(*x as u64, *y as u64),
            (Variant::U32(x), Variant::U32(y)) => compare_u64(*x as u64, *y as u64),
            (Variant::U64(x), Variant::U64(y)) => compare_u64(*x, *y),
            (Variant::I16(x), Variant::I16(y)) => compare_i64(*x as i64, *y as i64),
            (Variant::I32(x), Variant::I32(y)) => compare_i64(*x as i64, *y as i64),
            (Variant::I64(x), Variant::I64(y)) => compare_i64(*x, *y),
            (Variant::F64(x), Variant::F64(y)) => compare_floats(*x, *y),
            (Variant::String(x), Variant::String(y)) => compare_bytes(
                x.as_str().as_bytes(),
                y.as_str().as_bytes(),
            ),
            (Variant::ObjectPath(x), Variant::ObjectPath(y)) => compare_bytes(
                x.as_str().as_bytes(),
                y.as_str().as_bytes(),
            ),
            (Variant::Signature(x), Variant::Signature(y)) => compare_bytes(
                x.as_str().as_bytes(),
                y.as_str().as_bytes(),
            ),
            (Variant::Variant(x), Variant::Variant(y)) => x.compare(y),
            (Variant::Option(None), Variant::Option(None)) => 0,
            (Variant::Option(None), Variant::Option(Some(_))) => -1,
            (Variant::Option(Some(_)), Variant::Option(None)) => 1,
            (Variant::Option(Some(x)), Variant::Option(Some(y))) => x.compare(y),
            (Variant::Vec(_), Variant::Vec(_)) => self.compare_items(other),
            (Variant::Structure(_), Variant::Structure(_)) => self.compare_fields(other),
            (Variant::Dictionary(_), Variant::Dictionary(_)) => self.compare_entries(other),
            _ => compare_u64(self.discriminant(), other.discriminant()),
        }
    }

    /// Compares two arrays.
    pub fn compare_items(&self, other: &Variant) -> (r: i8)
        requires
            self is Vec,
            other is Vec,
        ensures
            r as int == values_order(self@->Array_0, other@->Array_0),
        decreases self, 0nat,
    {
        let ghost xs = self@->Array_0;
        let ghost ys = other@->Array_0;
        let n = match self {
            Variant::Vec(array) => array.len(),
            _ => 0,
        };
        let m = match other {
            Variant::Vec(array) => array.len(),
            _ => 0,
        };
        let mut i: usize = 0;
        while i < n && i < m
            invariant
                i <= n,
                i <= m,
                self is Vec,
                other is Vec,
                n == self->Vec_0.inner@.len(),
                m == other->Vec_0.inner@.len(),
                xs == self@->Array_0,
                ys == other@->Array_0,
                forall|j: int| 0 <= j < i ==> value_order(#[trigger] xs[j], ys[j]) == 0,
            decreases n - i,
        {
            let mine = self.element(i);
            let theirs = other.element(i);
            let c = mine.compare(theirs);
            assert(xs[i as int] == mine@);
            assert(ys[i as int] == theirs@);
            if c != 0 {
                proof {
                    lemma_values_order_at(xs, ys, i as int);
                }
                return c;
            }
            i += 1;
        }
        proof {
            lemma_values_order_at(xs, ys, i as int);
        }
        if i < m {
            -1
        } else if i < n {
            1
        } else {
            0
        }
    }

    /// Compares two structures.
    pub fn compare_fields(&self, other: &Variant) -> (r: i8)
        requires
            self is Structure,
            other is Structure,
        ensures
            r as int == values_order(self@->Structure_0, other@->Structure_0),
        decreases self, 0nat,
    {
        let ghost xs = self@->Structure_0;
        let ghost ys = other@->Structure_0;
        let n = match self {
            Variant::Structure(structure) => structure.len(),
            _ => 0,
        };
        let m = match other {
            Variant::Structure(structure) => structure.len(),
            _ => 0,
        };
        let mut i: usize = 0;
        while i < n && i < m
            invariant
                i <= n,
                i <= m,
                self is Structure,
                other is Structure,
                n == self->Structure_0.fields@.len(),
                m == other->Structure_0.fields@.len(),
                xs == self@->Structure_0,
                ys == other@->Structure_0,
                forall|j: int| 0 <= j < i ==> value_order(#[trigger] xs[j], ys[j]) == 0,
            decreases n - i,
        {
            let mine = self.field(i);
            let theirs = other.field(i);
            let c = mine.compare(theirs);
            assert(xs[i as int] == mine@);
            assert(ys[i as int] == theirs@);
            if c != 0 {
                proof {
                    lemma_values_order_at(xs, ys, i as int);
                }
                return c;
            }
            i += 1;
        }
        proof {
            lemma_values_order_at(xs, ys, i as int);
        }
        if i < m {
            -1
        } else if i < n {
            1
        } else {
            0
        }
    }

    /// Compares two dictionaries, entry by entry.
    pub fn compare_entries(&self, other: &Variant) -> (r: i8)
        requires
            self is Dictionary,
            other is Dictionary,
        ensures
            r as int == values_order(self@->Dictionary_0, other@->Dictionary_0),
        decreases self, 0nat,
    {
        let ghost xs = self@->Dictionary_0;
        let ghost ys = other@->Dictionary_0;
        let n = match self {
            Variant::Dictionary(dict) => dict.len(),
            _ => 0,
        };
        let m = match other {
            Variant::Dictionary(dict) => dict.len(),
            _ => 0,
        };
        let mut i: usize = 0;
        while i < n && i < m
            invariant
                i <= n,
                i <= m,
                self is Dictionary,
                other is Dictionary,
                n == self->Dictionary_0.inner@.len(),
                m == other->Dictionary_0.inner@.len(),
                xs == self@->Dictionary_0,
                ys == other@->Dictionary_0,
                forall|j: int| 0 <= j < i ==> value_order(#[trigger] xs[j], ys[j]) == 0,
            decreases n - i,
        {
            let (key, value) = self.entry(i);
            let (other_key, other_value) = other.entry(i);
            proof {
                lemma_entry_order(key@, value@, other_key@, other_value@);
            }
            assert(xs[i as int] == Value::Structure(seq![key@, value@]));
            assert(ys[i as int] == Value::Structure(seq![other_key@, other_value@]));
            let by_key = key.compare(other_key);
            let c = if by_key != 0 {
                by_key
            } else {
                value.compare(other_value)
            };
            if c != 0 {
                proof {
                    lemma_values_order_at(xs, ys, i as int);
                }
                return c;
            }
            i += 1;
        }
        proof {
            lemma_values_order_at(xs, ys, i as int);
        }
        if i < m {
            -1
        } else if i < n {
            1
        } else {
            0
        }
    }
}

} // verus!
