//! Values of the format: scalars, strings and containers, as a tree.

use crate::errors::Error;
use crate::signature::{ascii_text, signature_of, MAX_NESTING};
use crate::types::{depth, fits, type_model, Type, TypeSpec};
use vstd::prelude::*;

verus! {

/// A value of the format, as contracts see it.
pub enum Value {
    Bool(bool),
    U8(u8),
    U16(u16),
    U32(u32),
    U64(u64),
    I16(i16),
    I32(i32),
    I64(i64),
    /// A double, by the 64 bits of its IEEE 754 form.
    F64(u64),
    String(Seq<char>),
    ObjectPath(Seq<char>),
    Signature(Seq<char>),
    Variant(Box<Value>),
    Maybe(Option<Box<Value>>),
    Array(Seq<Value>),
    Structure(Seq<Value>),
    /// The entries of a dictionary, each a structure of a key and a value.
    Dictionary(Seq<Value>),
}

/// GVariant array, homogeneous inner type.
#[derive(Debug, PartialEq, Eq, Hash)]
pub struct Array {
    /// Inner elements.
    pub inner: Vec<Variant>,
}

/// GVariant dictionary, homogeneous inner key-value types: its entries, in the
/// order in which they stand on the wire. That is the order of a map, each key
/// once and the keys ascending, where the dictionary was built by `from_map`;
/// `is_map` tells whether it is.
#[derive(Debug, PartialEq, Eq, Hash)]
pub struct Dictionary {
    /// Inner entries, a key and a value each.
    pub inner: Vec<(Variant, Variant)>,
}

/// GVariant structure, variadic tuple.
#[derive(Debug, PartialEq, Eq, Hash)]
pub struct Structure {
    /// Structure fields.
    pub fields: Vec<Variant>,
}

/// All the types supported by GVariant (basic or containers).
#[derive(Debug, PartialEq, Eq, Hash)]
pub enum Variant {
    /// Boolean (signature: `b`).
    Bool(bool),
    /// Byte (signature: `y`).
    U8(u8),
    /// Unsigned 16-bits integer (signature: `q`).
    U16(u16),
    /// Unsigned 32-bits integer (signature: `u`).
    U32(u32),
    /// Unsigned 64-bits integer (signature: `t`).
    U64(u64),
    /// Signed 16-bits integer (signature: `n`).
    I16(i16),
    /// Signed 32-bits integer (signature: `i`).
    I32(i32),
    /// Signed 64-bits integer (signature: `x`).
    I64(i64),
    /// Double-precision floating point number (signature: `d`), held as the
    /// 64 bits of its IEEE 754 form.
    F64(u64),
    /// String (signature: `s`).
    String(String),
    /// DBus object path (signature: `o`).
    ObjectPath(String),
    /// DBus signature string (signature: `g`).
    Signature(String),
    /// Generic variant type (signature: `v`).
    Variant(Box<Variant>),
    /// Optional ("Maybe") container (signature: `mX`).
    Option(Option<Box<Variant>>),
    /// Homogeneous array (signature: `aX`).
    Vec(Array),
    /// Structure, variadic tuple (signature: `(XYZ)`).
    Structure(Structure),
    /// Dictionary map (signature: `a{XY}`).
    Dictionary(Dictionary),
}

/// What a `Variant` is to contracts.
pub open spec fn value_model(v: Variant) -> Value
    decreases v,
{
    match v {
        Variant::Bool(x) => Value::Bool(x),
        Variant::U8(x) => Value::U8(x),
        Variant::U16(x) => Value::U16(x),
        Variant::U32(x) => Value::U32(x),
        Variant::U64(x) => Value::U64(x),
        Variant::I16(x) => Value::I16(x),
        Variant::I32(x) => Value::I32(x),
        Variant::I64(x) => Value::I64(x),
        Variant::F64(x) => Value::F64(x),
        Variant::String(s) => Value::String(s@),
        Variant::ObjectPath(s) => Value::ObjectPath(s@),
        Variant::Signature(s) => Value::Signature(s@),
        Variant::Variant(inner) => Value::Variant(Box::new(value_model(*inner))),
        Variant::Option(None) => Value::Maybe(None),
        Variant::Option(Some(inner)) => Value::Maybe(Some(Box::new(value_model(*inner)))),
        Variant::Vec(array) => Value::Array(
            Seq::new(
                array.inner@.len(),
                |i: int|
                    if 0 <= i < array.inner@.len() {
                        value_model(array.inner@[i])
                    } else {
                        Value::Bool(false)
                    },
            ),
        ),
        Variant::Structure(structure) => Value::Structure(
            Seq::new(
                structure.fields@.len(),
                |i: int|
                    if 0 <= i < structure.fields@.len() {
                        value_model(structure.fields@[i])
                    } else {
                        Value::Bool(false)
                    },
            ),
        ),
        Variant::Dictionary(dict) => Value::Dictionary(
            Seq::new(
                dict.inner@.len(),
                |i: int|
                    if 0 <= i < dict.inner@.len() {
                        Value::Structure(
                            seq![value_model(dict.inner@[i].0), value_model(dict.inner@[i].1)],
                        )
                    } else {
                        Value::Bool(false)
                    },
            ),
        ),
    }
}

/// What a list of `Variant`s is to contracts.
pub open spec fn values_model(vs: Seq<Variant>) -> Seq<Value> {
    Seq::new(vs.len(), |i: int| value_model(vs[i]))
}

/// What a list of entries is to contracts.
pub open spec fn entries_model(es: Seq<(Variant, Variant)>) -> Seq<Value> {
    Seq::new(
        es.len(),
        |i: int| Value::Structure(seq![value_model(es[i].0), value_model(es[i].1)]),
    )
}

impl View for Variant {
    type V = Value;

    open spec fn view(&self) -> Value {
        value_model(*self)
    }
}

/// The models of the types that stand in for types that are not known.
pub proof fn lemma_default_types()
    ensures
        Type::Variant@ == TypeSpec::Variant,
        Type::Maybe(Box::new(Type::Variant))@ == TypeSpec::Maybe(Box::new(TypeSpec::Variant)),
        Type::Array(Box::new(Type::Variant))@ == TypeSpec::Array(Box::new(TypeSpec::Variant)),
        Type::DictEntry(Box::new(Type::Variant), Box::new(Type::Variant))@ == any_entry(),
        Type::Array(
            Box::new(Type::DictEntry(Box::new(Type::Variant), Box::new(Type::Variant))),
        )@ == TypeSpec::Array(Box::new(any_entry())),
{
    reveal_with_fuel(type_model, 3);
    assert(Type::DictEntry(Box::new(Type::Variant), Box::new(Type::Variant))@->Tuple_1
        =~= any_entry()->Tuple_1);
}

/// The type of an entry whose key and value types are not known.
pub open spec fn any_entry() -> TypeSpec {
    TypeSpec::Tuple(true, seq![TypeSpec::Variant, TypeSpec::Variant])
}

/// The type that a value has by itself: the type under which it travels
/// inside a variant. An empty array counts as an array of variants, an absent
/// maybe as a maybe of a variant, an empty dictionary as one from variants to
/// variants.
pub open spec fn type_of(v: Value) -> TypeSpec
    decreases v,
{
    match v {
        Value::Bool(_) => TypeSpec::Bool,
        Value::U8(_) => TypeSpec::U8,
        Value::U16(_) => TypeSpec::U16,
        Value::U32(_) => TypeSpec::U32,
        Value::U64(_) => TypeSpec::U64,
        Value::I16(_) => TypeSpec::I16,
        Value::I32(_) => TypeSpec::I32,
        Value::I64(_) => TypeSpec::I64,
        Value::F64(_) => TypeSpec::F64,
        Value::String(_) => TypeSpec::String,
        Value::ObjectPath(_) => TypeSpec::ObjectPath,
        Value::Signature(_) => TypeSpec::Signature,
        Value::Variant(_) => TypeSpec::Variant,
        Value::Maybe(None) => TypeSpec::Maybe(Box::new(TypeSpec::Variant)),
        Value::Maybe(Some(inner)) => TypeSpec::Maybe(Box::new(type_of(*inner))),
        Value::Array(items) => if items.len() == 0 {
            TypeSpec::Array(Box::new(TypeSpec::Variant))
        } else {
            TypeSpec::Array(Box::new(type_of(items[0])))
        },
        Value::Structure(fields) => TypeSpec::Tuple(
            false,
            Seq::new(
                fields.len(),
                |i: int|
                    if 0 <= i < fields.len() {
                        type_of(fields[i])
                    } else {
                        TypeSpec::Bool
                    },
            ),
        ),
        Value::Dictionary(entries) => if entries.len() == 0 {
            TypeSpec::Array(Box::new(any_entry()))
        } else {
            match entries.last() {
                Value::Structure(pair) => TypeSpec::Array(
                    Box::new(
                        TypeSpec::Tuple(
                            true,
                            Seq::new(
                                pair.len(),
                                |i: int|
                                    if 0 <= i < pair.len() {
                                        type_of(pair[i])
                                    } else {
                                        TypeSpec::Bool
                                    },
                            ),
                        ),
                    ),
                ),
                _ => TypeSpec::Array(Box::new(any_entry())),
            }
        },
    }
}

/// The types that the values of a list have by themselves.
pub open spec fn types_of(vs: Seq<Value>) -> Seq<TypeSpec> {
    Seq::new(vs.len(), |i: int| type_of(vs[i]))
}

/// Whether a type is that of a dictionary entry.
pub open spec fn is_entry(t: TypeSpec) -> bool {
    t matches TypeSpec::Tuple(true, _)
}

/// Whether `v` is a value of type `t`.
///
/// What a variant carries must be a value of the type that it has by itself,
/// and that type one that a signature of at most `MAX_NESTING` levels spells.
pub open spec fn typed(t: TypeSpec, v: Value) -> bool
    decreases v,
{
    match v {
        Value::Bool(_) => t is Bool,
        Value::U8(_) => t is U8,
        Value::U16(_) => t is U16,
        Value::U32(_) => t is U32,
        Value::U64(_) => t is U64,
        Value::I16(_) => t is I16,
        Value::I32(_) => t is I32,
        Value::I64(_) => t is I64,
        Value::F64(_) => t is F64,
        Value::String(_) => t is String,
        Value::ObjectPath(_) => t is ObjectPath,
        Value::Signature(_) => t is Signature,
        Value::Variant(inner) => {
            &&& t is Variant
            &&& fits(type_of(*inner))
            &&& depth(type_of(*inner)) <= MAX_NESTING
            &&& typed(type_of(*inner), *inner)
        },
        Value::Maybe(None) => t is Maybe,
        Value::Maybe(Some(inner)) => match t {
            TypeSpec::Maybe(inner_type) => typed(*inner_type, *inner),
            _ => false,
        },
        Value::Array(items) => match t {
            TypeSpec::Array(item_type) => {
                &&& !is_entry(*item_type)
                &&& forall|i: int| 0 <= i < items.len() ==> typed(*item_type, #[trigger] items[i])
            },
            _ => false,
        },
        Value::Dictionary(entries) => match t {
            TypeSpec::Array(entry_type) => {
                &&& is_entry(*entry_type)
                &&& forall|i: int|
                    0 <= i < entries.len() ==> typed(*entry_type, #[trigger] entries[i])
            },
            _ => false,
        },
        Value::Structure(fields) => match t {
            TypeSpec::Tuple(_, field_types) => {
                &&& field_types.len() == fields.len()
                &&& forall|i: int|
                    0 <= i < fields.len() ==> typed(field_types[i], #[trigger] fields[i])
            },
            _ => false,
        },
    }
}

impl Array {
    /// The number of elements.
    pub fn len(&self) -> (n: usize)
        ensures
            n == self.inner@.len(),
    {
        self.inner.len()
    }

    /// Element `i`.
    pub fn get(&self, i: usize) -> (v: &Variant)
        requires
            i < self.inner@.len(),
        ensures
            *v == self.inner@[i as int],
            decreases_to!(self => v),
    {
        &self.inner[i]
    }
}

impl Structure {
    /// The number of fields.
    pub fn len(&self) -> (n: usize)
        ensures
            n == self.fields@.len(),
    {
        self.fields.len()
    }

    /// Field `i`.
    pub fn get(&self, i: usize) -> (v: &Variant)
        requires
            i < self.fields@.len(),
        ensures
            *v == self.fields@[i as int],
            decreases_to!(self => v),
    {
        &self.fields[i]
    }
}

impl Dictionary {
    /// The number of entries.
    pub fn len(&self) -> (n: usize)
        ensures
            n == self.inner@.len(),
    {
        self.inner.len()
    }

    /// The key and the value of entry `i`.
    pub fn get(&self, i: usize) -> (kv: (&Variant, &Variant))
        requires
            i < self.inner@.len(),
        ensures
            *kv.0 == self.inner@[i as int].0,
            *kv.1 == self.inner@[i as int].1,
            decreases_to!(self => kv.0),
            decreases_to!(self => kv.1),
    {
        let entry = &self.inner[i];
        (&entry.0, &entry.1)
    }
}

impl Variant {
    /// Element `i` of an array.
    pub fn element(&self, i: usize) -> (v: &Variant)
        requires
            self is Vec,
            i < self->Vec_0.inner@.len(),
        ensures
            *v == self->Vec_0.inner@[i as int],
            decreases_to!(self => v),
    {
        match self {
            Variant::Vec(array) => array.get(i),
            _ => self,
        }
    }

    /// Field `i` of a structure.
    pub fn field(&self, i: usize) -> (v: &Variant)
        requires
            self is Structure,
            i < self->Structure_0.fields@.len(),
        ensures
            *v == self->Structure_0.fields@[i as int],
            decreases_to!(self => v),
    {
        match self {
            Variant::Structure(structure) => structure.get(i),
            _ => self,
        }
    }

    /// The key and the value of entry `i` of a dictionary.
    pub fn entry(&self, i: usize) -> (kv: (&Variant, &Variant))
        requires
            self is Dictionary,
            i < self->Dictionary_0.inner@.len(),
        ensures
            *kv.0 == self->Dictionary_0.inner@[i as int].0,
            *kv.1 == self->Dictionary_0.inner@[i as int].1,
            decreases_to!(self => kv.0),
            decreases_to!(self => kv.1),
    {
        match self {
            Variant::Dictionary(dict) => dict.get(i),
            _ => (self, self),
        }
    }

    /// Computes the type that this value has by itself: the type under which
    /// it travels inside a variant.
    pub fn type_of(&self) -> (t: Type)
        ensures
            t@ == type_of(self@),
        decreases self,
    {
        proof {
            lemma_default_types();
        }
        match self {
            Variant::Bool(_) => Type::Bool,
            Variant::U8(_) => Type::U8,
            Variant::U16(_) => Type::U16,
            Variant::U32(_) => Type::U32,
            Variant::U64(_) => Type::U64,
            Variant::I16(_) => Type::I16,
            Variant::I32(_) => Type::I32,
            Variant::I64(_) => Type::I64,
            Variant::F64(_) => Type::F64,
            Variant::String(_) => Type::String,
            Variant::ObjectPath(_) => Type::ObjectPath,
            Variant::Signature(_) => Type::Signature,
            Variant::Variant(_) => Type::Variant,
            Variant::Option(None) => Type::Maybe(Box::new(Type::Variant)),
            Variant::Option(Some(inner)) => Type::Maybe(Box::new(inner.type_of())),
            Variant::Vec(array) => {
                if array.len() == 0 {
                    Type::Array(Box::new(Type::Variant))
                } else {
                    Type::Array(Box::new(self.element(0).type_of()))
                }
            },
            Variant::Structure(structure) => {
                let n = structure.len();
                let mut types: Vec<Type> = Vec::new();
                let mut i: usize = 0;
                while i < n
                    invariant
                        i <= n,
                        n == structure.fields@.len(),
                        *self == Variant::Structure(*structure),
                        types@.len() == i,
                        forall|j: int|
                            0 <= j < i ==> (#[trigger] types@[j])@ == type_of(
                                value_model(structure.fields@[j]),
                            ),
                    decreases n - i,
                {
                    let t = self.field(i).type_of();
                    types.push(t);
                    i += 1;
                }
                assert(type_model(Type::Structure(types))->Tuple_1 =~= type_of(self@)->Tuple_1);
                Type::Structure(types)
            },
            Variant::Dictionary(dict) => {
                let n = dict.len();
                if n == 0 {
                    let t = Type::DictEntry(Box::new(Type::Variant), Box::new(Type::Variant));
                    assert(t@->Tuple_1 =~= any_entry()->Tuple_1);
                    Type::Array(Box::new(t))
                } else {
                    let (key, value) = self.entry(n - 1);
                    let t = Type::DictEntry(Box::new(key.type_of()), Box::new(value.type_of()));
                    assert(self@->Dictionary_0.last() == Value::Structure(
                        seq![value_model(*key), value_model(*value)],
                    ));
                    assert(t@->Tuple_1 =~= type_of(self@)->Array_0->Tuple_1);
                    Type::Array(Box::new(t))
                }
            },
        }
    }

    /// The signature of the type that this value has by itself, as bytes.
    pub fn signature_bytes(&self) -> (sig: Vec<u8>)
        ensures
            sig@ == signature_of(type_of(self@)),
    {
        self.type_of().signature_bytes()
    }

    /// Return inner type signature: the signature of the type that this value
    /// has by itself.
    pub fn signature(&self) -> (sig: String)
        ensures
            sig@ == ascii_text(signature_of(type_of(self@))),
    {
        self.type_of().signature()
    }

    /// Tells whether the variants in this value stand at most `room` deep
    /// inside one another.
    pub fn nests_within(&self, room: usize) -> (b: bool)
        ensures
            b == shallow(room as nat, self@),
        decreases self,
    {
        match self {
            Variant::Variant(inner) => room > 0 && inner.nests_within(room - 1),
            Variant::Option(Some(inner)) => inner.nests_within(room),
            Variant::Vec(array) => {
                let n = array.len();
                let mut i: usize = 0;
                while i < n
                    invariant
                        i <= n,
                        self is Vec,
                        n == self->Vec_0.inner@.len(),
                        forall|j: int|
                            0 <= j < i ==> shallow(room as nat, #[trigger] self@->Array_0[j]),
                    decreases n - i,
                {
                    let item = self.element(i);
                    assert(self@->Array_0[i as int] == item@);
                    if !item.nests_within(room) {
                        return false;
                    }
                    i += 1;
                }
                true
            },
            Variant::Structure(structure) => {
                let n = structure.len();
                let mut i: usize = 0;
                while i < n
                    invariant
                        i <= n,
                        self is Structure,
                        n == self->Structure_0.fields@.len(),
                        forall|j: int|
                            0 <= j < i ==> shallow(room as nat, #[trigger] self@->Structure_0[j]),
                    decreases n - i,
                {
                    let item = self.field(i);
                    assert(self@->Structure_0[i as int] == item@);
                    if !item.nests_within(room) {
                        return false;
                    }
                    i += 1;
                }
                true
            },
            Variant::Dictionary(dict) => {
                let n = dict.len();
                let mut i: usize = 0;
                while i < n
                    invariant
                        i <= n,
                        self is Dictionary,
                        n == self->Dictionary_0.inner@.len(),
                        forall|j: int|
                            0 <= j < i ==> shallow(room as nat, #[trigger] self@->Dictionary_0[j]),
                    decreases n - i,
                {
                    let (key, value) = self.entry(i);
                    let ghost pair = seq![key@, value@];
                    assert(self@->Dictionary_0[i as int] == Value::Structure(pair));
                    let key_fits = key.nests_within(room);
                    let value_fits = value.nests_within(room);
                    let both = key_fits && value_fits;
                    proof {
                        lemma_shallow_pair(room as nat, key@, value@);
                    }
                    if !both {
                        return false;
                    }
                    i += 1;
                }
                true
            },
            _ => true,
        }
    }

    /// The place of this value's kind in the order of kinds.
    pub fn discriminant(&self) -> (d: u64)
        ensures
            d == kind_of(self@),
    {
        match self {
            Variant::Bool(..) => 0,
            Variant::U8(..) => 1,
            Variant::U16(..) => 2,
            Variant::U32(..) => 3,
            Variant::U64(..) => 4,
            Variant::I16(..) => 5,
            Variant::I32(..) => 6,
            Variant::I64(..) => 7,
            Variant::F64(..) => 8,
            Variant::String(..) => 9,
            Variant::ObjectPath(..) => 10,
            Variant::Signature(..) => 11,
            Variant::Variant(..) => 12,
            Variant::Option(..) => 13,
            Variant::Vec(..) => 14,
            Variant::Structure(..) => 15,
            Variant::Dictionary(..) => 16,
        }
    }
}

/// Whether the variants in `v` stand at most `room` deep inside one another.
pub open spec fn shallow(room: nat, v: Value) -> bool
    decreases v,
{
    match v {
        Value::Variant(inner) => room > 0 && shallow((room - 1) as nat, *inner),
        Value::Maybe(Some(inner)) => shallow(room, *inner),
        Value::Array(items) => forall|i: int|
            0 <= i < items.len() ==> shallow(room, #[trigger] items[i]),
        Value::Dictionary(items) => forall|i: int|
            0 <= i < items.len() ==> shallow(room, #[trigger] items[i]),
        Value::Structure(items) => forall|i: int|
            0 <= i < items.len() ==> shallow(room, #[trigger] items[i]),
        _ => true,
    }
}

/// The variants in an entry stand as deep as those in its key and in its
/// value.
pub proof fn lemma_shallow_pair(room: nat, key: Value, value: Value)
    ensures
        shallow(room, Value::Structure(seq![key, value])) == (shallow(room, key) && shallow(
            room,
            value,
        )),
{
    let pair = seq![key, value];
    reveal_with_fuel(shallow, 2);
    assert(pair[0] == key);
    assert(pair[1] == value);
    let whole = Value::Structure(pair);
    assert(whole->Structure_0 == pair);
    assert(shallow(room, whole) ==> shallow(room, pair[0]));
    assert(shallow(room, whole) ==> shallow(room, pair[1]));
    if shallow(room, key) && shallow(room, value) {
        assert forall|k: int| 0 <= k < pair.len() implies shallow(room, #[trigger] pair[k]) by {
            if k == 0 {
            } else {
            }
        }
    }
}

/// The place of a value's kind in the order of kinds: values of different
/// kinds are ordered by it.
pub open spec fn kind_of(v: Value) -> nat {
    match v {
        Value::Bool(_) => 0,
        Value::U8(_) => 1,
        Value::U16(_) => 2,
        Value::U32(_) => 3,
        Value::U64(_) => 4,
        Value::I16(_) => 5,
        Value::I32(_) => 6,
        Value::I64(_) => 7,
        Value::F64(_) => 8,
        Value::String(_) => 9,
        Value::ObjectPath(_) => 10,
        Value::Signature(_) => 11,
        Value::Variant(_) => 12,
        Value::Maybe(_) => 13,
        Value::Array(_) => 14,
        Value::Structure(_) => 15,
        Value::Dictionary(_) => 16,
    }
}

impl Array {
    /// Return type signature: `av` for no elements, else `a` and the signature
    /// of the first element.
    pub fn signature(&self) -> (sig: String)
        ensures
            sig@ == ascii_text(signature_of(type_of(Value::Array(values_model(self.inner@))))),
    {
        proof {
            lemma_default_types();
        }
        let t = if self.len() == 0 {
            Type::Array(Box::new(Type::Variant))
        } else {
            Type::Array(Box::new(self.get(0).type_of()))
        };
        t.signature()
    }

    /// Build an array.
    pub fn from_elements(elements: Vec<Variant>) -> (r: Result<Array, Error>)
        ensures
            r is Ok,
            r->Ok_0.inner == elements,
    {
        let array = Array { inner: elements };
        Ok(array)
    }

    /// Transform self into a `Variant`.
    pub fn into_variant(self) -> (v: Variant)
        ensures
            v == Variant::Vec(self),
    {
        Variant::Vec(self)
    }
}

impl Structure {
    /// Return type signature: the signatures of the fields between brackets.
    pub fn signature(&self) -> (sig: String)
        ensures
            sig@ == ascii_text(signature_of(type_of(Value::Structure(values_model(self.fields@))))),
    {
        let n = self.len();
        let mut types: Vec<Type> = Vec::new();
        let mut i: usize = 0;
        while i < n
            invariant
                i <= n,
                n == self.fields@.len(),
                types@.len() == i,
                forall|j: int|
                    0 <= j < i ==> (#[trigger] types@[j])@ == type_of(
                        value_model(self.fields@[j]),
                    ),
            decreases n - i,
        {
            let t = self.get(i).type_of();
            types.push(t);
            i += 1;
        }
        let t = Type::Structure(types);
        assert(t@->Tuple_1 =~= type_of(Value::Structure(values_model(self.fields@)))->Tuple_1);
        t.signature()
    }
}

impl Dictionary {
    /// Return type signature: `a{vv}` for no entries, else that of an array of
    /// entries like the last one.
    pub fn signature(&self) -> (sig: String)
        ensures
            sig@ == ascii_text(
                signature_of(type_of(Value::Dictionary(entries_model(self.inner@)))),
            ),
    {
        proof {
            lemma_default_types();
        }
        let n = self.len();
        if n == 0 {
            let t = Type::DictEntry(Box::new(Type::Variant), Box::new(Type::Variant));
            assert(t@->Tuple_1 =~= any_entry()->Tuple_1);
            Type::Array(Box::new(t)).signature()
        } else {
            let (key, value) = self.get(n - 1);
            let t = Type::DictEntry(Box::new(key.type_of()), Box::new(value.type_of()));
            let ghost entries = entries_model(self.inner@);
            assert(entries.last() == Value::Structure(
                seq![value_model(*key), value_model(*value)],
            ));
            assert(t@->Tuple_1 =~= type_of(Value::Dictionary(entries))->Array_0->Tuple_1);
            Type::Array(Box::new(t)).signature()
        }
    }

    /// Transform self into a `Variant`.
    pub fn into_variant(self) -> (v: Variant)
        ensures
            v == Variant::Dictionary(self),
    {
        Variant::Dictionary(self)
    }
}

} // verus!
