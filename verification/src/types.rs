//! The types of the format: a tree of scalars, strings and containers, with
//! the two properties that decide every layout, alignment and fixed size.

use crate::errors::Error;
use crate::offsets::{align_up, lemma_padding, padding_for};
use vstd::prelude::*;

verus! {

/// A type of the format, as contracts see it.
pub enum TypeSpec {
    Bool,
    U8,
    I16,
    U16,
    I32,
    U32,
    I64,
    U64,
    F64,
    String,
    ObjectPath,
    Signature,
    Variant,
    Maybe(Box<TypeSpec>),
    Array(Box<TypeSpec>),
    /// A structure, or, where the flag is set, a dictionary entry.
    Tuple(bool, Seq<TypeSpec>),
}

/// A type of the format.
#[derive(Debug, PartialEq, Eq)]
pub enum Type {
    /// Boolean (signature: `b`).
    Bool,
    /// Byte (signature: `y`).
    U8,
    /// Signed 16-bits integer (signature: `n`).
    I16,
    /// Unsigned 16-bits integer (signature: `q`).
    U16,
    /// Signed 32-bits integer (signature: `i`).
    I32,
    /// Unsigned 32-bits integer (signature: `u`).
    U32,
    /// Signed 64-bits integer (signature: `x`).
    I64,
    /// Unsigned 64-bits integer (signature: `t`).
    U64,
    /// Double-precision floating point number (signature: `d`).
    F64,
    /// String (signature: `s`).
    String,
    /// DBus object path (signature: `o`).
    ObjectPath,
    /// DBus signature string (signature: `g`).
    Signature,
    /// Generic variant type (signature: `v`).
    Variant,
    /// Optional ("Maybe") container (signature: `mX`).
    Maybe(Box<Type>),
    /// Homogeneous array (signature: `aX`).
    Array(Box<Type>),
    /// Structure, variadic tuple (signature: `(XYZ)`).
    Structure(Vec<Type>),
    /// Dictionary entry, a key and a value (signature: `{XY}`).
    DictEntry(Box<Type>, Box<Type>),
}

/// What a `Type` is to contracts.
pub open spec fn type_model(t: Type) -> TypeSpec
    decreases t,
{
    match t {
        Type::Bool => TypeSpec::Bool,
        Type::U8 => TypeSpec::U8,
        Type::I16 => TypeSpec::I16,
        Type::U16 => TypeSpec::U16,
        Type::I32 => TypeSpec::I32,
        Type::U32 => TypeSpec::U32,
        Type::I64 => TypeSpec::I64,
        Type::U64 => TypeSpec::U64,
        Type::F64 => TypeSpec::F64,
        Type::String => TypeSpec::String,
        Type::ObjectPath => TypeSpec::ObjectPath,
        Type::Signature => TypeSpec::Signature,
        Type::Variant => TypeSpec::Variant,
        Type::Maybe(inner) => TypeSpec::Maybe(Box::new(type_model(*inner))),
        Type::Array(inner) => TypeSpec::Array(Box::new(type_model(*inner))),
        Type::Structure(fields) => TypeSpec::Tuple(
            false,
            Seq::new(
                fields@.len(),
                |i: int|
                    if 0 <= i < fields@.len() {
                        type_model(fields@[i])
                    } else {
                        TypeSpec::Bool
                    },
            ),
        ),
        Type::DictEntry(key, value) => TypeSpec::Tuple(
            true,
            seq![type_model(*key), type_model(*value)],
        ),
    }
}

/// What a list of `Type`s is to contracts.
pub open spec fn types_model(ts: Seq<Type>) -> Seq<TypeSpec> {
    Seq::new(
        ts.len(),
        |i: int|
            if 0 <= i < ts.len() {
                type_model(ts[i])
            } else {
                TypeSpec::Bool
            },
    )
}

impl View for Type {
    type V = TypeSpec;

    open spec fn view(&self) -> TypeSpec {
        type_model(*self)
    }
}

/// The larger of two numbers.
pub open spec fn larger(a: nat, b: nat) -> nat {
    if a >= b {
        a
    } else {
        b
    }
}

/// The alignment of a type: the power of two, at most 8, of which the start
/// of each of its values is a multiple.
pub open spec fn align_of(t: TypeSpec) -> nat
    decreases t,
{
    match t {
        TypeSpec::Bool | TypeSpec::U8 => 1,
        TypeSpec::I16 | TypeSpec::U16 => 2,
        TypeSpec::I32 | TypeSpec::U32 => 4,
        TypeSpec::I64 | TypeSpec::U64 | TypeSpec::F64 => 8,
        TypeSpec::String | TypeSpec::ObjectPath | TypeSpec::Signature => 1,
        TypeSpec::Variant => 8,
        TypeSpec::Maybe(inner) => align_of(*inner),
        TypeSpec::Array(inner) => align_of(*inner),
        TypeSpec::Tuple(_, fields) => max_align(fields),
    }
}

/// The largest alignment among `fields`, and at least 1.
pub open spec fn max_align(fields: Seq<TypeSpec>) -> nat
    decreases fields,
{
    if fields.len() == 0 {
        1
    } else {
        larger(max_align(fields.drop_last()), align_of(fields.last()))
    }
}

/// The size that every value of a type has, where there is one: scalars, and
/// structures made of such types only.
pub open spec fn fixed_size(t: TypeSpec) -> Option<nat>
    decreases t,
{
    match t {
        TypeSpec::Bool | TypeSpec::U8 => Some(1),
        TypeSpec::I16 | TypeSpec::U16 => Some(2),
        TypeSpec::I32 | TypeSpec::U32 => Some(4),
        TypeSpec::I64 | TypeSpec::U64 | TypeSpec::F64 => Some(8),
        TypeSpec::String | TypeSpec::ObjectPath | TypeSpec::Signature => None,
        TypeSpec::Variant => None,
        TypeSpec::Maybe(_) => None,
        TypeSpec::Array(_) => None,
        TypeSpec::Tuple(_, fields) => if fields.len() == 0 {
            Some(1)
        } else {
            match fields_end(fields) {
                Some(end) => Some(align_up(end, max_align(fields))),
                None => None,
            }
        },
    }
}

/// Where the last of `fields` ends when each is put on its alignment behind
/// the one before, if all of them have a fixed size.
pub open spec fn fields_end(fields: Seq<TypeSpec>) -> Option<nat>
    decreases fields,
{
    if fields.len() == 0 {
        Some(0)
    } else {
        match (fields_end(fields.drop_last()), fixed_size(fields.last())) {
            (Some(end), Some(size)) => Some(align_up(end, align_of(fields.last())) + size),
            _ => None,
        }
    }
}

/// Whether every value of the type has the same size.
pub open spec fn is_fixed(t: TypeSpec) -> bool {
    fixed_size(t) is Some
}

/// Whether a type can be laid out on this machine: a dictionary entry has two
/// fields, and no fixed size in the tree exceeds what a `usize` holds.
pub open spec fn fits(t: TypeSpec) -> bool
    decreases t,
{
    match t {
        TypeSpec::Maybe(inner) => fits(*inner),
        TypeSpec::Array(inner) => fits(*inner),
        TypeSpec::Tuple(entry, fields) => {
            &&& entry ==> fields.len() == 2
            &&& all_fit(fields)
            &&& match fixed_size(t) {
                Some(size) => size <= usize::MAX,
                None => true,
            }
        },
        _ => true,
    }
}

/// Whether each of `fields` can be laid out on this machine.
pub open spec fn all_fit(fields: Seq<TypeSpec>) -> bool
    decreases fields,
{
    fields.len() > 0 ==> all_fit(fields.drop_last()) && fits(fields.last())
}

/// How deeply containers are nested in a type; 0 for a scalar or a string.
pub open spec fn depth(t: TypeSpec) -> nat
    decreases t,
{
    match t {
        TypeSpec::Maybe(inner) => 1 + depth(*inner),
        TypeSpec::Array(inner) => 1 + depth(*inner),
        TypeSpec::Tuple(_, fields) => 1 + max_depth(fields),
        _ => 0,
    }
}

/// The deepest nesting among `fields`.
pub open spec fn max_depth(fields: Seq<TypeSpec>) -> nat
    decreases fields,
{
    if fields.len() == 0 {
        0
    } else {
        larger(max_depth(fields.drop_last()), depth(fields.last()))
    }
}

/// Each type of a list that can be laid out can be laid out.
pub proof fn lemma_all_fit_index(fields: Seq<TypeSpec>, i: int)
    requires
        all_fit(fields),
        0 <= i < fields.len(),
    ensures
        fits(fields[i]),
    decreases fields.len(),
{
    if i < fields.len() - 1 {
        lemma_all_fit_index(fields.drop_last(), i);
    }
}

/// No type of a list nests deeper than the list.
pub proof fn lemma_max_depth_index(fields: Seq<TypeSpec>, i: int)
    requires
        0 <= i < fields.len(),
    ensures
        depth(fields[i]) <= max_depth(fields),
    decreases fields.len(),
{
    if i < fields.len() - 1 {
        lemma_max_depth_index(fields.drop_last(), i);
    }
}

/// Every alignment is 1, 2, 4 or 8.
pub proof fn lemma_align_of(t: TypeSpec)
    ensures
        align_of(t) == 1 || align_of(t) == 2 || align_of(t) == 4 || align_of(t) == 8,
    decreases t,
{
    match t {
        TypeSpec::Maybe(inner) => lemma_align_of(*inner),
        TypeSpec::Array(inner) => lemma_align_of(*inner),
        TypeSpec::Tuple(_, fields) => lemma_max_align(fields),
        _ => {},
    }
}

/// The largest alignment of a list is 1, 2, 4 or 8.
pub proof fn lemma_max_align(fields: Seq<TypeSpec>)
    ensures
        max_align(fields) == 1 || max_align(fields) == 2 || max_align(fields) == 4 || max_align(
            fields,
        ) == 8,
    decreases fields,
{
    if fields.len() > 0 {
        lemma_max_align(fields.drop_last());
        lemma_align_of(fields.last());
    }
}

/// Of two alignments the larger is a multiple of the smaller.
pub proof fn lemma_alignments_divide(small: nat, big: nat)
    requires
        small == 1 || small == 2 || small == 4 || small == 8,
        big == 1 || big == 2 || big == 4 || big == 8,
        small <= big,
    ensures
        big % small == 0,
{
    if small == 1 {
        assert(big % 1 == 0);
    } else if small == 2 {
        assert(2nat % 2 == 0 && 4nat % 2 == 0 && 8nat % 2 == 0);
    } else if small == 4 {
        assert(4nat % 4 == 0 && 8nat % 4 == 0);
    } else {
        assert(8nat % 8 == 0);
    }
}

/// The alignment of a structure is a multiple of that of each field.
pub proof fn lemma_max_align_index(fields: Seq<TypeSpec>, i: int)
    requires
        0 <= i < fields.len(),
    ensures
        align_of(fields[i]) <= max_align(fields),
        max_align(fields) % align_of(fields[i]) == 0,
    decreases fields.len(),
{
    lemma_max_align(fields);
    lemma_max_align(fields.drop_last());
    lemma_align_of(fields.last());
    lemma_align_of(fields[i]);
    if i < fields.len() - 1 {
        lemma_max_align_index(fields.drop_last(), i);
    }
    lemma_alignments_divide(align_of(fields[i]), max_align(fields));
}

/// A fixed size is at least 1 and a multiple of the alignment.
pub proof fn lemma_fixed_size(t: TypeSpec)
    requires
        fixed_size(t) is Some,
    ensures
        fixed_size(t)->0 >= 1,
        fixed_size(t)->0 % align_of(t) == 0,
    decreases t,
{
    match t {
        TypeSpec::Tuple(_, fields) => {
            if fields.len() > 0 {
                lemma_max_align(fields);
                lemma_padding(fields_end(fields)->0, max_align(fields));
                lemma_fields_end(fields);
            } else {
                assert(1nat % 1 == 0);
            }
        },
        TypeSpec::Bool | TypeSpec::U8 => {
            assert(1nat % 1 == 0);
        },
        TypeSpec::I16 | TypeSpec::U16 => {
            assert(2nat % 2 == 0);
        },
        TypeSpec::I32 | TypeSpec::U32 => {
            assert(4nat % 4 == 0);
        },
        _ => {
            assert(8nat % 8 == 0);
        },
    }
}

/// A non-empty run of fixed-size fields takes at least one byte.
pub proof fn lemma_fields_end(fields: Seq<TypeSpec>)
    requires
        fields_end(fields) is Some,
        fields.len() > 0,
    ensures
        fields_end(fields)->0 >= 1,
        fields_end(fields.drop_last()) is Some,
        fixed_size(fields.last()) is Some,
    decreases fields,
{
    lemma_fixed_size(fields.last());
}

/// The fields before a fixed-size field of a fixed-size run are fixed too.
pub proof fn lemma_fields_end_take(fields: Seq<TypeSpec>, n: int)
    requires
        fields_end(fields) is Some,
        0 <= n <= fields.len(),
    ensures
        fields_end(fields.take(n)) is Some,
        fields_end(fields.take(n))->0 <= fields_end(fields)->0,
        n < fields.len() ==> fixed_size(fields[n]) is Some,
    decreases fields.len(),
{
    if n == fields.len() {
        assert(fields.take(n) =~= fields);
    } else {
        assert(fields.drop_last().take(n) =~= fields.take(n));
        lemma_fields_end_take(fields.drop_last(), n);
        if n < fields.len() - 1 {
            assert(fields.drop_last()[n] == fields[n]);
        }
    }
}

/// The two layout properties of a type.
#[derive(Clone, Copy, Debug, PartialEq, Eq)]
pub struct Layout {
    /// The alignment: 1, 2, 4 or 8.
    pub align: usize,
    /// The size of every value, if the type has a fixed size.
    pub fixed: Option<usize>,
}

/// Whether `layout` holds the alignment and the fixed size of `t`.
pub open spec fn layout_matches(layout: Layout, t: TypeSpec) -> bool {
    &&& layout.align as nat == align_of(t)
    &&& match fixed_size(t) {
        Some(size) => layout.fixed == Some(size as usize) && size <= usize::MAX,
        None => layout.fixed is None,
    }
}

impl Clone for Type {
    fn clone(&self) -> (r: Self)
        ensures
            r@ == self@,
    {
        self.duplicate()
    }
}

impl Type {
    /// An independent copy of this type.
    pub fn duplicate(&self) -> (r: Type)
        ensures
            r@ == self@,
        decreases self,
    {
        match self {
            Type::Bool => Type::Bool,
            Type::U8 => Type::U8,
            Type::I16 => Type::I16,
            Type::U16 => Type::U16,
            Type::I32 => Type::I32,
            Type::U32 => Type::U32,
            Type::I64 => Type::I64,
            Type::U64 => Type::U64,
            Type::F64 => Type::F64,
            Type::String => Type::String,
            Type::ObjectPath => Type::ObjectPath,
            Type::Signature => Type::Signature,
            Type::Variant => Type::Variant,
            Type::Maybe(inner) => Type::Maybe(Box::new(inner.duplicate())),
            Type::Array(inner) => Type::Array(Box::new(inner.duplicate())),
            Type::Structure(fields) => {
                let mut copy: Vec<Type> = Vec::new();
                let mut i: usize = 0;
                while i < fields.len()
                    invariant
                        i <= fields.len(),
                        copy@.len() == i,
                        *self == Type::Structure(*fields),
                        forall|j: int|
                            0 <= j < i ==> type_model(copy@[j]) == type_model(fields@[j]),
                    decreases fields.len() - i,
                {
                    let field = self.field(i);
                    let item = field.duplicate();
                    copy.push(item);
                    i += 1;
                }
                assert(type_model(Type::Structure(copy))->Tuple_1 =~= type_model(
                    Type::Structure(*fields),
                )->Tuple_1);
                Type::Structure(copy)
            },
            Type::DictEntry(key, value) => Type::DictEntry(
                Box::new(key.duplicate()),
                Box::new(value.duplicate()),
            ),
        }
    }

    /// The number of fields of a structure or dictionary entry; 0 for any
    /// other type.
    pub fn arity(&self) -> (n: usize)
        ensures
            n as nat == match self@ {
                TypeSpec::Tuple(_, fields) => fields.len(),
                _ => 0,
            },
    {
        match self {
            Type::Structure(fields) => fields.len(),
            Type::DictEntry(_, _) => 2,
            _ => 0,
        }
    }

    /// The type of field `i` of a structure or dictionary entry.
    pub fn field(&self, i: usize) -> (t: &Type)
        requires
            self@ is Tuple,
            i < self@->Tuple_1.len(),
        ensures
            t@ == self@->Tuple_1[i as int],
            decreases_to!(self => t),
    {
        match self {
            Type::Structure(fields) => &fields[i],
            Type::DictEntry(key, value) => if i == 0 {
                key
            } else {
                value
            },
            _ => self,
        }
    }

    /// Whether this is the type of a dictionary entry.
    pub fn is_dict_entry(&self) -> (b: bool)
        ensures
            b == (self@ matches TypeSpec::Tuple(true, _)),
    {
        match self {
            Type::DictEntry(_, _) => true,
            _ => false,
        }
    }

    /// Computes the alignment and the fixed size of this type.
    ///
    /// Fails with `UnsupportedShape` exactly when the type cannot be laid out on
    /// this machine: when some fixed size in it exceeds what a `usize` holds.
    pub fn layout(&self) -> (r: Result<Layout, Error>)
        ensures
            match r {
                Ok(layout) => fits(self@) && layout_matches(layout, self@),
                Err(e) => e == Error::UnsupportedShape && !fits(self@),
            },
        decreases self,
    {
        match self {
            Type::Bool | Type::U8 => Ok(Layout { align: 1, fixed: Some(1) }),
            Type::I16 | Type::U16 => Ok(Layout { align: 2, fixed: Some(2) }),
            Type::I32 | Type::U32 => Ok(Layout { align: 4, fixed: Some(4) }),
            Type::I64 | Type::U64 | Type::F64 => Ok(Layout { align: 8, fixed: Some(8) }),
            Type::String | Type::ObjectPath | Type::Signature => Ok(
                Layout { align: 1, fixed: None },
            ),
            Type::Variant => Ok(Layout { align: 8, fixed: None }),
            Type::Maybe(inner) => {
                match inner.layout() {
                    Ok(l) => Ok(Layout { align: l.align, fixed: None }),
                    Err(e) => Err(e),
                }
            },
            Type::Array(inner) => {
                match inner.layout() {
                    Ok(l) => Ok(Layout { align: l.align, fixed: None }),
                    Err(e) => Err(e),
                }
            },
            Type::Structure(_) | Type::DictEntry(_, _) => {
                let n = self.arity();
                let ghost fields = self@->Tuple_1;
                let mut align: usize = 1;
                // Where the fields so far end; `None` once that is out of reach.
                let mut end: Option<usize> = Some(0);
                let mut all_fixed = true;
                let mut i: usize = 0;
                while i < n
                    invariant
                        i <= n,
                        n == fields.len(),
                        self@ is Tuple,
                        fields == self@->Tuple_1,
                        all_fit(fields.take(i as int)),
                        align as nat == max_align(fields.take(i as int)),
                        all_fixed == (fields_end(fields.take(i as int)) is Some),
                        all_fixed ==> match end {
                            Some(e) => fields_end(fields.take(i as int)) == Some(e as nat),
                            None => fields_end(fields.take(i as int))->0 > usize::MAX,
                        },
                    decreases n - i,
                {
                    let ghost before = fields.take(i as int);
                    let ghost upto = fields.take(i + 1);
                    assert(upto.drop_last() =~= before);
                    assert(upto.last() == fields[i as int]);
                    let child = self.field(i);
                    let l = match child.layout() {
                        Ok(l) => l,
                        Err(e) => {
                            proof {
                                if fits(self@) {
                                    lemma_all_fit_index(fields, i as int);
                                }
                            }
                            return Err(e);
                        },
                    };
                    proof {
                        lemma_align_of(child@);
                        lemma_max_align(before);
                    }
                    if l.align > align {
                        align = l.align;
                    }
                    match l.fixed {
                        None => {
                            all_fixed = false;
                        },
                        Some(size) => {
                            if all_fixed {
                                let next = match end {
                                    None => None,
                                    Some(e) => {
                                        let pad = padding_for(e as u64, l.align as u64) as usize;
                                        match e.checked_add(pad) {
                                            None => None,
                                            Some(start) => start.checked_add(size),
                                        }
                                    },
                                };
                                end = next;
                            }
                        },
                    }
                    i += 1;
                }
                proof {
                    assert(fields.take(n as int) =~= fields);
                    lemma_max_align(fields);
                }
                if n == 0 {
                    return Ok(Layout { align: 1, fixed: Some(1) });
                }
                if !all_fixed {
                    return Ok(Layout { align, fixed: None });
                }
                let total = match end {
                    None => None,
                    Some(e) => {
                        let pad = padding_for(e as u64, align as u64) as usize;
                        e.checked_add(pad)
                    },
                };
                match total {
                    Some(size) => Ok(Layout { align, fixed: Some(size) }),
                    None => Err(Error::UnsupportedShape),
                }
            },
        }
    }

    /// Whether the containers of this type nest at most `limit` deep.
    pub fn depth_at_most(&self, limit: usize) -> (b: bool)
        ensures
            b == (depth(self@) <= limit),
        decreases self,
    {
        match self {
            Type::Maybe(inner) => limit > 0 && inner.depth_at_most(limit - 1),
            Type::Array(inner) => limit > 0 && inner.depth_at_most(limit - 1),
            Type::Structure(_) | Type::DictEntry(_, _) => {
                if limit == 0 {
                    return false;
                }
                let ghost fields = self@->Tuple_1;
                let n = self.arity();
                let mut i: usize = 0;
                while i < n
                    invariant
                        i <= n,
                        n == fields.len(),
                        limit > 0,
                        self@ is Tuple,
                        fields == self@->Tuple_1,
                        max_depth(fields.take(i as int)) <= limit - 1,
                    decreases n - i,
                {
                    assert(fields.take(i + 1).drop_last() =~= fields.take(i as int));
                    if !self.field(i).depth_at_most(limit - 1) {
                        proof {
                            lemma_max_depth_index(fields, i as int);
                        }
                        return false;
                    }
                    i += 1;
                }
                assert(fields.take(n as int) =~= fields);
                true
            },
            _ => true,
        }
    }
}

} // verus!
