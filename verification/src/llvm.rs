//! LLVM types and their mathematical model.
//!
//! [`LlvmType`] is the executable tree that the lowering builds and inspects.
//! Its view is [`LlvmShape`], the same tree over mathematical sequences, which
//! is what every contract of the library speaks of.

use vstd::prelude::*;

verus! {

/// Address space of pointers that may point to any memory.
pub const GENERIC: u32 = 0;

/// Address space of device memory.
pub const GLOBAL: u32 = 1;

/// Address space of per-block shared memory.
pub const SHARED: u32 = 3;

/// Address space of read-only device memory.
pub const CONSTANT: u32 = 4;

/// Address space of per-thread memory.
pub const LOCAL: u32 = 5;

/// An LLVM type.
#[derive(Debug, PartialEq, Eq)]
pub enum LlvmType {
    /// `iN`; LLVM integers carry no sign.
    Integer(u32),
    /// `half`.
    Half,
    /// `float`.
    Float,
    /// `double`.
    Double,
    /// `ptr addrspace(N)`.
    Pointer(u32),
    /// `[N x T]`.
    Array(Box<LlvmType>, u64),
    /// `<N x T>`, or `<vscale x N x T>`.
    Vector(Box<LlvmType>, u32, bool),
    /// An unnamed, unpacked struct.
    Struct(Vec<LlvmType>),
    /// `void`.
    Void,
}

/// The mathematical model of an [`LlvmType`].
pub ghost enum LlvmShape {
    Integer(u32),
    Half,
    Float,
    Double,
    Pointer(u32),
    Array(Box<LlvmShape>, u64),
    Vector(Box<LlvmShape>, u32, bool),
    Struct(Seq<LlvmShape>),
    Void,
}

impl LlvmType {
    /// The model of this type.
    pub open spec fn shape(self) -> LlvmShape
        decreases self,
    {
        match self {
            LlvmType::Integer(width) => LlvmShape::Integer(width),
            LlvmType::Half => LlvmShape::Half,
            LlvmType::Float => LlvmShape::Float,
            LlvmType::Double => LlvmShape::Double,
            LlvmType::Pointer(space) => LlvmShape::Pointer(space),
            LlvmType::Array(elem, size) => LlvmShape::Array(Box::new(elem.shape()), size),
            LlvmType::Vector(elem, count, scalable) => LlvmShape::Vector(
                Box::new(elem.shape()),
                count,
                scalable,
            ),
            LlvmType::Struct(fields) => LlvmShape::Struct(
                Seq::new(
                    fields@.len(),
                    |i: int|
                        if 0 <= i < fields@.len() {
                            fields@[i].shape()
                        } else {
                            LlvmShape::Void
                        },
                ),
            ),
            LlvmType::Void => LlvmShape::Void,
        }
    }
}

impl View for LlvmType {
    type V = LlvmShape;

    open spec fn view(&self) -> LlvmShape {
        self.shape()
    }
}

/// The models of a list of types.
pub open spec fn shapes(types: Seq<LlvmType>) -> Seq<LlvmShape> {
    Seq::new(types.len(), |i: int| types[i]@)
}

/// The model of a type that may be absent.
pub open spec fn opt_shape(ty: Option<LlvmType>) -> Option<LlvmShape> {
    match ty {
        None => None,
        Some(t) => Some(t@),
    }
}

impl LlvmType {
    /// The model of a struct is the struct of the models of its fields.
    pub proof fn lemma_struct_view(fields: Vec<LlvmType>)
        ensures
            LlvmType::Struct(fields)@ == LlvmShape::Struct(shapes(fields@)),
    {
        assert(LlvmType::Struct(fields)@->Struct_0 =~= shapes(fields@));
    }

    /// `iN`.
    pub fn integer(width: u32) -> (r: LlvmType)
        ensures
            r@ == LlvmShape::Integer(width),
    {
        LlvmType::Integer(width)
    }

    /// `ptr addrspace(N)`.
    pub fn pointer(space: u32) -> (r: LlvmType)
        ensures
            r@ == LlvmShape::Pointer(space),
    {
        LlvmType::Pointer(space)
    }

    /// `[size x elem]`.
    pub fn array(elem: LlvmType, size: u64) -> (r: LlvmType)
        ensures
            r@ == LlvmShape::Array(Box::new(elem@), size),
    {
        LlvmType::Array(Box::new(elem), size)
    }

    /// An unnamed struct.
    pub fn structure(fields: Vec<LlvmType>) -> (r: LlvmType)
        ensures
            r@ == LlvmShape::Struct(shapes(fields@)),
    {
        proof {
            LlvmType::lemma_struct_view(fields);
        }
        LlvmType::Struct(fields)
    }

    /// Whether two types are the same.
    pub fn same_type(&self, other: &LlvmType) -> (r: bool)
        ensures
            r == (self@ == other@),
        decreases self,
    {
        match (self, other) {
            (LlvmType::Integer(a), LlvmType::Integer(b)) => *a == *b,
            (LlvmType::Half, LlvmType::Half) => true,
            (LlvmType::Float, LlvmType::Float) => true,
            (LlvmType::Double, LlvmType::Double) => true,
            (LlvmType::Void, LlvmType::Void) => true,
            (LlvmType::Pointer(a), LlvmType::Pointer(b)) => *a == *b,
            (LlvmType::Array(a, n), LlvmType::Array(b, m)) => *n == *m && a.same_type(b),
            (LlvmType::Vector(a, n, s), LlvmType::Vector(b, m, t)) => {
                *n == *m && *s == *t && a.same_type(b)
            },
            (LlvmType::Struct(fs), LlvmType::Struct(gs)) => {
                proof {
                    LlvmType::lemma_struct_view(*fs);
                    LlvmType::lemma_struct_view(*gs);
                }
                same_types(fs, gs)
            },
            _ => false,
        }
    }

    /// A deep copy of this type.
    pub fn duplicate(&self) -> (r: LlvmType)
        ensures
            r@ == self@,
        decreases self,
    {
        match self {
            LlvmType::Integer(width) => LlvmType::Integer(*width),
            LlvmType::Half => LlvmType::Half,
            LlvmType::Float => LlvmType::Float,
            LlvmType::Double => LlvmType::Double,
            LlvmType::Void => LlvmType::Void,
            LlvmType::Pointer(space) => LlvmType::Pointer(*space),
            LlvmType::Array(elem, size) => LlvmType::Array(Box::new(elem.duplicate()), *size),
            LlvmType::Vector(elem, count, scalable) => LlvmType::Vector(
                Box::new(elem.duplicate()),
                *count,
                *scalable,
            ),
            LlvmType::Struct(fields) => {
                let copies = duplicate_types(fields);
                proof {
                    LlvmType::lemma_struct_view(*fields);
                    LlvmType::lemma_struct_view(copies);
                }
                LlvmType::Struct(copies)
            },
        }
    }
}

/// Whether two lists hold the same types in the same order.
pub fn same_types(fs: &Vec<LlvmType>, gs: &Vec<LlvmType>) -> (r: bool)
    ensures
        r == (shapes(fs@) == shapes(gs@)),
    decreases fs,
{
    if fs.len() != gs.len() {
        assert(shapes(fs@).len() != shapes(gs@).len());
        return false;
    }
    for i in 0..fs.len()
        invariant
            fs@.len() == gs@.len(),
            forall|j: int| 0 <= j < i ==> fs@[j]@ == gs@[j]@,
    {
        if !fs[i].same_type(&gs[i]) {
            assert(shapes(fs@)[i as int] != shapes(gs@)[i as int]);
            return false;
        }
    }
    assert(shapes(fs@) =~= shapes(gs@));
    true
}

/// Deep copies of a list of types.
pub fn duplicate_types(fields: &Vec<LlvmType>) -> (r: Vec<LlvmType>)
    ensures
        shapes(r@) == shapes(fields@),
    decreases fields,
{
    let mut copies: Vec<LlvmType> = Vec::new();
    for i in 0..fields.len()
        invariant
            copies@.len() == i,
            forall|j: int| 0 <= j < i ==> copies@[j]@ == fields@[j]@,
    {
        copies.push(fields[i].duplicate());
    }
    assert(shapes(copies@) =~= shapes(fields@));
    copies
}

} // verus!
