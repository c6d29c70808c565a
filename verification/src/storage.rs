//! How LLVM types sit in memory: which leaves they hold, which bytes they
//! define, and the storage twins that make every byte defined.

use crate::collect::{all_ok, all_ok_upto, all_some, lemma_all_ok_values, lemma_first_error};
use crate::error::LowerError;
use crate::layout::{
    is_align, lemma_is_align, lemma_prefix_align, lemma_prefix_none, lemma_struct_size_align,
    llvm_type_size_align, prefix_extent, size_align, size_aligns, struct_extent,
};
use crate::llvm::{opt_shape, shapes, LlvmShape, LlvmType, GENERIC, SHARED};
use vstd::prelude::*;

verus! {

// ---------------------------------------------------------------------------
// Zero-sized types
// ---------------------------------------------------------------------------

/// Whether a type holds nothing: an array without elements or of such a type,
/// or a struct all of whose fields are such types.
pub open spec fn zero_sized(t: LlvmShape) -> bool
    decreases t,
{
    match t {
        LlvmShape::Array(elem, n) => n == 0 || zero_sized(*elem),
        LlvmShape::Struct(fields) => forall|i: int|
            0 <= i < fields.len() ==> zero_sized(#[trigger] fields[i]),
        _ => false,
    }
}

/// Whether a type is zero-sized.
///
/// The NVPTX backend rejects empty parameters, so such types are left out of
/// signatures and structs.
pub fn is_zero_sized_type(ty: &LlvmType) -> (r: bool)
    ensures
        r == zero_sized(ty@),
    decreases ty,
{
    match ty {
        LlvmType::Array(elem, n) => *n == 0 || is_zero_sized_type(elem),
        LlvmType::Struct(fields) => {
            proof {
                LlvmType::lemma_struct_view(*fields);
            }
            for i in 0..fields.len()
                invariant
                    *ty == LlvmType::Struct(*fields),
                    ty@ == LlvmShape::Struct(shapes(fields@)),
                    forall|j: int| 0 <= j < i ==> zero_sized(#[trigger] shapes(fields@)[j]),
            {
                if !is_zero_sized_type(&fields[i]) {
                    assert(!zero_sized(ty@->Struct_0[i as int]));
                    return false;
                }
            }
            true
        },
        _ => false,
    }
}

/// A zero-sized type occupies no bytes.
pub proof fn law_zero_sized_types_occupy_no_bytes(t: LlvmShape)
    requires
        zero_sized(t),
        size_align(t) is Some,
    ensures
        size_align(t)->Some_0.0 == 0,
    decreases t,
{
    match t {
        LlvmShape::Array(elem, n) => {
            if n != 0 {
                law_zero_sized_types_occupy_no_bytes(*elem);
            }
            let size = size_align(*elem)->Some_0.0;
            assert(size * n == 0) by (nonlinear_arith)
                requires
                    size == 0 || n == 0,
            ;
        },
        LlvmShape::Struct(fields) => {
            lemma_struct_size_align(fields);
            let parts = size_aligns(fields);
            let n = parts.len() as int;
            assert forall|i: int| 0 <= i < n && #[trigger] parts[i] is Some implies parts[i]->Some_0.0
                == 0 && is_align(parts[i]->Some_0.1) by {
                law_zero_sized_types_occupy_no_bytes(fields[i]);
                lemma_is_align(fields[i]);
            }
            lemma_empty_prefix(parts, n);
            lemma_prefix_align(parts, n);
            let align = prefix_extent(parts, n)->Some_0.1 as int;
            assert(0int % align == 0) by (nonlinear_arith)
                requires
                    align > 0,
            ;
        },
        _ => {},
    }
}

proof fn lemma_empty_prefix(parts: Seq<Option<(u64, u64)>>, k: int)
    requires
        0 <= k <= parts.len(),
        prefix_extent(parts, k) is Some,
        forall|i: int|
            0 <= i < k && #[trigger] parts[i] is Some ==> parts[i]->Some_0.0 == 0 && is_align(
                parts[i]->Some_0.1,
            ),
    ensures
        prefix_extent(parts, k)->Some_0.0 == 0,
    decreases k,
{
    if k > 0 {
        lemma_empty_prefix(parts, k - 1);
        assert(parts[k - 1] is Some);
        let align = parts[k - 1]->Some_0.1 as int;
        assert(0int % align == 0) by (nonlinear_arith)
            requires
                align > 0,
        ;
    }
}

// ---------------------------------------------------------------------------
// Leaves
// ---------------------------------------------------------------------------

/// A kind of scalar leaf.
#[derive(Clone, Copy, Debug, PartialEq, Eq, Structural)]
pub enum LeafKind {
    /// A pointer in any address space.
    Pointer,
    /// A pointer in one address space.
    PointerIn(u32),
    /// An `i1`.
    Bool,
}

/// Whether `t` has a leaf of kind `kind`, through arrays, vectors and structs.
pub open spec fn contains_leaf(t: LlvmShape, kind: LeafKind) -> bool
    decreases t,
{
    match t {
        LlvmShape::Integer(width) => kind == LeafKind::Bool && width == 1,
        LlvmShape::Pointer(space) => kind == LeafKind::Pointer || kind == LeafKind::PointerIn(
            space,
        ),
        LlvmShape::Array(elem, _) => contains_leaf(*elem, kind),
        LlvmShape::Vector(elem, _, _) => contains_leaf(*elem, kind),
        LlvmShape::Struct(fields) => exists|i: int|
            0 <= i < fields.len() && contains_leaf(#[trigger] fields[i], kind),
        _ => false,
    }
}

/// Whether `t` holds a pointer.
pub open spec fn contains_pointer(t: LlvmShape) -> bool {
    contains_leaf(t, LeafKind::Pointer)
}

/// Whether `t` holds an `i1`.
pub open spec fn contains_bool(t: LlvmShape) -> bool {
    contains_leaf(t, LeafKind::Bool)
}

/// Whether a type has a leaf of the given kind.
pub fn has_leaf(ty: &LlvmType, kind: LeafKind) -> (r: bool)
    ensures
        r == contains_leaf(ty@, kind),
    decreases ty,
{
    match ty {
        LlvmType::Integer(width) => match kind {
            LeafKind::Bool => *width == 1,
            _ => false,
        },
        LlvmType::Pointer(space) => match kind {
            LeafKind::Pointer => true,
            LeafKind::PointerIn(wanted) => *space == wanted,
            LeafKind::Bool => false,
        },
        LlvmType::Array(elem, _) => has_leaf(elem, kind),
        LlvmType::Vector(elem, _, _) => has_leaf(elem, kind),
        LlvmType::Struct(fields) => {
            proof {
                LlvmType::lemma_struct_view(*fields);
            }
            for i in 0..fields.len()
                invariant
                    *ty == LlvmType::Struct(*fields),
                    ty@ == LlvmShape::Struct(shapes(fields@)),
                    forall|j: int|
                        0 <= j < i ==> !contains_leaf(#[trigger] shapes(fields@)[j], kind),
            {
                if has_leaf(&fields[i], kind) {
                    assert(contains_leaf(ty@->Struct_0[i as int], kind));
                    return true;
                }
            }
            false
        },
        _ => false,
    }
}

/// Whether a type holds a pointer.
pub fn llvm_type_contains_pointer(ty: &LlvmType) -> (r: bool)
    ensures
        r == contains_pointer(ty@),
{
    has_leaf(ty, LeafKind::Pointer)
}

/// Whether a type holds a pointer in the given address space.
pub fn llvm_type_contains_pointer_in_address_space(ty: &LlvmType, address_space: u32) -> (r: bool)
    ensures
        r == contains_leaf(ty@, LeafKind::PointerIn(address_space)),
{
    has_leaf(ty, LeafKind::PointerIn(address_space))
}

/// Whether a type holds `i1` storage.
///
/// A Rust `bool` is an `i1` value, but a full byte in memory.
pub fn llvm_type_contains_i1(ty: &LlvmType) -> (r: bool)
    ensures
        r == contains_bool(ty@),
{
    has_leaf(ty, LeafKind::Bool)
}

// ---------------------------------------------------------------------------
// Byte faithfulness
// ---------------------------------------------------------------------------

/// Whether field `k` starts right where the fields before it end.
pub open spec fn starts_at_end(parts: Seq<Option<(u64, u64)>>, k: int) -> bool {
    prefix_extent(parts, k)->Some_0.0 as int % parts[k]->Some_0.1 as int == 0
}

/// Whether fields of these sizes and alignments follow each other without a
/// gap, and end on the struct's own alignment.
pub open spec fn gap_free(parts: Seq<Option<(u64, u64)>>) -> bool {
    &&& struct_extent(parts) is Some
    &&& forall|k: int| 0 <= k < parts.len() ==> #[trigger] starts_at_end(parts, k)
    &&& struct_extent(parts)->Some_0.0 == struct_extent(parts)->Some_0.1
}

/// Whether loading and storing a value of this type preserves every byte.
///
/// An `i1` does not: LLVM leaves the upper seven bits of its byte undefined.
pub open spec fn byte_faithful(t: LlvmShape) -> bool
    decreases t,
{
    match t {
        LlvmShape::Integer(width) => width % 8 == 0,
        LlvmShape::Half => true,
        LlvmShape::Float => true,
        LlvmShape::Double => true,
        LlvmShape::Pointer(_) => true,
        LlvmShape::Array(elem, _) => byte_faithful(*elem),
        LlvmShape::Struct(fields) => {
            &&& forall|i: int| 0 <= i < fields.len() ==> byte_faithful(#[trigger] fields[i])
            &&& gap_free(size_aligns(fields))
        },
        _ => false,
    }
}

/// Whether loading and storing a value of this type preserves every byte of
/// its allocation.
pub fn llvm_type_is_byte_faithful(ty: &LlvmType) -> (r: bool)
    ensures
        r == byte_faithful(ty@),
    decreases ty,
{
    match ty {
        LlvmType::Integer(width) => *width % 8 == 0,
        LlvmType::Half => true,
        LlvmType::Float => true,
        LlvmType::Double => true,
        LlvmType::Pointer(_) => true,
        LlvmType::Array(elem, _) => llvm_type_is_byte_faithful(elem),
        LlvmType::Struct(fields) => {
            proof {
                LlvmType::lemma_struct_view(*fields);
            }
            let ghost parts = size_aligns(shapes(fields@));
            let mut end: u64 = 0;
            let mut align: u64 = 1;
            for i in 0..fields.len()
                invariant
                    *ty == LlvmType::Struct(*fields),
                    ty@ == LlvmShape::Struct(shapes(fields@)),
                    parts == size_aligns(shapes(fields@)),
                    prefix_extent(parts, i as int) == Some((end, align)),
                    is_align(align),
                    forall|j: int| 0 <= j < i ==> byte_faithful(#[trigger] shapes(fields@)[j]),
                    forall|k: int| 0 <= k < i ==> #[trigger] starts_at_end(parts, k),
            {
                proof {
                    assert(parts[i as int] == size_align(fields@[i as int]@));
                    assert(shapes(fields@)[i as int] == fields@[i as int]@);
                    lemma_prefix_none(parts, i + 1, parts.len() as int);
                }
                if !llvm_type_is_byte_faithful(&fields[i]) {
                    return false;
                }
                match llvm_type_size_align(&fields[i]) {
                    None => {
                        return false;
                    },
                    Some((field_size, field_align)) => {
                        proof {
                            lemma_is_align(fields@[i as int]@);
                        }
                        if end % field_align != 0 {
                            assert(!starts_at_end(parts, i as int));
                            return false;
                        }
                        match end.checked_add(field_size) {
                            None => {
                                return false;
                            },
                            Some(next) => {
                                end = next;
                                if field_align > align {
                                    align = field_align;
                                }
                            },
                        }
                    },
                }
            }
            end % align == 0
        },
        _ => false,
    }
}

/// A byte-faithful type holds no `i1`.
pub proof fn law_byte_faithful_types_hold_no_bool(t: LlvmShape)
    requires
        byte_faithful(t),
    ensures
        !contains_bool(t),
    decreases t,
{
    match t {
        LlvmShape::Array(elem, _) => law_byte_faithful_types_hold_no_bool(*elem),
        LlvmShape::Struct(fields) => {
            assert forall|i: int| 0 <= i < fields.len() implies !contains_bool(
                #[trigger] fields[i],
            ) by {
                law_byte_faithful_types_hold_no_bool(fields[i]);
            }
        },
        _ => {},
    }
}

// ---------------------------------------------------------------------------
// Byte-faithful twins
// ---------------------------------------------------------------------------

/// The type with every `i1` leaf widened to its `i8` memory byte, through
/// structs and arrays. A vector of `i1` is a packed mask and has no twin.
pub open spec fn twin(t: LlvmShape) -> Option<LlvmShape>
    decreases t,
{
    if !contains_bool(t) {
        Some(t)
    } else {
        match t {
            LlvmShape::Integer(_) => Some(LlvmShape::Integer(8)),
            LlvmShape::Array(elem, n) => match twin(*elem) {
                None => None,
                Some(e) => Some(LlvmShape::Array(Box::new(e), n)),
            },
            LlvmShape::Struct(fields) => match all_some(twins(fields)) {
                None => None,
                Some(fs) => Some(LlvmShape::Struct(fs)),
            },
            _ => None,
        }
    }
}

/// The twins of a list of types.
pub open spec fn twins(fields: Seq<LlvmShape>) -> Seq<Option<LlvmShape>>
    decreases fields,
{
    Seq::new(
        fields.len(),
        |i: int|
            if 0 <= i < fields.len() {
                twin(fields[i])
            } else {
                None
            },
    )
}

/// The byte-faithful storage twin of a type: every `i1` leaf becomes the `i8`
/// byte that memory holds for it.
pub fn llvm_byte_faithful_twin(ty: &LlvmType) -> (r: Option<LlvmType>)
    ensures
        opt_shape(r) == twin(ty@),
    decreases ty, 0int,
{
    if !llvm_type_contains_i1(ty) {
        return Some(ty.duplicate());
    }
    match ty {
        LlvmType::Integer(_) => Some(LlvmType::Integer(8)),
        LlvmType::Array(elem, n) => match llvm_byte_faithful_twin(elem) {
            None => None,
            Some(e) => Some(LlvmType::Array(Box::new(e), *n)),
        },
        LlvmType::Struct(fields) => {
            proof {
                LlvmType::lemma_struct_view(*fields);
            }
            match twin_fields(fields) {
                None => None,
                Some(fs) => {
                    proof {
                        LlvmType::lemma_struct_view(fs);
                    }
                    Some(LlvmType::Struct(fs))
                },
            }
        },
        _ => None,
    }
}

fn twin_fields(fields: &Vec<LlvmType>) -> (r: Option<Vec<LlvmType>>)
    ensures
        r is None ==> all_some(twins(shapes(fields@))) is None,
        r is Some ==> all_some(twins(shapes(fields@))) == Some(shapes(r->Some_0@)),
    decreases fields, 1int,
{
    let ghost wanted = twins(shapes(fields@));
    let mut out: Vec<LlvmType> = Vec::new();
    for i in 0..fields.len()
        invariant
            wanted == twins(shapes(fields@)),
            out@.len() == i,
            forall|j: int| 0 <= j < i ==> #[trigger] wanted[j] == Some(out@[j]@),
    {
        assert(wanted[i as int] == twin(fields@[i as int]@));
        match llvm_byte_faithful_twin(&fields[i]) {
            None => {
                return None;
            },
            Some(t) => {
                out.push(t);
            },
        }
    }
    assert(all_some(wanted)->Some_0 =~= shapes(out@));
    Some(out)
}

/// A twin holds no `i1` and has the size and alignment of its original.
pub proof fn law_twin_is_layout_neutral(t: LlvmShape)
    requires
        twin(t) is Some,
    ensures
        !contains_bool(twin(t)->Some_0),
        size_align(twin(t)->Some_0) == size_align(t),
    decreases t,
{
    if contains_bool(t) {
        match t {
            LlvmShape::Array(elem, _) => law_twin_is_layout_neutral(*elem),
            LlvmShape::Struct(fields) => {
                let ts = twins(fields);
                let fs = all_some(ts)->Some_0;
                assert forall|i: int| 0 <= i < fields.len() implies !contains_bool(
                    #[trigger] fs[i],
                ) && size_align(fs[i]) == size_align(fields[i]) by {
                    assert(ts[i] is Some);
                    law_twin_is_layout_neutral(fields[i]);
                }
                assert(size_aligns(fs) =~= size_aligns(fields));
                lemma_struct_size_align(fs);
                lemma_struct_size_align(fields);
                let u = twin(t)->Some_0;
                assert(u->Struct_0 == fs);
            },
            _ => {},
        }
    }
}

// ---------------------------------------------------------------------------
// Enum payload storage
// ---------------------------------------------------------------------------

/// The one physical type that an enum keeps a payload in.
///
/// An `i1` leaf becomes its `i8` memory byte, and a shared-memory pointer, whose
/// width depends on the target, becomes a generic pointer. Arrays and vectors of
/// shared-memory pointers and vectors of `i1` are refused.
pub open spec fn payload_storage(t: LlvmShape) -> Result<LlvmShape, LowerError>
    decreases t,
{
    match t {
        LlvmShape::Integer(width) => if width == 1 {
            Ok(LlvmShape::Integer(8))
        } else {
            Ok(t)
        },
        LlvmShape::Pointer(space) => if space == SHARED {
            Ok(LlvmShape::Pointer(GENERIC))
        } else {
            Ok(t)
        },
        LlvmShape::Array(_, _) => if contains_leaf(t, LeafKind::PointerIn(SHARED)) {
            Err(LowerError::SharedPointerArray)
        } else {
            match twin(t) {
                None => Err(LowerError::BoolVector),
                Some(u) => Ok(u),
            }
        },
        LlvmShape::Vector(_, _, _) => if contains_leaf(t, LeafKind::PointerIn(SHARED)) {
            Err(LowerError::SharedPointerVector)
        } else if contains_bool(t) {
            Err(LowerError::BoolVector)
        } else {
            Ok(t)
        },
        LlvmShape::Struct(fields) => match all_ok(payload_storages(fields)) {
            Err(e) => Err(e),
            Ok(fs) => Ok(LlvmShape::Struct(fs)),
        },
        _ => Ok(t),
    }
}

/// The payload storage of a list of types.
pub open spec fn payload_storages(fields: Seq<LlvmShape>) -> Seq<Result<LlvmShape, LowerError>>
    decreases fields,
{
    Seq::new(
        fields.len(),
        |i: int|
            if 0 <= i < fields.len() {
                payload_storage(fields[i])
            } else {
                Err(LowerError::BoolVector)
            },
    )
}

/// The physical type that an enum keeps a payload of type `ty` in.
pub fn enum_payload_storage_type(ty: &LlvmType) -> (r: Result<LlvmType, LowerError>)
    ensures
        match r {
            Ok(u) => payload_storage(ty@) == Ok::<LlvmShape, LowerError>(u@),
            Err(e) => payload_storage(ty@) == Err::<LlvmShape, LowerError>(e),
        },
    decreases ty, 0int,
{
    match ty {
        LlvmType::Integer(width) => if *width == 1 {
            Ok(LlvmType::Integer(8))
        } else {
            Ok(ty.duplicate())
        },
        LlvmType::Pointer(space) => if *space == SHARED {
            Ok(LlvmType::Pointer(GENERIC))
        } else {
            Ok(ty.duplicate())
        },
        LlvmType::Array(_, _) => {
            if llvm_type_contains_pointer_in_address_space(ty, SHARED) {
                return Err(LowerError::SharedPointerArray);
            }
            match llvm_byte_faithful_twin(ty) {
                None => Err(LowerError::BoolVector),
                Some(u) => Ok(u),
            }
        },
        LlvmType::Vector(_, _, _) => {
            if llvm_type_contains_pointer_in_address_space(ty, SHARED) {
                return Err(LowerError::SharedPointerVector);
            }
            if llvm_type_contains_i1(ty) {
                return Err(LowerError::BoolVector);
            }
            Ok(ty.duplicate())
        },
        LlvmType::Struct(fields) => {
            proof {
                LlvmType::lemma_struct_view(*fields);
            }
            match payload_storage_fields(fields) {
                Err(e) => Err(e),
                Ok(fs) => {
                    proof {
                        LlvmType::lemma_struct_view(fs);
                    }
                    Ok(LlvmType::Struct(fs))
                },
            }
        },
        _ => Ok(ty.duplicate()),
    }
}

fn payload_storage_fields(fields: &Vec<LlvmType>) -> (r: Result<Vec<LlvmType>, LowerError>)
    ensures
        match r {
            Ok(fs) => all_ok(payload_storages(shapes(fields@))) == Ok::<
                Seq<LlvmShape>,
                LowerError,
            >(shapes(fs@)),
            Err(e) => all_ok(payload_storages(shapes(fields@))) == Err::<
                Seq<LlvmShape>,
                LowerError,
            >(e),
        },
    decreases fields, 1int,
{
    let ghost wanted = payload_storages(shapes(fields@));
    let mut out: Vec<LlvmType> = Vec::new();
    assert(shapes(out@) =~= Seq::empty());
    for i in 0..fields.len()
        invariant
            wanted == payload_storages(shapes(fields@)),
            all_ok_upto(wanted, i as int) == Ok::<Seq<LlvmShape>, LowerError>(shapes(out@)),
    {
        assert(wanted[i as int] == payload_storage(fields@[i as int]@));
        match enum_payload_storage_type(&fields[i]) {
            Err(e) => {
                proof {
                    lemma_first_error(wanted, i + 1, wanted.len() as int);
                }
                return Err(e);
            },
            Ok(t) => {
                let ghost before = out@;
                out.push(t);
                assert(shapes(out@) =~= shapes(before).push(t@));
            },
        }
    }
    Ok(out)
}

/// Payload storage holds no `i1` and no shared-memory pointer, and has the size
/// and alignment of the payload.
pub proof fn law_payload_storage_is_layout_neutral(t: LlvmShape)
    requires
        payload_storage(t) is Ok,
    ensures
        !contains_bool(payload_storage(t)->Ok_0),
        !contains_leaf(payload_storage(t)->Ok_0, LeafKind::PointerIn(SHARED)),
        size_align(payload_storage(t)->Ok_0) == size_align(t),
    decreases t,
{
    match t {
        LlvmShape::Array(_, _) => {
            law_twin_is_layout_neutral(t);
            lemma_twin_keeps_pointers(t, LeafKind::PointerIn(SHARED));
        },
        LlvmShape::Struct(fields) => {
            let ss = payload_storages(fields);
            lemma_all_ok_values(ss, ss.len() as int);
            let fs = all_ok(ss)->Ok_0;
            assert forall|i: int| 0 <= i < fields.len() implies !contains_bool(#[trigger] fs[i])
                && !contains_leaf(fs[i], LeafKind::PointerIn(SHARED)) && size_align(fs[i])
                == size_align(fields[i]) by {
                assert(ss[i] is Ok);
                law_payload_storage_is_layout_neutral(fields[i]);
            }
            assert(size_aligns(fs) =~= size_aligns(fields));
            lemma_struct_size_align(fs);
            lemma_struct_size_align(fields);
            let u = payload_storage(t)->Ok_0;
            assert(u->Struct_0 == fs);
        },
        _ => {},
    }
}

/// A twin holds the same pointers as its original.
pub proof fn lemma_twin_keeps_pointers(t: LlvmShape, kind: LeafKind)
    requires
        twin(t) is Some,
        kind != LeafKind::Bool,
    ensures
        contains_leaf(twin(t)->Some_0, kind) == contains_leaf(t, kind),
    decreases t,
{
    if contains_bool(t) {
        match t {
            LlvmShape::Array(elem, _) => lemma_twin_keeps_pointers(*elem, kind),
            LlvmShape::Struct(fields) => {
                let ts = twins(fields);
                let fs = all_some(ts)->Some_0;
                let u = twin(t)->Some_0;
                assert(u->Struct_0 == fs);
                assert forall|i: int| 0 <= i < fields.len() implies contains_leaf(
                    #[trigger] fs[i],
                    kind,
                ) == contains_leaf(fields[i], kind) by {
                    assert(ts[i] is Some);
                    lemma_twin_keeps_pointers(fields[i], kind);
                }
                if contains_leaf(t, kind) {
                    let i = choose|i: int|
                        0 <= i < fields.len() && contains_leaf(#[trigger] fields[i], kind);
                    assert(contains_leaf(u->Struct_0[i], kind));
                }
                if contains_leaf(u, kind) {
                    let i = choose|i: int|
                        0 <= i < fs.len() && contains_leaf(#[trigger] fs[i], kind);
                    assert(contains_leaf(t->Struct_0[i], kind));
                }
            },
            _ => {},
        }
    }
}

} // verus!
