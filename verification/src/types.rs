//! Conversion of Rust-level types to LLVM types.
//!
//! | Rust-level type | LLVM type |
//! |-----------------|-----------|
//! | integer         | integer of the same width, without sign |
//! | `f16`, `f32`, `f64` | `half`, `float`, `double` |
//! | pointer         | pointer in the same address space |
//! | slice           | `{ ptr, i64 }` |
//! | disjoint slice  | `{ ptr, i64 }`, then its index space's fields |
//! | array, vector   | array, vector of the converted element |
//! | tuple, struct   | struct with explicit padding, see [`crate::struct_slots`] |
//! | union           | shared storage, see [`crate::union_storage`] |
//! | enum            | struct with rustc's bytes, see [`crate::enum_slots`] |

use crate::collect::{all_ok, all_ok_upto, lemma_all_ok_values, lemma_first_error};
use crate::enum_slots::{enum_slot_map_over, enum_slots, EnumSlotMap, EnumSlots};
use crate::error::LowerError;
use crate::llvm::{shapes, LlvmShape, LlvmType, GENERIC, SHARED};
use crate::mir::{
    expand_memory_order, memory_order, EnumCarrierKind, EnumLayoutKind, MirEnumType, MirStructType,
    MirTupleType, MirType, MirUnionType,
};
use crate::struct_slots::{
    check_struct_layout, explicit_layout, is_field_permutation, layout_defect, lemma_slots_in_range,
    place_struct_fields, struct_slots, StructSlotMap, StructSlots,
};
use crate::union_storage::{outcome_shape, outcome_shapes, union_storage, union_storage_type};
use vstd::prelude::*;

verus! {

/// `{ ptr, i64 }`: a data pointer and an element count.
pub open spec fn slice_fields() -> Seq<LlvmShape> {
    seq![LlvmShape::Pointer(GENERIC), LlvmShape::Integer(64)]
}

/// The slots of a struct or tuple, over the outcomes of converting its fields.
pub open spec fn slots_of_fields(
    fields: Seq<MirType>,
    converted: Seq<Result<LlvmShape, LowerError>>,
    order: Seq<usize>,
    offsets: Seq<u64>,
    total_size: u64,
) -> Result<StructSlots, LowerError> {
    match layout_defect(fields.len() as usize, order, offsets, total_size) {
        Some(error) => Err(error),
        None => match all_ok(converted) {
            Err(error) => Err(error),
            Ok(types) => struct_slots(fields, types, order, offsets, total_size),
        },
    }
}

/// The struct type of a slot outcome.
pub open spec fn struct_type(slots: Result<StructSlots, LowerError>) -> Result<
    LlvmShape,
    LowerError,
> {
    match slots {
        Err(error) => Err(error),
        Ok(s) => Ok(LlvmShape::Struct(s.fields)),
    }
}

/// The LLVM equivalent of a Rust-level type.
pub open spec fn lowered(t: MirType) -> Result<LlvmShape, LowerError>
    decreases t,
{
    match t {
        MirType::Integer(width, _) => Ok(LlvmShape::Integer(width)),
        MirType::Fp16 => Ok(LlvmShape::Half),
        MirType::Fp32 => Ok(LlvmShape::Float),
        MirType::Fp64 => Ok(LlvmShape::Double),
        MirType::Ptr(p) => Ok(LlvmShape::Pointer(p.address_space)),
        MirType::Slice(_) => Ok(LlvmShape::Struct(slice_fields())),
        MirType::DisjointSlice(d) => match all_ok(lowered_all(d.space_tys@)) {
            Err(error) => Err(error),
            Ok(spaces) => Ok(LlvmShape::Struct(slice_fields() + spaces)),
        },
        MirType::Array(elem, n) => match lowered(*elem) {
            Err(error) => Err(error),
            Ok(e) => Ok(LlvmShape::Array(Box::new(e), n)),
        },
        MirType::Vector(elem, count, scalable) => match lowered(*elem) {
            Err(error) => Err(error),
            Ok(e) => Ok(LlvmShape::Vector(Box::new(e), count, scalable)),
        },
        MirType::Tuple(s) => struct_type(
            slots_of_fields(
                s.types@,
                lowered_all(s.types@),
                memory_order(s.mem_to_decl@, s.types@.len()),
                s.field_offsets@,
                s.total_size,
            ),
        ),
        MirType::Struct(s) => struct_type(
            slots_of_fields(
                s.field_types@,
                lowered_all(s.field_types@),
                memory_order(s.mem_to_decl@, s.field_types@.len()),
                s.field_offsets@,
                s.total_size,
            ),
        ),
        MirType::Union(u) => union_storage(lowered_all(u.field_types@), u.total_size, u.abi_align),
        MirType::Enum(e) => match enum_slots(
            e,
            lowered(*e.discriminant_ty),
            lowered_all(e.all_field_types@),
        ) {
            Err(error) => Err(error),
            Ok(s) => Ok(LlvmShape::Struct(s.fields)),
        },
        MirType::Enclosing(_) => Err(LowerError::UnsupportedType),
        MirType::Opaque => Err(LowerError::UnsupportedType),
    }
}

/// The LLVM equivalents of a list of Rust-level types.
pub open spec fn lowered_all(fields: Seq<MirType>) -> Seq<Result<LlvmShape, LowerError>>
    decreases fields,
{
    Seq::new(
        fields.len(),
        |i: int|
            if 0 <= i < fields.len() {
                lowered(fields[i])
            } else {
                Err(LowerError::UnsupportedType)
            },
    )
}

/// The slots of a struct type.
pub open spec fn struct_type_slots(s: MirStructType) -> Result<StructSlots, LowerError> {
    slots_of_fields(
        s.field_types@,
        lowered_all(s.field_types@),
        memory_order(s.mem_to_decl@, s.field_types@.len()),
        s.field_offsets@,
        s.total_size,
    )
}

/// The slots of a tuple type.
pub open spec fn tuple_type_slots(t: MirTupleType) -> Result<StructSlots, LowerError> {
    slots_of_fields(
        t.types@,
        lowered_all(t.types@),
        memory_order(t.mem_to_decl@, t.types@.len()),
        t.field_offsets@,
        t.total_size,
    )
}

/// The slots of an enum type.
pub open spec fn enum_type_slots(e: MirEnumType) -> Result<EnumSlots, LowerError> {
    enum_slots(e, lowered(*e.discriminant_ty), lowered_all(e.all_field_types@))
}

/// The storage type of a union type.
pub open spec fn union_type_storage(u: MirUnionType) -> Result<LlvmShape, LowerError> {
    union_storage(lowered_all(u.field_types@), u.total_size, u.abi_align)
}

/// The LLVM struct type of a slice fat pointer.
pub fn make_slice_struct() -> (r: LlvmType)
    ensures
        r@ == LlvmShape::Struct(slice_fields()),
{
    let mut fields: Vec<LlvmType> = Vec::new();
    fields.push(LlvmType::pointer(GENERIC));
    fields.push(LlvmType::integer(64));
    assert(shapes(fields@) =~= slice_fields());
    LlvmType::structure(fields)
}

/// The slice fat pointer, followed by the runtime layout fields of an index
/// space.
pub fn make_disjoint_slice_struct(space_tys: &Vec<MirType>) -> (r: Result<LlvmType, LowerError>)
    ensures
        outcome_shape(r) == match all_ok(lowered_all(space_tys@)) {
            Err(error) => Err(error),
            Ok(spaces) => Ok(LlvmShape::Struct(slice_fields() + spaces)),
        },
    decreases space_tys, 2int,
{
    match convert_all(space_tys) {
        Err(error) => Err(error),
        Ok(mut spaces) => {
            let ghost tail = shapes(spaces@);
            let mut fields: Vec<LlvmType> = Vec::new();
            fields.push(LlvmType::pointer(GENERIC));
            fields.push(LlvmType::integer(64));
            fields.append(&mut spaces);
            assert(shapes(fields@) =~= slice_fields() + tail);
            Ok(LlvmType::structure(fields))
        },
    }
}

/// Converts a Rust-level type to its LLVM equivalent.
pub fn convert_type(ty: &MirType) -> (r: Result<LlvmType, LowerError>)
    ensures
        outcome_shape(r) == lowered(*ty),
    decreases ty, 0int,
{
    match ty {
        MirType::Integer(width, _) => Ok(LlvmType::Integer(*width)),
        MirType::Fp16 => Ok(LlvmType::Half),
        MirType::Fp32 => Ok(LlvmType::Float),
        MirType::Fp64 => Ok(LlvmType::Double),
        MirType::Ptr(p) => Ok(LlvmType::Pointer(p.address_space)),
        MirType::Slice(_) => Ok(make_slice_struct()),
        MirType::DisjointSlice(d) => make_disjoint_slice_struct(&d.space_tys),
        MirType::Array(elem, n) => match convert_type(elem) {
            Err(error) => Err(error),
            Ok(e) => Ok(LlvmType::array(e, *n)),
        },
        MirType::Vector(elem, count, scalable) => match convert_type(elem) {
            Err(error) => Err(error),
            Ok(e) => Ok(LlvmType::Vector(Box::new(e), *count, *scalable)),
        },
        MirType::Tuple(s) => {
            let order = expand_memory_order(&s.mem_to_decl, s.types.len());
            match slot_map_of_fields(&s.types, &order, &s.field_offsets, s.total_size) {
                Err(error) => Err(error),
                Ok(map) => Ok(map.llvm_struct_ty),
            }
        },
        MirType::Struct(s) => {
            let order = expand_memory_order(&s.mem_to_decl, s.field_types.len());
            match slot_map_of_fields(&s.field_types, &order, &s.field_offsets, s.total_size) {
                Err(error) => Err(error),
                Ok(map) => Ok(map.llvm_struct_ty),
            }
        },
        MirType::Union(u) => build_union_storage_type(u),
        MirType::Enum(e) => convert_enum_to_llvm(e),
        MirType::Enclosing(_) => Err(LowerError::UnsupportedType),
        MirType::Opaque => Err(LowerError::UnsupportedType),
    }
}

/// Converts a list of types; the first error ends it.
pub fn convert_all(fields: &Vec<MirType>) -> (r: Result<Vec<LlvmType>, LowerError>)
    ensures
        match r {
            Ok(types) => all_ok(lowered_all(fields@)) == Ok::<Seq<LlvmShape>, LowerError>(
                shapes(types@),
            ) && types@.len() == fields@.len(),
            Err(error) => all_ok(lowered_all(fields@)) == Err::<Seq<LlvmShape>, LowerError>(error),
        },
    decreases fields, 1int,
{
    let ghost wanted = lowered_all(fields@);
    let mut out: Vec<LlvmType> = Vec::new();
    assert(shapes(out@) =~= Seq::empty());
    for i in 0..fields.len()
        invariant
            wanted == lowered_all(fields@),
            out@.len() == i,
            all_ok_upto(wanted, i as int) == Ok::<Seq<LlvmShape>, LowerError>(shapes(out@)),
    {
        assert(wanted[i as int] == lowered(fields@[i as int]));
        match convert_type(&fields[i]) {
            Err(error) => {
                proof {
                    lemma_first_error(wanted, i + 1, wanted.len() as int);
                }
                return Err(error);
            },
            Ok(t) => {
                let ghost before = out@;
                out.push(t);
                assert(shapes(out@) =~= shapes(before).push(t@));
            },
        }
    }
    Ok(out)
}

/// Converts each of a list of types on its own.
fn convert_each(fields: &Vec<MirType>) -> (r: Vec<Result<LlvmType, LowerError>>)
    ensures
        outcome_shapes(r@) == lowered_all(fields@),
    decreases fields, 1int,
{
    let mut out: Vec<Result<LlvmType, LowerError>> = Vec::new();
    for i in 0..fields.len()
        invariant
            out@.len() == i,
            forall|j: int|
                0 <= j < i ==> outcome_shape(#[trigger] out@[j]) == lowered_all(fields@)[j],
    {
        assert(lowered_all(fields@)[i as int] == lowered(fields@[i as int]));
        out.push(convert_type(&fields[i]));
    }
    assert(outcome_shapes(out@) =~= lowered_all(fields@));
    out
}

/// The slot map of a struct or tuple with these fields.
pub fn slot_map_of_fields(
    fields: &Vec<MirType>,
    order: &Vec<usize>,
    offsets: &Vec<u64>,
    total_size: u64,
) -> (r: Result<StructSlotMap, LowerError>)
    ensures
        ({
            let wanted = slots_of_fields(
                fields@,
                lowered_all(fields@),
                order@,
                offsets@,
                total_size,
            );
            match r {
                Ok(map) => wanted is Ok && map.models(wanted->Ok_0),
                Err(error) => wanted == Err::<StructSlots, LowerError>(error),
            }
        }),
    decreases fields, 2int,
{
    match check_struct_layout(fields.len(), order, offsets, total_size) {
        Some(error) => Err(error),
        None => match convert_all(fields) {
            Err(error) => Err(error),
            Ok(types) => place_struct_fields(fields, types, order, offsets, total_size),
        },
    }
}

/// The slots of a struct or tuple are fields of its LLVM struct, one entry for
/// each declared field.
pub proof fn lemma_slots_of_fields(
    fields: Seq<MirType>,
    order: Seq<usize>,
    offsets: Seq<u64>,
    total_size: u64,
)
    requires
        fields.len() <= usize::MAX,
        slots_of_fields(fields, lowered_all(fields), order, offsets, total_size) is Ok,
    ensures
        ({
            let s = slots_of_fields(fields, lowered_all(fields), order, offsets, total_size)->Ok_0;
            &&& is_field_permutation(order, fields.len())
            &&& all_ok(lowered_all(fields)) == Ok::<Seq<LlvmShape>, LowerError>(s.field_types)
            &&& s.field_types.len() == fields.len()
            &&& s.decl_to_llvm.len() == fields.len()
            &&& explicit_layout(offsets, total_size) ==> offsets.len() == fields.len()
            &&& forall|d: int|
                0 <= d < s.decl_to_llvm.len() && #[trigger] s.decl_to_llvm[d] is Some
                    ==> s.decl_to_llvm[d]->Some_0 < s.fields.len()
        }),
{
    let converted = lowered_all(fields);
    lemma_all_ok_values(converted, converted.len() as int);
    lemma_slots_in_range(fields, all_ok(converted)->Ok_0, order, offsets, total_size);
}

/// Byte-exact LLVM storage for a union.
pub fn build_union_storage_type(union_ty: &MirUnionType) -> (r: Result<LlvmType, LowerError>)
    ensures
        outcome_shape(r) == union_type_storage(*union_ty),
    decreases union_ty, 0int,
{
    let converted = convert_each(&union_ty.field_types);
    union_storage_type(&converted, union_ty.total_size, union_ty.abi_align)
}

/// Builds the LLVM struct for an enum, with everything at the bytes that rustc
/// chose, and the map of where the tag and each payload field landed.
pub fn build_enum_slot_map(enum_ty: &MirEnumType) -> (r: Result<EnumSlotMap, LowerError>)
    ensures
        match r {
            Ok(map) => enum_type_slots(*enum_ty) is Ok && map.models(
                enum_type_slots(*enum_ty)->Ok_0,
            ),
            Err(error) => enum_type_slots(*enum_ty) == Err::<EnumSlots, LowerError>(error),
        },
    decreases enum_ty, 0int,
{
    let c = &enum_ty.encoding;
    if enum_ty.variant_count() == 0 {
        let empty: Vec<LlvmType> = Vec::new();
        let none: Vec<LlvmType> = Vec::new();
        assert(shapes(empty@) =~= Seq::empty());
        return Ok(
            EnumSlotMap {
                llvm_struct_ty: LlvmType::structure(empty),
                carrier_slot: None,
                carrier_llvm_ty: None,
                field_slots: Vec::new(),
                field_offsets: Vec::new(),
                field_llvm_types: none,
            },
        );
    }
    if c.layout_kind == EnumLayoutKind::Unknown {
        return Err(LowerError::EnumUnknownLayout);
    }
    if c.carrier_kind == EnumCarrierKind::Pointer && c.carrier_address_space == SHARED {
        return Err(LowerError::EnumSharedCarrier);
    }
    if c.carrier_kind == EnumCarrierKind::Integer && c.carrier_width % 8 != 0 {
        return Err(LowerError::EnumCarrierWidth { width: c.carrier_width });
    }
    let carrier: Option<LlvmType> = match c.carrier_kind {
        EnumCarrierKind::Absent => None,
        EnumCarrierKind::Integer => {
            if c.layout_kind == EnumLayoutKind::Direct {
                match convert_type(&enum_ty.discriminant_ty) {
                    Err(error) => {
                        return Err(error);
                    },
                    Ok(LlvmType::Integer(width)) => {
                        if width != c.carrier_width {
                            return Err(LowerError::EnumCarrierMismatch);
                        }
                        Some(LlvmType::Integer(width))
                    },
                    Ok(_) => {
                        return Err(LowerError::EnumCarrierMismatch);
                    },
                }
            } else {
                Some(LlvmType::Integer(c.carrier_width))
            }
        },
        EnumCarrierKind::Pointer => Some(LlvmType::Pointer(c.carrier_address_space)),
    };
    match convert_all(&enum_ty.all_field_types) {
        Err(error) => Err(error),
        Ok(types) => enum_slot_map_over(enum_ty, carrier, types),
    }
}

/// Converts an enum to its LLVM struct.
pub fn convert_enum_to_llvm(enum_ty: &MirEnumType) -> (r: Result<LlvmType, LowerError>)
    ensures
        outcome_shape(r) == lowered(MirType::Enum(*enum_ty)),
    decreases enum_ty, 1int,
{
    match build_enum_slot_map(enum_ty) {
        Err(error) => Err(error),
        Ok(map) => Ok(map.llvm_struct_ty),
    }
}

/// Layout facts of one struct or tuple, fields in declaration order.
pub struct StructLayoutInfo<'a> {
    /// Field types in declaration order.
    pub field_types: &'a Vec<MirType>,
    /// Declaration index of each field in memory order.
    pub mem_to_decl: Vec<usize>,
    /// Byte offset of each field; empty when unknown.
    pub field_offsets: &'a Vec<u64>,
    /// Size in bytes with trailing padding; zero when unknown.
    pub total_size: u64,
}

impl<'a> StructLayoutInfo<'a> {
    /// Layout facts of a struct type.
    pub fn of_struct(s: &'a MirStructType) -> (r: StructLayoutInfo<'a>)
        ensures
            *r.field_types == s.field_types,
            r.mem_to_decl@ == memory_order(s.mem_to_decl@, s.field_types@.len()),
            *r.field_offsets == s.field_offsets,
            r.total_size == s.total_size,
    {
        StructLayoutInfo {
            field_types: &s.field_types,
            mem_to_decl: expand_memory_order(&s.mem_to_decl, s.field_types.len()),
            field_offsets: &s.field_offsets,
            total_size: s.total_size,
        }
    }

    /// Layout facts of a tuple type.
    pub fn of_tuple(t: &'a MirTupleType) -> (r: StructLayoutInfo<'a>)
        ensures
            *r.field_types == t.types,
            r.mem_to_decl@ == memory_order(t.mem_to_decl@, t.types@.len()),
            *r.field_offsets == t.field_offsets,
            r.total_size == t.total_size,
    {
        StructLayoutInfo {
            field_types: &t.types,
            mem_to_decl: expand_memory_order(&t.mem_to_decl, t.types.len()),
            field_offsets: &t.field_offsets,
            total_size: t.total_size,
        }
    }

    /// The slots of a struct with this layout.
    pub open spec fn slots(self) -> Result<StructSlots, LowerError> {
        slots_of_fields(
            self.field_types@,
            lowered_all(self.field_types@),
            self.mem_to_decl@,
            self.field_offsets@,
            self.total_size,
        )
    }
}

/// Lowers a struct or tuple layout to its LLVM struct type and slot map.
///
/// With rustc's layout known, fields are placed at their byte offsets with
/// explicit padding, and the struct is padded to its size. Without it they
/// follow each other in memory order. Zero-sized fields are left out.
pub fn build_struct_slot_map(layout: &StructLayoutInfo<'_>) -> (r: Result<
    StructSlotMap,
    LowerError,
>)
    ensures
        match r {
            Ok(map) => layout.slots() is Ok && map.models(layout.slots()->Ok_0),
            Err(error) => layout.slots() == Err::<StructSlots, LowerError>(error),
        },
{
    slot_map_of_fields(
        layout.field_types,
        &layout.mem_to_decl,
        layout.field_offsets,
        layout.total_size,
    )
}

/// The alignment that rustc stored for a type, where it stored one. An array
/// aligns like its element.
pub open spec fn abi_align(t: MirType) -> Option<u64>
    decreases t,
{
    match t {
        MirType::Tuple(s) => known_align(s.abi_align),
        MirType::Struct(s) => known_align(s.abi_align),
        MirType::Enum(e) => known_align(e.encoding.abi_align),
        MirType::Union(u) => known_align(u.abi_align),
        MirType::Array(elem, _) => abi_align(*elem),
        _ => None,
    }
}

/// A stored alignment, where it is not the zero that stands for "unknown".
pub open spec fn known_align(align: u64) -> Option<u64> {
    if align > 0 {
        Some(align)
    } else {
        None
    }
}

/// The alignment that rustc stored for a type, where it stored one.
///
/// LLVM aggregates cannot express over-alignment, so memory operations carry it.
pub fn mir_type_abi_align(ty: &MirType) -> (r: Option<u64>)
    ensures
        r == abi_align(*ty),
    decreases ty,
{
    let align: u64 = match ty {
        MirType::Tuple(s) => s.abi_align,
        MirType::Struct(s) => s.abi_align,
        MirType::Enum(e) => e.encoding.abi_align,
        MirType::Union(u) => u.abi_align,
        MirType::Array(elem, _) => {
            return mir_type_abi_align(elem);
        },
        _ => 0,
    };
    if align > 0 {
        Some(align)
    } else {
        None
    }
}

} // verus!
