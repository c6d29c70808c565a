//! Whether the bytes of an initialized global can be read through its LLVM
//! type.
//!
//! The initializer is exact bytes, but later accesses go through the converted
//! type. Every shape for which the two views might disagree is refused.

use crate::error::LowerError;
use crate::layout::{
    is_power_of_two, llvm_type_size_align, natural_offset, natural_offsets, prefix_extent,
    size_align, size_aligns,
};
use crate::llvm::{shapes, LlvmShape, LlvmType};
use crate::mir::{EnumLayoutKind, MirEnumType, MirStructType, MirType};
use crate::struct_slots::StructSlots;
use crate::types::{
    build_struct_slot_map, lowered, convert_enum_to_llvm, convert_type, lemma_slots_of_fields,
    struct_type_slots, tuple_type_slots, StructLayoutInfo,
};
use vstd::arithmetic::power2::is_pow2;
use vstd::prelude::*;

verus! {

/// The first declared field from `from` on whose slot sits at another byte
/// than `offsets` says.
pub open spec fn misplaced_field(slots: StructSlots, offsets: Seq<u64>, from: int) -> Option<
    LowerError,
>
    decreases slots.decl_to_llvm.len() - from,
{
    if from < 0 || from >= slots.decl_to_llvm.len() {
        None
    } else {
        match slots.decl_to_llvm[from] {
            None => misplaced_field(slots, offsets, from + 1),
            Some(slot) => {
                let lowered = natural_offset(slots.fields, slot as int);
                if lowered != offsets[from] {
                    Some(
                        LowerError::InitializedFieldOffset {
                            field: from as usize,
                            lowered: lowered as u64,
                            expected: offsets[from],
                        },
                    )
                } else {
                    misplaced_field(slots, offsets, from + 1)
                }
            },
        }
    }
}

/// Why the bytes of an initialized struct or tuple might not be what its LLVM
/// struct reads, if so.
pub open spec fn aggregate_defect(
    whole: Result<LlvmShape, LowerError>,
    slots: Result<StructSlots, LowerError>,
    offsets: Seq<u64>,
    total_size: u64,
    abi_align: u64,
) -> Option<LowerError> {
    if total_size == 0 {
        match whole {
            Err(error) => Some(error),
            Ok(t) => match size_align(t) {
                None => Some(LowerError::InitializedLayout),
                Some((size, _)) => if size == 0 {
                    None
                } else {
                    Some(LowerError::InitializedNoSize { lowered: size })
                },
            },
        }
    } else if offsets.len() == 0 {
        Some(LowerError::InitializedNoOffsets)
    } else {
        match slots {
            Err(error) => Some(error),
            Ok(s) => if prefix_extent(size_aligns(s.fields), s.fields.len() as int) is None {
                Some(LowerError::InitializedFieldLayout)
            } else {
                match misplaced_field(s, offsets, 0) {
                    Some(error) => Some(error),
                    None => layout_mismatch(
                        LlvmShape::Struct(s.fields),
                        total_size,
                        abi_align,
                    ),
                }
            },
        }
    }
}

/// Why a type does not have the given size, or aligns wider, if so.
pub open spec fn layout_mismatch(t: LlvmShape, expected_size: u64, expected_align: u64) -> Option<
    LowerError,
> {
    match size_align(t) {
        None => Some(LowerError::InitializedLayout),
        Some((size, align)) => if size != expected_size || align > expected_align {
            Some(
                LowerError::InitializedMismatch { size, align, expected_size, expected_align },
            )
        } else {
            None
        },
    }
}

/// Why the bytes of an initialized value of type `t` might not be what its
/// LLVM type reads, if so.
pub open spec fn type_defect(t: MirType) -> Option<LowerError>
    decreases t, 0int,
{
    match t {
        MirType::Struct(s) => match aggregate_defect(
            lowered(t),
            struct_type_slots(s),
            s.field_offsets@,
            s.total_size,
            s.abi_align,
        ) {
            Some(error) => Some(error),
            None => fields_defect(s.field_types@, 0),
        },
        MirType::Tuple(s) => {
            let own = if s.types@.len() == 0 {
                None
            } else {
                aggregate_defect(
                    lowered(t),
                    tuple_type_slots(s),
                    s.field_offsets@,
                    s.total_size,
                    s.abi_align,
                )
            };
            match own {
                Some(error) => Some(error),
                None => fields_defect(s.types@, 0),
            }
        },
        MirType::Enum(e) => match enum_defect(e) {
            Some(error) => Some(error),
            None => fields_defect(e.all_field_types@, 0),
        },
        MirType::Array(elem, _) => type_defect(*elem),
        _ => None,
    }
}

/// The first defect among `fields` from `from` on.
pub open spec fn fields_defect(fields: Seq<MirType>, from: int) -> Option<LowerError>
    decreases fields, fields.len() - from,
{
    if from < 0 || from >= fields.len() {
        None
    } else {
        match type_defect(fields[from]) {
            Some(error) => Some(error),
            None => fields_defect(fields, from + 1),
        }
    }
}

/// Why the bytes of an initialized enum might not be what its LLVM struct
/// reads, if so.
pub open spec fn enum_defect(e: MirEnumType) -> Option<LowerError> {
    if e.encoding.layout_kind == EnumLayoutKind::Unknown {
        Some(LowerError::InitializedUnknownEnum)
    } else if e.encoding.total_size > 0 {
        match lowered(MirType::Enum(e)) {
            Err(error) => Some(error),
            Ok(t) => layout_mismatch(t, e.encoding.total_size, e.encoding.abi_align),
        }
    } else {
        None
    }
}

/// Why an initializer of the given size and alignment does not fit type `t`,
/// if so.
pub open spec fn global_defect(t: MirType, size: u64, align: u64) -> Option<LowerError> {
    if !is_pow2(align as int) {
        Some(LowerError::InitializedAlign { align })
    } else {
        match type_defect(t) {
            Some(error) => Some(error),
            None => match lowered(t) {
                Err(error) => Some(error),
                Ok(converted) => layout_mismatch(converted, size, align),
            },
        }
    }
}

fn check_layout(ty: &LlvmType, expected_size: u64, expected_align: u64) -> (r: Option<LowerError>)
    ensures
        r == layout_mismatch(ty@, expected_size, expected_align),
{
    match llvm_type_size_align(ty) {
        None => Some(LowerError::InitializedLayout),
        Some((size, align)) => {
            if size != expected_size || align > expected_align {
                Some(
                    LowerError::InitializedMismatch { size, align, expected_size, expected_align },
                )
            } else {
                None
            }
        },
    }
}

/// Checks that a lowered struct or tuple places every field at exactly the
/// byte that rustc chose and has rustc's size.
fn validate_initialized_aggregate_layout(
    ty: &MirType,
    layout: &StructLayoutInfo<'_>,
    abi_align: u64,
) -> (r: Option<LowerError>)
    ensures
        r == aggregate_defect(
            lowered(*ty),
            layout.slots(),
            layout.field_offsets@,
            layout.total_size,
            abi_align,
        ),
{
    if layout.total_size == 0 {
        return match convert_type(ty) {
            Err(error) => Some(error),
            Ok(t) => match llvm_type_size_align(&t) {
                None => Some(LowerError::InitializedLayout),
                Some((size, _)) => if size == 0 {
                    None
                } else {
                    Some(LowerError::InitializedNoSize { lowered: size })
                },
            },
        };
    }
    if layout.field_offsets.len() == 0 {
        return Some(LowerError::InitializedNoOffsets);
    }
    let map = match build_struct_slot_map(layout) {
        Err(error) => {
            return Some(error);
        },
        Ok(map) => map,
    };
    let ghost s = layout.slots()->Ok_0;
    assert(layout.field_types.len() <= usize::MAX);
    proof {
        lemma_slots_of_fields(
            layout.field_types@,
            layout.mem_to_decl@,
            layout.field_offsets@,
            layout.total_size,
        );
    }
    if let LlvmType::Struct(fields) = &map.llvm_struct_ty {
        proof {
            LlvmType::lemma_struct_view(*fields);
            assert(shapes(fields@) == s.fields);
        }
        let offsets = match natural_offsets(fields) {
            None => {
                return Some(LowerError::InitializedFieldLayout);
            },
            Some(offsets) => offsets,
        };
        for d in 0..map.decl_to_llvm.len()
            invariant
                map.decl_to_llvm@ == s.decl_to_llvm,
                layout.total_size > 0,
                layout.field_offsets@.len() == s.decl_to_llvm.len(),
                layout.field_offsets@.len() > 0,
                layout.slots() == Ok::<StructSlots, LowerError>(s),
                prefix_extent(size_aligns(s.fields), s.fields.len() as int) is Some,
                offsets@.len() == s.fields.len(),
                forall|k: int|
                    0 <= k < s.fields.len() ==> #[trigger] offsets@[k] == natural_offset(
                        s.fields,
                        k,
                    ),
                forall|e: int|
                    0 <= e < s.decl_to_llvm.len() && #[trigger] s.decl_to_llvm[e] is Some
                        ==> s.decl_to_llvm[e]->Some_0 < s.fields.len(),
                misplaced_field(s, layout.field_offsets@, 0) == misplaced_field(
                    s,
                    layout.field_offsets@,
                    d as int,
                ),
        {
            assert(map.decl_to_llvm@[d as int] == s.decl_to_llvm[d as int]);
            match map.decl_to_llvm[d] {
                None => {},
                Some(slot) => {
                    assert(s.decl_to_llvm[d as int] is Some);
                    let lowered: u64 = offsets[slot as usize];
                    let expected: u64 = layout.field_offsets[d];
                    if lowered != expected {
                        return Some(
                            LowerError::InitializedFieldOffset { field: d, lowered, expected },
                        );
                    }
                },
            }
        }
    }
    check_layout(&map.llvm_struct_ty, layout.total_size, abi_align)
}

fn validate_initialized_struct_layout(ty: &MirType, s: &MirStructType) -> (r: Option<LowerError>)
    requires
        *ty == MirType::Struct(*s),
    ensures
        r == aggregate_defect(
            lowered(*ty),
            struct_type_slots(*s),
            s.field_offsets@,
            s.total_size,
            s.abi_align,
        ),
{
    let layout = StructLayoutInfo::of_struct(s);
    validate_initialized_aggregate_layout(ty, &layout, s.abi_align)
}

/// Checks that the bytes of an initialized value are what its LLVM type reads.
pub fn validate_initialized_global_type(ty: &MirType) -> (r: Option<LowerError>)
    ensures
        r == type_defect(*ty),
    decreases ty, 0int,
{
    match ty {
        MirType::Struct(s) => match validate_initialized_struct_layout(ty, s) {
            Some(error) => Some(error),
            None => validate_initialized_fields(&s.field_types),
        },
        MirType::Tuple(s) => {
            if s.types.len() > 0 {
                let layout = StructLayoutInfo::of_tuple(s);
                match validate_initialized_aggregate_layout(ty, &layout, s.abi_align) {
                    Some(error) => {
                        return Some(error);
                    },
                    None => {},
                }
            }
            validate_initialized_fields(&s.types)
        },
        MirType::Enum(e) => {
            if e.encoding.layout_kind == EnumLayoutKind::Unknown {
                return Some(LowerError::InitializedUnknownEnum);
            }
            if e.encoding.total_size > 0 {
                match convert_enum_to_llvm(e) {
                    Err(error) => {
                        return Some(error);
                    },
                    Ok(t) => match check_layout(&t, e.encoding.total_size, e.encoding.abi_align) {
                        Some(error) => {
                            return Some(error);
                        },
                        None => {},
                    },
                }
            }
            validate_initialized_fields(&e.all_field_types)
        },
        MirType::Array(elem, _) => validate_initialized_global_type(elem),
        _ => None,
    }
}

fn validate_initialized_fields(fields: &Vec<MirType>) -> (r: Option<LowerError>)
    ensures
        r == fields_defect(fields@, 0),
    decreases fields, 1int,
{
    for i in 0..fields.len()
        invariant
            fields_defect(fields@, 0) == fields_defect(fields@, i as int),
    {
        match validate_initialized_global_type(&fields[i]) {
            Some(error) => {
                return Some(error);
            },
            None => {},
        }
    }
    None
}

/// Proves that an initialized global can be read through the LLVM type of its
/// Rust-level type, or says why that is not proved.
pub fn validate_initialized_global_layout(
    ty: &MirType,
    initializer_size: u64,
    initializer_align: u64,
) -> (r: Result<(), LowerError>)
    ensures
        r == match global_defect(*ty, initializer_size, initializer_align) {
            Some(error) => Err(error),
            None => Ok(()),
        },
{
    if !is_power_of_two(initializer_align) {
        return Err(LowerError::InitializedAlign { align: initializer_align });
    }
    match validate_initialized_global_type(ty) {
        Some(error) => {
            return Err(error);
        },
        None => {},
    }
    match convert_type(ty) {
        Err(error) => Err(error),
        Ok(t) => match check_layout(&t, initializer_size, initializer_align) {
            Some(error) => Err(error),
            None => Ok(()),
        },
    }
}

proof fn lemma_no_misplaced_field(slots: StructSlots, offsets: Seq<u64>, from: int, d: int)
    requires
        0 <= from <= d < slots.decl_to_llvm.len(),
        misplaced_field(slots, offsets, from) is None,
        slots.decl_to_llvm[d] is Some,
    ensures
        natural_offset(slots.fields, slots.decl_to_llvm[d]->Some_0 as int) == offsets[d],
    decreases d - from,
{
    if from < d {
        lemma_no_misplaced_field(slots, offsets, from + 1, d);
    }
}

/// A struct that passes validation and takes bytes keeps every field that has
/// a slot at rustc's byte, and has rustc's size.
pub proof fn law_validated_structs_keep_bytes(s: MirStructType)
    requires
        s.total_size > 0,
        type_defect(MirType::Struct(s)) is None,
    ensures
        struct_type_slots(s) is Ok,
        ({
            let slots = struct_type_slots(s)->Ok_0;
            &&& size_align(LlvmShape::Struct(slots.fields)) is Some
            &&& size_align(LlvmShape::Struct(slots.fields))->Some_0.0 == s.total_size
            &&& size_align(LlvmShape::Struct(slots.fields))->Some_0.1 <= s.abi_align
            &&& forall|d: int|
                0 <= d < slots.decl_to_llvm.len() && #[trigger] slots.decl_to_llvm[d] is Some
                    ==> natural_offset(slots.fields, slots.decl_to_llvm[d]->Some_0 as int)
                    == s.field_offsets@[d]
        }),
{
    let slots = struct_type_slots(s)->Ok_0;
    assert forall|d: int|
        0 <= d < slots.decl_to_llvm.len() && #[trigger] slots.decl_to_llvm[d] is Some implies
        natural_offset(slots.fields, slots.decl_to_llvm[d]->Some_0 as int)
        == s.field_offsets@[d] by {
        lemma_no_misplaced_field(slots, s.field_offsets@, 0, d);
    }
}

} // verus!
