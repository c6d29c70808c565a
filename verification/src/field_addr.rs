//! The address of a field behind a pointer.

use crate::enum_slots::lemma_enum_slot_lengths;
use crate::error::LowerError;
use crate::ir::{extends, valid, with_gep, Body, Builder, GepIndex, GepPath, Value};
use crate::llvm::{LlvmShape, LlvmType};
use crate::mir::{MirEnumType, MirType};
use crate::operands::{most_recent_of_kind, newest, Operand, TypeKind};
use crate::storage::{enum_payload_storage_type, payload_storage};
use crate::struct_slots::StructSlots;
use crate::types::{
    build_enum_slot_map, build_struct_slot_map, lowered, lowered_all, enum_type_slots,
    struct_type_slots, tuple_type_slots, StructLayoutInfo,
};
use vstd::prelude::*;

verus! {

/// The address at a constant byte offset behind `base`.
pub open spec fn constant_byte_address(b: Body, base: Value, offset: u32) -> (Body, Value) {
    with_gep(b, base, GepPath::One(GepIndex::Constant(offset)), LlvmShape::Integer(8))
}

/// The address of slot `slot` of the struct at `base`.
pub open spec fn slot_address(b: Body, base: Value, slot: u32, fields: Seq<LlvmShape>) -> (
    Body,
    Value,
) {
    with_gep(
        b,
        base,
        GepPath::Two(GepIndex::Constant(0), GepIndex::Constant(slot)),
        LlvmShape::Struct(fields),
    )
}

/// The address of declared field `index` of a struct or tuple. A zero-sized
/// field has no slot; the struct's own bytes stand in for it.
pub open spec fn struct_field_address(
    b: Body,
    base: Value,
    slots: Result<StructSlots, LowerError>,
    index: u32,
) -> (Body, Result<Value, LowerError>) {
    match slots {
        Err(e) => (b, Err(e)),
        Ok(s) => if index >= s.decl_to_llvm.len() {
            (
                b,
                Err(
                    LowerError::FieldIndex {
                        member: index,
                        fields: s.decl_to_llvm.len() as usize,
                    },
                ),
            )
        } else {
            match s.decl_to_llvm[index as int] {
                Some(slot) => {
                    let (c, r) = slot_address(b, base, slot, s.fields);
                    (c, Ok(r))
                },
                None => {
                    let (c, r) = constant_byte_address(b, base, 0);
                    (c, Ok(r))
                },
            }
        },
    }
}

/// The address of flat payload field `index` of an enum.
///
/// Reads and writes through the address use the payload's own type, so a
/// payload that is stored in another type has no such address.
pub open spec fn payload_address(b: Body, base: Value, e: MirEnumType, index: u32) -> (
    Body,
    Result<Value, LowerError>,
) {
    match enum_type_slots(e) {
        Err(error) => (b, Err(error)),
        Ok(s) => if index >= s.field_slots.len() {
            (
                b,
                Err(
                    LowerError::FieldIndex {
                        member: index,
                        fields: s.field_slots.len() as usize,
                    },
                ),
            )
        } else {
            let ty = s.field_types[index as int];
            let offset = s.field_offsets[index as int];
            match payload_storage(ty) {
                Err(error) => (b, Err(error)),
                Ok(storage) => if storage != ty {
                    (b, Err(LowerError::PayloadAddress { member: index }))
                } else {
                    match s.field_slots[index as int] {
                        Some(slot) => {
                            let (c, r) = slot_address(b, base, slot, s.fields);
                            (c, Ok(r))
                        },
                        None => if offset > u32::MAX {
                            (b, Err(LowerError::PayloadOffset { offset }))
                        } else {
                            let (c, r) = constant_byte_address(b, base, offset as u32);
                            (c, Ok(r))
                        },
                    }
                },
            }
        },
    }
}

/// The address of field `index` of a value of type `pointee` at `base`.
pub open spec fn field_address_in(b: Body, base: Value, pointee: MirType, index: u32) -> (
    Body,
    Result<Value, LowerError>,
) {
    match pointee {
        MirType::Union(u) => if index >= u.field_types@.len() {
            (b, Err(LowerError::UnionFieldIndex { member: index }))
        } else {
            let (c, r) = constant_byte_address(b, base, 0);
            (c, Ok(r))
        },
        MirType::Enum(e) => payload_address(b, base, e, index),
        MirType::Struct(s) => struct_field_address(b, base, struct_type_slots(s), index),
        MirType::Tuple(t) => struct_field_address(b, base, tuple_type_slots(t), index),
        _ => (b, Err(LowerError::UnexpectedType)),
    }
}

/// The address of a field behind a pointer.
pub open spec fn field_address(b: Body, base: Value, history: Seq<MirType>, index: Option<u32>) -> (
    Body,
    Result<Value, LowerError>,
) {
    match index {
        None => (b, Err(LowerError::MissingIndex)),
        Some(i) => match newest(history, TypeKind::Ptr) {
            None => (b, Err(LowerError::UnexpectedType)),
            Some(t) => field_address_in(b, base, *t->Ptr_0.pointee, i),
        },
    }
}

fn gep_constant_byte(b: &mut Builder, base: Value, offset: u32) -> (r: Value)
    requires
        valid(old(b)@, base),
    ensures
        (final(b)@, r) == constant_byte_address(old(b)@, base, offset),
        extends(old(b)@, final(b)@),
        valid(final(b)@, r),
{
    b.gep(base, GepPath::One(GepIndex::Constant(offset)), LlvmType::Integer(8))
}

fn gep_slot(b: &mut Builder, base: Value, slot: u32, ty: LlvmType, Ghost(fields): Ghost<
    Seq<LlvmShape>,
>) -> (r: Value)
    requires
        valid(old(b)@, base),
        ty@ == LlvmShape::Struct(fields),
    ensures
        (final(b)@, r) == slot_address(old(b)@, base, slot, fields),
        extends(old(b)@, final(b)@),
        valid(final(b)@, r),
{
    b.gep(base, GepPath::Two(GepIndex::Constant(0), GepIndex::Constant(slot)), ty)
}

fn struct_field_addr(b: &mut Builder, base: Value, layout: &StructLayoutInfo<'_>, index: u32) -> (r:
    Result<Value, LowerError>)
    requires
        valid(old(b)@, base),
    ensures
        (final(b)@, r) == struct_field_address(old(b)@, base, layout.slots(), index),
        extends(old(b)@, final(b)@),
        r is Ok ==> valid(final(b)@, r->Ok_0),
{
    let map = match build_struct_slot_map(layout) {
        Err(e) => {
            return Err(e);
        },
        Ok(map) => map,
    };
    if index as usize >= map.decl_to_llvm.len() {
        return Err(LowerError::FieldIndex { member: index, fields: map.decl_to_llvm.len() });
    }
    match map.decl_to_llvm[index as usize] {
        Some(slot) => Ok(
            gep_slot(b, base, slot, map.llvm_struct_ty, Ghost(layout.slots()->Ok_0.fields)),
        ),
        None => Ok(gep_constant_byte(b, base, 0)),
    }
}

fn payload_addr(b: &mut Builder, base: Value, e: &MirEnumType, index: u32) -> (r: Result<
    Value,
    LowerError,
>)
    requires
        valid(old(b)@, base),
    ensures
        (final(b)@, r) == payload_address(old(b)@, base, *e, index),
        extends(old(b)@, final(b)@),
        r is Ok ==> valid(final(b)@, r->Ok_0),
{
    let map = match build_enum_slot_map(e) {
        Err(error) => {
            return Err(error);
        },
        Ok(map) => map,
    };
    let ghost s = enum_type_slots(*e)->Ok_0;
    proof {
        lemma_enum_slot_lengths(*e, lowered(*e.discriminant_ty), lowered_all(e.all_field_types@));
    }
    if index as usize >= map.field_slots.len() {
        return Err(LowerError::FieldIndex { member: index, fields: map.field_slots.len() });
    }
    let i: usize = index as usize;
    assert(s.field_types[i as int] == map.field_llvm_types@[i as int]@);
    match enum_payload_storage_type(&map.field_llvm_types[i]) {
        Err(error) => Err(error),
        Ok(storage) => {
            if !storage.same_type(&map.field_llvm_types[i]) {
                return Err(LowerError::PayloadAddress { member: index });
            }
            match map.field_slots[i] {
                Some(slot) => Ok(gep_slot(b, base, slot, map.llvm_struct_ty, Ghost(s.fields))),
                None => {
                    let offset: u64 = map.field_offsets[i];
                    if offset > u32::MAX as u64 {
                        return Err(LowerError::PayloadOffset { offset });
                    }
                    Ok(gep_constant_byte(b, base, offset as u32))
                },
            }
        },
    }
}

/// Lowers the address of a field behind a pointer.
///
/// Every address is a value of its own, also where it equals the base: the
/// base keeps the type that was recorded for it.
pub fn convert_field_addr(b: &mut Builder, pointer: &Operand<'_>, field_index: Option<u32>) -> (r:
    Result<Value, LowerError>)
    requires
        valid(old(b)@, pointer.value),
    ensures
        (final(b)@, r) == field_address(
            old(b)@,
            pointer.value,
            pointer.history@,
            field_index,
        ),
        extends(old(b)@, final(b)@),
        r is Ok ==> valid(final(b)@, r->Ok_0),
{
    let index: u32 = match field_index {
        None => {
            return Err(LowerError::MissingIndex);
        },
        Some(i) => i,
    };
    let pointee = match most_recent_of_kind(pointer.history, TypeKind::Ptr) {
        Some(MirType::Ptr(p)) => &p.pointee,
        _ => {
            return Err(LowerError::UnexpectedType);
        },
    };
    match &**pointee {
        MirType::Union(u) => {
            if index as usize >= u.field_types.len() {
                return Err(LowerError::UnionFieldIndex { member: index });
            }
            Ok(gep_constant_byte(b, pointer.value, 0))
        },
        MirType::Enum(e) => payload_addr(b, pointer.value, e, index),
        MirType::Struct(s) => {
            let layout = StructLayoutInfo::of_struct(s);
            struct_field_addr(b, pointer.value, &layout, index)
        },
        MirType::Tuple(t) => {
            let layout = StructLayoutInfo::of_tuple(t);
            struct_field_addr(b, pointer.value, &layout, index)
        },
        _ => Err(LowerError::UnexpectedType),
    }
}

} // verus!
