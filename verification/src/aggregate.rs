//! Building structs, tuples, slices and arrays, and reading and writing their
//! fields.

use crate::error::LowerError;
use crate::ir::{
    extends, lemma_extends_transitive, valid, value_type, with_extract, with_insert, with_undef,
    Body, Builder, Value,
};
use crate::llvm::{shapes, LlvmShape, LlvmType, GENERIC};
use crate::mir::{expand_memory_order, memory_order, MirType};
use crate::operands::{most_recent_of_kind, newest, Operand, TypeKind};
use crate::struct_slots::{StructSlotMap, StructSlots};
use crate::types::{
    build_struct_slot_map, lowered, convert_type, lowered_all, lemma_slots_of_fields,
    make_disjoint_slice_struct, make_slice_struct, slice_fields, struct_type_slots,
    tuple_type_slots, StructLayoutInfo,
};
use crate::collect::all_ok;
use crate::union_ops::{
    convert_extract_union_field, convert_insert_union_field, extracted_union_field,
    inserted_union_field,
};
use vstd::prelude::*;

verus! {

// ---------------------------------------------------------------------------
// Field indices
// ---------------------------------------------------------------------------

/// How declared field indices of an aggregate map to LLVM slots.
pub enum AggregateSlots {
    /// By the slot map that the type was converted with.
    Mapped(StructSlotMap),
    /// The declared index is the LLVM index.
    Identity,
}

/// The model of [`AggregateSlots`].
pub ghost enum AggregateSlotsShape {
    Mapped(StructSlots),
    Identity,
}

/// `{ ptr, i64, i32 }`: a slice with a runtime row width.
pub open spec fn row_width_slice() -> LlvmShape {
    LlvmShape::Struct(slice_fields().push(LlvmShape::Integer(32)))
}

/// Whether a type without a recorded history keeps field indices as they are.
pub open spec fn keeps_indices(ty: LlvmShape) -> bool {
    ty is Array || ty == LlvmShape::Struct(slice_fields()) || ty == row_width_slice()
}

/// Slots of an outcome, as a mapping.
pub open spec fn mapped(slots: Result<StructSlots, LowerError>) -> Result<
    AggregateSlotsShape,
    LowerError,
> {
    match slots {
        Err(e) => Err(e),
        Ok(s) => Ok(AggregateSlotsShape::Mapped(s)),
    }
}

/// How field indices of a value of LLVM type `ty` and the given history map to
/// slots.
pub open spec fn resolved_slots(ty: LlvmShape, history: Seq<MirType>) -> Result<
    AggregateSlotsShape,
    LowerError,
> {
    match newest(history, TypeKind::Struct) {
        Some(t) => mapped(struct_type_slots(t->Struct_0)),
        None => match newest(history, TypeKind::Tuple) {
            Some(t) => mapped(tuple_type_slots(t->Tuple_0)),
            None => if newest(history, TypeKind::Array) is Some || newest(
                history,
                TypeKind::Slice,
            ) is Some || newest(history, TypeKind::DisjointSlice) is Some || keeps_indices(ty) {
                Ok(AggregateSlotsShape::Identity)
            } else {
                Err(LowerError::NoFieldMapping)
            },
        },
    }
}

/// Whether `slots` are the ones that `shape` describes.
pub open spec fn slots_model(slots: AggregateSlots, shape: AggregateSlotsShape) -> bool {
    match (slots, shape) {
        (AggregateSlots::Mapped(map), AggregateSlotsShape::Mapped(s)) => {
            &&& map.models(s)
            &&& map.decl_to_llvm@.len() == map.field_llvm_types@.len()
        },
        (AggregateSlots::Identity, AggregateSlotsShape::Identity) => true,
        _ => false,
    }
}

fn map_slots(layout: &StructLayoutInfo<'_>) -> (r: Result<AggregateSlots, LowerError>)
    ensures
        match r {
            Ok(slots) => mapped(layout.slots()) is Ok && slots_model(
                slots,
                mapped(layout.slots())->Ok_0,
            ),
            Err(e) => mapped(layout.slots()) == Err::<AggregateSlotsShape, LowerError>(e),
        },
{
    match build_struct_slot_map(layout) {
        Err(e) => Err(e),
        Ok(map) => {
            assert(layout.field_types.len() <= usize::MAX);
            proof {
                lemma_slots_of_fields(
                    layout.field_types@,
                    layout.mem_to_decl@,
                    layout.field_offsets@,
                    layout.total_size,
                );
                assert(shapes(map.field_llvm_types@).len() == map.field_llvm_types@.len());
            }
            Ok(AggregateSlots::Mapped(map))
        },
    }
}

/// Says how field indices of an aggregate operand map to its LLVM type.
///
/// Without a recorded struct or tuple type, indices are kept only for arrays
/// and slice fat pointers, which are lowered without reordering, padding or
/// stripping. Anything else is refused: a guess would read the wrong field.
pub fn resolve_aggregate_slots(b: &Builder, aggregate: &Operand<'_>) -> (r: Result<
    AggregateSlots,
    LowerError,
>)
    requires
        valid(b@, aggregate.value),
    ensures
        ({
            let wanted = resolved_slots(value_type(b@, aggregate.value), aggregate.history@);
            match r {
                Ok(slots) => wanted is Ok && slots_model(slots, wanted->Ok_0),
                Err(e) => wanted == Err::<AggregateSlotsShape, LowerError>(e),
            }
        }),
{
    if let Some(t) = most_recent_of_kind(aggregate.history, TypeKind::Struct) {
        if let MirType::Struct(s) = t {
            let layout = StructLayoutInfo::of_struct(s);
            return map_slots(&layout);
        }
    }
    if let Some(t) = most_recent_of_kind(aggregate.history, TypeKind::Tuple) {
        if let MirType::Tuple(s) = t {
            let layout = StructLayoutInfo::of_tuple(s);
            return map_slots(&layout);
        }
    }
    if most_recent_of_kind(aggregate.history, TypeKind::Array).is_some() || most_recent_of_kind(
        aggregate.history,
        TypeKind::Slice,
    ).is_some() || most_recent_of_kind(aggregate.history, TypeKind::DisjointSlice).is_some() {
        return Ok(AggregateSlots::Identity);
    }
    let ty = b.value_type(aggregate.value);
    if let LlvmType::Array(_, _) = ty {
        return Ok(AggregateSlots::Identity);
    }
    let mut row: Vec<LlvmType> = Vec::new();
    row.push(LlvmType::pointer(GENERIC));
    row.push(LlvmType::integer(64));
    row.push(LlvmType::integer(32));
    assert(shapes(row@) =~= slice_fields().push(LlvmShape::Integer(32)));
    if ty.same_type(&make_slice_struct()) || ty.same_type(&LlvmType::structure(row)) {
        return Ok(AggregateSlots::Identity);
    }
    Err(LowerError::NoFieldMapping)
}

/// Where a declared field is: in a slot, or nowhere because it is zero-sized.
pub ghost enum FieldPlace {
    Slot(u32),
    ZeroSized(LlvmShape),
}

/// Where declared field `index` is.
pub open spec fn field_place(slots: AggregateSlotsShape, index: u32) -> Result<
    FieldPlace,
    LowerError,
> {
    match slots {
        AggregateSlotsShape::Identity => Ok(FieldPlace::Slot(index)),
        AggregateSlotsShape::Mapped(s) => if index >= s.decl_to_llvm.len() {
            Err(
                LowerError::FieldIndex { member: index, fields: s.decl_to_llvm.len() as usize },
            )
        } else {
            match s.decl_to_llvm[index as int] {
                Some(slot) => Ok(FieldPlace::Slot(slot)),
                None => Ok(FieldPlace::ZeroSized(s.field_types[index as int])),
            }
        },
    }
}

/// Reads field `index` of a struct, tuple, array or slice value.
pub open spec fn extracted_plain_field(
    b: Body,
    v: Value,
    history: Seq<MirType>,
    index: u32,
) -> (Body, Result<Value, LowerError>) {
    match resolved_slots(value_type(b, v), history) {
        Err(e) => (b, Err(e)),
        Ok(slots) => match field_place(slots, index) {
            Err(e) => (b, Err(e)),
            Ok(FieldPlace::ZeroSized(ty)) => {
                let (c, r) = with_undef(b, ty);
                (c, Ok(r))
            },
            Ok(FieldPlace::Slot(slot)) => with_extract(b, v, slot),
        },
    }
}

/// Reads field `index` of an aggregate value. A value that was lowered to a
/// plain integer is its own field.
pub open spec fn extracted_field(
    b: Body,
    v: Value,
    history: Seq<MirType>,
    index: Option<u32>,
) -> (Body, Result<Value, LowerError>) {
    match index {
        None => (b, Err(LowerError::MissingIndex)),
        Some(i) => match newest(history, TypeKind::Union) {
            Some(t) => extracted_union_field(b, v, t->Union_0, i),
            None => if value_type(b, v) is Integer {
                (b, Ok(v))
            } else {
                extracted_plain_field(b, v, history, i)
            },
        },
    }
}

/// Lowers a read of one field of an aggregate value.
pub fn convert_extract_field(b: &mut Builder, aggregate: &Operand<'_>, index: Option<u32>) -> (r:
    Result<Value, LowerError>)
    requires
        valid(old(b)@, aggregate.value),
    ensures
        (final(b)@, r) == extracted_field(
            old(b)@,
            aggregate.value,
            aggregate.history@,
            index,
        ),
        extends(old(b)@, final(b)@),
        r is Ok ==> valid(final(b)@, r->Ok_0),
{
    let i: u32 = match index {
        None => {
            return Err(LowerError::MissingIndex);
        },
        Some(i) => i,
    };
    if let Some(t) = most_recent_of_kind(aggregate.history, TypeKind::Union) {
        if let MirType::Union(u) = t {
            return convert_extract_union_field(b, aggregate.value, u, i);
        }
    }
    if let LlvmType::Integer(_) = b.value_type(aggregate.value) {
        return Ok(aggregate.value);
    }
    match resolve_aggregate_slots(b, aggregate) {
        Err(e) => Err(e),
        Ok(AggregateSlots::Identity) => b.extract(aggregate.value, i),
        Ok(AggregateSlots::Mapped(map)) => {
            if i as usize >= map.decl_to_llvm.len() {
                return Err(
                    LowerError::FieldIndex { member: i, fields: map.decl_to_llvm.len() },
                );
            }
            match map.decl_to_llvm[i as usize] {
                Some(slot) => b.extract(aggregate.value, slot),
                None => {
                    assert(shapes(map.field_llvm_types@)[i as int]
                        == map.field_llvm_types@[i as int]@);
                    Ok(b.undef(map.field_llvm_types[i as usize].duplicate()))
                },
            }
        },
    }
}

/// Replaces field `index` of an aggregate value. Replacing a zero-sized field
/// changes nothing.
pub open spec fn inserted_field(
    b: Body,
    v: Value,
    history: Seq<MirType>,
    new: Value,
    index: Option<u32>,
) -> (Body, Result<Value, LowerError>) {
    match index {
        None => (b, Err(LowerError::MissingIndex)),
        Some(i) => match newest(history, TypeKind::Union) {
            Some(t) => inserted_union_field(b, v, new, t->Union_0, i),
            None => match resolved_slots(value_type(b, v), history) {
                Err(e) => (b, Err(e)),
                Ok(slots) => match field_place(slots, i) {
                    Err(e) => (b, Err(e)),
                    Ok(FieldPlace::ZeroSized(_)) => (b, Ok(v)),
                    Ok(FieldPlace::Slot(slot)) => {
                        let (c, r) = with_insert(b, v, new, slot);
                        (c, Ok(r))
                    },
                },
            },
        },
    }
}

/// Lowers a replacement of one field of an aggregate value.
pub fn convert_insert_field(
    b: &mut Builder,
    aggregate: &Operand<'_>,
    new_value: Value,
    index: Option<u32>,
) -> (r: Result<Value, LowerError>)
    requires
        valid(old(b)@, aggregate.value),
        valid(old(b)@, new_value),
    ensures
        (final(b)@, r) == inserted_field(
            old(b)@,
            aggregate.value,
            aggregate.history@,
            new_value,
            index,
        ),
        extends(old(b)@, final(b)@),
        r is Ok ==> valid(final(b)@, r->Ok_0),
{
    let i: u32 = match index {
        None => {
            return Err(LowerError::MissingIndex);
        },
        Some(i) => i,
    };
    if let Some(t) = most_recent_of_kind(aggregate.history, TypeKind::Union) {
        if let MirType::Union(u) = t {
            return convert_insert_union_field(b, aggregate.value, new_value, u, i);
        }
    }
    match resolve_aggregate_slots(b, aggregate) {
        Err(e) => Err(e),
        Ok(AggregateSlots::Identity) => Ok(b.insert(aggregate.value, new_value, i)),
        Ok(AggregateSlots::Mapped(map)) => {
            if i as usize >= map.decl_to_llvm.len() {
                return Err(
                    LowerError::FieldIndex { member: i, fields: map.decl_to_llvm.len() },
                );
            }
            match map.decl_to_llvm[i as usize] {
                Some(slot) => Ok(b.insert(aggregate.value, new_value, slot)),
                None => Ok(aggregate.value),
            }
        },
    }
}

// ---------------------------------------------------------------------------
// Construction
// ---------------------------------------------------------------------------

/// `start` with the operands of the first `k` fields of `order` in their slots;
/// fields without a slot are skipped.
pub open spec fn filled_slots(
    b: Body,
    start: Value,
    slots: Seq<Option<u32>>,
    order: Seq<usize>,
    operands: Seq<Value>,
    k: int,
) -> (Body, Value)
    decreases k,
{
    if k <= 0 {
        (b, start)
    } else {
        let (b1, current) = filled_slots(b, start, slots, order, operands, k - 1);
        let field = order[k - 1] as int;
        match slots[field] {
            None => (b1, current),
            Some(slot) => with_insert(b1, current, operands[field], slot),
        }
    }
}

/// A struct built from its operands, one for each declared field.
pub open spec fn built_struct(
    b: Body,
    slots: Result<StructSlots, LowerError>,
    order: Seq<usize>,
    operands: Seq<Value>,
    fields: nat,
) -> (Body, Result<Value, LowerError>) {
    if operands.len() != fields {
        (
            b,
            Err(
                LowerError::OperandCount {
                    operands: operands.len() as usize,
                    fields: fields as usize,
                },
            ),
        )
    } else {
        match slots {
            Err(e) => (b, Err(e)),
            Ok(s) => {
                let (b1, start) = with_undef(b, LlvmShape::Struct(s.fields));
                let (b2, r) = filled_slots(
                    b1,
                    start,
                    s.decl_to_llvm,
                    order,
                    operands,
                    order.len() as int,
                );
                (b2, Ok(r))
            },
        }
    }
}

/// Construction of a value of struct type `t`, slot by ascending slot.
pub open spec fn constructed_struct(b: Body, t: MirType, operands: Seq<Value>) -> (
    Body,
    Result<Value, LowerError>,
) {
    match t {
        MirType::Struct(s) => built_struct(
            b,
            struct_type_slots(s),
            memory_order(s.mem_to_decl@, s.field_types@.len()),
            operands,
            s.field_types@.len(),
        ),
        _ => (b, Err(LowerError::UnexpectedType)),
    }
}

/// Construction of a value of tuple type `t`, in declaration order.
pub open spec fn constructed_tuple(b: Body, t: MirType, operands: Seq<Value>) -> (
    Body,
    Result<Value, LowerError>,
) {
    match t {
        MirType::Tuple(s) => built_struct(
            b,
            tuple_type_slots(s),
            memory_order(Seq::empty(), s.types@.len()),
            operands,
            s.types@.len(),
        ),
        _ => (b, Err(LowerError::UnexpectedType)),
    }
}

fn build_struct(
    b: &mut Builder,
    layout: &StructLayoutInfo<'_>,
    order: &Vec<usize>,
    operands: &Vec<Value>,
) -> (r: Result<Value, LowerError>)
    requires
        order@ == layout.mem_to_decl@ || order@ == memory_order(
            Seq::empty(),
            layout.field_types@.len(),
        ),
        forall|i: int| 0 <= i < operands@.len() ==> valid(old(b)@, #[trigger] operands@[i]),
    ensures
        (final(b)@, r) == built_struct(
            old(b)@,
            layout.slots(),
            order@,
            operands@,
            layout.field_types@.len(),
        ),
        extends(old(b)@, final(b)@),
        r is Ok ==> valid(final(b)@, r->Ok_0),
{
    let n: usize = layout.field_types.len();
    if operands.len() != n {
        return Err(LowerError::OperandCount { operands: operands.len(), fields: n });
    }
    let map = match build_struct_slot_map(layout) {
        Err(e) => {
            return Err(e);
        },
        Ok(map) => map,
    };
    let ghost s = layout.slots()->Ok_0;
    proof {
        lemma_slots_of_fields(
            layout.field_types@,
            layout.mem_to_decl@,
            layout.field_offsets@,
            layout.total_size,
        );
    }
    let ghost b0 = b@;
    let start = b.undef(map.llvm_struct_ty);
    let ghost b1 = b@;
    let mut current = start;
    for k in 0..order.len()
        invariant
            n == operands@.len(),
            n == map.decl_to_llvm@.len(),
            map.decl_to_llvm@ == s.decl_to_llvm,
            order@.len() == n,
            forall|i: int| 0 <= i < n ==> #[trigger] order@[i] < n,
            extends(b0, b1),
            extends(b1, b@),
            valid(b@, current),
            (b@, current) == filled_slots(
                b1,
                start,
                s.decl_to_llvm,
                order@,
                operands@,
                k as int,
            ),
    {
        let field: usize = order[k];
        let ghost c = b@;
        match map.decl_to_llvm[field] {
            None => {},
            Some(slot) => {
                current = b.insert(current, operands[field], slot);
                proof {
                    lemma_extends_transitive(b1, c, b@);
                }
            },
        }
    }
    proof {
        lemma_extends_transitive(b0, b1, b@);
    }
    Ok(current)
}

/// Lowers the construction of a struct value.
///
/// Operands come in declaration order; zero-sized ones have no slot and are
/// skipped.
pub fn convert_construct_struct(b: &mut Builder, result_ty: &MirType, operands: &Vec<Value>) -> (r:
    Result<Value, LowerError>)
    requires
        forall|i: int| 0 <= i < operands@.len() ==> valid(old(b)@, #[trigger] operands@[i]),
    ensures
        (final(b)@, r) == constructed_struct(old(b)@, *result_ty, operands@),
        extends(old(b)@, final(b)@),
        r is Ok ==> valid(final(b)@, r->Ok_0),
{
    match result_ty {
        MirType::Struct(s) => {
            let layout = StructLayoutInfo::of_struct(s);
            build_struct(b, &layout, &layout.mem_to_decl, operands)
        },
        _ => Err(LowerError::UnexpectedType),
    }
}

/// Lowers the construction of a tuple value.
pub fn convert_construct_tuple(b: &mut Builder, result_ty: &MirType, operands: &Vec<Value>) -> (r:
    Result<Value, LowerError>)
    requires
        forall|i: int| 0 <= i < operands@.len() ==> valid(old(b)@, #[trigger] operands@[i]),
    ensures
        (final(b)@, r) == constructed_tuple(old(b)@, *result_ty, operands@),
        extends(old(b)@, final(b)@),
        r is Ok ==> valid(final(b)@, r->Ok_0),
{
    match result_ty {
        MirType::Tuple(t) => {
            let layout = StructLayoutInfo::of_tuple(t);
            let declared: Vec<usize> = Vec::new();
            let order = expand_memory_order(&declared, t.types.len());
            assert(declared@ =~= Seq::empty());
            build_struct(b, &layout, &order, operands)
        },
        _ => Err(LowerError::UnexpectedType),
    }
}

/// `start` with the first `k` operands as its first `k` fields or elements.
pub open spec fn filled(b: Body, start: Value, operands: Seq<Value>, k: int) -> (Body, Value)
    decreases k,
{
    if k <= 0 {
        (b, start)
    } else {
        let (b1, current) = filled(b, start, operands, k - 1);
        with_insert(b1, current, operands[k - 1], (k - 1) as u32)
    }
}

/// A value of type `ty` built from its fields or elements in order.
pub open spec fn built(b: Body, ty: LlvmShape, operands: Seq<Value>) -> (Body, Value) {
    let (b1, start) = with_undef(b, ty);
    filled(b1, start, operands, operands.len() as int)
}

fn build(b: &mut Builder, ty: LlvmType, operands: &Vec<Value>) -> (r: Value)
    ensures
        (final(b)@, r) == built(old(b)@, ty@, operands@),
        extends(old(b)@, final(b)@),
        valid(final(b)@, r),
{
    let ghost b0 = b@;
    let start = b.undef(ty);
    let ghost b1 = b@;
    let mut current = start;
    for k in 0..operands.len()
        invariant
            extends(b0, b1),
            extends(b1, b@),
            valid(b@, current),
            (b@, current) == filled(b1, start, operands@, k as int),
    {
        let ghost c = b@;
        current = b.insert(current, operands[k], k as u32);
        proof {
            lemma_extends_transitive(b1, c, b@);
        }
    }
    proof {
        lemma_extends_transitive(b0, b1, b@);
    }
    current
}

/// Construction of a slice from its data pointer and length.
pub open spec fn constructed_slice(b: Body, t: MirType, data: Value, len: Value) -> (
    Body,
    Result<Value, LowerError>,
) {
    match t {
        MirType::Slice(_) => {
            let (b1, start) = with_undef(b, LlvmShape::Struct(slice_fields()));
            let (b2, with_data) = with_insert(b1, start, data, 0);
            let (b3, r) = with_insert(b2, with_data, len, 1);
            (b3, Ok(r))
        },
        _ => (b, Err(LowerError::UnexpectedType)),
    }
}

/// Lowers the construction of a slice fat pointer.
pub fn convert_construct_slice(b: &mut Builder, result_ty: &MirType, data: Value, len: Value) -> (r:
    Result<Value, LowerError>)
    ensures
        (final(b)@, r) == constructed_slice(old(b)@, *result_ty, data, len),
        extends(old(b)@, final(b)@),
        r is Ok ==> valid(final(b)@, r->Ok_0),
{
    match result_ty {
        MirType::Slice(_) => {
            let ghost b0 = b@;
            let start = b.undef(make_slice_struct());
            let ghost b1 = b@;
            let with_data = b.insert(start, data, 0);
            let ghost b2 = b@;
            let r = b.insert(with_data, len, 1);
            proof {
                lemma_extends_transitive(b0, b1, b2);
                lemma_extends_transitive(b0, b2, b@);
            }
            Ok(r)
        },
        _ => Err(LowerError::UnexpectedType),
    }
}

/// Construction of a disjoint slice from pointer, length and layout words.
pub open spec fn constructed_disjoint_slice(b: Body, t: MirType, operands: Seq<Value>) -> (
    Body,
    Result<Value, LowerError>,
) {
    match t {
        MirType::DisjointSlice(d) => if operands.len() != 2 + d.space_tys@.len() {
            (
                b,
                Err(
                    LowerError::OperandCount {
                        operands: operands.len() as usize,
                        fields: if 2 + d.space_tys@.len() <= usize::MAX {
                            (2 + d.space_tys@.len()) as usize
                        } else {
                            usize::MAX
                        },
                    },
                ),
            )
        } else {
            match all_ok(lowered_all(d.space_tys@)) {
                Err(e) => (b, Err(e)),
                Ok(spaces) => {
                    let (c, r) = built(
                        b,
                        LlvmShape::Struct(slice_fields() + spaces),
                        operands,
                    );
                    (c, Ok(r))
                },
            }
        },
        _ => (b, Err(LowerError::UnexpectedType)),
    }
}

/// Lowers the construction of a disjoint slice: one insert for the pointer, one
/// for the length, one for each runtime layout word.
pub fn convert_construct_disjoint_slice(
    b: &mut Builder,
    result_ty: &MirType,
    operands: &Vec<Value>,
) -> (r: Result<Value, LowerError>)
    ensures
        (final(b)@, r) == constructed_disjoint_slice(old(b)@, *result_ty, operands@),
        extends(old(b)@, final(b)@),
        r is Ok ==> valid(final(b)@, r->Ok_0),
{
    match result_ty {
        MirType::DisjointSlice(d) => {
            if operands.len() < 2 || operands.len() - 2 != d.space_tys.len() {
                let fields: usize = match d.space_tys.len().checked_add(2) {
                    Some(fields) => fields,
                    None => usize::MAX,
                };
                return Err(LowerError::OperandCount { operands: operands.len(), fields });
            }
            match make_disjoint_slice_struct(&d.space_tys) {
                Err(e) => Err(e),
                Ok(ty) => Ok(build(b, ty, operands)),
            }
        },
        _ => Err(LowerError::UnexpectedType),
    }
}

/// Construction of an array from its elements.
pub open spec fn constructed_array(b: Body, t: MirType, operands: Seq<Value>) -> (
    Body,
    Result<Value, LowerError>,
) {
    match t {
        MirType::Array(elem, n) => match lowered(*elem) {
            Err(e) => (b, Err(e)),
            Ok(e) => {
                let (c, r) = built(b, LlvmShape::Array(Box::new(e), n), operands);
                (c, Ok(r))
            },
        },
        _ => (b, Err(LowerError::UnexpectedType)),
    }
}

/// Lowers the construction of an array value.
pub fn convert_construct_array(b: &mut Builder, result_ty: &MirType, operands: &Vec<Value>) -> (r:
    Result<Value, LowerError>)
    ensures
        (final(b)@, r) == constructed_array(old(b)@, *result_ty, operands@),
        extends(old(b)@, final(b)@),
        r is Ok ==> valid(final(b)@, r->Ok_0),
{
    match result_ty {
        MirType::Array(elem, n) => match convert_type(elem) {
            Err(e) => Err(e),
            Ok(e) => Ok(build(b, LlvmType::array(e, *n), operands)),
        },
        _ => Err(LowerError::UnexpectedType),
    }
}

} // verus!
