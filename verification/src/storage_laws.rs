//! Which types can be stored in an enum, and where what was stored is found again.

use crate::aggregate::{extracted_field, inserted_field};
use crate::collect::{all_ok, all_some, lemma_all_ok_succeeds, lemma_all_ok_values};
use crate::enum_ops::fields_before;
use crate::enum_slots::{field_inhabited, field_owner};
use crate::error::LowerError;
use crate::globals::{accessed_dynamic, dynamic_key, dynamic_of, symbol_of, Globals};
use crate::ir::{value_type, with_extract, with_insert, Body, Op, Value};
use crate::layout::size_align;
use crate::llvm::{LlvmShape, GENERIC, SHARED};
use crate::mir::{MirEnumType, MirType};
use crate::operands::{newest, TypeKind};
use crate::storage::{
    contains_bool, contains_leaf, payload_storage, payload_storages, twin, twins, LeafKind,
};
use crate::types::slice_fields;
use crate::union_ops::{float_packing, integer_carrier, spilled};
use vstd::prelude::*;

verus! {

// ---------------------------------------------------------------------------
// Types that can be stored
// ---------------------------------------------------------------------------

/// Whether no vector in `t` holds an `i1`.
pub open spec fn no_packed_bools(t: LlvmShape) -> bool
    decreases t,
{
    match t {
        LlvmShape::Vector(_, _, _) => !contains_bool(t),
        LlvmShape::Array(elem, _) => no_packed_bools(*elem),
        LlvmShape::Struct(fields) => forall|i: int|
            0 <= i < fields.len() ==> no_packed_bools(#[trigger] fields[i]),
        _ => true,
    }
}

/// A type can be kept byte for byte exactly where no vector in it holds an `i1`.
pub proof fn law_loose_bools_have_bytes(t: LlvmShape)
    ensures
        twin(t) is Some <==> no_packed_bools(t),
        !contains_bool(t) ==> twin(t) == Some(t),
        t == LlvmShape::Integer(1) ==> twin(t) == Some(LlvmShape::Integer(8)),
    decreases t,
{
    match t {
        LlvmShape::Array(elem, _) => {
            law_loose_bools_have_bytes(*elem);
        },
        LlvmShape::Struct(fields) => {
            assert forall|i: int| 0 <= i < fields.len() implies (#[trigger] twins(fields)[i] is Some)
                == no_packed_bools(fields[i]) by {
                law_loose_bools_have_bytes(fields[i]);
                assert(twins(fields)[i] == twin(fields[i]));
            }
            if !contains_bool(t) {
                assert forall|i: int| 0 <= i < fields.len() implies no_packed_bools(
                    #[trigger] fields[i],
                ) by {
                    law_loose_bools_have_bytes(fields[i]);
                    assert(!contains_bool(fields[i]));
                }
            } else {
                let found = twins(fields);
                if forall|i: int| 0 <= i < fields.len() ==> no_packed_bools(#[trigger] fields[i]) {
                    assert forall|i: int| 0 <= i < found.len() implies #[trigger] found[i] is Some by {
                        assert(no_packed_bools(fields[i]));
                    }
                    assert(all_some(found) is Some);
                } else {
                    let i = choose|i: int|
                        0 <= i < fields.len() && !no_packed_bools(#[trigger] fields[i]);
                    assert(found[i] is None);
                    assert(all_some(found) is None);
                }
            }
        },
        _ => {},
    }
}

/// Whether no array or vector in `t` holds a shared-memory pointer, and no vector an `i1`.
pub open spec fn storable(t: LlvmShape) -> bool
    decreases t,
{
    match t {
        LlvmShape::Vector(_, _, _) | LlvmShape::Array(_, _) => no_packed_bools(t)
            && !contains_leaf(t, LeafKind::PointerIn(SHARED)),
        LlvmShape::Struct(fields) => forall|i: int|
            0 <= i < fields.len() ==> storable(#[trigger] fields[i]),
        _ => true,
    }
}

/// An enum can keep a payload exactly where no array or vector in it holds a shared-memory
/// pointer, and no vector an `i1`. A struct keeps each of its fields on its own.
pub proof fn law_storable_payloads_are_stored(t: LlvmShape)
    ensures
        payload_storage(t) is Ok <==> storable(t),
        t == LlvmShape::Pointer(SHARED) ==> payload_storage(t) == Ok::<LlvmShape, LowerError>(
            LlvmShape::Pointer(GENERIC),
        ),
        t is Struct && storable(t) ==> {
            let kept = payload_storage(t)->Ok_0;
            &&& kept is Struct
            &&& kept->Struct_0.len() == t->Struct_0.len()
            &&& forall|i: int|
                0 <= i < t->Struct_0.len() ==> payload_storage(t->Struct_0[i]) == Ok::<
                    LlvmShape,
                    LowerError,
                >(#[trigger] kept->Struct_0[i])
        },
    decreases t,
{
    match t {
        LlvmShape::Array(_, _) => {
            law_loose_bools_have_bytes(t);
        },
        LlvmShape::Struct(fields) => {
            let found = payload_storages(fields);
            let n = found.len() as int;
            assert forall|i: int| 0 <= i < fields.len() implies (#[trigger] found[i] is Ok)
                == storable(fields[i]) && found[i] == payload_storage(fields[i]) by {
                law_storable_payloads_are_stored(fields[i]);
            }
            if storable(t) {
                assert forall|i: int| 0 <= i < n implies #[trigger] found[i] is Ok by {
                    assert(storable(fields[i]));
                }
                lemma_all_ok_succeeds(found, n);
                lemma_all_ok_values(found, n);
                let kept = all_ok(found)->Ok_0;
                assert forall|i: int| 0 <= i < n implies payload_storage(fields[i]) == Ok::<
                    LlvmShape,
                    LowerError,
                >(#[trigger] kept[i]) by {
                    assert(found[i] is Ok);
                }
            } else if all_ok(found) is Ok {
                lemma_all_ok_values(found, n);
                let i = choose|i: int| 0 <= i < fields.len() && !storable(#[trigger] fields[i]);
                assert(found[i] is Ok);
            }
        },
        _ => {},
    }
}

// ---------------------------------------------------------------------------
// Owners of payload fields
// ---------------------------------------------------------------------------

/// Field `field` of variant `variant` belongs to that variant, wherever it stands in the list
/// of all payload fields, and takes bytes of the enum exactly where the variant can exist.
pub proof fn law_payload_fields_belong_to_their_variant(e: MirEnumType, variant: int, field: int)
    requires
        0 <= variant < e.variant_field_counts@.len(),
        0 <= field < e.variant_field_counts@[variant],
    ensures
        ({
            let counts = e.variant_field_counts@;
            &&& field_owner(counts, fields_before(counts, variant) + field, 0) == Some(variant)
            &&& field_inhabited(e, fields_before(counts, variant) + field) == e.inhabited(variant)
        }),
{
    lemma_owner(e.variant_field_counts@, variant, field, 0);
}

proof fn lemma_owner(counts: Seq<u32>, variant: int, field: int, from: int)
    requires
        0 <= from <= variant < counts.len(),
        0 <= field < counts[variant],
    ensures
        field_owner(
            counts,
            fields_before(counts, variant) - fields_before(counts, from) + field,
            from,
        ) == Some(variant),
    decreases variant - from,
{
    if from < variant {
        lemma_owner(counts, variant, field, from + 1);
        lemma_counts_grow(counts, from + 1, variant);
        assert(fields_before(counts, from + 1) == fields_before(counts, from) + counts[from]);
    }
}

proof fn lemma_counts_grow(counts: Seq<u32>, a: int, b: int)
    requires
        0 <= a <= b <= counts.len(),
    ensures
        fields_before(counts, a) <= fields_before(counts, b),
    decreases b - a,
{
    if a < b {
        lemma_counts_grow(counts, a, b - 1);
    }
}

// ---------------------------------------------------------------------------
// Values in stack slots
// ---------------------------------------------------------------------------

/// A value that is copied to a new stack slot is stored there as it is, in a slot of its type.
/// Slot and store carry the alignment that was given, where one was.
pub proof fn law_copied_values_are_aligned(b: Body, v: Value, ty: LlvmShape, align: u64)
    requires
        b.insts.len() + 3 < usize::MAX,
    ensures
        ({
            let (c, slot) = spilled(b, v, ty, align);
            let given = if align > 0 {
                Some(align as u32)
            } else {
                None::<u32>
            };
            let made = c.insts[slot->Inst_0 as int];
            &&& slot is Inst
            &&& b.insts.len() <= slot->Inst_0 < c.insts.len()
            &&& made.op is Alloca
            &&& made.op->Alloca_align == given
            &&& made.elem == ty
            &&& c.insts.last().op == Op::Store {
                value: v,
                ptr: slot,
                align: given,
                is_volatile: false,
            }
        }),
{
}

// ---------------------------------------------------------------------------
// Slices without a recorded type
// ---------------------------------------------------------------------------

/// A value of which no aggregate type was recorded has fields where it is an array, a slice,
/// or a slice with a row width: each field is the one at its index. Any other has none.
pub proof fn law_unrecorded_slices_keep_their_fields(
    b: Body,
    v: Value,
    history: Seq<MirType>,
    new: Value,
    index: u32,
)
    requires
        newest(history, TypeKind::Union) is None,
        newest(history, TypeKind::Struct) is None,
        newest(history, TypeKind::Tuple) is None,
        newest(history, TypeKind::Array) is None,
        newest(history, TypeKind::Slice) is None,
        newest(history, TypeKind::DisjointSlice) is None,
        !(value_type(b, v) is Integer),
    ensures
        ({
            let ty = value_type(b, v);
            let slice = seq![LlvmShape::Pointer(GENERIC), LlvmShape::Integer(64)];
            let rows = seq![
                LlvmShape::Pointer(GENERIC),
                LlvmShape::Integer(64),
                LlvmShape::Integer(32),
            ];
            let known = ty is Array || ty == LlvmShape::Struct(slice) || ty == LlvmShape::Struct(
                rows,
            );
            &&& known ==> extracted_field(b, v, history, Some(index)) == with_extract(b, v, index)
            &&& known ==> ({
                let (c, r) = with_insert(b, v, new, index);
                inserted_field(b, v, history, new, Some(index)) == (c, Ok::<Value, LowerError>(r))
            })
            &&& !known ==> extracted_field(b, v, history, Some(index)).1 is Err
            &&& !known ==> inserted_field(b, v, history, new, Some(index)).1 is Err
        }),
{
    let slice = seq![LlvmShape::Pointer(GENERIC), LlvmShape::Integer(64)];
    let rows = seq![
        LlvmShape::Pointer(GENERIC),
        LlvmShape::Integer(64),
        LlvmShape::Integer(32),
    ];
    assert(slice_fields() =~= slice);
    assert(slice_fields().push(LlvmShape::Integer(32)) =~= rows);
}

// ---------------------------------------------------------------------------
// Dynamic shared memory
// ---------------------------------------------------------------------------

/// The first access to a function's dynamic shared memory makes one variable in shared
/// memory: without bytes of its own, defined elsewhere, and aligned as was computed for the
/// function.
pub proof fn law_dynamic_memory_is_made_as_computed(
    g: Globals,
    function: Seq<char>,
    byte_offset: u64,
)
    requires
        dynamic_of(g.dynamic, function, 0) is Some,
        symbol_of(g.shared, dynamic_key(function), 0) is None,
    ensures
        ({
            let (h, r) = accessed_dynamic(g, function, byte_offset);
            let d = dynamic_of(g.dynamic, function, 0)->Some_0;
            let made = h.globals[0];
            &&& r is Ok
            &&& h.globals.len() == g.globals.len() + 1
            &&& h.globals.skip(1) == g.globals
            &&& made.name == d.symbol
            &&& made.alignment == d.alignment
            &&& made.address_space == SHARED
            &&& made.is_external
            &&& !made.is_immutable
            &&& made.initializer_hex is None
            &&& size_align(made.ty) == Some((0u64, 1u64))
            &&& r->Ok_0.symbol == d.symbol
            &&& r->Ok_0.address_space == SHARED
            &&& r->Ok_0.byte_offset == byte_offset
        }),
{
    let (h, r) = accessed_dynamic(g, function, byte_offset);
    assert(h.globals.skip(1) =~= g.globals);
    assert(size_align(LlvmShape::Integer(8)) == Some((1u64, 1u64)));
    assert(1 * 0 == 0);
}

// ---------------------------------------------------------------------------
// Floats in a union's integer
// ---------------------------------------------------------------------------

/// An array of floats is packed into a union exactly where an integer slot of the union's
/// size has as many bits as the array; of several, the first such slot is used.
pub proof fn law_float_arrays_are_packed(
    elem: LlvmShape,
    n: u64,
    fields: Seq<LlvmShape>,
    size: u64,
    slot: int,
    width: u32,
)
    requires
        fields.len() <= u32::MAX,
        0 <= slot < fields.len(),
        fields[slot] == LlvmShape::Integer(width),
        (width + 7) / 8 == size,
        forall|i: int|
            0 <= i < slot ==> !((#[trigger] fields[i]) matches LlvmShape::Integer(w) && (w + 7) / 8
                == size),
    ensures
        ({
            let found = float_packing(
                LlvmShape::Array(Box::new(elem), n),
                LlvmShape::Struct(fields),
                size,
            );
            let bits: u32 = if elem is Float {
                32
            } else {
                64
            };
            &&& found is Some <==> (elem is Float || elem is Double) && n * bits == width
            &&& found is Some ==> found->Some_0 == (n, bits, slot as u32, width)
        }),
{
    lemma_integer_carrier(fields, size, 0, slot);
}

proof fn lemma_integer_carrier(fields: Seq<LlvmShape>, size: u64, from: int, slot: int)
    requires
        0 <= from <= slot < fields.len() <= u32::MAX,
        fields[slot] is Integer,
        (fields[slot]->Integer_0 + 7) / 8 == size,
        forall|i: int|
            from <= i < slot ==> !((#[trigger] fields[i]) matches LlvmShape::Integer(w) && (w + 7)
                / 8 == size),
    ensures
        integer_carrier(fields, size, from) == Some(
            (slot as u32, fields[slot]->Integer_0),
        ),
    decreases slot - from,
{
    if from < slot {
        assert(!(fields[from] matches LlvmShape::Integer(w) && (w + 7) / 8 == size));
        lemma_integer_carrier(fields, size, from + 1, slot);
    }
}

} // verus!
