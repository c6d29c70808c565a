//! What aggregate values hold, and which part of them is read or replaced.

use crate::aggregate::{
    built, constructed_array, constructed_disjoint_slice, constructed_slice, constructed_struct,
    constructed_tuple, extracted_field, filled, filled_slots, inserted_field,
};
use crate::array_ops::{
    array_element_address, bounded_by_remainder, element_align, extracted_bounded,
    extracted_candidates, extracted_element, extracted_small, selected_candidate, selected_element,
    selected_on_match, MAX_SSA_ARRAY_ELEMENTS,
};
use crate::byte_laws::{lemma_spilled, law_array_read_through_memory_gives_element};
use crate::cast_op_laws::{only_adds, only_new_slots};
use crate::collect::{all_ok, lemma_all_ok_succeeds, lemma_all_ok_values};
use crate::error::LowerError;
use crate::ir::{
    defining_op, element_type, lemma_extends_value, rank, valid, value_type, with_extract, with_gep,
    with_insert, with_stack_slot, with_store, with_undef, BinOp, Body, GepIndex, GepPath, Op, Value,
};
use crate::layout::size_align;
use crate::llvm::{LlvmShape, GENERIC};
use crate::memory_laws::lemma_new_load;
use crate::mir::{memory_order, MirDisjointSliceType, MirPtrType, MirType};
use crate::operands::{newest, TypeKind};
use crate::quiet::{lemma_quiet_memory, lemma_quiet_transitive, quiet};
use crate::semantics::{
    index_fits, law_bounded_array_read_gives_element, law_small_array_read_gives_element,
    lemma_extract_value, lemma_insert_value, lemma_value_stable, memory_after, operand_value,
    undefined, value_of, Env,
};
use crate::types::{lowered, lowered_all, struct_type_slots, tuple_type_slots};
use crate::values::{well_typed, Val};
use vstd::prelude::*;

verus! {

// ---------------------------------------------------------------------------
// Construction
// ---------------------------------------------------------------------------

/// The values of a list.
pub open spec fn values_of(b: Body, env: Env, operands: Seq<Value>) -> Seq<Val> {
    Seq::new(operands.len(), |i: int| value_of(b, env, operands[i]))
}

/// Whether all of a list are values.
pub open spec fn all_valid(b: Body, operands: Seq<Value>) -> bool {
    forall|i: int| 0 <= i < operands.len() ==> valid(b, #[trigger] operands[i])
}

proof fn lemma_filled(b: Body, env: Env, start: Value, operands: Seq<Value>, n: int, k: int)
    requires
        0 <= k <= operands.len() <= n,
        operands.len() <= 0x1_0000_0000,
        b.insts.len() + k <= usize::MAX,
        valid(b, start),
        value_of(b, env, start) is Aggregate,
        value_of(b, env, start)->Aggregate_0.len() == n,
        all_valid(b, operands),
    ensures
        ({
            let (c, r) = filled(b, start, operands, k);
            &&& quiet(b, c)
            &&& c.insts.len() == b.insts.len() + k
            &&& valid(c, r)
            &&& value_type(c, r) == value_type(b, start)
            &&& value_of(c, env, r) is Aggregate
            &&& value_of(c, env, r)->Aggregate_0.len() == n
            &&& forall|j: int|
                0 <= j < k ==> #[trigger] value_of(c, env, r)->Aggregate_0[j] == value_of(
                    b,
                    env,
                    operands[j],
                )
        }),
    decreases k,
{
    if k > 0 {
        lemma_filled(b, env, start, operands, n, k - 1);
        let (b1, current) = filled(b, start, operands, k - 1);
        let s = value_of(b1, env, current)->Aggregate_0;
        assert(valid(b, operands[k - 1]));
        lemma_extends_value(b, b1, operands[k - 1]);
        lemma_value_stable(b, b1, env, operands[k - 1]);
        lemma_insert_value(b1, env, current, operands[k - 1], (k - 1) as u32, s);
        let c = filled(b, start, operands, k).0;
        assert(quiet(b1, c));
        lemma_quiet_transitive(b, b1, c);
    }
}

proof fn lemma_built(b: Body, env: Env, ty: LlvmShape, operands: Seq<Value>)
    requires
        operands.len() <= 0x1_0000_0000,
        b.insts.len() + operands.len() + 1 <= usize::MAX,
        all_valid(b, operands),
        undefined(ty) is Aggregate,
        undefined(ty)->Aggregate_0.len() == operands.len(),
    ensures
        ({
            let (c, r) = built(b, ty, operands);
            &&& valid(c, r)
            &&& value_type(c, r) == ty
            &&& value_of(c, env, r) == Val::Aggregate(values_of(b, env, operands))
            &&& memory_after(c, env) == memory_after(b, env)
        }),
{
    let (b1, start) = with_undef(b, ty);
    assert(quiet(b, b1));
    let n = operands.len() as int;
    assert forall|i: int| 0 <= i < operands.len() implies valid(b1, #[trigger] operands[i]) by {
        lemma_extends_value(b, b1, operands[i]);
    }
    lemma_filled(b1, env, start, operands, n, n);
    let (c, r) = filled(b1, start, operands, n);
    lemma_quiet_transitive(b, b1, c);
    lemma_quiet_memory(b, c, env);
    let s = value_of(c, env, r)->Aggregate_0;
    assert forall|j: int| 0 <= j < n implies #[trigger] s[j] == values_of(b, env, operands)[j] by {
        assert(valid(b, operands[j]));
        lemma_value_stable(b, b1, env, operands[j]);
        assert(value_of(c, env, r)->Aggregate_0[j] == value_of(b1, env, operands[j]));
    }
    assert(s =~= values_of(b, env, operands));
}

/// A slice that is built holds its data pointer and its length. Only slice types are
/// built so.
pub proof fn law_slices_hold_pointer_and_length(
    b: Body,
    env: Env,
    t: MirType,
    data: Value,
    len: Value,
)
    requires
        b.insts.len() + 3 <= usize::MAX,
        valid(b, data),
        valid(b, len),
    ensures
        ({
            let (c, r) = constructed_slice(b, t, data, len);
            &&& r is Ok <==> t is Slice
            &&& r is Err ==> c == b
            &&& r is Ok ==> {
                &&& valid(c, r->Ok_0)
                &&& value_type(c, r->Ok_0) == LlvmShape::Struct(
                    seq![LlvmShape::Pointer(GENERIC), LlvmShape::Integer(64)],
                )
                &&& value_of(c, env, r->Ok_0) == Val::Aggregate(
                    seq![value_of(b, env, data), value_of(b, env, len)],
                )
                &&& memory_after(c, env) == memory_after(b, env)
            }
        }),
{
    if t is Slice {
        let ty = LlvmShape::Struct(seq![LlvmShape::Pointer(GENERIC), LlvmShape::Integer(64)]);
        let (b1, start) = with_undef(b, ty);
        assert(quiet(b, b1));
        let empty = Seq::new(2, |i: int| Val::Undef);
        assert(value_of(b1, env, start) == undefined(ty));
        assert(undefined(ty) == Val::Aggregate(empty));
        lemma_extends_value(b, b1, data);
        lemma_value_stable(b, b1, env, data);
        lemma_insert_value(b1, env, start, data, 0, empty);
        let (b2, with_data) = with_insert(b1, start, data, 0);
        assert(quiet(b1, b2));
        lemma_quiet_transitive(b, b1, b2);
        lemma_extends_value(b, b2, len);
        lemma_value_stable(b, b2, env, len);
        let half = empty.update(0, value_of(b, env, data));
        lemma_insert_value(b2, env, with_data, len, 1, half);
        let (b3, r) = with_insert(b2, with_data, len, 1);
        assert(quiet(b2, b3));
        lemma_quiet_transitive(b, b2, b3);
        lemma_quiet_memory(b, b3, env);
        assert(half.update(1, value_of(b, env, len)) =~= seq![
            value_of(b, env, data),
            value_of(b, env, len),
        ]);
    }
}

/// A slice of uniquely owned elements that is built holds its operands in order: its data
/// pointer, its length and what its index space holds. It takes one operand for each.
pub proof fn law_disjoint_slices_hold_their_operands(
    b: Body,
    env: Env,
    d: MirDisjointSliceType,
    spaces: Seq<LlvmShape>,
    operands: Seq<Value>,
)
    requires
        operands.len() <= 0x1_0000_0000,
        b.insts.len() + operands.len() + 1 <= usize::MAX,
        all_valid(b, operands),
        spaces.len() == d.space_tys@.len(),
        forall|i: int|
            0 <= i < spaces.len() ==> lowered(#[trigger] d.space_tys@[i]) == Ok::<
                LlvmShape,
                LowerError,
            >(spaces[i]),
    ensures
        ({
            let (c, r) = constructed_disjoint_slice(b, MirType::DisjointSlice(d), operands);
            &&& r is Ok <==> operands.len() == 2 + spaces.len()
            &&& r is Err ==> c == b
            &&& r is Ok ==> {
                &&& valid(c, r->Ok_0)
                &&& value_type(c, r->Ok_0) == LlvmShape::Struct(
                    seq![LlvmShape::Pointer(GENERIC), LlvmShape::Integer(64)] + spaces,
                )
                &&& value_of(c, env, r->Ok_0) == Val::Aggregate(values_of(b, env, operands))
                &&& memory_after(c, env) == memory_after(b, env)
            }
        }),
{
    let found = lowered_all(d.space_tys@);
    assert forall|i: int| 0 <= i < found.len() implies #[trigger] found[i] is Ok by {
        assert(lowered(d.space_tys@[i]) is Ok);
    }
    lemma_all_ok_succeeds(found, found.len() as int);
    lemma_all_ok_values(found, found.len() as int);
    assert(all_ok(found)->Ok_0 =~= spaces) by {
        assert forall|i: int| 0 <= i < spaces.len() implies all_ok(found)->Ok_0[i]
            == spaces[i] by {
            assert(found[i] is Ok);
            assert(lowered(d.space_tys@[i]) is Ok);
        }
    }
    if operands.len() == 2 + spaces.len() {
        lemma_built(
            b,
            env,
            LlvmShape::Struct(
                seq![LlvmShape::Pointer(GENERIC), LlvmShape::Integer(64)] + spaces,
            ),
            operands,
        );
    }
}

/// An array that is built holds its operands in order.
pub proof fn law_arrays_hold_their_operands(
    b: Body,
    env: Env,
    elem: MirType,
    n: u64,
    t: LlvmShape,
    operands: Seq<Value>,
)
    requires
        operands.len() <= 0x1_0000_0000,
        b.insts.len() + operands.len() + 1 <= usize::MAX,
        all_valid(b, operands),
        operands.len() == n,
        lowered(elem) == Ok::<LlvmShape, LowerError>(t),
    ensures
        ({
            let (c, r) = constructed_array(b, MirType::Array(Box::new(elem), n), operands);
            &&& r is Ok
            &&& valid(c, r->Ok_0)
            &&& value_type(c, r->Ok_0) == LlvmShape::Array(Box::new(t), n)
            &&& value_of(c, env, r->Ok_0) == Val::Aggregate(values_of(b, env, operands))
            &&& memory_after(c, env) == memory_after(b, env)
        }),
{
    lemma_built(b, env, LlvmShape::Array(Box::new(t), n), operands);
}

proof fn lemma_filled_slots_quiet(
    b: Body,
    start: Value,
    slots: Seq<Option<u32>>,
    order: Seq<usize>,
    operands: Seq<Value>,
    k: int,
)
    requires
        valid(b, start),
        0 <= k,
        b.insts.len() + k <= usize::MAX,
    ensures
        ({
            let (c, r) = filled_slots(b, start, slots, order, operands, k);
            &&& quiet(b, c)
            &&& c.insts.len() <= b.insts.len() + k
            &&& valid(c, r)
            &&& value_type(c, r) == value_type(b, start)
        }),
    decreases k,
{
    if k > 0 {
        lemma_filled_slots_quiet(b, start, slots, order, operands, k - 1);
        let (b1, current) = filled_slots(b, start, slots, order, operands, k - 1);
        let c = filled_slots(b, start, slots, order, operands, k).0;
        assert(quiet(b1, c));
        lemma_quiet_transitive(b, b1, c);
    }
}

/// A struct or a tuple is built of one operand for each of its fields, as a value of its
/// LLVM equivalent and without memory. Nothing else keeps it from being built.
pub proof fn law_structs_are_built_of_their_fields(
    b: Body,
    env: Env,
    t: MirType,
    operands: Seq<Value>,
)
    requires
        t matches MirType::Struct(s) ==> b.insts.len() + s.field_types@.len() + s.mem_to_decl@.len()
            + 2 <= usize::MAX,
        t matches MirType::Tuple(s) ==> b.insts.len() + s.types@.len() + 2 <= usize::MAX,
    ensures
        ({
            let (c, r) = constructed_struct(b, t, operands);
            &&& r is Ok <==> (t matches MirType::Struct(s) && operands.len()
                == s.field_types@.len() && lowered(t) is Ok)
            &&& r is Err ==> c == b
            &&& r is Ok ==> {
                &&& valid(c, r->Ok_0)
                &&& Ok::<LlvmShape, LowerError>(value_type(c, r->Ok_0)) == lowered(t)
                &&& memory_after(c, env) == memory_after(b, env)
            }
        }),
        ({
            let (c, r) = constructed_tuple(b, t, operands);
            &&& r is Ok <==> (t matches MirType::Tuple(s) && operands.len() == s.types@.len()
                && lowered(t) is Ok)
            &&& r is Err ==> c == b
            &&& r is Ok ==> {
                &&& valid(c, r->Ok_0)
                &&& Ok::<LlvmShape, LowerError>(value_type(c, r->Ok_0)) == lowered(t)
                &&& memory_after(c, env) == memory_after(b, env)
            }
        }),
{
    match t {
        MirType::Struct(s) => {
            if operands.len() == s.field_types@.len() && struct_type_slots(s) is Ok {
                let slots = struct_type_slots(s)->Ok_0;
                let order = memory_order(s.mem_to_decl@, s.field_types@.len());
                let (b1, start) = with_undef(b, LlvmShape::Struct(slots.fields));
                assert(quiet(b, b1));
                let k = order.len() as int;
                lemma_filled_slots_quiet(b1, start, slots.decl_to_llvm, order, operands, k);
                let c = filled_slots(b1, start, slots.decl_to_llvm, order, operands, k).0;
                lemma_quiet_transitive(b, b1, c);
                lemma_quiet_memory(b, c, env);
            }
        },
        MirType::Tuple(s) => {
            if operands.len() == s.types@.len() && tuple_type_slots(s) is Ok {
                let slots = tuple_type_slots(s)->Ok_0;
                let order = memory_order(Seq::empty(), s.types@.len());
                let (b1, start) = with_undef(b, LlvmShape::Struct(slots.fields));
                assert(quiet(b, b1));
                let k = order.len() as int;
                lemma_filled_slots_quiet(b1, start, slots.decl_to_llvm, order, operands, k);
                let c = filled_slots(b1, start, slots.decl_to_llvm, order, operands, k).0;
                lemma_quiet_transitive(b, b1, c);
                lemma_quiet_memory(b, c, env);
            }
        },
        _ => {},
    }
}

// ---------------------------------------------------------------------------
// Fields
// ---------------------------------------------------------------------------

/// Where a declared field stands in the value of a struct or tuple of the given history:
/// in a slot, or nowhere because it takes no bytes.
pub open spec fn declared_slot(history: Seq<MirType>, index: u32) -> Option<Option<u32>> {
    let slots = match newest(history, TypeKind::Struct) {
        Some(MirType::Struct(s)) => struct_type_slots(s),
        _ => match newest(history, TypeKind::Tuple) {
            Some(MirType::Tuple(t)) => tuple_type_slots(t),
            _ => Err(LowerError::NoFieldMapping),
        },
    };
    match slots {
        Ok(s) => if index < s.decl_to_llvm.len() {
            Some(s.decl_to_llvm[index as int])
        } else {
            None
        },
        Err(_) => None,
    }
}

/// Whether the fields of a value are those of its LLVM type, in order: that of an array or
/// of a slice, with no struct, tuple or union recorded.
pub open spec fn has_plain_fields(history: Seq<MirType>) -> bool {
    &&& newest(history, TypeKind::Union) is None
    &&& newest(history, TypeKind::Struct) is None
    &&& newest(history, TypeKind::Tuple) is None
    &&& newest(history, TypeKind::Array) is Some || newest(history, TypeKind::Slice) is Some
        || newest(history, TypeKind::DisjointSlice) is Some
}

/// Reading a field of any struct or tuple value gives what stands in the field's slot, and
/// reading one that takes no bytes gives an undefined value. A field of an array or a slice
/// is the one at its index.
pub proof fn law_fields_are_read_from_their_slots(
    b: Body,
    env: Env,
    v: Value,
    history: Seq<MirType>,
    index: u32,
    s: Seq<Val>,
)
    requires
        b.insts.len() < usize::MAX,
        valid(b, v),
        !(value_type(b, v) is Integer),
        newest(history, TypeKind::Union) is None,
        value_of(b, env, v) == Val::Aggregate(s),
    ensures
        ({
            let (c, r) = extracted_field(b, v, history, Some(index));
            let slot = if has_plain_fields(history) {
                Some(Some(index))
            } else {
                declared_slot(history, index)
            };
            &&& (slot matches Some(Some(k)) && k < s.len() && element_type(value_type(b, v), k)
                is Some) ==> {
                &&& r is Ok
                &&& valid(c, r->Ok_0)
                &&& Some(value_type(c, r->Ok_0)) == element_type(
                    value_type(b, v),
                    slot->Some_0->Some_0,
                )
                &&& value_of(c, env, r->Ok_0) == s[slot->Some_0->Some_0 as int]
            }
            &&& slot == Some(None::<u32>) ==> r is Ok && c.insts.last().op is Undef
            &&& (slot matches Some(Some(k)) && element_type(value_type(b, v), k) is None)
                ==> r is Err
            &&& slot is None && (newest(history, TypeKind::Struct) is Some || newest(
                history,
                TypeKind::Tuple,
            ) is Some) ==> r is Err
            &&& memory_after(c, env) == memory_after(b, env)
            &&& extracted_field(b, v, history, None).1 is Err
        }),
{
    lemma_newest_forms(history);
    let (c, r) = extracted_field(b, v, history, Some(index));
    let slot = if has_plain_fields(history) {
        Some(Some(index))
    } else {
        declared_slot(history, index)
    };
    if let Some(Some(k)) = slot {
        if k < s.len() && element_type(value_type(b, v), k) is Some {
            lemma_extract_value(b, env, v, k, s);
        }
    }
    assert(quiet(b, c));
    lemma_quiet_memory(b, c, env);
}

/// The newest type of a kind is of that form.
proof fn lemma_newest_forms(history: Seq<MirType>)
    ensures
        newest(history, TypeKind::Struct) matches Some(t) ==> t is Struct,
        newest(history, TypeKind::Tuple) matches Some(t) ==> t is Tuple,
        newest(history, TypeKind::Union) matches Some(t) ==> t is Union,
{
    lemma_recent_kind(history, TypeKind::Struct, history.len() as int);
    lemma_recent_kind(history, TypeKind::Tuple, history.len() as int);
    lemma_recent_kind(history, TypeKind::Union, history.len() as int);
}

proof fn lemma_recent_kind(history: Seq<MirType>, kind: TypeKind, k: int)
    ensures
        crate::operands::recent(history, kind, k) matches Some(t) ==> crate::operands::kind_of(t)
            == kind,
    decreases k,
{
    if k > 0 {
        lemma_recent_kind(history, kind, k - 1);
    }
}

/// A value that is a plain integer is its own field.
pub proof fn law_integers_are_their_own_field(
    b: Body,
    v: Value,
    history: Seq<MirType>,
    index: u32,
)
    requires
        value_type(b, v) is Integer,
        newest(history, TypeKind::Union) is None,
    ensures
        extracted_field(b, v, history, Some(index)) == (b, Ok::<Value, LowerError>(v)),
{
}

/// Replacing a field of any struct or tuple value replaces what stands in the field's slot
/// and keeps the other slots. Replacing one that takes no bytes gives the value back. A
/// field of an array or a slice is the one at its index.
pub proof fn law_fields_are_replaced_in_their_slots(
    b: Body,
    env: Env,
    v: Value,
    history: Seq<MirType>,
    new: Value,
    index: u32,
    s: Seq<Val>,
)
    requires
        b.insts.len() < usize::MAX,
        valid(b, v),
        valid(b, new),
        newest(history, TypeKind::Union) is None,
        value_of(b, env, v) == Val::Aggregate(s),
    ensures
        ({
            let (c, r) = inserted_field(b, v, history, new, Some(index));
            let slot = if has_plain_fields(history) {
                Some(Some(index))
            } else {
                declared_slot(history, index)
            };
            &&& (slot matches Some(Some(k)) && k < s.len()) ==> {
                &&& r is Ok
                &&& valid(c, r->Ok_0)
                &&& value_type(c, r->Ok_0) == value_type(b, v)
                &&& value_of(c, env, r->Ok_0) == Val::Aggregate(
                    s.update(slot->Some_0->Some_0 as int, value_of(b, env, new)),
                )
            }
            &&& slot == Some(None::<u32>) ==> c == b && r == Ok::<Value, LowerError>(v)
            &&& slot is None && (newest(history, TypeKind::Struct) is Some || newest(
                history,
                TypeKind::Tuple,
            ) is Some) ==> r is Err
            &&& memory_after(c, env) == memory_after(b, env)
            &&& inserted_field(b, v, history, new, None).1 is Err
        }),
{
    lemma_newest_forms(history);
    let (c, r) = inserted_field(b, v, history, new, Some(index));
    let slot = if has_plain_fields(history) {
        Some(Some(index))
    } else {
        declared_slot(history, index)
    };
    if let Some(Some(k)) = slot {
        if k < s.len() {
            lemma_insert_value(b, env, v, new, k, s);
        }
    }
    assert(quiet(b, c));
    lemma_quiet_memory(b, c, env);
}

// ---------------------------------------------------------------------------
// Array elements
// ---------------------------------------------------------------------------

proof fn lemma_selected_element_quiet(b: Body, array: Value, index: Value, selected: Value, j: int)
    requires
        b.insts.len() + 4 * j <= usize::MAX,
        valid(b, selected),
    ensures
        ({
            let (c, r) = selected_element(b, array, index, selected, j);
            &&& quiet(b, c)
            &&& r is Ok ==> valid(c, r->Ok_0)
            &&& c.insts.len() <= b.insts.len() + if j > 0 {
                4 * j
            } else {
                0
            }
        }),
    decreases j,
{
    if j > 0 {
        let (b1, extracted) = with_extract(b, array, (j - 1) as u32);
        assert(quiet(b, b1));
        if extracted is Ok {
            let (b2, next) = selected_on_match(
                b1,
                index,
                j - 1,
                extracted->Ok_0,
                selected,
                false,
            );
            assert(quiet(b1, b2));
            lemma_quiet_transitive(b, b1, b2);
            if next is Ok {
                lemma_selected_element_quiet(b2, array, index, next->Ok_0, j - 1);
                lemma_quiet_transitive(
                    b,
                    b2,
                    selected_element(b2, array, index, next->Ok_0, j - 1).0,
                );
            }
        }
    }
}

proof fn lemma_candidates_quiet(b: Body, array: Value, k: int)
    requires
        0 <= k,
        b.insts.len() + k <= usize::MAX,
    ensures
        ({
            let (c, r) = extracted_candidates(b, array, k);
            &&& quiet(b, c)
            &&& c.insts.len() <= b.insts.len() + k
            &&& r is Ok ==> r->Ok_0.len() == k && all_valid(c, r->Ok_0)
        }),
    decreases k,
{
    if k > 0 {
        lemma_candidates_quiet(b, array, k - 1);
        let (b1, before) = extracted_candidates(b, array, k - 1);
        if before is Ok {
            let (b2, extracted) = with_extract(b1, array, (k - 1) as u32);
            assert(quiet(b1, b2));
            lemma_quiet_transitive(b, b1, b2);
            if extracted is Ok {
                let all = before->Ok_0.push(extracted->Ok_0);
                assert forall|i: int| 0 <= i < all.len() implies valid(b2, #[trigger] all[i]) by {
                    if i < k - 1 {
                        assert(valid(b1, before->Ok_0[i]));
                        lemma_extends_value(b1, b2, before->Ok_0[i]);
                    }
                }
            }
        }
    }
}

proof fn lemma_selected_candidate_quiet(
    b: Body,
    index: Value,
    candidates: Seq<Value>,
    selected: Value,
    j: int,
)
    requires
        b.insts.len() + 4 * j <= usize::MAX,
        valid(b, selected),
    ensures
        ({
            let (c, r) = selected_candidate(b, index, candidates, selected, j);
            &&& quiet(b, c)
            &&& r is Ok ==> valid(c, r->Ok_0)
            &&& c.insts.len() <= b.insts.len() + if j > 0 {
                4 * j
            } else {
                0
            }
        }),
    decreases j,
{
    if j > 0 {
        let (b1, next) = selected_on_match(b, index, j - 1, candidates[j - 1], selected, false);
        assert(quiet(b, b1));
        if next is Ok {
            lemma_selected_candidate_quiet(b1, index, candidates, next->Ok_0, j - 1);
            lemma_quiet_transitive(
                b,
                b1,
                selected_candidate(b1, index, candidates, next->Ok_0, j - 1).0,
            );
        }
    }
}

/// An index that is a remainder by a constant is below the constant.
proof fn lemma_remainder_bounds(b: Body, env: Env, index: Value, size: u64, i: nat)
    requires
        bounded_by_remainder(b, index, size) is Some,
        value_of(b, env, index) == Val::Int(i),
    ensures
        i < bounded_by_remainder(b, index, size)->Some_0 <= 16,
        bounded_by_remainder(b, index, size)->Some_0 <= size,
{
    let k = index->Inst_0 as int;
    let op = b.insts[k].op;
    let rhs = op->Binary_rhs;
    let bits = b.insts[rhs->Inst_0 as int].op->Constant_bits;
    if rank(rhs) < rank(index) {
        assert(value_of(b, env, rhs) == Val::Int(bits as nat));
        let m = operand_value(b, env, op->Binary_lhs, index);
        if let Val::Int(x) = m {
            vstd::arithmetic::div_mod::lemma_mod_bound(x as int, bits as int);
        }
    }
}

/// Reading an array value at an index within its bounds gives the element at that index,
/// whatever the length of the array and however the index was computed. Memory is changed
/// only in stack slots that are new.
pub proof fn law_elements_are_read_at_their_index(
    b: Body,
    env: Env,
    array: Value,
    history: Seq<MirType>,
    index: Value,
    elem: MirType,
    n: u64,
    t: LlvmShape,
    s: Seq<Val>,
    i: nat,
)
    requires
        b.insts.len() + 128 <= usize::MAX,
        valid(b, array),
        valid(b, index),
        newest(history, TypeKind::Array) == Some(MirType::Array(Box::new(elem), n)),
        lowered(elem) == Ok::<LlvmShape, LowerError>(t),
        value_type(b, array) == LlvmShape::Array(Box::new(t), n),
        value_of(b, env, array) == Val::Aggregate(s),
        s.len() == n,
        n <= 0xffff_ffff,
        n > MAX_SSA_ARRAY_ELEMENTS ==> size_align(value_type(b, array)) is Some && well_typed(
            value_of(b, env, array),
            value_type(b, array),
        ),
        index_fits(
            value_type(b, index),
            if n < MAX_SSA_ARRAY_ELEMENTS {
                n as int
            } else {
                MAX_SSA_ARRAY_ELEMENTS as int
            },
        ),
        value_of(b, env, index) == Val::Int(i),
        i < n,
    ensures
        ({
            let (c, r) = extracted_element(b, array, history, index);
            &&& r is Ok
            &&& valid(c, r->Ok_0)
            &&& value_of(c, env, r->Ok_0) == s[i as int]
            &&& only_new_slots(b, c, env)
        }),
{
    match bounded_by_remainder(b, index, n) {
        Some(count) => {
            lemma_remainder_bounds(b, env, index, n, i);
            law_bounded_array_read_gives_element(b, env, array, index, t, s, count as int, i);
            let (b1, extracted) = extracted_candidates(b, array, count as int);
            lemma_candidates_quiet(b, array, count as int);
            let candidates = extracted->Ok_0;
            assert(valid(b1, candidates[count - 1]));
            lemma_selected_candidate_quiet(
                b1,
                index,
                candidates,
                candidates[count - 1],
                count - 1,
            );
            let c = extracted_bounded(b, array, index, count as int).0;
            lemma_quiet_transitive(b, b1, c);
            lemma_quiet_memory(b, c, env);
        },
        None => {
            if n <= MAX_SSA_ARRAY_ELEMENTS {
                law_small_array_read_gives_element(b, env, array, index, t, s, i);
                let (b1, last) = with_extract(b, array, (n - 1) as u32);
                assert(quiet(b, b1));
                lemma_selected_element_quiet(b1, array, index, last->Ok_0, n - 1);
                let c = extracted_small(b, array, index, t, n).0;
                lemma_quiet_transitive(b, b1, c);
                lemma_quiet_memory(b, c, env);
            } else {
                let align = element_align(elem);
                law_array_read_through_memory_gives_element(b, env, array, index, t, n, align, i);
                lemma_spilled(b, env, array, value_type(b, array), 64, align, align);
                let (b1, slot) = with_stack_slot(b, value_type(b, array), 64, align);
                let b2 = with_store(b1, array, slot, align);
                let path = GepPath::Two(GepIndex::Constant(0), GepIndex::Value(index));
                let (b3, ptr) = with_gep(b2, slot, path, value_type(b, array));
                assert(quiet(b2, b3));
                lemma_quiet_memory(b2, b3, env);
                lemma_new_load(
                    b3,
                    env,
                    ptr,
                    Op::Load { ptr, align, is_volatile: false },
                    t,
                );
            }
        },
    }
}

/// An array that no array type was recorded of is not read, and one without elements gives
/// an undefined value.
pub proof fn law_empty_arrays_hold_nothing(
    b: Body,
    array: Value,
    history: Seq<MirType>,
    index: Value,
    elem: MirType,
    t: LlvmShape,
)
    requires
        b.insts.len() < usize::MAX,
        lowered(elem) == Ok::<LlvmShape, LowerError>(t),
    ensures
        newest(history, TypeKind::Array) is None ==> extracted_element(
            b,
            array,
            history,
            index,
        ).1 is Err,
        newest(history, TypeKind::Array) == Some(MirType::Array(Box::new(elem), 0)) ==> ({
            let (c, r) = extracted_element(b, array, history, index);
            r is Ok && only_adds(b, c, Op::Undef, r->Ok_0, t)
        }),
{
}

/// The address of an element behind an argument, or of an array with many elements, is
/// computed from the index at once: no choice is made among its addresses.
pub proof fn law_far_elements_are_addressed_directly(
    b: Body,
    ptr: Value,
    history: Seq<MirType>,
    index: Value,
    p: MirPtrType,
    elem: MirType,
    n: u64,
    t: LlvmShape,
)
    requires
        b.insts.len() < usize::MAX,
        newest(history, TypeKind::Ptr) == Some(MirType::Ptr(p)),
        *p.pointee == MirType::Array(Box::new(elem), n),
        lowered(elem) == Ok::<LlvmShape, LowerError>(t),
        ptr is Arg || n > MAX_SSA_ARRAY_ELEMENTS,
    ensures
        ({
            let (c, r) = array_element_address(b, ptr, history, index);
            &&& r is Ok
            &&& c.insts.len() == b.insts.len() + 1
            &&& c.insts.last().op is GetElementPtr
            &&& c.insts.last().op->GetElementPtr_base == ptr
        }),
{
}

/// An element of a small array, and one at a remainder by a small constant, is read without
/// memory: no value is stored for it.
pub proof fn law_bounded_elements_need_no_memory(
    b: Body,
    array: Value,
    history: Seq<MirType>,
    index: Value,
    elem: MirType,
    n: u64,
)
    requires
        b.insts.len() + 128 <= usize::MAX,
        valid(b, array),
        newest(history, TypeKind::Array) == Some(MirType::Array(Box::new(elem), n)),
        n <= MAX_SSA_ARRAY_ELEMENTS || (defining_op(b, index) matches Some(
            Op::Binary { op, lhs, rhs },
        ) && op == BinOp::URem && (defining_op(b, rhs) matches Some(
            Op::Constant { width, bits },
        ) && width <= 64 && 0 < bits <= 16 && bits <= n)),
    ensures
        quiet(b, extracted_element(b, array, history, index).0),
{
    match bounded_by_remainder(b, index, n) {
        Some(count) => {
            let (b1, extracted) = extracted_candidates(b, array, count as int);
            lemma_candidates_quiet(b, array, count as int);
            if extracted is Ok {
                let candidates = extracted->Ok_0;
                assert(valid(b1, candidates[count - 1]));
                lemma_selected_candidate_quiet(
                    b1,
                    index,
                    candidates,
                    candidates[count - 1],
                    count - 1,
                );
                let c = extracted_bounded(b, array, index, count as int).0;
                lemma_quiet_transitive(b, b1, c);
            }
        },
        None => {
            if lowered(elem) is Ok && n > 0 {
                let t = lowered(elem)->Ok_0;
                let (b1, last) = with_extract(b, array, (n - 1) as u32);
                assert(quiet(b, b1));
                if last is Ok {
                    lemma_selected_element_quiet(b1, array, index, last->Ok_0, n - 1);
                }
                let c = extracted_small(b, array, index, t, n).0;
                if quiet(b1, c) {
                    lemma_quiet_transitive(b, b1, c);
                }
            }
        },
    }
}

} // verus!
