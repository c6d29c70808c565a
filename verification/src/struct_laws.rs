//! Fields of structs and tuples read back what was written to them.

use crate::aggregate::{
    built_struct, constructed_struct, constructed_tuple, extracted_field, field_place, filled_slots,
    inserted_field, resolved_slots,
};
use crate::collect::all_ok;
use crate::ir::{
    element_type, extends, lemma_extends_transitive, lemma_extends_value, valid, value_type,
    with_extract, with_insert, with_undef, Body, Value,
};
use crate::llvm::LlvmShape;
use crate::mir::{memory_order, MirStructType, MirTupleType, MirType};
use crate::operands::{newest, recent, TypeKind};
use crate::semantics::{
    Env, lemma_extract_value, lemma_insert_value, lemma_value_stable, undefined, value_of,
};
use crate::storage::zero_sized;
use crate::struct_slots::{
    is_field_permutation, law_struct_slots_hold_fields, lemma_permutation_reaches, StructSlots,
};
use crate::types::{
    lemma_slots_of_fields, lowered_all, slots_of_fields, struct_type_slots, tuple_type_slots,
};
use vstd::prelude::*;

verus! {

/// Whether the slots are fields of a struct of `n` fields, no two the same.
pub open spec fn slots_distinct(slots: Seq<Option<u32>>, n: int) -> bool {
    &&& forall|d: int|
        0 <= d < slots.len() && #[trigger] slots[d] is Some ==> slots[d]->Some_0 < n
    &&& forall|c: int, d: int|
        0 <= c < d < slots.len() && #[trigger] slots[c] is Some && #[trigger] slots[d] is Some
            ==> slots[c] != slots[d]
}

proof fn lemma_filled_slots(
    b: Body,
    env: Env,
    start: Value,
    slots: Seq<Option<u32>>,
    order: Seq<usize>,
    operands: Seq<Value>,
    n: int,
    k: int,
)
    requires
        0 <= k <= order.len(),
        b.insts.len() + k <= usize::MAX,
        slots_distinct(slots, n),
        is_field_permutation(order, slots.len()),
        operands.len() == slots.len(),
        valid(b, start),
        value_of(b, env, start) is Aggregate,
        value_of(b, env, start)->Aggregate_0.len() == n,
        forall|i: int| 0 <= i < operands.len() ==> valid(b, #[trigger] operands[i]),
    ensures
        ({
            let (c, r) = filled_slots(b, start, slots, order, operands, k);
            &&& extends(b, c)
            &&& c.insts.len() <= b.insts.len() + k
            &&& valid(c, r)
            &&& value_type(c, r) == value_type(b, start)
            &&& value_of(c, env, r) is Aggregate
            &&& value_of(c, env, r)->Aggregate_0.len() == n
            &&& forall|q: int|
                0 <= q < k && slots[#[trigger] order[q] as int] is Some ==> value_of(
                    c,
                    env,
                    r,
                )->Aggregate_0[slots[order[q] as int]->Some_0 as int] == value_of(
                    b,
                    env,
                    operands[order[q] as int],
                )
        }),
    decreases k,
{
    if k > 0 {
        lemma_filled_slots(b, env, start, slots, order, operands, n, k - 1);
        let (b1, current) = filled_slots(b, start, slots, order, operands, k - 1);
        let field = order[k - 1] as int;
        let (c, r) = filled_slots(b, start, slots, order, operands, k);
        match slots[field] {
            None => {},
            Some(slot) => {
                let s = value_of(b1, env, current)->Aggregate_0;
                let operand = operands[field];
                lemma_extends_value(b, b1, operand);
                lemma_value_stable(b, b1, env, operand);
                lemma_insert_value(b1, env, current, operand, slot, s);
                lemma_extends_transitive(b, b1, c);
                assert forall|q: int|
                    0 <= q < k && slots[#[trigger] order[q] as int] is Some implies value_of(
                    c,
                    env,
                    r,
                )->Aggregate_0[slots[order[q] as int]->Some_0 as int] == value_of(
                    b,
                    env,
                    operands[order[q] as int],
                ) by {
                    if q < k - 1 {
                        let d = order[q] as int;
                        assert(order[q] != order[k - 1]);
                        if d < field {
                            assert(slots[d] != slots[field]);
                        } else {
                            assert(slots[field] != slots[d]);
                        }
                    }
                }
            },
        }
    }
}

proof fn lemma_built_struct(
    b: Body,
    env: Env,
    s: StructSlots,
    order: Seq<usize>,
    operands: Seq<Value>,
    index: int,
)
    requires
        b.insts.len() + order.len() + 2 <= usize::MAX,
        slots_distinct(s.decl_to_llvm, s.fields.len() as int),
        is_field_permutation(order, s.decl_to_llvm.len()),
        operands.len() == s.decl_to_llvm.len(),
        forall|i: int| 0 <= i < operands.len() ==> valid(b, #[trigger] operands[i]),
        0 <= index < operands.len(),
        s.decl_to_llvm[index] is Some,
    ensures
        ({
            let (c, r) = built_struct(b, Ok(s), order, operands, operands.len());
            let slot = s.decl_to_llvm[index]->Some_0;
            let (d, x) = with_extract(c, r->Ok_0, slot);
            &&& r is Ok
            &&& valid(c, r->Ok_0)
            &&& value_type(c, r->Ok_0) == LlvmShape::Struct(s.fields)
            &&& x is Ok
            &&& value_of(d, env, x->Ok_0) == value_of(b, env, operands[index])
        }),
{
    let ty = LlvmShape::Struct(s.fields);
    let (b1, start) = with_undef(b, ty);
    assert(extends(b, b1));
    assert forall|i: int| 0 <= i < operands.len() implies valid(b1, #[trigger] operands[i]) by {
        lemma_extends_value(b, b1, operands[i]);
    }
    let n = s.fields.len() as int;
    let k = order.len() as int;
    assert(value_of(b1, env, start) == undefined(ty));
    lemma_filled_slots(b1, env, start, s.decl_to_llvm, order, operands, n, k);
    let (c, r) = filled_slots(b1, start, s.decl_to_llvm, order, operands, k);
    let slot = s.decl_to_llvm[index]->Some_0;
    lemma_permutation_reaches(order, operands.len(), index);
    let q = choose|q: int| 0 <= q < operands.len() && #[trigger] order[q] == index;
    let values = value_of(c, env, r)->Aggregate_0;
    assert(values[slot as int] == value_of(b1, env, operands[order[q] as int]));
    lemma_value_stable(b, b1, env, operands[index]);
    lemma_extract_value(c, env, r, slot, values);
}

proof fn lemma_slots_distinct(
    fields: Seq<MirType>,
    order: Seq<usize>,
    offsets: Seq<u64>,
    total_size: u64,
)
    requires
        fields.len() <= usize::MAX,
        slots_of_fields(fields, lowered_all(fields), order, offsets, total_size) is Ok,
    ensures
        ({
            let s = slots_of_fields(fields, lowered_all(fields), order, offsets, total_size)->Ok_0;
            &&& slots_distinct(s.decl_to_llvm, s.fields.len() as int)
            &&& s.decl_to_llvm.len() == fields.len()
            &&& s.field_types.len() == fields.len()
            &&& is_field_permutation(order, fields.len())
            &&& forall|d: int|
                0 <= d < fields.len() ==> (#[trigger] s.decl_to_llvm[d] is None <==> zero_sized(
                    s.field_types[d],
                ))
        }),
{
    lemma_slots_of_fields(fields, order, offsets, total_size);
    let types = all_ok(lowered_all(fields))->Ok_0;
    law_struct_slots_hold_fields(fields, types, order, offsets, total_size);
}

/// The identity is a permutation.
proof fn lemma_declaration_order(n: nat)
    requires
        n <= usize::MAX,
    ensures
        is_field_permutation(memory_order(Seq::empty(), n), n),
{
    let order = memory_order(Seq::empty(), n);
    assert forall|i: int, j: int| 0 <= i < j < n implies #[trigger] order[i]
        != #[trigger] order[j] by {
        assert(order[i] == i);
        assert(order[j] == j);
    }
}

/// Reading a field of a struct value that was just built gives the operand it
/// was built from. Zero-sized fields hold nothing to read.
pub proof fn law_struct_fields_read_back(
    b: Body,
    env: Env,
    s: MirStructType,
    operands: Seq<Value>,
    index: u32,
)
    requires
        b.insts.len() + s.field_types@.len() + 2 <= usize::MAX,
        forall|i: int| 0 <= i < operands.len() ==> valid(b, #[trigger] operands[i]),
        constructed_struct(b, MirType::Struct(s), operands).1 is Ok,
        index < s.field_types@.len(),
        !zero_sized(struct_type_slots(s)->Ok_0.field_types[index as int]),
    ensures
        ({
            let (c, v) = constructed_struct(b, MirType::Struct(s), operands);
            let (d, x) = extracted_field(c, v->Ok_0, seq![MirType::Struct(s)], Some(index));
            &&& x is Ok
            &&& value_of(d, env, x->Ok_0) == value_of(b, env, operands[index as int])
        }),
{
    let order = memory_order(s.mem_to_decl@, s.field_types@.len());
    lemma_slots_distinct(s.field_types@, order, s.field_offsets@, s.total_size);
    let slots = struct_type_slots(s)->Ok_0;
    lemma_built_struct(b, env, slots, order, operands, index as int);
    let history = seq![MirType::Struct(s)];
    lemma_newest_of_one(MirType::Struct(s));
}

/// Reading a field of a tuple value that was just built gives the operand it
/// was built from.
pub proof fn law_tuple_fields_read_back(
    b: Body,
    env: Env,
    t: MirTupleType,
    operands: Seq<Value>,
    index: u32,
)
    requires
        b.insts.len() + t.types@.len() + 2 <= usize::MAX,
        forall|i: int| 0 <= i < operands.len() ==> valid(b, #[trigger] operands[i]),
        constructed_tuple(b, MirType::Tuple(t), operands).1 is Ok,
        index < t.types@.len(),
        !zero_sized(tuple_type_slots(t)->Ok_0.field_types[index as int]),
    ensures
        ({
            let (c, v) = constructed_tuple(b, MirType::Tuple(t), operands);
            let (d, x) = extracted_field(c, v->Ok_0, seq![MirType::Tuple(t)], Some(index));
            &&& x is Ok
            &&& value_of(d, env, x->Ok_0) == value_of(b, env, operands[index as int])
        }),
{
    let order = memory_order(t.mem_to_decl@, t.types@.len());
    lemma_slots_distinct(t.types@, order, t.field_offsets@, t.total_size);
    lemma_declaration_order(t.types@.len());
    let slots = tuple_type_slots(t)->Ok_0;
    lemma_built_struct(
        b,
        env,
        slots,
        memory_order(Seq::empty(), t.types@.len()),
        operands,
        index as int,
    );
    lemma_newest_of_one(MirType::Tuple(t));
}

/// The newest type of a history of one type is that type, for its own kind.
pub proof fn lemma_newest_of_one(t: MirType)
    ensures
        forall|kind: TypeKind| #[trigger]
            newest(seq![t], kind) == if crate::operands::kind_of(t) == kind {
                Some(t)
            } else {
                None
            },
{
    assert forall|kind: TypeKind| #[trigger]
        newest(seq![t], kind) == if crate::operands::kind_of(t) == kind {
            Some(t)
        } else {
            None
        } by {
        assert(recent(seq![t], kind, 0) is None);
        assert(seq![t][0] == t);
    }
}

/// Reading a field after it was replaced gives the new value, and every field
/// in another slot is unchanged.
pub proof fn law_replaced_fields_read_back(
    b: Body,
    env: Env,
    v: Value,
    history: Seq<MirType>,
    new: Value,
    i: u32,
    j: u32,
)
    requires
        b.insts.len() + 2 <= usize::MAX,
        valid(b, v),
        valid(b, new),
        newest(history, TypeKind::Union) is None,
        !(value_type(b, v) is Integer),
        resolved_slots(value_type(b, v), history) is Ok,
        field_place(resolved_slots(value_type(b, v), history)->Ok_0, i) is Ok,
        field_place(resolved_slots(value_type(b, v), history)->Ok_0, j) is Ok,
        field_place(resolved_slots(value_type(b, v), history)->Ok_0, i)->Ok_0 is Slot,
        field_place(resolved_slots(value_type(b, v), history)->Ok_0, j)->Ok_0 is Slot,
        value_of(b, env, v) is Aggregate,
        ({
            let slots = resolved_slots(value_type(b, v), history)->Ok_0;
            let m = field_place(slots, i)->Ok_0->Slot_0;
            let n = field_place(slots, j)->Ok_0->Slot_0;
            &&& m < value_of(b, env, v)->Aggregate_0.len()
            &&& n < value_of(b, env, v)->Aggregate_0.len()
            &&& element_type(value_type(b, v), n) is Some
        }),
    ensures
        ({
            let slots = resolved_slots(value_type(b, v), history)->Ok_0;
            let m = field_place(slots, i)->Ok_0->Slot_0;
            let n = field_place(slots, j)->Ok_0->Slot_0;
            let (c, w) = inserted_field(b, v, history, new, Some(i));
            let (d, x) = extracted_field(c, w->Ok_0, history, Some(j));
            &&& w is Ok
            &&& x is Ok
            &&& value_of(d, env, x->Ok_0) == if m == n {
                value_of(b, env, new)
            } else {
                value_of(b, env, v)->Aggregate_0[n as int]
            }
        }),
{
    let slots = resolved_slots(value_type(b, v), history)->Ok_0;
    let m = field_place(slots, i)->Ok_0->Slot_0;
    let n = field_place(slots, j)->Ok_0->Slot_0;
    let s = value_of(b, env, v)->Aggregate_0;
    lemma_insert_value(b, env, v, new, m, s);
    let (c, w) = with_insert(b, v, new, m);
    lemma_extract_value(c, env, w, n, s.update(m as int, value_of(b, env, new)));
}

} // verus!
