//! What passes through memory keeps its bytes.

use crate::array_ops::extracted_through_memory;
use crate::cast::transmuted_in_memory;
use crate::error::LowerError;
use crate::ir::{
    extends, lemma_extends_transitive, lemma_extends_value, valid, value_type, with_cast,
    with_constant, with_gep, with_inst, with_load, with_stack_slot, with_store, Body, CastOp,
    GepIndex, GepPath, Op, Value,
};
use crate::layout::size_align;
use crate::llvm::{LlvmShape, GENERIC};
use crate::memory::{reference_to, value_align};
use crate::memory_laws::{lemma_load_written, lemma_new_load, lemma_new_store};
use crate::mir::{MirType, MirUnionType};
use crate::semantics::{
    bytes_at, lemma_memory_stable, lemma_operand_of_new, lemma_value_stable, loaded, memory_after,
    place_of, value_of, written, Env,
};
use crate::storage::{byte_faithful, zero_sized};
use crate::types::{lowered, lowered_all, union_type_storage};
use crate::union_ops::{
    extracted_union_field, float_packing, inserted_union_field, memory_align, spilled,
};
use crate::union_storage::{
    law_union_fields_fit, law_union_storage_is_byte_faithful, law_union_storage_is_exact,
};
use crate::values::{
    byte_size, decoded, encoded, lemma_array_element_bytes, lemma_decoded_encoded,
    lemma_encoded_decoded, lemma_encoded_len, well_typed, Byte, Val,
};
use vstd::prelude::*;

verus! {

// ---------------------------------------------------------------------------
// Stack slots
// ---------------------------------------------------------------------------

/// A stack slot is a place of its own, and reserving it changes nothing.
pub proof fn lemma_stack_slot(b: Body, env: Env, elem: LlvmShape, width: u32, align: Option<u32>)
    requires
        b.insts.len() + 2 < usize::MAX,
    ensures
        ({
            let (c, r) = with_stack_slot(b, elem, width, align);
            &&& extends(b, c)
            &&& valid(c, r)
            &&& c.insts.len() == b.insts.len() + 2
            &&& memory_after(c, env) == memory_after(b, env)
            &&& value_of(c, env, r) == Val::Slot((b.insts.len() + 1) as nat)
        }),
{
    let (b1, count) = with_constant(b, width, 1);
    assert(extends(b, b1));
    lemma_memory_stable(b, b1, env, b.insts.len() as usize);
    let op = Op::Alloca { count, align };
    let (c, r) = with_inst(b1, op, LlvmShape::Pointer(GENERIC), elem);
    assert(extends(b1, c));
    assert(extends(b, c));
    lemma_memory_stable(b1, c, env, b1.insts.len() as usize);
    assert(c.insts[b.insts.len() as int].op is Constant);
}

/// A value copied to a stack slot is what memory holds there.
pub proof fn lemma_spilled(
    b: Body,
    env: Env,
    v: Value,
    elem: LlvmShape,
    width: u32,
    align: Option<u32>,
    store_align: Option<u32>,
)
    requires
        b.insts.len() + 3 < usize::MAX,
        valid(b, v),
    ensures
        ({
            let (b1, slot) = with_stack_slot(b, elem, width, align);
            let c = with_store(b1, v, slot, store_align);
            let place = Val::Slot((b.insts.len() + 1) as nat);
            &&& extends(b, c)
            &&& valid(c, slot)
            &&& c.insts.len() == b.insts.len() + 3
            &&& value_of(c, env, slot) == place
            &&& memory_after(c, env) == written(
                memory_after(b, env),
                place,
                value_of(b, env, v),
                value_type(b, v),
            )
        }),
{
    lemma_stack_slot(b, env, elem, width, align);
    let (b1, slot) = with_stack_slot(b, elem, width, align);
    lemma_extends_value(b, b1, v);
    lemma_value_stable(b, b1, env, v);
    let op = Op::Store { value: v, ptr: slot, align: store_align, is_volatile: false };
    lemma_new_store(b1, env, op);
    let c = with_store(b1, v, slot, store_align);
    lemma_extends_transitive(b, b1, c);
    lemma_extends_value(b1, c, slot);
    lemma_value_stable(b1, c, env, slot);
}

/// A reference to a value is the address of a place that holds the value, and
/// taking it changes nothing else.
pub proof fn law_references_hold_their_value(
    b: Body,
    env: Env,
    v: Value,
    history: Seq<MirType>,
)
    requires
        b.insts.len() + 3 < usize::MAX,
        valid(b, v),
        size_align(value_type(b, v)) is Some,
        well_typed(value_of(b, env, v), value_type(b, v)),
    ensures
        ({
            let (c, r) = reference_to(b, v, history);
            let x = value_of(b, env, v);
            let t = value_type(b, v);
            &&& value_of(c, env, r) is Slot
            &&& memory_after(c, env) == written(memory_after(b, env), value_of(c, env, r), x, t)
            &&& loaded(memory_after(c, env), value_of(c, env, r), t) == x
        }),
{
    let align = value_align(history);
    let t = value_type(b, v);
    lemma_spilled(b, env, v, t, 32, align, align);
    lemma_load_written(
        memory_after(b, env),
        Val::Slot((b.insts.len() + 1) as nat),
        value_of(b, env, v),
        t,
    );
}

// ---------------------------------------------------------------------------
// Arrays
// ---------------------------------------------------------------------------

/// The code for reading an array through memory gives the element at the index.
pub proof fn law_array_read_through_memory_gives_element(
    b: Body,
    env: Env,
    array: Value,
    index: Value,
    elem: LlvmShape,
    size: u64,
    align: Option<u32>,
    i: nat,
)
    requires
        b.insts.len() + 5 < usize::MAX,
        valid(b, array),
        valid(b, index),
        value_type(b, array) == LlvmShape::Array(Box::new(elem), size),
        size_align(value_type(b, array)) is Some,
        well_typed(value_of(b, env, array), value_type(b, array)),
        value_of(b, env, index) == Val::Int(i),
        i < size,
    ensures
        ({
            let (c, r) = extracted_through_memory(b, array, index, elem, size, align);
            value_of(c, env, r) == value_of(b, env, array)->Aggregate_0[i as int]
        }),
{
    let ty = LlvmShape::Array(Box::new(elem), size);
    let x = value_of(b, env, array);
    let s = x->Aggregate_0;
    lemma_spilled(b, env, array, ty, 64, align, align);
    let (b1, slot) = with_stack_slot(b, ty, 64, align);
    let b2 = with_store(b1, array, slot, align);
    lemma_extends_value(b, b2, index);
    lemma_value_stable(b, b2, env, index);
    let path = GepPath::Two(GepIndex::Constant(0), GepIndex::Value(index));
    let (b3, ptr) = with_gep(b2, slot, path, ty);
    assert(extends(b2, b3));
    lemma_value_stable(b2, b3, env, slot);
    lemma_value_stable(b2, b3, env, index);
    lemma_memory_stable(b2, b3, env, b2.insts.len() as usize);
    let place = Val::Slot((b.insts.len() + 1) as nat);
    let address = Val::Address(Box::new(place), seq![Val::Int(0), Val::Int(i)], ty);
    assert(value_of(b3, env, ptr) == address);
    lemma_new_load(b3, env, ptr, Op::Load { ptr, align, is_volatile: false }, elem);
    let z = byte_size(elem);
    let memory = memory_after(b3, env);
    assert(0 * byte_size(ty) == 0) by (nonlinear_arith);
    assert(place_of(address) == (place, i * z));
    lemma_encoded_len(x, ty);
    lemma_array_element_bytes(s, elem, size as int, i as int);
    assert((i + 1) * z == i * z + z) by (nonlinear_arith);
    assert(bytes_at(memory, address, z) =~= encoded(x, ty).subrange(i * z, (i + 1) * z));
    assert(well_typed(s[i as int], elem));
    lemma_decoded_encoded(s[i as int], elem);
}

// ---------------------------------------------------------------------------
// Transmutes
// ---------------------------------------------------------------------------

/// A transmute through memory gives the value that the source's bytes make up.
pub proof fn law_transmute_through_memory_keeps_bytes(
    b: Body,
    env: Env,
    v: Value,
    to: LlvmShape,
)
    requires
        b.insts.len() + 6 < usize::MAX,
        valid(b, v),
        value_type(b, v) != LlvmShape::Integer(1),
        to != LlvmShape::Integer(1),
        transmuted_in_memory(b, v, to).1 is Ok,
    ensures
        ({
            let (c, r) = transmuted_in_memory(b, v, to);
            let from = value_type(b, v);
            &&& value_of(c, env, r->Ok_0) == decoded(encoded(value_of(b, env, v), from), to)
            &&& byte_faithful(to) ==> encoded(value_of(c, env, r->Ok_0), to) == encoded(
                value_of(b, env, v),
                from,
            )
        }),
{
    let from = value_type(b, v);
    let x = value_of(b, env, v);
    let from_align = size_align(from)->Some_0.1;
    let to_align = size_align(to)->Some_0.1;
    let align = Some(
        (if from_align >= to_align {
            from_align
        } else {
            to_align
        }) as u32,
    );
    lemma_spilled(b, env, v, from, 64, align, align);
    let (b1, slot) = with_stack_slot(b, from, 64, align);
    let b2 = with_store(b1, v, slot, align);
    lemma_new_load(b2, env, slot, Op::Load { ptr: slot, align, is_volatile: false }, to);
    lemma_load_written(
        memory_after(b, env),
        Val::Slot((b.insts.len() + 1) as nat),
        x,
        from,
    );
    lemma_encoded_len(x, from);
    if byte_faithful(to) {
        lemma_encoded_decoded(encoded(x, from), to);
    }
}

/// A `bool` crosses memory as the byte 0 or 1.
pub proof fn law_transmuted_bools_are_their_byte(b: Body, env: Env, v: Value, to: LlvmShape, n: nat)
    requires
        b.insts.len() + 6 < usize::MAX,
        valid(b, v),
        value_type(b, v) == LlvmShape::Integer(1),
        value_of(b, env, v) == Val::Int(n),
        n < 2,
        to != LlvmShape::Integer(1),
        transmuted_in_memory(b, v, to).1 is Ok,
    ensures
        ({
            let (c, r) = transmuted_in_memory(b, v, to);
            value_of(c, env, r->Ok_0) == decoded(seq![Byte::Known(n)], to)
        }),
{
    let byte = LlvmShape::Integer(8);
    let to_align = size_align(to)->Some_0.1;
    let align = Some(
        (if 1 >= to_align {
            1
        } else {
            to_align
        }) as u32,
    );
    let (b0, wide) = with_cast(b, CastOp::ZExt, v, byte);
    assert(extends(b, b0));
    lemma_operand_of_new(b, env, Op::Cast { kind: CastOp::ZExt, value: v }, byte, v);
    lemma_extends_value(b, b0, v);
    lemma_spilled(b0, env, wide, byte, 64, align, align);
    let (b1, slot) = with_stack_slot(b0, byte, 64, align);
    let b2 = with_store(b1, wide, slot, align);
    lemma_new_load(b2, env, slot, Op::Load { ptr: slot, align, is_volatile: false }, to);
    lemma_load_written(
        memory_after(b0, env),
        Val::Slot((b0.insts.len() + 1) as nat),
        Val::Int(n),
        byte,
    );
    reveal_with_fuel(crate::values::little_endian, 2);
    assert(encoded(Val::Int(n), byte) =~= seq![Byte::Known(n)]);
}

// ---------------------------------------------------------------------------
// Unions
// ---------------------------------------------------------------------------

/// A union whose field was just written reads that field back, and keeps its
/// bytes behind the field.
///
/// This is for fields that pass through memory.
#[verifier::rlimit(100)]
pub proof fn law_union_fields_read_back(
    b: Body,
    env: Env,
    v: Value,
    new: Value,
    u: MirUnionType,
    index: u32,
)
    requires
        b.insts.len() + 16 < usize::MAX,
        valid(b, v),
        valid(b, new),
        index < u.field_types@.len(),
        inserted_union_field(b, v, new, u, index).1 is Ok,
        union_type_storage(u) is Ok,
        value_type(b, v) == union_type_storage(u)->Ok_0,
        value_type(b, new) == lowered(u.field_types@[index as int])->Ok_0,
        !zero_sized(value_type(b, new)),
        float_packing(value_type(b, new), value_type(b, v), u.total_size) is None,
        well_typed(value_of(b, env, new), value_type(b, new)),
    ensures
        ({
            let (c, w) = inserted_union_field(b, v, new, u, index);
            let (d, r) = extracted_union_field(c, w->Ok_0, u, index);
            let storage = value_type(b, v);
            let kept = byte_size(value_type(b, new));
            &&& r is Ok
            &&& value_of(d, env, r->Ok_0) == value_of(b, env, new)
            &&& encoded(value_of(c, env, w->Ok_0), storage).take(kept) == encoded(
                value_of(b, env, new),
                value_type(b, new),
            )
            &&& encoded(value_of(c, env, w->Ok_0), storage).skip(kept) == encoded(
                value_of(b, env, v),
                storage,
            ).skip(kept)
        }),
{
    let converted = lowered_all(u.field_types@);
    let storage = value_type(b, v);
    let field = value_type(b, new);
    let x = value_of(b, env, v);
    let y = value_of(b, env, new);
    assert(converted[index as int] == lowered(u.field_types@[index as int]));
    law_union_storage_is_exact(converted, u.total_size, u.abi_align);
    law_union_storage_is_byte_faithful(converted, u.total_size, u.abi_align);
    law_union_fields_fit(converted, u.total_size, u.abi_align, index as int);
    let align = memory_align(u.abi_align);
    let at = Some(u.abi_align as u32);
    lemma_encoded_len(x, storage);
    lemma_encoded_len(y, field);

    // Writing the field.
    let (b2, slot) = spilled(b, v, storage, u.abi_align);
    lemma_spilled(b, env, v, storage, 64, align, align);
    lemma_extends_value(b, b2, new);
    lemma_value_stable(b, b2, env, new);
    let op = Op::Store { value: new, ptr: slot, align: at, is_volatile: false };
    lemma_new_store(b2, env, op);
    let b3 = with_store(b2, new, slot, at);
    lemma_extends_value(b2, b3, slot);
    lemma_value_stable(b2, b3, env, slot);
    let (c, w) = with_load(b3, slot, storage, at);
    lemma_new_load(b3, env, slot, Op::Load { ptr: slot, align: at, is_volatile: false }, storage);
    let place = Val::Slot((b.insts.len() + 1) as nat);
    let n = byte_size(storage);
    let bytes = bytes_at(memory_after(b3, env), place, n);
    assert(bytes.take(byte_size(field)) =~= encoded(y, field));
    assert(bytes.skip(byte_size(field)) =~= encoded(x, storage).skip(byte_size(field)));
    lemma_encoded_decoded(bytes, storage);
    assert((c, Ok::<Value, LowerError>(w)) == inserted_union_field(b, v, new, u, index));

    // Reading it.
    let (d2, again) = spilled(c, w, storage, u.abi_align);
    lemma_spilled(c, env, w, storage, 64, align, align);
    let (d, r) = with_load(d2, again, field, at);
    lemma_new_load(d2, env, again, Op::Load { ptr: again, align: at, is_volatile: false }, field);
    let read_at = Val::Slot((c.insts.len() + 1) as nat);
    let read = bytes_at(memory_after(d2, env), read_at, byte_size(field));
    assert(read =~= encoded(y, field));
    lemma_decoded_encoded(y, field);
    assert((d, Ok::<Value, LowerError>(r)) == extracted_union_field(c, w, u, index));
}

} // verus!
