//! Unions are read and written by their bytes.

use crate::access_laws::accesses_carry;
use crate::aggregate::{extracted_field, inserted_field};
use crate::byte_laws::{law_union_fields_read_back, lemma_spilled};
use crate::cast_op_laws::{all_aligned, only_adds, only_new_slots};
use crate::ir::{
    extends, lemma_extends_transitive, lemma_extends_value, valid, value_type, with_load,
    with_stack_slot, with_store, Body, Op, Value,
};
use crate::llvm::LlvmShape;
use crate::memory_laws::{lemma_new_load, lemma_new_store};
use crate::mir::{MirType, MirUnionType};
use crate::operands::{newest, TypeKind};
use crate::packing_laws::{law_packing_uses_no_memory, stays_in_registers};
use crate::semantics::{bytes_at, lemma_value_stable, memory_after, value_of, Env};
use crate::storage::zero_sized;
use crate::types::{lowered, lowered_all, union_type_storage};
use crate::union_ops::{
    extracted_union_field, float_packing, inserted_union_field, memory_align, packed_union, spilled,
    unpacked_union,
};
use crate::union_storage::law_union_fields_fit;
use crate::values::{byte_size, decoded, encoded, lemma_encoded_len, well_typed, Val};
use vstd::arithmetic::power2::is_pow2;
use vstd::prelude::*;

verus! {

/// Reading a field of a union value gives the value that the first bytes of the union make
/// up. It is refused only for a field that the union lacks or that has no LLVM equivalent,
/// and for a union without storage.
pub proof fn law_union_fields_are_the_first_bytes(
    b: Body,
    env: Env,
    v: Value,
    history: Seq<MirType>,
    u: MirUnionType,
    index: u32,
)
    requires
        b.insts.len() + 16 < usize::MAX,
        newest(history, TypeKind::Union) == Some(MirType::Union(u)),
        valid(b, v),
        union_type_storage(u) is Ok ==> value_type(b, v) == union_type_storage(u)->Ok_0,
    ensures
        ({
            let (c, r) = extracted_field(b, v, history, Some(index));
            let field = lowered(u.field_types@[index as int])->Ok_0;
            let storage = union_type_storage(u)->Ok_0;
            &&& r is Err <== index >= u.field_types@.len()
            &&& index < u.field_types@.len() ==> {
                &&& r is Ok <==> lowered(u.field_types@[index as int]) is Ok && (zero_sized(field)
                    || union_type_storage(u) is Ok)
                &&& r is Ok && zero_sized(field) ==> only_adds(b, c, Op::Undef, r->Ok_0, field)
                &&& r is Ok && !zero_sized(field) && float_packing(field, storage, u.total_size)
                    is None ==> {
                    &&& valid(c, r->Ok_0)
                    &&& value_type(c, r->Ok_0) == field
                    &&& value_of(c, env, r->Ok_0) == decoded(
                        encoded(value_of(b, env, v), storage).take(byte_size(field)),
                        field,
                    )
                    &&& only_new_slots(b, c, env)
                    &&& u.abi_align > 0 ==> accesses_carry(b, c, Some(u.abi_align as u32))
                }
            }
        }),
{
    let (c, r) = extracted_field(b, v, history, Some(index));
    if index < u.field_types@.len() && lowered(u.field_types@[index as int]) is Ok
        && union_type_storage(u) is Ok {
        let field = lowered(u.field_types@[index as int])->Ok_0;
        let storage = union_type_storage(u)->Ok_0;
        if !zero_sized(field) && float_packing(field, storage, u.total_size) is None {
            let converted = lowered_all(u.field_types@);
            assert(converted[index as int] == lowered(u.field_types@[index as int]));
            law_union_fields_fit(converted, u.total_size, u.abi_align, index as int);
            crate::union_storage::law_union_storage_is_exact(
                converted,
                u.total_size,
                u.abi_align,
            );
            let align = memory_align(u.abi_align);
            let at = Some(u.abi_align as u32);
            let x = value_of(b, env, v);
            lemma_encoded_len(x, storage);
            let (b2, slot) = spilled(b, v, storage, u.abi_align);
            lemma_spilled(b, env, v, storage, 64, align, align);
            lemma_new_load(
                b2,
                env,
                slot,
                Op::Load { ptr: slot, align: at, is_volatile: false },
                field,
            );
            let place = Val::Slot((b.insts.len() + 1) as nat);
            let read = bytes_at(memory_after(b2, env), place, byte_size(field));
            assert(read =~= encoded(x, storage).take(byte_size(field)));
        }
    }
}

/// Writing a field of a union value replaces the union's first bytes by the field's and
/// keeps the others; a field without bytes changes nothing. It is refused only for a field
/// that the union lacks or that has no LLVM equivalent, and for a union without storage.
pub proof fn law_union_writes_replace_the_first_bytes(
    b: Body,
    env: Env,
    v: Value,
    history: Seq<MirType>,
    new: Value,
    u: MirUnionType,
    index: u32,
)
    requires
        b.insts.len() + 16 < usize::MAX,
        newest(history, TypeKind::Union) == Some(MirType::Union(u)),
        valid(b, v),
        valid(b, new),
        union_type_storage(u) is Ok ==> value_type(b, v) == union_type_storage(u)->Ok_0,
        index < u.field_types@.len() && lowered(u.field_types@[index as int]) is Ok ==> value_type(
            b,
            new,
        ) == lowered(u.field_types@[index as int])->Ok_0 && well_typed(
            value_of(b, env, new),
            value_type(b, new),
        ),
    ensures
        ({
            let (c, r) = inserted_field(b, v, history, new, Some(index));
            let field = lowered(u.field_types@[index as int])->Ok_0;
            let storage = union_type_storage(u)->Ok_0;
            let kept = byte_size(field);
            &&& r is Err <== index >= u.field_types@.len()
            &&& index < u.field_types@.len() ==> {
                &&& r is Ok <==> lowered(u.field_types@[index as int]) is Ok && (zero_sized(field)
                    || union_type_storage(u) is Ok)
                &&& r is Ok && zero_sized(field) ==> c == b && r->Ok_0 == v
                &&& r is Ok && !zero_sized(field) && float_packing(field, storage, u.total_size)
                    is None ==> {
                    &&& valid(c, r->Ok_0)
                    &&& value_type(c, r->Ok_0) == storage
                    &&& encoded(value_of(c, env, r->Ok_0), storage).take(kept) == encoded(
                        value_of(b, env, new),
                        field,
                    )
                    &&& encoded(value_of(c, env, r->Ok_0), storage).skip(kept) == encoded(
                        value_of(b, env, v),
                        storage,
                    ).skip(kept)
                    &&& only_new_slots(b, c, env)
                    &&& u.abi_align > 0 ==> accesses_carry(b, c, Some(u.abi_align as u32))
                }
            }
        }),
{
    if index < u.field_types@.len() && lowered(u.field_types@[index as int]) is Ok
        && union_type_storage(u) is Ok {
        let field = lowered(u.field_types@[index as int])->Ok_0;
        let storage = union_type_storage(u)->Ok_0;
        if !zero_sized(field) && float_packing(field, storage, u.total_size) is None {
            law_union_fields_read_back(b, env, v, new, u, index);
            let align = memory_align(u.abi_align);
            let at = Some(u.abi_align as u32);
            let (b2, slot) = spilled(b, v, storage, u.abi_align);
            lemma_spilled(b, env, v, storage, 64, align, align);
            lemma_extends_value(b, b2, new);
            lemma_value_stable(b, b2, env, new);
            let op = Op::Store { value: new, ptr: slot, align: at, is_volatile: false };
            lemma_new_store(b2, env, op);
            let b3 = with_store(b2, new, slot, at);
            lemma_extends_value(b2, b3, slot);
            lemma_value_stable(b2, b3, env, slot);
            lemma_new_load(
                b3,
                env,
                slot,
                Op::Load { ptr: slot, align: at, is_volatile: false },
                storage,
            );
        }
    }
}

/// A union that is read or written through memory has a slot, and accesses, of the alignment
/// that rustc gave it.
pub proof fn law_union_accesses_are_aligned(
    b: Body,
    v: Value,
    new: Value,
    history: Seq<MirType>,
    u: MirUnionType,
    index: u32,
)
    requires
        newest(history, TypeKind::Union) == Some(MirType::Union(u)),
    ensures
        all_aligned(b, extracted_field(b, v, history, Some(index)).0, u.abi_align),
        all_aligned(b, inserted_field(b, v, history, new, Some(index)).0, u.abi_align),
{
    lemma_read_aligned(b, v, u, index);
    lemma_write_aligned(b, v, new, u, index);
}

proof fn lemma_aligned_transitive(a: Body, b: Body, c: Body, align: u64)
    requires
        extends(a, b),
        extends(b, c),
        all_aligned(a, b, align),
        all_aligned(b, c, align),
    ensures
        extends(a, c),
        all_aligned(a, c, align),
{
    lemma_extends_transitive(a, b, c);
    assert forall|i: int| a.insts.len() <= i < b.insts.len() implies #[trigger] c.insts[i]
        == b.insts[i] by {}
}

proof fn lemma_spilled_aligned(b: Body, v: Value, ty: LlvmShape, align: u64)
    requires
        align > 0,
    ensures
        extends(b, spilled(b, v, ty, align).0),
        all_aligned(b, spilled(b, v, ty, align).0, align),
{
    let (b1, slot) = with_stack_slot(b, ty, 64, memory_align(align));
    let b2 = with_store(b1, v, slot, memory_align(align));
    assert(extends(b, b1));
    assert(all_aligned(b, b1, align));
    assert(extends(b1, b2));
    assert(all_aligned(b1, b2, align));
    lemma_aligned_transitive(b, b1, b2, align);
}

proof fn lemma_registers_aligned(b: Body, c: Body, align: u64)
    requires
        stays_in_registers(b, c),
    ensures
        extends(b, c),
        all_aligned(b, c, align),
{
}

proof fn lemma_union_is_aligned(u: MirUnionType)
    requires
        union_type_storage(u) is Ok,
    ensures
        u.abi_align > 0,
{
    assert(is_pow2(u.abi_align as int));
    reveal(is_pow2);
}

proof fn lemma_reloaded_aligned(
    b: Body,
    b1: Body,
    v: Value,
    storage: LlvmShape,
    field: LlvmShape,
    align: u64,
)
    requires
        align > 0,
        extends(b, b1),
        all_aligned(b, b1, align),
    ensures
        ({
            let (b2, slot) = spilled(b1, v, storage, align);
            all_aligned(b, with_load(b2, slot, field, Some(align as u32)).0, align)
        }),
{
    let (b2, slot) = spilled(b1, v, storage, align);
    lemma_spilled_aligned(b1, v, storage, align);
    lemma_aligned_transitive(b, b1, b2, align);
    let b3 = with_load(b2, slot, field, Some(align as u32)).0;
    assert(extends(b2, b3));
    assert(all_aligned(b2, b3, align));
    lemma_aligned_transitive(b, b2, b3, align);
}

proof fn lemma_overwritten_aligned(
    b: Body,
    b1: Body,
    v: Value,
    new: Value,
    storage: LlvmShape,
    align: u64,
)
    requires
        align > 0,
        extends(b, b1),
        all_aligned(b, b1, align),
    ensures
        ({
            let (b2, slot) = spilled(b1, v, storage, align);
            let b3 = with_store(b2, new, slot, Some(align as u32));
            all_aligned(b, with_load(b3, slot, storage, Some(align as u32)).0, align)
        }),
{
    let (b2, slot) = spilled(b1, v, storage, align);
    lemma_spilled_aligned(b1, v, storage, align);
    lemma_aligned_transitive(b, b1, b2, align);
    let b3 = with_store(b2, new, slot, Some(align as u32));
    assert(extends(b2, b3));
    assert(all_aligned(b2, b3, align));
    lemma_aligned_transitive(b, b2, b3, align);
    let b4 = with_load(b3, slot, storage, Some(align as u32)).0;
    assert(extends(b3, b4));
    assert(all_aligned(b3, b4, align));
    lemma_aligned_transitive(b, b3, b4, align);
}

#[verifier::spinoff_prover]
proof fn lemma_read_aligned(b: Body, v: Value, u: MirUnionType, index: u32)
    ensures
        all_aligned(b, extracted_union_field(b, v, u, index).0, u.abi_align),
{
    if index < u.field_types@.len() && lowered(u.field_types@[index as int]) is Ok {
        let field = lowered(u.field_types@[index as int])->Ok_0;
        if !zero_sized(field) && union_type_storage(u) is Ok {
            let storage = union_type_storage(u)->Ok_0;
            lemma_union_is_aligned(u);
            law_packing_uses_no_memory(b, v, field, storage, u.total_size);
            let b1 = unpacked_union(b, v, field, storage, u.total_size).0;
            lemma_registers_aligned(b, b1, u.abi_align);
            lemma_reloaded_aligned(b, b1, v, storage, field, u.abi_align);
        }
    }
}

#[verifier::spinoff_prover]
proof fn lemma_write_aligned(b: Body, v: Value, new: Value, u: MirUnionType, index: u32)
    ensures
        all_aligned(b, inserted_union_field(b, v, new, u, index).0, u.abi_align),
{
    if index < u.field_types@.len() && lowered(u.field_types@[index as int]) is Ok {
        let field = lowered(u.field_types@[index as int])->Ok_0;
        if !zero_sized(field) && union_type_storage(u) is Ok {
            let storage = union_type_storage(u)->Ok_0;
            lemma_union_is_aligned(u);
            law_packing_uses_no_memory(b, new, field, storage, u.total_size);
            let b1 = packed_union(b, new, field, storage, u.total_size).0;
            lemma_registers_aligned(b, b1, u.abi_align);
            lemma_overwritten_aligned(b, b1, v, new, storage, u.abi_align);
        }
    }
}

} // verus!
