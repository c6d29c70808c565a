//! Addresses of fields and globals lead to the bytes that they are meant to.

use crate::collect::{all_ok, lemma_all_ok_values};
use crate::enum_slots::{carrier_type, lemma_slots_keep_layout, lemma_slots_keep_offsets};
use crate::error::LowerError;
use crate::field_addr::{
    constant_byte_address, field_address, field_address_in, slot_address, struct_field_address,
};
use crate::globals::{pointer_to, AddressShape};
use crate::ir::{
    extends, truncated, valid, value_type, with_address_of, with_constant, Body, Value,
};
use crate::layout::{field_at, is_align, larger, natural_offset, size_align};
use crate::llvm::LlvmShape;
use crate::mir::{
    memory_order, MirEnumType, MirPtrType, MirStructType, MirTupleType, MirType, MirUnionType,
};
use crate::operands::{newest, TypeKind};
use crate::quiet::{lemma_quiet_memory, quiet};
use crate::semantics::{lemma_value_stable, memory_after, place_of, value_of, Env};
use crate::storage::{payload_storage, zero_sized};
use crate::struct_slots::{
    explicit_layout, law_struct_slots_hold_fields, law_struct_slots_keep_offsets,
    naturally_placed, struct_slots, StructSlots,
};
use crate::types::{
    enum_type_slots, lowered, lowered_all, slots_of_fields, struct_type_slots, tuple_type_slots,
};
use crate::values::{byte_size, Val};
use vstd::arithmetic::div_mod::lemma_small_mod;
use vstd::arithmetic::power2::{lemma2_to64, pow2};
use vstd::prelude::*;

verus! {

/// Whether `address` lies `offset` bytes behind `base`.
pub open spec fn lies_behind(address: Val, base: Val, offset: int) -> bool {
    &&& !(address is Undef)
    &&& place_of(address) == (place_of(base).0, place_of(base).1 + offset)
}

/// The address of a slot lies at the slot's byte.
proof fn lemma_slot_address(
    b: Body,
    env: Env,
    base: Value,
    slot: u32,
    fields: Seq<LlvmShape>,
)
    requires
        b.insts.len() < usize::MAX,
        valid(b, base),
        !(value_of(b, env, base) is Undef),
        slot < fields.len(),
        size_align(LlvmShape::Struct(fields)) is Some,
    ensures
        ({
            let (c, r) = slot_address(b, base, slot, fields);
            lies_behind(
                value_of(c, env, r),
                value_of(b, env, base),
                natural_offset(fields, slot as int),
            )
        }),
{
    let (c, r) = slot_address(b, base, slot, fields);
    assert(extends(b, c));
    lemma_value_stable(b, c, env, base);
    let t = LlvmShape::Struct(fields);
    assert(0 * byte_size(t) == 0) by (nonlinear_arith);
    assert(value_of(c, env, r) == Val::Address(
        Box::new(value_of(b, env, base)),
        seq![Val::Int(0), Val::Int(slot as nat)],
        t,
    ));
}

/// The address some bytes behind a base lies there.
proof fn lemma_constant_byte_address(b: Body, env: Env, base: Value, offset: u32)
    requires
        b.insts.len() < usize::MAX,
        valid(b, base),
        !(value_of(b, env, base) is Undef),
    ensures
        ({
            let (c, r) = constant_byte_address(b, base, offset);
            lies_behind(value_of(c, env, r), value_of(b, env, base), offset as int)
        }),
{
    let (c, r) = constant_byte_address(b, base, offset);
    assert(extends(b, c));
    lemma_value_stable(b, c, env, base);
    let byte = LlvmShape::Integer(8);
    assert(size_align(byte) == Some((1u64, 1u64)));
    assert(offset as nat * byte_size(byte) == offset) by (nonlinear_arith)
        requires
            byte_size(byte) == 1,
    ;
    assert(value_of(c, env, r) == Val::Address(
        Box::new(value_of(b, env, base)),
        seq![Val::Int(offset as nat)],
        byte,
    ));
}

/// The slot of a field starts at rustc's byte offset, where LLVM can place the
/// fields there.
proof fn lemma_field_slot(
    fields: Seq<MirType>,
    order: Seq<usize>,
    offsets: Seq<u64>,
    total_size: u64,
    index: int,
)
    requires
        slots_of_fields(fields, lowered_all(fields), order, offsets, total_size) is Ok,
        fields.len() <= usize::MAX,
        explicit_layout(offsets, total_size),
        naturally_placed(
            fields,
            all_ok(lowered_all(fields))->Ok_0,
            order,
            offsets,
            total_size,
        ),
        0 <= index < fields.len(),
        !zero_sized(all_ok(lowered_all(fields))->Ok_0[index]),
    ensures
        ({
            let s = slots_of_fields(
                fields,
                lowered_all(fields),
                order,
                offsets,
                total_size,
            )->Ok_0;
            let slot = s.decl_to_llvm[index]->Some_0;
            &&& index < s.decl_to_llvm.len()
            &&& s.decl_to_llvm[index] is Some
            &&& slot < s.fields.len()
            &&& natural_offset(s.fields, slot as int) == offsets[index]
        }),
{
    let converted = lowered_all(fields);
    let types = all_ok(converted)->Ok_0;
    lemma_all_ok_values(converted, converted.len() as int);
    assert(types.len() == fields.len());
    law_struct_slots_keep_offsets(fields, types, order, offsets, total_size);
    law_struct_slots_hold_fields(fields, types, order, offsets, total_size);
    let s = struct_slots(fields, types, order, offsets, total_size)->Ok_0;
    assert(field_at(
        s.fields,
        s.decl_to_llvm[index]->Some_0 as int,
        types[index],
        offsets[index] as int,
    ));
}

/// The address of a field lies at rustc's byte offset, where LLVM can place the
/// fields there.
proof fn lemma_field_address(
    b: Body,
    env: Env,
    base: Value,
    fields: Seq<MirType>,
    order: Seq<usize>,
    offsets: Seq<u64>,
    total_size: u64,
    index: u32,
)
    requires
        b.insts.len() < usize::MAX,
        valid(b, base),
        !(value_of(b, env, base) is Undef),
        ({
            let slots = slots_of_fields(fields, lowered_all(fields), order, offsets, total_size);
            let types = all_ok(lowered_all(fields))->Ok_0;
            &&& slots is Ok
            &&& size_align(LlvmShape::Struct(slots->Ok_0.fields)) is Some
            &&& fields.len() <= usize::MAX
            &&& explicit_layout(offsets, total_size)
            &&& naturally_placed(fields, types, order, offsets, total_size)
            &&& index < fields.len()
            &&& !zero_sized(types[index as int])
        }),
    ensures
        ({
            let slots = slots_of_fields(fields, lowered_all(fields), order, offsets, total_size);
            let (c, r) = struct_field_address(b, base, slots, index);
            &&& r is Ok
            &&& lies_behind(
                value_of(c, env, r->Ok_0),
                value_of(b, env, base),
                offsets[index as int] as int,
            )
        }),
{
    lemma_field_slot(fields, order, offsets, total_size, index as int);
    let s = slots_of_fields(fields, lowered_all(fields), order, offsets, total_size)->Ok_0;
    lemma_slot_address(b, env, base, s.decl_to_llvm[index as int]->Some_0, s.fields);
}

/// The address of a struct field that takes bytes lies at rustc's byte offset in
/// the struct, where LLVM can place the fields there.
pub proof fn law_struct_field_addresses_lie_at_their_offset(
    b: Body,
    env: Env,
    base: Value,
    s: MirStructType,
    index: u32,
)
    requires
        b.insts.len() < usize::MAX,
        valid(b, base),
        !(value_of(b, env, base) is Undef),
        struct_type_slots(s) is Ok,
        size_align(LlvmShape::Struct(struct_type_slots(s)->Ok_0.fields)) is Some,
        explicit_layout(s.field_offsets@, s.total_size),
        naturally_placed(
            s.field_types@,
            all_ok(lowered_all(s.field_types@))->Ok_0,
            memory_order(s.mem_to_decl@, s.field_types@.len()),
            s.field_offsets@,
            s.total_size,
        ),
        index < s.field_types@.len(),
        !zero_sized(all_ok(lowered_all(s.field_types@))->Ok_0[index as int]),
    ensures
        ({
            let (c, r) = field_address_in(b, base, MirType::Struct(s), index);
            &&& r is Ok
            &&& lies_behind(
                value_of(c, env, r->Ok_0),
                value_of(b, env, base),
                s.field_offsets@[index as int] as int,
            )
        }),
{
    assert(s.field_types@.len() == s.field_types.len());
    lemma_field_address(
        b,
        env,
        base,
        s.field_types@,
        memory_order(s.mem_to_decl@, s.field_types@.len()),
        s.field_offsets@,
        s.total_size,
        index,
    );
}

/// The address of a tuple field that takes bytes lies at rustc's byte offset in
/// the tuple, where LLVM can place the fields there.
pub proof fn law_tuple_field_addresses_lie_at_their_offset(
    b: Body,
    env: Env,
    base: Value,
    t: MirTupleType,
    index: u32,
)
    requires
        b.insts.len() < usize::MAX,
        valid(b, base),
        !(value_of(b, env, base) is Undef),
        tuple_type_slots(t) is Ok,
        size_align(LlvmShape::Struct(tuple_type_slots(t)->Ok_0.fields)) is Some,
        explicit_layout(t.field_offsets@, t.total_size),
        naturally_placed(
            t.types@,
            all_ok(lowered_all(t.types@))->Ok_0,
            memory_order(t.mem_to_decl@, t.types@.len()),
            t.field_offsets@,
            t.total_size,
        ),
        index < t.types@.len(),
        !zero_sized(all_ok(lowered_all(t.types@))->Ok_0[index as int]),
    ensures
        ({
            let (c, r) = field_address_in(b, base, MirType::Tuple(t), index);
            &&& r is Ok
            &&& lies_behind(
                value_of(c, env, r->Ok_0),
                value_of(b, env, base),
                t.field_offsets@[index as int] as int,
            )
        }),
{
    assert(t.types@.len() == t.types.len());
    lemma_field_address(
        b,
        env,
        base,
        t.types@,
        memory_order(t.mem_to_decl@, t.types@.len()),
        t.field_offsets@,
        t.total_size,
        index,
    );
}

/// The pointer to a global address lies at the address's offset in its global.
pub proof fn law_global_addresses_lie_in_their_global(b: Body, env: Env, address: AddressShape)
    requires
        b.insts.len() + 2 < usize::MAX,
    ensures
        ({
            let (c, r) = pointer_to(b, address);
            let x = value_of(c, env, r);
            &&& !(x is Undef)
            &&& place_of(x) == (Val::Global(address.symbol), address.byte_offset as int)
        }),
{
    let (b1, base) = with_address_of(b, address.symbol, address.address_space);
    assert(value_of(b1, env, base) == Val::Global(address.symbol));
    assert(place_of(Val::Global(address.symbol)) == (Val::Global(address.symbol), 0int));
    if address.byte_offset > 0 {
        let bits = address.byte_offset as u128;
        let (b2, offset) = with_constant(b1, 64, bits);
        let (c, r) = pointer_to(b, address);
        let byte = LlvmShape::Integer(8);
        lemma2_to64();
        lemma_small_mod(address.byte_offset as nat, pow2(64));
        assert(truncated(bits, 64) == bits);
        assert(value_of(b2, env, offset) == Val::Int(bits as nat));
        lemma_value_stable(b1, c, env, base);
        lemma_value_stable(b2, c, env, offset);
        assert(size_align(byte) == Some((1u64, 1u64)));
        assert(bits as nat * byte_size(byte) == bits) by (nonlinear_arith)
            requires
                byte_size(byte) == 1,
        ;
        assert(value_of(c, env, r) == Val::Address(
            Box::new(Val::Global(address.symbol)),
            seq![Val::Int(bits as nat)],
            byte,
        ));
    }
}

/// Every field of a union starts where the union does.
pub proof fn law_union_field_addresses_are_the_base(
    b: Body,
    env: Env,
    base: Value,
    u: MirUnionType,
    index: u32,
)
    requires
        b.insts.len() < usize::MAX,
        valid(b, base),
        !(value_of(b, env, base) is Undef),
        index < u.field_types@.len(),
    ensures
        ({
            let (c, r) = field_address_in(b, base, MirType::Union(u), index);
            &&& r is Ok
            &&& lies_behind(value_of(c, env, r->Ok_0), value_of(b, env, base), 0)
        }),
{
    lemma_constant_byte_address(b, env, base, 0);
}

/// The address of an enum payload lies at rustc's byte offset in the enum,
/// whether the payload has a slot or not.
pub proof fn law_payload_addresses_lie_at_their_offset(
    b: Body,
    env: Env,
    base: Value,
    e: MirEnumType,
    index: u32,
)
    requires
        b.insts.len() < usize::MAX,
        valid(b, base),
        !(value_of(b, env, base) is Undef),
        is_align(larger(e.encoding.abi_align, 1)),
        e.encoding.total_size as int % larger(e.encoding.abi_align, 1) as int == 0,
        field_address_in(b, base, MirType::Enum(e), index).1 is Ok,
    ensures
        ({
            let (c, r) = field_address_in(b, base, MirType::Enum(e), index);
            lies_behind(
                value_of(c, env, r->Ok_0),
                value_of(b, env, base),
                e.all_field_offsets@[index as int] as int,
            )
        }),
{
    let s = enum_type_slots(e)->Ok_0;
    let carrier = carrier_type(e, lowered(*e.discriminant_ty))->Ok_0;
    let converted = lowered_all(e.all_field_types@);
    let types = all_ok(converted)->Ok_0;
    lemma_all_ok_values(converted, converted.len() as int);
    lemma_slots_keep_offsets(e, carrier, types);
    lemma_slots_keep_layout(e, carrier, types);
    match s.field_slots[index as int] {
        Some(slot) => {
            lemma_slot_address(b, env, base, slot, s.fields);
        },
        None => {
            lemma_constant_byte_address(b, env, base, s.field_offsets[index as int] as u32);
        },
    }
}

/// How the fields of a struct or tuple are mapped to slots.
pub open spec fn declared_slots(t: MirType) -> Result<StructSlots, LowerError> {
    match t {
        MirType::Struct(s) => struct_type_slots(s),
        MirType::Tuple(s) => tuple_type_slots(s),
        _ => Err(LowerError::UnexpectedType),
    }
}

/// The address of a field behind a pointer to a struct or tuple lies where the field's slot
/// starts, and at the base for a field that takes no bytes. Computing it needs the field
/// to exist, and leaves memory alone.
pub proof fn law_field_addresses_lie_at_their_slot(
    b: Body,
    env: Env,
    base: Value,
    history: Seq<MirType>,
    p: MirPtrType,
    slots: StructSlots,
    index: u32,
)
    requires
        b.insts.len() < usize::MAX,
        valid(b, base),
        !(value_of(b, env, base) is Undef),
        newest(history, TypeKind::Ptr) == Some(MirType::Ptr(p)),
        declared_slots(*p.pointee) == Ok::<StructSlots, LowerError>(slots),
        size_align(LlvmShape::Struct(slots.fields)) is Some,
        index < slots.decl_to_llvm.len() && slots.decl_to_llvm[index as int] is Some
            ==> slots.decl_to_llvm[index as int]->Some_0 < slots.fields.len(),
    ensures
        ({
            let (c, r) = field_address(b, base, history, Some(index));
            &&& r is Ok <==> index < slots.decl_to_llvm.len()
            &&& r is Ok ==> {
                &&& valid(c, r->Ok_0)
                &&& value_type(c, r->Ok_0) == value_type(b, base)
                &&& lies_behind(
                    value_of(c, env, r->Ok_0),
                    value_of(b, env, base),
                    match slots.decl_to_llvm[index as int] {
                        Some(slot) => natural_offset(slots.fields, slot as int),
                        None => 0,
                    },
                )
            }
            &&& memory_after(c, env) == memory_after(b, env)
        }),
{
    if index < slots.decl_to_llvm.len() {
        match slots.decl_to_llvm[index as int] {
            Some(slot) => lemma_slot_address(b, env, base, slot, slots.fields),
            None => lemma_constant_byte_address(b, env, base, 0),
        }
    }
    let c = field_address(b, base, history, Some(index)).0;
    assert(quiet(b, c));
    lemma_quiet_memory(b, c, env);
}

/// The address of a union field behind a pointer is where the union starts, for each field
/// that the union has.
pub proof fn law_union_fields_are_addressed_at_the_start(
    b: Body,
    env: Env,
    base: Value,
    history: Seq<MirType>,
    p: MirPtrType,
    u: MirUnionType,
    index: u32,
)
    requires
        b.insts.len() < usize::MAX,
        valid(b, base),
        !(value_of(b, env, base) is Undef),
        newest(history, TypeKind::Ptr) == Some(MirType::Ptr(p)),
        *p.pointee == MirType::Union(u),
    ensures
        ({
            let (c, r) = field_address(b, base, history, Some(index));
            &&& r is Ok <==> index < u.field_types@.len()
            &&& r is Ok ==> {
                &&& valid(c, r->Ok_0)
                &&& value_type(c, r->Ok_0) == value_type(b, base)
                &&& lies_behind(value_of(c, env, r->Ok_0), value_of(b, env, base), 0)
            }
            &&& memory_after(c, env) == memory_after(b, env)
        }),
{
    if index < u.field_types@.len() {
        lemma_constant_byte_address(b, env, base, 0);
    }
    let c = field_address(b, base, history, Some(index)).0;
    assert(quiet(b, c));
    lemma_quiet_memory(b, c, env);
}

/// The address of a payload field behind a pointer to an enum lies at rustc's byte offset.
/// It is given for the payloads that are stored in their own type, where an offset of 32
/// bits reaches them.
pub proof fn law_payloads_are_addressed_at_their_offset(
    b: Body,
    env: Env,
    base: Value,
    history: Seq<MirType>,
    p: MirPtrType,
    e: MirEnumType,
    index: u32,
)
    requires
        b.insts.len() < usize::MAX,
        valid(b, base),
        !(value_of(b, env, base) is Undef),
        newest(history, TypeKind::Ptr) == Some(MirType::Ptr(p)),
        *p.pointee == MirType::Enum(e),
        enum_type_slots(e) is Ok,
        is_align(larger(e.encoding.abi_align, 1)),
        e.encoding.total_size as int % larger(e.encoding.abi_align, 1) as int == 0,
    ensures
        ({
            let s = enum_type_slots(e)->Ok_0;
            let (c, r) = field_address(b, base, history, Some(index));
            &&& r is Ok <==> index < s.field_slots.len() && payload_storage(
                s.field_types[index as int],
            ) == Ok::<LlvmShape, LowerError>(s.field_types[index as int]) && (
            s.field_slots[index as int] is Some || s.field_offsets[index as int] <= u32::MAX)
            &&& r is Ok ==> {
                &&& valid(c, r->Ok_0)
                &&& value_type(c, r->Ok_0) == value_type(b, base)
                &&& lies_behind(
                    value_of(c, env, r->Ok_0),
                    value_of(b, env, base),
                    e.all_field_offsets@[index as int] as int,
                )
            }
            &&& memory_after(c, env) == memory_after(b, env)
        }),
{
    let (c, r) = field_address(b, base, history, Some(index));
    if r is Ok {
        law_payload_addresses_lie_at_their_offset(b, env, base, e, index);
    }
    assert(quiet(b, c));
    lemma_quiet_memory(b, c, env);
}

/// A field has an address only behind a pointer to a struct, tuple, union or enum, and
/// only where its index is known.
pub proof fn law_other_fields_have_no_address(
    b: Body,
    base: Value,
    history: Seq<MirType>,
    index: Option<u32>,
)
    requires
        index is None || newest(history, TypeKind::Ptr) is None || (newest(
            history,
            TypeKind::Ptr,
        ) matches Some(MirType::Ptr(p)) && !(*p.pointee is Struct) && !(*p.pointee is Tuple)
            && !(*p.pointee is Union) && !(*p.pointee is Enum)),
    ensures
        field_address(b, base, history, index).1 is Err,
        field_address(b, base, history, index).0 == b,
{
}

} // verus!
