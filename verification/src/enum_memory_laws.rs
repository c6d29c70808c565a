//! Enum payloads that pass through memory read back as they were written.

use crate::bool_laws::{lemma_adapted_twice, lemma_canonical_grows, lemma_canonical_value};
use crate::byte_laws::lemma_spilled;
use crate::collect::{all_ok, all_some, lemma_all_ok_succeeds, lemma_all_ok_values};
use crate::enum_access::{
    is_bounded_niche_payload, payload_of, read_discriminant, read_payload, stored_variant,
};
use crate::enum_bytes::{copied_fields, field_with_bytes, rebuilt_payload};
use crate::enum_laws::{
    expected_discriminant, goes_to_memory, has_carrier, lemma_any_constant, lemma_carrier_slot,
    lemma_cast, law_carrier_bits_read_back, lemma_fields_before_nonnegative, lemma_placed_grows,
    lemma_placed_one_grows, lemma_truncated_bound, lemma_variant_grows, readable,
};
use crate::enum_ops::{
    byte_address, carrier_bits, completed_enum, constructed_enum, fields_before, placed_payload,
    placed_payloads, stored_payload, stored_payloads, with_carrier, with_variant, Payloads,
};
use crate::enum_slots::{
    carrier_type, lemma_slot_claims, lemma_storage_is_target_stable, EnumSlots,
};
use crate::error::LowerError;
use crate::ir::{
    extends, lemma_extends_transitive, lemma_extends_value, truncated, valid, value_type, with_cast,
    with_constant, with_gep, with_load, with_store, with_undef, Body, CastOp, GepIndex, GepPath, Op,
    Value,
};
use crate::layout::{field_at, fits, natural_offset, size_align};
use crate::llvm::{LlvmShape, SHARED};
use crate::memory_laws::{lemma_new_load, lemma_new_store};
use crate::mir::{EnumCarrierKind, MirEnumType, MirType};
use crate::payload_laws::{
    adaptable, adapted, all_stored_as, lemma_adaptable_back, lemma_adaptable_succeeds,
    lemma_adapted_back, lemma_coerced_adaptable, lemma_coerced_type, lemma_coerced_value,
    lemma_payload_storage_stores, lemma_twin_stores, stored_as,
};
use crate::payload_values::{canonical, coerced, lemma_coerced_grows};
use crate::quiet::{lemma_canonical_quiet, lemma_coerced_quiet, lemma_quiet_memory, quiet};
use crate::rebuild_laws::{lemma_field_with_bytes, lemma_rebuilt_grows, lemma_rebuilt_value};
use crate::semantics::{
    bytes_at, computed_address, lemma_constant_value, lemma_memory_stable, lemma_value_stable,
    memory_after, place_of, value_of, written, Env, Memory,
};
use crate::storage::{
    contains_bool, contains_leaf, payload_storage, payload_storages, twin, twins,
    zero_sized, LeafKind,
};
use crate::struct_laws::lemma_newest_of_one;
use crate::types::{enum_type_slots, lowered, lowered_all};
use crate::union_ops::{memory_align, spilled};
use crate::values::{
    all_well_typed, byte_size, decoded, decoded_fields, encoded, field_bytes, keeps_byte,
    lemma_decoded_encoded, lemma_encoded_field, lemma_encoded_len, lemma_field_place,
    lemma_keeps_byte, lemma_number_survives, undef_bytes, well_typed, Byte, Val,
};
use vstd::arithmetic::power2::lemma2_to64;
use vstd::prelude::*;

verus! {

/// The twin of a payload's type is kept by its storage.
pub proof fn lemma_storage_keeps_twin(t: LlvmShape)
    requires
        payload_storage(t) is Ok,
        twin(t) is Some,
    ensures
        stored_as(twin(t)->Some_0, payload_storage(t)->Ok_0),
    decreases t,
{
    lemma_payload_storage_stores(t);
    match t {
        LlvmShape::Struct(fields) => {
            if contains_bool(t) {
                lemma_storages_keep_twins(fields);
            }
        },
        _ => {},
    }
}

proof fn lemma_storages_keep_twins(fields: Seq<LlvmShape>)
    requires
        all_ok(payload_storages(fields)) is Ok,
        all_some(twins(fields)) is Some,
    ensures
        all_stored_as(all_some(twins(fields))->Some_0, all_ok(payload_storages(fields))->Ok_0),
    decreases fields,
{
    let found = payload_storages(fields);
    lemma_all_ok_values(found, found.len() as int);
    let ts = all_some(twins(fields))->Some_0;
    let us = all_ok(found)->Ok_0;
    assert forall|i: int| 0 <= i < ts.len() implies stored_as(#[trigger] ts[i], us[i]) by {
        assert(found[i] is Ok);
        assert(twins(fields)[i] is Some);
        lemma_storage_keeps_twin(fields[i]);
    }
}

/// A byte address is its base and the offset.
pub proof fn lemma_byte_address(b: Body, env: Env, base: Value, offset: u64)
    requires
        valid(b, base),
        b.insts.len() + 2 < usize::MAX,
    ensures
        ({
            let (c, r) = byte_address(b, base, offset);
            &&& extends(b, c)
            &&& valid(c, r)
            &&& c.insts.len() == b.insts.len() + 2
            &&& memory_after(c, env) == memory_after(b, env)
            &&& value_of(c, env, r) == computed_address(
                value_of(b, env, base),
                seq![Val::Int(offset as nat)],
                LlvmShape::Integer(8),
            )
        }),
{
    let (b1, amount) = with_constant(b, 64, offset as u128);
    lemma2_to64();
    lemma_constant_value(b, env, 64, offset as u128);
    lemma_memory_stable(b, b1, env, b.insts.len() as usize);
    lemma_extends_value(b, b1, base);
    lemma_value_stable(b, b1, env, base);
    let path = GepPath::One(GepIndex::Value(amount));
    let (c, r) = with_gep(b1, base, path, LlvmShape::Integer(8));
    assert(extends(b1, c));
    lemma_extends_transitive(b, b1, c);
    lemma_value_stable(b1, c, env, base);
    lemma_value_stable(b1, c, env, amount);
    lemma_memory_stable(b1, c, env, b1.insts.len() as usize);
}

/// Where a byte address behind a stack slot is.
proof fn lemma_byte_place(slot: nat, offset: u64)
    ensures
        ({
            let address = computed_address(
                Val::Slot(slot),
                seq![Val::Int(offset as nat)],
                LlvmShape::Integer(8),
            );
            &&& !(address is Undef)
            &&& place_of(address) == (Val::Slot(slot), offset as int)
        }),
{
    lemma_offset_place(Val::Slot(slot), offset);
}

// ---------------------------------------------------------------------------
// Writing payloads
// ---------------------------------------------------------------------------

/// The storage type of payload field `flat`.
pub open spec fn storage_of(s: EnumSlots, flat: int) -> LlvmShape {
    payload_storage(s.field_types[flat])->Ok_0
}

pub proof fn lemma_stored_payload_grows(b: Body, s: EnumSlots, slot: Value, flat: usize, operand: Value)
    ensures
        extends(b, stored_payload(b, s, slot, flat, operand).0),
{
    let (b1, ptr) = byte_address(b, slot, s.field_offsets[flat as int]);
    assert(extends(b, b1));
    if payload_storage(s.field_types[flat as int]) is Ok {
        let storage = storage_of(s, flat as int);
        let ty = value_type(b1, operand);
        lemma_canonical_grows(b1, operand, ty);
        let (b2, bytes) = canonical(b1, operand, ty);
        lemma_extends_transitive(b, b1, b2);
        if bytes is Ok {
            let x = bytes->Ok_0;
            lemma_coerced_grows(b2, x, value_type(b2, x), storage);
            let (b3, kept) = coerced(b2, x, value_type(b2, x), storage);
            lemma_extends_transitive(b, b2, b3);
            if kept is Ok {
                let c = with_store(b3, kept->Ok_0, ptr, None);
                assert(extends(b3, c));
                lemma_extends_transitive(b, b3, c);
            }
        }
    }
}

/// Writing a payload puts its adapted bytes at its offset, where the payload is
/// well typed.
proof fn lemma_stored_payload(
    b: Body,
    env: Env,
    s: EnumSlots,
    slot: Value,
    flat: usize,
    operand: Value,
    place: nat,
)
    requires
        valid(b, slot),
        valid(b, operand),
        value_of(b, env, slot) == Val::Slot(place),
        value_type(b, operand) == s.field_types[flat as int],
        well_typed(value_of(b, env, operand), s.field_types[flat as int]),
        stored_payload(b, s, slot, flat, operand).1 is Ok,
        stored_payload(b, s, slot, flat, operand).0.insts.len() < usize::MAX,
    ensures
        ({
            let (c, r) = stored_payload(b, s, slot, flat, operand);
            let own = s.field_types[flat as int];
            let storage = storage_of(s, flat as int);
            let address = computed_address(
                Val::Slot(place),
                seq![Val::Int(s.field_offsets[flat as int] as nat)],
                LlvmShape::Integer(8),
            );
            &&& extends(b, c)
            &&& payload_storage(own) is Ok
            &&& adaptable(own, storage)
            &&& stored_as(own, storage)
            &&& memory_after(c, env) == written(
                memory_after(b, env),
                address,
                adapted(value_of(b, env, operand), own, storage),
                storage,
            )
        }),
{
    lemma_stored_payload_grows(b, s, slot, flat, operand);
    let own = s.field_types[flat as int];
    let storage = storage_of(s, flat as int);
    let offset = s.field_offsets[flat as int];
    let x0 = value_of(b, env, operand);
    let (b1, ptr) = byte_address(b, slot, offset);
    assert(extends(b, b1));
    lemma_extends_value(b, b1, operand);
    lemma_canonical_grows(b1, operand, own);
    let (b2, bytes) = canonical(b1, operand, own);
    let x = bytes->Ok_0;
    let t = value_type(b2, x);
    lemma_coerced_grows(b2, x, t, storage);
    let (b3, kept) = coerced(b2, x, t, storage);
    let y = kept->Ok_0;
    let c = with_store(b3, y, ptr, None);
    assert(extends(b3, c));
    lemma_byte_address(b, env, slot, offset);
    lemma_value_stable(b, b1, env, operand);
    lemma_canonical_value(b1, env, operand, own);
    lemma_twin_stores(own);
    lemma_storage_keeps_twin(own);
    lemma_payload_storage_stores(own);
    lemma_adapted_back(x0, own, t);
    lemma_coerced_value(b2, env, x, t, storage);
    lemma_coerced_type(b2, x, t, storage);
    lemma_coerced_adaptable(b2, x, t, storage);
    lemma_adapted_twice(x0, own, t, storage);
    lemma_canonical_quiet(b1, operand, own);
    lemma_quiet_memory(b1, b2, env);
    lemma_coerced_quiet(b2, x, t, storage);
    lemma_quiet_memory(b2, b3, env);
    lemma_extends_transitive(b1, b2, b3);
    lemma_extends_value(b1, b3, ptr);
    lemma_value_stable(b1, b3, env, ptr);
    lemma_new_store(b3, env, Op::Store { value: y, ptr, align: None, is_volatile: false });
}

/// Where payload field `flat` starts.
pub open spec fn start_of(s: EnumSlots, flat: int) -> int {
    s.field_offsets[flat] as int
}

/// Where payload field `flat` ends.
pub open spec fn end_of(s: EnumSlots, flat: int) -> int {
    start_of(s, flat) + byte_size(storage_of(s, flat))
}

/// Whether two payload fields share no byte.
pub open spec fn apart(s: EnumSlots, f: int, g: int) -> bool {
    end_of(s, f) <= start_of(s, g) || end_of(s, g) <= start_of(s, f)
}

/// Whether `operand` is a value for payload field `flat`.
pub open spec fn fits_payload(b: Body, env: Env, s: EnumSlots, operand: Value, flat: int) -> bool {
    &&& valid(b, operand)
    &&& value_type(b, operand) == s.field_types[flat]
    &&& well_typed(value_of(b, env, operand), s.field_types[flat])
    &&& payload_storage(s.field_types[flat]) is Ok
    &&& size_align(storage_of(s, flat)) is Some
}

/// Whether memory holds at `place` the adapted bytes of `x`, the value of payload
/// field `flat`.
spec fn holds_payload(memory: Memory, place: nat, s: EnumSlots, flat: int, x: Val) -> bool {
    let kept = kept_bytes(s, flat, x);
    forall|o: int|
        start_of(s, flat) <= o < end_of(s, flat) ==> #[trigger] memory(Val::Slot(place), o)
            == kept[o - start_of(s, flat)]
}

pub proof fn lemma_stored_payloads_grow(
    b: Body,
    s: EnumSlots,
    slot: Value,
    deferred: Seq<(usize, Value)>,
    k: int,
)
    ensures
        extends(b, stored_payloads(b, s, slot, deferred, k).0),
    decreases k,
{
    if k > 0 {
        lemma_stored_payloads_grow(b, s, slot, deferred, k - 1);
        let (b1, before) = stored_payloads(b, s, slot, deferred, k - 1);
        if before is Ok {
            let (flat, operand) = deferred[k - 1];
            lemma_stored_payload_grows(b1, s, slot, flat, operand);
            lemma_extends_transitive(b, b1, stored_payloads(b, s, slot, deferred, k).0);
        }
    }
}

/// Writing payloads one by one leaves each that shares no byte with a later one
/// in place.
proof fn lemma_stored_payloads(
    b: Body,
    env: Env,
    s: EnumSlots,
    slot: Value,
    deferred: Seq<(usize, Value)>,
    k: int,
    d: int,
    place: nat,
)
    requires
        0 <= d < k <= deferred.len(),
        valid(b, slot),
        value_of(b, env, slot) == Val::Slot(place),
        forall|j: int|
            0 <= j < deferred.len() ==> fits_payload(
                b,
                env,
                s,
                (#[trigger] deferred[j]).1,
                deferred[j].0 as int,
            ),
        forall|j: int|
            d < j < deferred.len() ==> apart(
                s,
                deferred[d].0 as int,
                (#[trigger] deferred[j]).0 as int,
            ),
        stored_payloads(b, s, slot, deferred, k).1 is Ok,
        stored_payloads(b, s, slot, deferred, k).0.insts.len() < usize::MAX,
    ensures
        ({
            let (c, r) = stored_payloads(b, s, slot, deferred, k);
            let flat = deferred[d].0 as int;
            &&& payload_storage(s.field_types[flat]) is Ok
            &&& adaptable(s.field_types[flat], storage_of(s, flat))
            &&& stored_as(s.field_types[flat], storage_of(s, flat))
            &&& holds_payload(
                memory_after(c, env),
                place,
                s,
                flat,
                value_of(b, env, deferred[d].1),
            )
        }),
    decreases k,
{
    lemma_stored_payloads_grow(b, s, slot, deferred, k - 1);
    let (b1, before) = stored_payloads(b, s, slot, deferred, k - 1);
    let (flat, operand) = deferred[k - 1];
    lemma_stored_payload_grows(b1, s, slot, flat, operand);
    let (c, r) = stored_payload(b1, s, slot, flat, operand);
    assert(fits_payload(b, env, s, deferred[k - 1].1, deferred[k - 1].0 as int));
    lemma_extends_value(b, b1, slot);
    lemma_value_stable(b, b1, env, slot);
    lemma_extends_value(b, b1, operand);
    lemma_value_stable(b, b1, env, operand);
    lemma_stored_payload(b1, env, s, slot, flat, operand, place);
    let offset = s.field_offsets[flat as int];
    lemma_byte_place(place, offset);
    let storage = storage_of(s, flat as int);
    let y = adapted(value_of(b, env, operand), s.field_types[flat as int], storage);
    lemma_encoded_len(y, storage);
    if d < k - 1 {
        lemma_stored_payloads(b, env, s, slot, deferred, k - 1, d, place);
        assert(apart(s, deferred[d].0 as int, deferred[k - 1].0 as int));
        let own = deferred[d].0 as int;
        assert forall|o: int| start_of(s, own) <= o < end_of(s, own) implies #[trigger]
            memory_after(c, env)(Val::Slot(place), o) == memory_after(b1, env)(
            Val::Slot(place),
            o,
        ) by {}
    }
}

/// Whether storage field `x` and payload field `f` share no byte.
pub open spec fn slot_apart(s: EnumSlots, x: int, f: int) -> bool {
    let start = natural_offset(s.fields, x);
    start + byte_size(s.fields[x]) <= start_of(s, f) || end_of(s, f) <= start
}

/// Writing payloads leaves the bytes of a storage field that shares none with
/// them.
proof fn lemma_stored_elsewhere(
    b: Body,
    env: Env,
    s: EnumSlots,
    slot: Value,
    deferred: Seq<(usize, Value)>,
    k: int,
    x: int,
    place: nat,
)
    requires
        0 <= k <= deferred.len(),
        valid(b, slot),
        value_of(b, env, slot) == Val::Slot(place),
        forall|j: int|
            0 <= j < deferred.len() ==> fits_payload(
                b,
                env,
                s,
                (#[trigger] deferred[j]).1,
                deferred[j].0 as int,
            ) && slot_apart(s, x, deferred[j].0 as int),
        stored_payloads(b, s, slot, deferred, k).1 is Ok,
        stored_payloads(b, s, slot, deferred, k).0.insts.len() < usize::MAX,
    ensures
        ({
            let c = stored_payloads(b, s, slot, deferred, k).0;
            let start = natural_offset(s.fields, x);
            forall|o: int|
                start <= o < start + byte_size(s.fields[x]) ==> #[trigger] memory_after(c, env)(
                    Val::Slot(place),
                    o,
                ) == memory_after(b, env)(Val::Slot(place), o)
        }),
    decreases k,
{
    if k > 0 {
        lemma_stored_payloads_grow(b, s, slot, deferred, k - 1);
        let (b1, before) = stored_payloads(b, s, slot, deferred, k - 1);
        let (flat, operand) = deferred[k - 1];
        lemma_stored_payload_grows(b1, s, slot, flat, operand);
        let (c, r) = stored_payload(b1, s, slot, flat, operand);
        assert(fits_payload(b, env, s, deferred[k - 1].1, deferred[k - 1].0 as int));
        lemma_stored_elsewhere(b, env, s, slot, deferred, k - 1, x, place);
        lemma_extends_value(b, b1, slot);
        lemma_value_stable(b, b1, env, slot);
        lemma_extends_value(b, b1, operand);
        lemma_value_stable(b, b1, env, operand);
        lemma_stored_payload(b1, env, s, slot, flat, operand, place);
        lemma_byte_place(place, s.field_offsets[flat as int]);
        let storage = storage_of(s, flat as int);
        lemma_encoded_len(
            adapted(value_of(b, env, operand), s.field_types[flat as int], storage),
            storage,
        );
        assert(slot_apart(s, x, flat as int));
    }
}

/// Completing an enum value through memory keeps a slot that shares no byte with
/// the payloads that pass through memory.
pub proof fn lemma_slot_survives(
    b: Body,
    env: Env,
    e: MirEnumType,
    s: EnumSlots,
    p: Payloads,
    x: int,
    t: Seq<Val>,
)
    requires
        valid(b, p.current),
        value_type(b, p.current) == LlvmShape::Struct(s.fields),
        value_of(b, env, p.current) == Val::Aggregate(t),
        t.len() == s.fields.len(),
        0 <= x < s.fields.len(),
        p.deferred.len() > 0 ==> size_align(LlvmShape::Struct(s.fields)) is Some && decoded(
            encoded(t[x], s.fields[x]),
            s.fields[x],
        ) == t[x],
        forall|j: int|
            0 <= j < p.deferred.len() ==> fits_payload(
                b,
                env,
                s,
                (#[trigger] p.deferred[j]).1,
                p.deferred[j].0 as int,
            ) && slot_apart(s, x, p.deferred[j].0 as int),
        completed_enum(b, e, s, p).1 is Ok,
        completed_enum(b, e, s, p).0.insts.len() < usize::MAX,
    ensures
        ({
            let (c, r) = completed_enum(b, e, s, p);
            &&& valid(c, r->Ok_0)
            &&& value_type(c, r->Ok_0) == LlvmShape::Struct(s.fields)
            &&& value_of(c, env, r->Ok_0) is Aggregate
            &&& value_of(c, env, r->Ok_0)->Aggregate_0.len() == s.fields.len()
            &&& value_of(c, env, r->Ok_0)->Aggregate_0[x] == t[x]
        }),
{
    if p.deferred.len() > 0 {
        let whole = LlvmShape::Struct(s.fields);
        let m = p.deferred.len() as int;
        let align = memory_align(e.encoding.abi_align);
        let (b4, slot) = spilled(b, p.current, whole, e.encoding.abi_align);
        assert(extends(b, b4));
        lemma_stored_payloads_grow(b4, s, slot, p.deferred, m);
        let (b5, stored) = stored_payloads(b4, s, slot, p.deferred, m);
        let (c, v) = with_load(b5, slot, whole, align);
        assert(extends(b5, c));
        lemma_spilled(b, env, p.current, whole, 64, align, align);
        let place = (b.insts.len() + 1) as nat;
        assert forall|j: int| 0 <= j < p.deferred.len() implies fits_payload(
            b4,
            env,
            s,
            (#[trigger] p.deferred[j]).1,
            p.deferred[j].0 as int,
        ) && slot_apart(s, x, p.deferred[j].0 as int) by {
            lemma_extends_value(b, b4, p.deferred[j].1);
            lemma_value_stable(b, b4, env, p.deferred[j].1);
        }
        lemma_stored_elsewhere(b4, env, s, slot, p.deferred, m, x, place);
        lemma_extends_value(b4, b5, slot);
        lemma_value_stable(b4, b5, env, slot);
        lemma_new_load(b5, env, slot, Op::Load { ptr: slot, align, is_volatile: false }, whole);
        let bytes = bytes_at(memory_after(b5, env), Val::Slot(place), byte_size(whole));
        let before = encoded(Val::Aggregate(t), whole);
        lemma_encoded_len(Val::Aggregate(t), whole);
        lemma_field_place(s.fields, x);
        lemma_encoded_field(t, s.fields, x);
        let start = natural_offset(s.fields, x);
        assert(field_bytes(bytes, s.fields, x) =~= field_bytes(before, s.fields, x)) by {
            assert forall|o: int| start <= o < start + byte_size(s.fields[x]) implies #[trigger]
                bytes[o] == before[o] by {
                assert(memory_after(b5, env)(Val::Slot(place), o) == memory_after(b4, env)(
                    Val::Slot(place),
                    o,
                ));
            }
        }
        let u = decoded_fields(bytes, s.fields);
        assert(u[x] == decoded(field_bytes(bytes, s.fields, x), s.fields[x]));
        assert(value_of(c, env, v) == Val::Aggregate(u));
    }
}

// ---------------------------------------------------------------------------
// Which payloads pass through memory
// ---------------------------------------------------------------------------

/// The payloads left for memory are those without a slot that have bytes, in
/// order.
pub proof fn lemma_deferred(
    b: Body,
    s: EnumSlots,
    start: Value,
    operands: Seq<Value>,
    variant: usize,
    base: int,
    k: int,
)
    requires
        0 <= k <= operands.len(),
        0 <= base,
        s.field_slots.len() <= usize::MAX,
        valid(b, start),
        placed_payloads(b, s, start, operands, variant, base, k).1 is Ok,
        placed_payloads(b, s, start, operands, variant, base, k).0.insts.len() < usize::MAX,
    ensures
        ({
            let (c, r) = placed_payloads(b, s, start, operands, variant, base, k);
            let p = r->Ok_0;
            &&& valid(c, p.current)
            &&& value_type(c, p.current) == value_type(b, start)
            &&& p.deferred.len() <= k
            &&& forall|d: int|
                #![trigger p.deferred[d]]
                0 <= d < p.deferred.len() ==> {
                    &&& base <= p.deferred[d].0 < base + k
                    &&& p.deferred[d].0 < s.field_slots.len()
                    &&& p.deferred[d].1 == operands[p.deferred[d].0 - base]
                    &&& s.field_slots[p.deferred[d].0 as int] is None
                    &&& !zero_sized(s.field_types[p.deferred[d].0 as int])
                }
            &&& forall|d: int, j: int|
                0 <= d < j < p.deferred.len() ==> (#[trigger] p.deferred[d]).0
                    < (#[trigger] p.deferred[j]).0
        }),
    decreases k,
{
    if k > 0 {
        let (b1, before) = placed_payloads(b, s, start, operands, variant, base, k - 1);
        let p = before->Ok_0;
        let operand = operands[k - 1];
        let flat = base + k - 1;
        lemma_placed_one_grows(b1, s, p, operand, variant, flat, k - 1);
        lemma_deferred(b, s, start, operands, variant, base, k - 1);
        let (c, r) = placed_payload(b1, s, p, operand, variant, flat, k - 1);
        match s.field_slots[flat] {
            Some(slot) => {
                let storage = crate::ir::element_type(LlvmShape::Struct(s.fields), slot)->Some_0;
                let from = value_type(b1, operand);
                lemma_coerced_grows(b1, operand, from, storage);
                lemma_extends_value(b1, coerced(b1, operand, from, storage).0, p.current);
            },
            None => {
                lemma_extends_value(b1, c, p.current);
            },
        }
    }
}

/// A payload without a slot that has bytes is left for memory.
proof fn lemma_is_deferred(
    b: Body,
    s: EnumSlots,
    start: Value,
    operands: Seq<Value>,
    variant: usize,
    base: int,
    k: int,
    i: int,
) -> (d: int)
    requires
        0 <= i < k <= operands.len(),
        0 <= base,
        base + i < s.field_slots.len() <= usize::MAX,
        s.field_slots[base + i] is None,
        !zero_sized(s.field_types[base + i]),
        placed_payloads(b, s, start, operands, variant, base, k).1 is Ok,
    ensures
        ({
            let p = placed_payloads(b, s, start, operands, variant, base, k).1->Ok_0;
            &&& 0 <= d < p.deferred.len()
            &&& p.deferred[d] == ((base + i) as usize, operands[i])
        }),
    decreases k,
{
    let (b1, before) = placed_payloads(b, s, start, operands, variant, base, k - 1);
    let p = before->Ok_0;
    if i == k - 1 {
        p.deferred.len() as int
    } else {
        lemma_is_deferred(b, s, start, operands, variant, base, k - 1, i)
    }
}

// ---------------------------------------------------------------------------
// Reading payloads
// ---------------------------------------------------------------------------

/// Whether loading and storing an enum's storage leaves payload field `flat` as it
/// was written: a field of the storage is the payload's own, or each of its bytes
/// belongs to a scalar of the storage.
pub open spec fn stays_in_storage(s: EnumSlots, flat: int) -> bool {
    ||| exists|j: int| #[trigger]
        field_at(s.fields, j, storage_of(s, flat), start_of(s, flat))
    ||| forall|o: int|
        start_of(s, flat) <= o < end_of(s, flat) ==> #[trigger] keeps_byte(
            LlvmShape::Struct(s.fields),
            o,
        )
}

/// A payload that stays in the storage lies inside it.
proof fn lemma_storage_bounds(s: EnumSlots, flat: int)
    requires
        size_align(LlvmShape::Struct(s.fields)) is Some,
        start_of(s, flat) < end_of(s, flat),
        stays_in_storage(s, flat),
    ensures
        end_of(s, flat) <= byte_size(LlvmShape::Struct(s.fields)),
{
    let whole = LlvmShape::Struct(s.fields);
    if exists|j: int| #[trigger] field_at(s.fields, j, storage_of(s, flat), start_of(s, flat)) {
        let j = choose|j: int| #[trigger]
            field_at(s.fields, j, storage_of(s, flat), start_of(s, flat));
        lemma_field_place(s.fields, j);
    } else {
        assert(keeps_byte(whole, end_of(s, flat) - 1));
        lemma_keeps_byte(undef_bytes(byte_size(whole)), whole, end_of(s, flat) - 1);
    }
}

/// Loading and storing an enum's storage keeps the bytes of a payload that stays
/// in it.
proof fn lemma_storage_keeps(bytes: Seq<Byte>, s: EnumSlots, flat: int, x: Val)
    requires
        size_align(LlvmShape::Struct(s.fields)) is Some,
        bytes.len() == byte_size(LlvmShape::Struct(s.fields)),
        size_align(storage_of(s, flat)) is Some,
        start_of(s, flat) < end_of(s, flat),
        stored_as(s.field_types[flat], storage_of(s, flat)),
        well_typed(x, s.field_types[flat]),
        stays_in_storage(s, flat),
        holds_kept(bytes, s, flat, x),
    ensures
        ({
            let whole = LlvmShape::Struct(s.fields);
            holds_kept(encoded(decoded(bytes, whole), whole), s, flat, x)
        }),
{
    let whole = LlvmShape::Struct(s.fields);
    let storage = storage_of(s, flat);
    let start = start_of(s, flat);
    let kept = kept_bytes(s, flat, x);
    let values = decoded_fields(bytes, s.fields);
    let back = encoded(decoded(bytes, whole), whole);
    lemma_storage_bounds(s, flat);
    if exists|j: int| #[trigger] field_at(s.fields, j, storage, start) {
        let j = choose|j: int| #[trigger] field_at(s.fields, j, storage, start);
        let y = adapted(x, s.field_types[flat], storage);
        lemma_field_place(s.fields, j);
        lemma_adapted_back(x, s.field_types[flat], storage);
        lemma_encoded_len(y, storage);
        let part = field_bytes(bytes, s.fields, j);
        assert forall|i: int| 0 <= i < part.len() implies #[trigger] part[i] == kept[i] by {
            assert(bytes[start + i] == kept[i]);
        }
        assert(part =~= kept);
        lemma_decoded_encoded(y, storage);
        assert(values[j] == y);
        lemma_encoded_field(values, s.fields, j);
        lemma_encoded_len(decoded(bytes, whole), whole);
        assert forall|o: int| start <= o < end_of(s, flat) implies #[trigger] back[o] == kept[o
            - start] by {
            assert(field_bytes(back, s.fields, j)[o - start] == back[o]);
        }
    } else {
        assert forall|o: int| start <= o < end_of(s, flat) implies #[trigger] back[o] == kept[o
            - start] by {
            assert(keeps_byte(whole, o));
            lemma_keeps_byte(bytes, whole, o);
            assert(bytes[o] == kept[o - start]);
        }
    }
}

/// Reading through memory gives a payload whose adapted bytes the enum's storage
/// holds.
pub proof fn lemma_read_through_memory(
    c: Body,
    env: Env,
    v: Value,
    e: MirEnumType,
    s: EnumSlots,
    flat: int,
    allow_integer_only: bool,
    bytes: Seq<Byte>,
    x: Val,
)
    requires
        valid(c, v),
        value_type(c, v) == LlvmShape::Struct(s.fields),
        size_align(LlvmShape::Struct(s.fields)) is Some,
        bytes.len() == byte_size(LlvmShape::Struct(s.fields)),
        value_of(c, env, v) == decoded(bytes, LlvmShape::Struct(s.fields)),
        0 <= flat,
        s.field_slots[flat] is None,
        !zero_sized(s.field_types[flat]),
        payload_storage(s.field_types[flat]) is Ok,
        size_align(storage_of(s, flat)) is Some,
        adaptable(s.field_types[flat], storage_of(s, flat)),
        stored_as(s.field_types[flat], storage_of(s, flat)),
        well_typed(x, s.field_types[flat]),
        start_of(s, flat) < end_of(s, flat),
        stays_in_storage(s, flat),
        holds_kept(bytes, s, flat, x),
        rebuilt_payload(
            c,
            v,
            LlvmShape::Struct(s.fields),
            s.field_types[flat],
            s.field_offsets[flat],
            allow_integer_only,
        ).1 is None,
        read_payload(c, v, e, s, flat, allow_integer_only).0.insts.len() < usize::MAX,
    ensures
        ({
            let (d, r) = read_payload(c, v, e, s, flat, allow_integer_only);
            &&& r is Ok
            &&& valid(d, r->Ok_0)
            &&& value_type(d, r->Ok_0) == s.field_types[flat]
            &&& value_of(d, env, r->Ok_0) == x
        }),
{
    let whole = LlvmShape::Struct(s.fields);
    let own = s.field_types[flat];
    let storage = storage_of(s, flat);
    let offset = s.field_offsets[flat];
    let y = adapted(x, own, storage);
    let (b1, direct) = rebuilt_payload(c, v, whole, own, offset, allow_integer_only);
    lemma_rebuilt_grows(c, v, whole, own, offset, allow_integer_only);
    let (b2, slot) = spilled(b1, v, whole, e.encoding.abi_align);
    assert(extends(b1, b2));
    let (b3, ptr) = byte_address(b2, slot, offset);
    assert(extends(b2, b3));
    let (b4, z) = with_load(b3, ptr, storage, None);
    assert(extends(b3, b4));
    lemma_coerced_grows(b4, z, storage, own);
    lemma_extends_value(c, b1, v);
    lemma_value_stable(c, b1, env, v);
    let align = memory_align(e.encoding.abi_align);
    lemma_spilled(b1, env, v, whole, 64, align, align);
    lemma_byte_address(b2, env, slot, offset);
    lemma_new_load(b3, env, ptr, Op::Load { ptr, align: None, is_volatile: false }, storage);
    let place = (b1.insts.len() + 1) as nat;
    lemma_byte_place(place, offset);
    let address = value_of(b3, env, ptr);
    let spread = encoded(value_of(c, env, v), whole);
    lemma_encoded_len(value_of(c, env, v), whole);
    lemma_encoded_len(y, storage);
    let read = bytes_at(memory_after(b3, env), address, byte_size(storage));
    lemma_storage_bounds(s, flat);
    lemma_storage_keeps(bytes, s, flat, x);
    assert forall|i: int| 0 <= i < byte_size(storage) implies #[trigger] read[i] == encoded(
        y,
        storage,
    )[i] by {
        let o = offset + i;
        assert(spread[o] == kept_bytes(s, flat, x)[o - start_of(s, flat)]);
    }
    assert(read =~= encoded(y, storage));
    lemma_adapted_back(x, own, storage);
    lemma_decoded_encoded(y, storage);
    assert(value_of(b4, env, z) == y);
    lemma_adaptable_back(own, storage);
    lemma_adaptable_succeeds(b4, z, storage, own);
    lemma_coerced_value(b4, env, z, storage, own);
    lemma_coerced_type(b4, z, storage, own);
}

/// Reading a payload only adds code.
pub proof fn lemma_read_grows(
    b: Body,
    v: Value,
    e: MirEnumType,
    s: EnumSlots,
    flat: int,
    allow_integer_only: bool,
)
    requires
        s.field_slots[flat] is None,
    ensures
        extends(b, read_payload(b, v, e, s, flat, allow_integer_only).0),
{
    let own = s.field_types[flat];
    let whole = LlvmShape::Struct(s.fields);
    let offset = s.field_offsets[flat];
    if !zero_sized(own) {
        lemma_rebuilt_grows(b, v, whole, own, offset, allow_integer_only);
        let (b1, direct) = rebuilt_payload(b, v, whole, own, offset, allow_integer_only);
        let (b2, slot) = spilled(b1, v, whole, e.encoding.abi_align);
        let (b3, ptr) = byte_address(b2, slot, offset);
        assert(extends(b1, b3));
        lemma_extends_transitive(b, b1, b3);
        let storage = storage_of(s, flat);
        let (b4, z) = with_load(b3, ptr, storage, None);
        assert(extends(b3, b4));
        lemma_extends_transitive(b, b3, b4);
        lemma_coerced_grows(b4, z, storage, own);
        lemma_extends_transitive(b, b4, coerced(b4, z, storage, own).0);
    }
}

/// An enum has as many slots as payload fields.
pub proof fn lemma_slot_count(e: MirEnumType)
    requires
        enum_type_slots(e) is Ok,
    ensures
        enum_type_slots(e)->Ok_0.field_slots.len() <= usize::MAX,
        enum_type_slots(e)->Ok_0.fields.len() <= u32::MAX,
{
    let converted = lowered_all(e.all_field_types@);
    assert(e.all_field_types@.len() == e.all_field_types.len());
    if e.spec_variant_count() > 0 {
        let carrier = carrier_type(e, lowered(*e.discriminant_ty))->Ok_0;
        lemma_all_ok_values(converted, converted.len() as int);
        lemma_slot_claims(e, carrier, all_ok(converted)->Ok_0);
    }
}

/// A value with the carrier of a variant keeps its type.
pub proof fn lemma_variant_type(b: Body, e: MirEnumType, s: EnumSlots, start: Value, variant: usize)
    requires
        valid(b, start),
        with_variant(b, e, s, start, variant).1 is Ok,
        with_variant(b, e, s, start, variant).0.insts.len() < usize::MAX,
    ensures
        ({
            let (c, r) = with_variant(b, e, s, start, variant);
            &&& valid(c, r->Ok_0)
            &&& value_type(c, r->Ok_0) == value_type(b, start)
        }),
{
    if carrier_bits(e, variant)->Ok_0 is Some {
        let bits = carrier_bits(e, variant)->Ok_0->Some_0;
        let (b1, carrier) = with_carrier(b, e, s.carrier_ty->Some_0, bits);
        assert(extends(b, b1));
        lemma_extends_value(b, b1, start);
    }
}

/// Whether a type holds neither an `i1` nor a shared-memory pointer.
pub open spec fn clean(t: LlvmShape) -> bool {
    !contains_bool(t) && !contains_leaf(t, LeafKind::PointerIn(SHARED))
}

/// A field of a clean struct is clean.
proof fn lemma_clean_field(fields: Seq<LlvmShape>, i: int)
    requires
        clean(LlvmShape::Struct(fields)),
        0 <= i < fields.len(),
    ensures
        clean(fields[i]),
{
    let t = LlvmShape::Struct(fields);
    assert(t->Struct_0[i] == fields[i]);
    if contains_leaf(fields[i], LeafKind::Bool) {
        assert(contains_leaf(t, LeafKind::Bool));
    }
    if contains_leaf(fields[i], LeafKind::PointerIn(SHARED)) {
        assert(contains_leaf(t, LeafKind::PointerIn(SHARED)));
    }
}

/// A type without `i1` and shared-memory pointers is its own storage.
proof fn lemma_clean_storage(t: LlvmShape)
    requires
        clean(t),
    ensures
        payload_storage(t) == Ok::<LlvmShape, LowerError>(t),
    decreases t,
{
    match t {
        LlvmShape::Struct(fields) => {
            lemma_clean_storages(fields);
        },
        _ => {},
    }
}

proof fn lemma_clean_storages(fields: Seq<LlvmShape>)
    requires
        clean(LlvmShape::Struct(fields)),
    ensures
        all_ok(payload_storages(fields)) == Ok::<Seq<LlvmShape>, LowerError>(fields),
    decreases fields,
{
    let found = payload_storages(fields);
    assert forall|i: int| 0 <= i < found.len() implies #[trigger] found[i] == Ok::<
        LlvmShape,
        LowerError,
    >(fields[i]) by {
        lemma_clean_field(fields, i);
        lemma_clean_storage(fields[i]);
    }
    lemma_all_ok_succeeds(found, found.len() as int);
    lemma_all_ok_values(found, found.len() as int);
    let values = all_ok(found)->Ok_0;
    assert forall|i: int| 0 <= i < fields.len() implies #[trigger] values[i] == fields[i] by {
        assert(found[i] is Ok);
    }
    assert(values =~= fields);
}

/// A payload that is rebuilt from clean storage is clean.
proof fn lemma_rebuilt_clean(
    b: Body,
    v: Value,
    sf: Seq<LlvmShape>,
    pf: Seq<LlvmShape>,
    base: u64,
    start: Value,
    k: int,
)
    requires
        0 <= k <= pf.len(),
        clean(LlvmShape::Struct(sf)),
        copied_fields(b, v, sf, pf, base, start, k).1 is Some,
        forall|i: int| 0 <= i < pf.len() && #[trigger] pf[i] is Integer ==> pf[i]->Integer_0 > 0,
    ensures
        forall|i: int| 0 <= i < k ==> clean(#[trigger] pf[i]),
    decreases k,
{
    if k > 0 {
        lemma_rebuilt_clean(b, v, sf, pf, base, start, k - 1);
        let offset = fits(base + natural_offset(pf, k - 1))->Some_0;
        let size = size_align(pf[k - 1])->Some_0.0;
        lemma_field_with_bytes(sf, offset, size, 0);
        let at = field_with_bytes(sf, offset, size, 0)->Some_0;
        lemma_clean_field(sf, at);
    }
}

/// The storage struct of an enum is clean.
pub proof fn lemma_storage_clean(e: MirEnumType)
    requires
        e.spec_variant_count() > 0,
        enum_type_slots(e) is Ok,
    ensures
        clean(LlvmShape::Struct(enum_type_slots(e)->Ok_0.fields)),
{
    let carrier = carrier_type(e, lowered(*e.discriminant_ty))->Ok_0;
    let converted = lowered_all(e.all_field_types@);
    let types = all_ok(converted)->Ok_0;
    lemma_all_ok_values(converted, converted.len() as int);
    lemma_storage_is_target_stable(e, carrier, types);
}

/// The adapted bytes of `x`, a value of payload field `flat`.
pub open spec fn kept_bytes(s: EnumSlots, flat: int, x: Val) -> Seq<Byte> {
    encoded(adapted(x, s.field_types[flat], storage_of(s, flat)), storage_of(s, flat))
}

/// Whether an enum's bytes hold those of payload field `flat` at their place.
pub open spec fn holds_kept(bytes: Seq<Byte>, s: EnumSlots, flat: int, x: Val) -> bool {
    forall|o: int|
        start_of(s, flat) <= o < end_of(s, flat) ==> #[trigger] bytes[o] == kept_bytes(
            s,
            flat,
            x,
        )[o - start_of(s, flat)]
}

/// Whether none of the integer fields of a struct value is defined in part.
pub open spec fn integers_whole(x: Val, t: LlvmShape) -> bool {
    match (x, t) {
        (Val::Aggregate(s), LlvmShape::Struct(fields)) => forall|i: int|
            0 <= i < fields.len() && #[trigger] fields[i] is Integer ==> s[i] is Int
                || s[i] is Undef,
        _ => true,
    }
}

/// The bytes of an enum value that was just built, with the payload written
/// through memory among them.
#[verifier::rlimit(100)]
proof fn lemma_constructed_bytes(
    b: Body,
    env: Env,
    e: MirEnumType,
    operands: Seq<Value>,
    variant: u32,
    field: u32,
) -> (bytes: Seq<Byte>)
    requires
        enum_type_slots(e) is Ok,
        field < operands.len(),
        constructed_enum(b, MirType::Enum(e), operands, variant).1 is Ok,
        constructed_enum(b, MirType::Enum(e), operands, variant).0.insts.len() < usize::MAX,
        ({
            let s = enum_type_slots(e)->Ok_0;
            let base = fields_before(e.variant_field_counts@, variant as int);
            let flat = base + field;
            &&& size_align(LlvmShape::Struct(s.fields)) is Some
            &&& flat < s.field_slots.len()
            &&& s.field_slots[flat] is None
            &&& !zero_sized(s.field_types[flat])
            &&& forall|i: int|
                0 <= i < operands.len() ==> fits_payload(
                    b,
                    env,
                    s,
                    #[trigger] operands[i],
                    base + i,
                )
            &&& start_of(s, flat) < end_of(s, flat)
            &&& forall|g: int|
                flat < g < base + operands.len() && goes_to_memory(s, g) ==> #[trigger] apart(
                    s,
                    flat,
                    g,
                )
            &&& stays_in_storage(s, flat)
        }),
    ensures
        ({
            let s = enum_type_slots(e)->Ok_0;
            let whole = LlvmShape::Struct(s.fields);
            let flat = fields_before(e.variant_field_counts@, variant as int) + field;
            let own = s.field_types[flat];
            let storage = storage_of(s, flat);
            let x = value_of(b, env, operands[field as int]);
            let (c, v) = constructed_enum(b, MirType::Enum(e), operands, variant);
            &&& valid(c, v->Ok_0)
            &&& value_type(c, v->Ok_0) == whole
            &&& bytes.len() == byte_size(whole)
            &&& value_of(c, env, v->Ok_0) == decoded(bytes, whole)
            &&& payload_storage(own) is Ok
            &&& adaptable(own, storage)
            &&& stored_as(own, storage)
            &&& holds_kept(bytes, s, flat, x)
        }),
{
    let s = enum_type_slots(e)->Ok_0;
    let whole = LlvmShape::Struct(s.fields);
    let base = fields_before(e.variant_field_counts@, variant as int);
    let flat = base + field;
    let n = operands.len() as int;
    let operand = operands[field as int];
    let own = s.field_types[flat];
    let x = value_of(b, env, operand);
    let (c, v) = constructed_enum(b, MirType::Enum(e), operands, variant);
    lemma_fields_before_nonnegative(e.variant_field_counts@, variant as int);
    lemma_slot_count(e);

    // Construction up to the payloads that need memory.
    let (b1, start) = with_undef(b, whole);
    assert(extends(b, b1));
    let (b2, tagged) = with_variant(b1, e, s, start, variant as usize);
    lemma_variant_grows(b1, e, s, start, variant as usize);
    lemma_placed_grows(b2, s, tagged->Ok_0, operands, variant as usize, base, n);
    let (b3, placed) = placed_payloads(
        b2,
        s,
        tagged->Ok_0,
        operands,
        variant as usize,
        base,
        n,
    );
    let p = placed->Ok_0;
    let d = lemma_is_deferred(
        b2,
        s,
        tagged->Ok_0,
        operands,
        variant as usize,
        base,
        n,
        field as int,
    );
    let m = p.deferred.len() as int;
    let align = memory_align(e.encoding.abi_align);
    let (b4, slot) = spilled(b3, p.current, whole, e.encoding.abi_align);
    assert(extends(b3, b4));
    lemma_stored_payloads_grow(b4, s, slot, p.deferred, m);
    let (b5, stored) = stored_payloads(b4, s, slot, p.deferred, m);
    assert((c, v->Ok_0) == with_load(b5, slot, whole, align));
    assert(extends(b5, c));
    lemma_variant_type(b1, e, s, start, variant as usize);
    lemma_deferred(b2, s, tagged->Ok_0, operands, variant as usize, base, n);
    lemma_spilled(b3, env, p.current, whole, 64, align, align);
    let place = (b3.insts.len() + 1) as nat;

    // What memory holds when the value is loaded.
    lemma_extends_transitive(b, b1, b2);
    lemma_extends_transitive(b, b2, b3);
    lemma_extends_transitive(b, b3, b4);
    assert forall|j: int| 0 <= j < p.deferred.len() implies fits_payload(
        b4,
        env,
        s,
        (#[trigger] p.deferred[j]).1,
        p.deferred[j].0 as int,
    ) by {
        let i = p.deferred[j].0 - base;
        assert(fits_payload(b, env, s, operands[i], base + i));
        lemma_extends_value(b, b4, operands[i]);
        lemma_value_stable(b, b4, env, operands[i]);
    }
    assert forall|j: int| d < j < p.deferred.len() implies apart(
        s,
        p.deferred[d].0 as int,
        (#[trigger] p.deferred[j]).0 as int,
    ) by {
        assert(p.deferred[d].0 < p.deferred[j].0);
    }
    lemma_stored_payloads(b4, env, s, slot, p.deferred, m, d, place);
    assert(fits_payload(b, env, s, operands[field as int], base + field));
    lemma_value_stable(b, b4, env, operand);
    lemma_extends_value(b4, b5, slot);
    lemma_value_stable(b4, b5, env, slot);
    lemma_new_load(b5, env, slot, Op::Load { ptr: slot, align, is_volatile: false }, whole);
    let bytes = bytes_at(memory_after(b5, env), Val::Slot(place), byte_size(whole));
    let kept = kept_bytes(s, flat, x);
    lemma_storage_bounds(s, flat);
    assert forall|o: int| start_of(s, flat) <= o < end_of(s, flat) implies #[trigger] bytes[o]
        == kept[o - start_of(s, flat)] by {
        assert(memory_after(b5, env)(Val::Slot(place), o) == kept[o - start_of(s, flat)]);
    }
    bytes
}

/// Rebuilding gives a payload whose bytes the enum's clean storage holds.
pub proof fn lemma_read_rebuilt(
    c: Body,
    env: Env,
    v: Value,
    s: EnumSlots,
    flat: int,
    allow: bool,
    bytes: Seq<Byte>,
    x: Val,
)
    requires
        valid(c, v),
        value_type(c, v) == LlvmShape::Struct(s.fields),
        size_align(LlvmShape::Struct(s.fields)) is Some,
        clean(LlvmShape::Struct(s.fields)),
        s.fields.len() <= u32::MAX,
        bytes.len() == byte_size(LlvmShape::Struct(s.fields)),
        value_of(c, env, v) == decoded(bytes, LlvmShape::Struct(s.fields)),
        payload_storage(s.field_types[flat]) is Ok,
        size_align(storage_of(s, flat)) is Some,
        well_typed(x, s.field_types[flat]),
        integers_whole(x, s.field_types[flat]),
        s.field_types[flat] is Struct ==> s.field_types[flat]->Struct_0.len() <= u32::MAX,
        start_of(s, flat) < end_of(s, flat),
        stays_in_storage(s, flat),
        holds_kept(bytes, s, flat, x),
        rebuilt_payload(
            c,
            v,
            LlvmShape::Struct(s.fields),
            s.field_types[flat],
            s.field_offsets[flat],
            allow,
        ).1 is Some,
        rebuilt_payload(
            c,
            v,
            LlvmShape::Struct(s.fields),
            s.field_types[flat],
            s.field_offsets[flat],
            allow,
        ).0.insts.len() + 8 < usize::MAX,
    ensures
        ({
            let (d, r) = rebuilt_payload(
                c,
                v,
                LlvmShape::Struct(s.fields),
                s.field_types[flat],
                s.field_offsets[flat],
                allow,
            );
            &&& valid(d, r->Some_0)
            &&& value_type(d, r->Some_0) == s.field_types[flat]
            &&& value_of(d, env, r->Some_0) == x
        }),
{
    let own = s.field_types[flat];
    let offset = s.field_offsets[flat];
    let pf = own->Struct_0;
    let xs = x->Aggregate_0;
    let (f1, first) = with_undef(c, own);
    assert(all_well_typed(xs, pf));
    assert forall|i: int| 0 <= i < pf.len() && #[trigger] pf[i] is Integer implies
        pf[i]->Integer_0 > 0 by {
        assert(well_typed(xs[i], pf[i]));
    }
    lemma_rebuilt_clean(f1, v, s.fields, pf, offset, first, pf.len() as int);
    lemma_clean_storage(own);
    lemma_encoded_len(x, own);
    lemma_storage_bounds(s, flat);
    assert(bytes.subrange(offset as int, offset + byte_size(own)) =~= encoded(x, own));
    lemma_rebuilt_value(
        c,
        env,
        v,
        s.fields,
        pf,
        offset,
        allow,
        bytes,
        xs,
    );
}

/// Reading a payload without a slot gives the operand that the enum value was
/// built from.
///
/// The payload passes through memory as its canonical bytes, and comes back from
/// memory or, field by field, from the enum's storage.
#[verifier::rlimit(100)]
pub proof fn lemma_payload_without_slot_reads_back(
    b: Body,
    env: Env,
    e: MirEnumType,
    operands: Seq<Value>,
    variant: u32,
    field: u32,
)
    requires
        e.spec_variant_count() > 0,
        enum_type_slots(e) is Ok,
        field < operands.len(),
        constructed_enum(b, MirType::Enum(e), operands, variant).1 is Ok,
        ({
            let s = enum_type_slots(e)->Ok_0;
            let base = fields_before(e.variant_field_counts@, variant as int);
            let flat = base + field;
            let (c, v) = constructed_enum(b, MirType::Enum(e), operands, variant);
            &&& size_align(LlvmShape::Struct(s.fields)) is Some
            &&& flat < s.field_slots.len()
            &&& s.field_slots[flat] is None
            &&& !zero_sized(s.field_types[flat])
            &&& forall|i: int|
                0 <= i < operands.len() ==> fits_payload(
                    b,
                    env,
                    s,
                    #[trigger] operands[i],
                    base + i,
                )
            &&& start_of(s, flat) < end_of(s, flat)
            &&& forall|g: int|
                flat < g < base + operands.len() && goes_to_memory(s, g) ==> #[trigger] apart(
                    s,
                    flat,
                    g,
                )
            &&& stays_in_storage(s, flat)
            &&& integers_whole(value_of(b, env, operands[field as int]), s.field_types[flat])
            &&& s.field_types[flat] is Struct ==> s.field_types[flat]->Struct_0.len() <= u32::MAX
            &&& payload_of(c, v->Ok_0, seq![MirType::Enum(e)], variant, field).0.insts.len() + 8
                < usize::MAX
        }),
    ensures
        ({
            let (c, v) = constructed_enum(b, MirType::Enum(e), operands, variant);
            let (d, r) = payload_of(c, v->Ok_0, seq![MirType::Enum(e)], variant, field);
            &&& r is Ok
            &&& valid(d, r->Ok_0)
            &&& value_type(d, r->Ok_0) == enum_type_slots(e)->Ok_0.field_types[fields_before(
                e.variant_field_counts@,
                variant as int,
            ) + field]
            &&& value_of(d, env, r->Ok_0) == value_of(b, env, operands[field as int])
        }),
{
    let s = enum_type_slots(e)->Ok_0;
    let whole = LlvmShape::Struct(s.fields);
    let base = fields_before(e.variant_field_counts@, variant as int);
    let flat = base + field;
    let own = s.field_types[flat];
    let x = value_of(b, env, operands[field as int]);
    let (c, v) = constructed_enum(b, MirType::Enum(e), operands, variant);
    let allow = is_bounded_niche_payload(e, variant, field);
    lemma_newest_of_one(MirType::Enum(e));
    lemma_fields_before_nonnegative(e.variant_field_counts@, variant as int);
    lemma_read_grows(c, v->Ok_0, e, s, flat, allow);
    lemma_slot_count(e);
    let bytes = lemma_constructed_bytes(b, env, e, operands, variant, field);
    assert(fits_payload(b, env, s, operands[field as int], base + field));
    let offset = s.field_offsets[flat];
    let (e1, direct) = rebuilt_payload(c, v->Ok_0, whole, own, offset, allow);
    if direct is Some {
        lemma_rebuilt_grows(c, v->Ok_0, whole, own, offset, allow);
        lemma_storage_clean(e);
        lemma_read_rebuilt(c, env, v->Ok_0, s, flat, allow, bytes, x);
    } else {
        lemma_read_through_memory(c, env, v->Ok_0, e, s, flat, allow, bytes, x);
    }
}

// ---------------------------------------------------------------------------
// Selecting a variant in memory
// ---------------------------------------------------------------------------

/// The carrier constant of a variant is its bits.
pub proof fn lemma_carrier_constant(b: Body, env: Env, e: MirEnumType, ty: LlvmShape, bits: u128)
    requires
        b.insts.len() + 2 < usize::MAX,
        e.encoding.carrier_kind == EnumCarrierKind::Pointer ==> ty is Pointer,
        e.encoding.carrier_kind == EnumCarrierKind::Integer ==> ty == LlvmShape::Integer(
            e.encoding.carrier_width,
        ),
        with_carrier(b, e, ty, bits).1 is Ok,
    ensures
        ({
            let (c, r) = with_carrier(b, e, ty, bits);
            &&& quiet(b, c)
            &&& c.insts.len() <= b.insts.len() + 2
            &&& valid(c, r->Ok_0)
            &&& value_type(c, r->Ok_0) == ty
            &&& value_of(c, env, r->Ok_0) == Val::Int(
                truncated(bits, e.encoding.carrier_width) as nat,
            )
        }),
{
    lemma_any_constant(b, env, e.encoding.carrier_width, bits);
    let (b1, integer) = with_constant(b, e.encoding.carrier_width, bits);
    if e.encoding.carrier_kind == EnumCarrierKind::Pointer {
        lemma_cast(b1, env, CastOp::IntToPtr, integer, ty);
        lemma_extends_transitive(b, b1, with_cast(b1, CastOp::IntToPtr, integer, ty).0);
    }
}

/// After a variant was selected in memory, the enum that is loaded from there is
/// of that variant.
///
/// This is for variants that have carrier bits.
#[verifier::rlimit(100)]
pub proof fn law_selected_variant_reads_back(
    b: Body,
    env: Env,
    ptr: Value,
    e: MirEnumType,
    variant: u32,
    align: Option<u32>,
    width: u32,
)
    requires
        b.insts.len() + 32 <= usize::MAX,
        valid(b, ptr),
        !(value_of(b, env, ptr) is Undef),
        has_carrier(e),
        e.encoding.carrier_kind == EnumCarrierKind::Pointer ==> e.encoding.carrier_width <= 64,
        enum_type_slots(e) is Ok,
        size_align(LlvmShape::Struct(enum_type_slots(e)->Ok_0.fields)) is Some,
        readable(e, width),
        carrier_bits(e, variant as usize) is Ok,
        carrier_bits(e, variant as usize)->Ok_0 is Some,
    ensures
        ({
            let s = enum_type_slots(e)->Ok_0;
            let (c, stored) = stored_variant(b, ptr, e, variant);
            let (d, v) = with_load(c, ptr, LlvmShape::Struct(s.fields), align);
            let (f, r) = read_discriminant(d, v, e, s, width);
            &&& stored is Ok
            &&& r is Ok
            &&& value_of(f, env, r->Ok_0) == expected_discriminant(e, variant)
        }),
{
    let s = enum_type_slots(e)->Ok_0;
    let whole = LlvmShape::Struct(s.fields);
    lemma_carrier_slot(e);
    let slot = s.carrier_slot->Some_0 as int;
    let ty = s.carrier_ty->Some_0;
    let bits = carrier_bits(e, variant as usize)->Ok_0->Some_0;
    let tag = truncated(bits, e.encoding.carrier_width) as nat;
    let offset = e.encoding.tag_offset;

    // The carrier is written at its offset.
    lemma_carrier_constant(b, env, e, ty, bits);
    let (b1, carrier) = with_carrier(b, e, ty, bits);
    let x = carrier->Ok_0;
    lemma_quiet_memory(b, b1, env);
    lemma_extends_value(b, b1, ptr);
    lemma_value_stable(b, b1, env, ptr);
    lemma_byte_address(b1, env, ptr, offset);
    let (b2, address) = byte_address(b1, ptr, offset);
    lemma_extends_value(b1, b2, x);
    lemma_value_stable(b1, b2, env, x);
    lemma_extends_value(b1, b2, ptr);
    lemma_value_stable(b1, b2, env, ptr);
    let op = Op::Store { value: x, ptr: address, align: None, is_volatile: false };
    lemma_new_store(b2, env, op);
    let c = with_store(b2, x, address, None);
    lemma_extends_value(b2, c, ptr);
    lemma_value_stable(b2, c, env, ptr);

    // It is part of the bytes that are loaded.
    lemma_new_load(c, env, ptr, Op::Load { ptr, align, is_volatile: false }, whole);
    let (d, v) = with_load(c, ptr, whole, align);
    let base = value_of(b, env, ptr);
    let (place, start) = place_of(base);
    let bytes = bytes_at(memory_after(c, env), base, byte_size(whole));
    lemma_field_place(s.fields, slot);
    lemma_offset_place(base, offset);
    lemma_truncated_bound(bits, e.encoding.carrier_width);
    lemma_encoded_len(Val::Int(tag), ty);
    assert(field_bytes(bytes, s.fields, slot) =~= encoded(Val::Int(tag), ty));
    lemma_number_survives(tag, ty, e.encoding.carrier_width);
    let fields = decoded_fields(bytes, s.fields);
    assert(fields[slot] == decoded(field_bytes(bytes, s.fields, slot), s.fields[slot]));
    assert(value_of(d, env, v) == Val::Aggregate(fields));
    law_carrier_bits_read_back(d, env, v, e, variant, width);
}

/// Where a byte address behind a place is.
proof fn lemma_offset_place(base: Val, offset: u64)
    requires
        !(base is Undef),
    ensures
        ({
            let address = computed_address(
                base,
                seq![Val::Int(offset as nat)],
                LlvmShape::Integer(8),
            );
            &&& !(address is Undef)
            &&& place_of(address) == (place_of(base).0, place_of(base).1 + offset)
        }),
{
    let byte = LlvmShape::Integer(8);
    assert(size_align(byte) == Some((1u64, 1u64)));
    assert(offset as nat * byte_size(byte) == offset) by (nonlinear_arith)
        requires
            byte_size(byte) == 1,
    ;
}

} // verus!
