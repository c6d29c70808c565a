//! Enum values can be built of each variant that exists, and any enum value gives the
//! payloads that it holds.

use crate::bool_laws::{lemma_canonical_grows, lemma_canonical_value};
use crate::collect::{all_some, lemma_all_ok_values};
use crate::discriminant_laws::{
    holds_carrier, law_discriminants_tell_the_variant, lemma_ranged, lemma_truncated_is_remainder,
    niche_stands_for, variant_bits,
};
use crate::enum_access::{
    discriminant_of, is_bounded_niche_payload, payload_of, read_discriminant, with_range,
};
use crate::enum_laws::{
    has_carrier, lemma_carrier_slot, lemma_completed_grows, lemma_constructed_slots,
    lemma_fields_before_nonnegative, lemma_payload_slot, lemma_placed_grows, lemma_placed_one_grows,
    lemma_variant_grows, niche_fits, readable, slot_written,
};
use crate::enum_memory_laws::{
    fits_payload, holds_kept, integers_whole, lemma_deferred, lemma_read_grows, lemma_read_rebuilt,
    lemma_read_through_memory, lemma_slot_count, lemma_storage_clean, lemma_storage_keeps_twin,
    lemma_stored_payload_grows, lemma_stored_payloads_grow, lemma_variant_type, stays_in_storage,
    storage_of, start_of, end_of,
};
use crate::enum_bytes::rebuilt_payload;
use crate::enum_ops::{
    byte_address, carrier_bits, constructed_enum, fields_before, placed_payloads, stored_payload,
    stored_payloads, with_variant,
};
use crate::enum_read_laws::{
    carrier_apart, law_constructed_variant_reads_back, lemma_slot_undisturbed, not_overwritten,
};
use crate::enum_slots::EnumSlots;
use crate::error::LowerError;
use crate::ir::{
    extends, lemma_extends_transitive, lemma_extends_value, valid, value_type, with_extract,
    with_insert, with_load, with_store, with_undef, Body, Value,
};
use crate::layout::size_align;
use crate::llvm::LlvmShape;
use crate::mir::{EnumCarrierKind, EnumLayoutKind, MirEnumType, MirType};
use crate::operands::{newest, TypeKind};
use crate::payload_laws::{
    adaptable, adapted, all_adaptable, all_stored_as, lemma_adaptable_back,
    lemma_adaptable_succeeds, lemma_adapted_back, lemma_coerced_type, lemma_coerced_value,
    lemma_payload_storage_stores, lemma_twin_stores, stored_as,
};
use crate::payload_values::{
    canonical, canonical_elements, canonical_fields, coerced, lemma_coerced_grows,
};
use crate::rebuild_laws::lemma_rebuilt_grows;
use crate::semantics::{lemma_extract_value, lemma_value_stable, undefined, value_of, Env};
use crate::storage::{contains_bool, payload_storage, twin, twins, zero_sized};
use crate::types::{enum_type_slots, lowered};
use crate::union_ops::{memory_align, spilled};
use crate::values::{byte_size, decoded, well_typed, Byte, Val};
use vstd::arithmetic::div_mod::lemma_small_mod;
use vstd::arithmetic::power2::{lemma2_to64, pow2};
use vstd::prelude::*;

verus! {

// ---------------------------------------------------------------------------
// Adapting payloads
// ---------------------------------------------------------------------------

/// Whether each field and element in a type has an index of 32 bits.
pub open spec fn indexable(t: LlvmShape) -> bool
    decreases t,
{
    match t {
        LlvmShape::Struct(fields) => {
            &&& fields.len() <= u32::MAX
            &&& forall|i: int| 0 <= i < fields.len() ==> indexable(#[trigger] fields[i])
        },
        LlvmShape::Array(elem, n) => n <= u32::MAX && indexable(*elem),
        _ => true,
    }
}

proof fn lemma_indexable_adaptable(t: LlvmShape, u: LlvmShape)
    requires
        indexable(t),
        stored_as(t, u),
    ensures
        adaptable(t, u),
        indexable(u),
    decreases t,
{
    if t != u {
        match (t, u) {
            (LlvmShape::Struct(fs), LlvmShape::Struct(gs)) => {
                assert(all_stored_as(fs, gs));
                assert forall|i: int| 0 <= i < fs.len() implies adaptable(#[trigger] fs[i], gs[i])
                    && indexable(gs[i]) by {
                    assert(t->Struct_0[i] == fs[i]);
                    assert(indexable(fs[i]));
                    assert(stored_as(fs[i], gs[i]));
                    lemma_indexable_adaptable(fs[i], gs[i]);
                }
                assert(all_adaptable(fs, gs));
                assert forall|i: int| 0 <= i < gs.len() implies indexable(#[trigger] gs[i]) by {
                    assert(adaptable(fs[i], gs[i]));
                }
            },
            (LlvmShape::Array(e, _), LlvmShape::Array(f, _)) => {
                lemma_indexable_adaptable(*e, *f);
            },
            _ => {},
        }
    }
}

/// A payload is adapted to its storage and back, whatever it holds, as long as an index of
/// 32 bits reaches its fields.
pub proof fn law_payloads_can_be_adapted(b: Body, v: Value, t: LlvmShape, storage: LlvmShape)
    requires
        payload_storage(t) == Ok::<LlvmShape, LowerError>(storage),
        indexable(t),
        valid(b, v),
    ensures
        value_type(b, v) == t && coerced(b, v, t, storage).0.insts.len() < usize::MAX ==> {
            let (c, r) = coerced(b, v, t, storage);
            r is Ok && value_type(c, r->Ok_0) == storage
        },
        value_type(b, v) == storage && coerced(b, v, storage, t).0.insts.len() < usize::MAX ==> {
            let (c, r) = coerced(b, v, storage, t);
            r is Ok && value_type(c, r->Ok_0) == t
        },
{
    lemma_payload_storage_stores(t);
    lemma_indexable_adaptable(t, storage);
    lemma_adaptable_back(t, storage);
    if value_type(b, v) == t && coerced(b, v, t, storage).0.insts.len() < usize::MAX {
        lemma_adaptable_succeeds(b, v, t, storage);
        lemma_coerced_type(b, v, t, storage);
    }
    if value_type(b, v) == storage && coerced(b, v, storage, t).0.insts.len() < usize::MAX {
        lemma_adaptable_succeeds(b, v, storage, t);
        lemma_coerced_type(b, v, storage, t);
    }
}

proof fn lemma_canonical_succeeds(b: Body, v: Value, ty: LlvmShape)
    requires
        indexable(ty),
        twin(ty) is Some,
        valid(b, v),
        value_type(b, v) == ty,
        canonical(b, v, ty).0.insts.len() < usize::MAX,
    ensures
        canonical(b, v, ty).1 is Ok,
    decreases ty, 0int,
{
    if contains_bool(ty) {
        match ty {
            LlvmShape::Struct(fields) => {
                let (c, start) = with_undef(b, twin(ty)->Some_0);
                assert(extends(b, c));
                lemma_extends_value(b, c, v);
                assert forall|i: int| 0 <= i < fields.len() implies indexable(#[trigger] fields[i])
                    && twin(fields[i]) is Some by {
                    assert(ty->Struct_0[i] == fields[i]);
                    assert(indexable(ty->Struct_0[i]));
                    assert(twins(fields)[i] is Some);
                }
                lemma_canonical_fields_succeed(c, v, start, fields, fields.len() as int);
            },
            LlvmShape::Array(elem, n) => {
                let (c, start) = with_undef(b, twin(ty)->Some_0);
                assert(extends(b, c));
                lemma_extends_value(b, c, v);
                lemma_canonical_elements_succeed(c, v, start, *elem, n, n as int);
            },
            _ => {},
        }
    }
}

proof fn lemma_canonical_fields_succeed(
    c: Body,
    v: Value,
    start: Value,
    fields: Seq<LlvmShape>,
    k: int,
)
    requires
        0 <= k <= fields.len() <= u32::MAX,
        forall|i: int|
            0 <= i < fields.len() ==> indexable(#[trigger] fields[i]) && twin(fields[i]) is Some,
        valid(c, v),
        value_type(c, v) == LlvmShape::Struct(fields),
        canonical_fields(c, v, start, fields, k).0.insts.len() < usize::MAX,
    ensures
        extends(c, canonical_fields(c, v, start, fields, k).0),
        canonical_fields(c, v, start, fields, k).1 is Ok,
    decreases fields, k,
{
    if k > 0 {
        let (c1, past) = canonical_fields(c, v, start, fields, k - 1);
        let (c2, extracted) = with_extract(c1, v, (k - 1) as u32);
        assert(extends(c1, c2));
        if past is Ok && extracted is Ok {
            lemma_canonical_grows(c2, extracted->Ok_0, fields[k - 1]);
            lemma_extends_transitive(
                c1,
                c2,
                canonical(c2, extracted->Ok_0, fields[k - 1]).0,
            );
        }
        lemma_canonical_fields_succeed(c, v, start, fields, k - 1);
        lemma_extends_value(c, c1, v);
        assert(indexable(fields[k - 1]));
        lemma_canonical_succeeds(c2, extracted->Ok_0, fields[k - 1]);
        let (c3, y) = canonical(c2, extracted->Ok_0, fields[k - 1]);
        let c4 = with_insert(c3, past->Ok_0, y->Ok_0, (k - 1) as u32).0;
        assert(extends(c3, c4));
        lemma_extends_transitive(c, c1, c3);
        lemma_extends_transitive(c, c3, c4);
    }
}

proof fn lemma_canonical_elements_succeed(
    c: Body,
    v: Value,
    start: Value,
    elem: LlvmShape,
    n: u64,
    k: int,
)
    requires
        0 <= k <= n <= u32::MAX,
        indexable(elem),
        twin(elem) is Some,
        valid(c, v),
        value_type(c, v) == LlvmShape::Array(Box::new(elem), n),
        canonical_elements(c, v, start, elem, k).0.insts.len() < usize::MAX,
    ensures
        extends(c, canonical_elements(c, v, start, elem, k).0),
        canonical_elements(c, v, start, elem, k).1 is Ok,
    decreases elem, k,
{
    if k > 0 {
        let (c1, past) = canonical_elements(c, v, start, elem, k - 1);
        let (c2, extracted) = with_extract(c1, v, (k - 1) as u32);
        assert(extends(c1, c2));
        if past is Ok && extracted is Ok {
            lemma_canonical_grows(c2, extracted->Ok_0, elem);
            lemma_extends_transitive(c1, c2, canonical(c2, extracted->Ok_0, elem).0);
        }
        lemma_canonical_elements_succeed(c, v, start, elem, n, k - 1);
        lemma_extends_value(c, c1, v);
        lemma_canonical_succeeds(c2, extracted->Ok_0, elem);
        let (c3, y) = canonical(c2, extracted->Ok_0, elem);
        let c4 = with_insert(c3, past->Ok_0, y->Ok_0, (k - 1) as u32).0;
        assert(extends(c3, c4));
        lemma_extends_transitive(c, c1, c3);
        lemma_extends_transitive(c, c3, c4);
    }
}

// ---------------------------------------------------------------------------
// Building
// ---------------------------------------------------------------------------

/// Whether each operand is a value for the payload field at its place, which an index of
/// 32 bits reaches.
pub open spec fn all_fit(b: Body, env: Env, s: EnumSlots, operands: Seq<Value>, base: int) -> bool {
    forall|i: int|
        0 <= i < operands.len() ==> fits_payload(b, env, s, #[trigger] operands[i], base + i)
            && indexable(s.field_types[base + i])
}

proof fn lemma_placed_succeeds(
    b: Body,
    env: Env,
    e: MirEnumType,
    start: Value,
    operands: Seq<Value>,
    variant: usize,
    base: int,
    k: int,
)
    requires
        enum_type_slots(e) is Ok,
        0 <= base,
        0 <= k <= operands.len(),
        base + operands.len() <= enum_type_slots(e)->Ok_0.field_slots.len(),
        all_fit(b, env, enum_type_slots(e)->Ok_0, operands, base),
        placed_payloads(
            b,
            enum_type_slots(e)->Ok_0,
            start,
            operands,
            variant,
            base,
            k,
        ).0.insts.len() < usize::MAX,
    ensures
        placed_payloads(b, enum_type_slots(e)->Ok_0, start, operands, variant, base, k).1 is Ok,
    decreases k,
{
    let s = enum_type_slots(e)->Ok_0;
    if k > 0 {
        let (b1, before) = placed_payloads(b, s, start, operands, variant, base, k - 1);
        let flat = base + k - 1;
        let operand = operands[k - 1];
        if before is Ok {
            lemma_placed_one_grows(b1, s, before->Ok_0, operand, variant, flat, k - 1);
        }
        lemma_placed_succeeds(b, env, e, start, operands, variant, base, k - 1);
        lemma_placed_grows(b, s, start, operands, variant, base, k - 1);
        assert(fits_payload(b, env, s, operands[k - 1], base + (k - 1)));
        lemma_extends_value(b, b1, operand);
        if s.field_slots[flat] is Some {
            lemma_payload_slot(e, flat);
            let slot = s.field_slots[flat]->Some_0;
            let own = s.field_types[flat];
            let storage = s.fields[slot as int];
            let (b2, kept) = coerced(b1, operand, own, storage);
            if kept is Ok {
                assert(extends(b2, with_insert(b2, before->Ok_0.current, kept->Ok_0, slot).0));
            }
            law_payloads_can_be_adapted(b1, operand, own, storage);
        }
    }
}

proof fn lemma_stored_payload_succeeds(
    b: Body,
    env: Env,
    s: EnumSlots,
    slot: Value,
    flat: usize,
    operand: Value,
)
    requires
        fits_payload(b, env, s, operand, flat as int),
        indexable(s.field_types[flat as int]),
        stored_payload(b, s, slot, flat, operand).0.insts.len() < usize::MAX,
    ensures
        stored_payload(b, s, slot, flat, operand).1 is Ok,
{
    let own = s.field_types[flat as int];
    let storage = storage_of(s, flat as int);
    let (b1, ptr) = byte_address(b, slot, s.field_offsets[flat as int]);
    assert(extends(b, b1));
    lemma_extends_value(b, b1, operand);
    lemma_value_stable(b, b1, env, operand);
    lemma_storage_has_twin(own);
    let (b2, bytes) = canonical(b1, operand, own);
    if bytes is Ok {
        let x = bytes->Ok_0;
        lemma_coerced_grows(b2, x, value_type(b2, x), storage);
        let (b3, kept) = coerced(b2, x, value_type(b2, x), storage);
        if kept is Ok {
            assert(extends(b3, with_store(b3, kept->Ok_0, ptr, None)));
        }
    }
    lemma_canonical_succeeds(b1, operand, own);
    lemma_canonical_value(b1, env, operand, own);
    let x = bytes->Ok_0;
    let t = twin(own)->Some_0;
    lemma_twin_stores(own);
    lemma_indexable_adaptable(own, t);
    lemma_storage_keeps_twin(own);
    lemma_indexable_adaptable(t, storage);
    lemma_adaptable_succeeds(b2, x, t, storage);
}

/// A payload that has a storage has a twin.
proof fn lemma_storage_has_twin(t: LlvmShape)
    requires
        payload_storage(t) is Ok,
    ensures
        twin(t) is Some,
    decreases t,
{
    match t {
        LlvmShape::Struct(fields) => {
            let found = crate::storage::payload_storages(fields);
            lemma_all_ok_values(found, found.len() as int);
            assert forall|i: int| 0 <= i < fields.len() implies #[trigger] twins(fields)[i]
                is Some by {
                assert(found[i] is Ok);
                lemma_storage_has_twin(fields[i]);
            }
            if contains_bool(t) {
                assert(all_some(twins(fields)) is Some);
            }
        },
        _ => {},
    }
}

proof fn lemma_stored_payloads_succeed(
    b: Body,
    env: Env,
    s: EnumSlots,
    slot: Value,
    deferred: Seq<(usize, Value)>,
    k: int,
)
    requires
        0 <= k <= deferred.len(),
        forall|j: int|
            0 <= j < deferred.len() ==> fits_payload(
                b,
                env,
                s,
                (#[trigger] deferred[j]).1,
                deferred[j].0 as int,
            ) && indexable(s.field_types[deferred[j].0 as int]),
        stored_payloads(b, s, slot, deferred, k).0.insts.len() < usize::MAX,
    ensures
        stored_payloads(b, s, slot, deferred, k).1 is Ok,
    decreases k,
{
    if k > 0 {
        let (b1, before) = stored_payloads(b, s, slot, deferred, k - 1);
        let (flat, operand) = deferred[k - 1];
        if before is Ok {
            lemma_stored_payload_grows(b1, s, slot, flat, operand);
        }
        lemma_stored_payloads_succeed(b, env, s, slot, deferred, k - 1);
        lemma_stored_payloads_grow(b, s, slot, deferred, k - 1);
        assert(fits_payload(b, env, s, deferred[k - 1].1, deferred[k - 1].0 as int));
        lemma_extends_value(b, b1, operand);
        lemma_value_stable(b, b1, env, operand);
        lemma_stored_payload_succeeds(b1, env, s, slot, flat, operand);
    }
}

/// A value of an enum is built of each variant that can be selected, as a value of the
/// enum's LLVM equivalent, from operands that are values of the variant's payload types.
/// Only enums are built so, and none of a variant that cannot be selected.
#[verifier::rlimit(40)]
pub proof fn law_variants_can_be_built(
    b: Body,
    env: Env,
    t: MirType,
    operands: Seq<Value>,
    variant: u32,
)
    requires
        constructed_enum(b, t, operands, variant).0.insts.len() < usize::MAX,
        t matches MirType::Enum(e) ==> enum_type_slots(e) is Ok ==> ({
            let s = enum_type_slots(e)->Ok_0;
            let base = fields_before(e.variant_field_counts@, variant as int);
            &&& base + operands.len() <= s.field_slots.len()
            &&& all_fit(b, env, s, operands, base)
        }),
    ensures
        ({
            let (c, r) = constructed_enum(b, t, operands, variant);
            &&& r is Ok <==> (t matches MirType::Enum(e) && enum_type_slots(e) is Ok
                && carrier_bits(e, variant as usize) is Ok && (carrier_bits(
                e,
                variant as usize,
            )->Ok_0 is Some ==> enum_type_slots(e)->Ok_0.carrier_slot is Some
                && enum_type_slots(e)->Ok_0.carrier_ty is Some && e.encoding.carrier_kind
                != EnumCarrierKind::Absent))
            &&& r is Ok ==> valid(c, r->Ok_0) && value_type(c, r->Ok_0) == LlvmShape::Struct(
                enum_type_slots(t->Enum_0)->Ok_0.fields,
            )
        }),
{
    if let MirType::Enum(e) = t {
        if enum_type_slots(e) is Ok {
            let s = enum_type_slots(e)->Ok_0;
            let base = fields_before(e.variant_field_counts@, variant as int);
            let whole = LlvmShape::Struct(s.fields);
            let (b1, start) = with_undef(b, whole);
            assert(extends(b, b1));
            let (b2, tagged) = with_variant(b1, e, s, start, variant as usize);
            lemma_variant_grows(b1, e, s, start, variant as usize);
            if tagged is Ok {
                let n = operands.len() as int;
                let current = tagged->Ok_0;
                lemma_fields_before_nonnegative(e.variant_field_counts@, variant as int);
                lemma_extends_transitive(b, b1, b2);
                lemma_placed_grows(b2, s, current, operands, variant as usize, base, n);
                let (b3, placed) = placed_payloads(
                    b2,
                    s,
                    current,
                    operands,
                    variant as usize,
                    base,
                    n,
                );
                if placed is Ok {
                    lemma_completed_grows(b3, e, s, placed->Ok_0);
                }
                assert(all_fit(b2, env, s, operands, base)) by {
                    assert forall|i: int| 0 <= i < operands.len() implies fits_payload(
                        b2,
                        env,
                        s,
                        #[trigger] operands[i],
                        base + i,
                    ) && indexable(s.field_types[base + i]) by {
                        assert(fits_payload(b, env, s, operands[i], base + i));
                        lemma_extends_value(b, b2, operands[i]);
                        lemma_value_stable(b, b2, env, operands[i]);
                    }
                }
                lemma_placed_succeeds(b2, env, e, current, operands, variant as usize, base, n);
                lemma_variant_type(b1, e, s, start, variant as usize);
                lemma_slot_count(e);
                lemma_deferred(b2, s, current, operands, variant as usize, base, n);
                let p = placed->Ok_0;
                let m = p.deferred.len() as int;
                if m > 0 {
                    let (b4, slot) = spilled(b3, p.current, whole, e.encoding.abi_align);
                    assert(extends(b3, b4));
                    lemma_extends_transitive(b2, b3, b4);
                    lemma_stored_payloads_grow(b4, s, slot, p.deferred, m);
                    let (b5, stored) = stored_payloads(b4, s, slot, p.deferred, m);
                    assert(extends(
                        b5,
                        with_load(b5, slot, whole, memory_align(e.encoding.abi_align)).0,
                    ));
                    assert forall|j: int| 0 <= j < p.deferred.len() implies fits_payload(
                        b4,
                        env,
                        s,
                        (#[trigger] p.deferred[j]).1,
                        p.deferred[j].0 as int,
                    ) && indexable(s.field_types[p.deferred[j].0 as int]) by {
                        let i = p.deferred[j].0 - base;
                        assert(operands[i] == p.deferred[j].1);
                        assert(fits_payload(b2, env, s, operands[i], base + i));
                        lemma_extends_value(b2, b4, operands[i]);
                        lemma_value_stable(b2, b4, env, operands[i]);
                    }
                    lemma_stored_payloads_succeed(b4, env, s, slot, p.deferred, m);
                }
            }
        }
    }
}

// ---------------------------------------------------------------------------
// Reading payloads
// ---------------------------------------------------------------------------

/// Whether an enum value holds `x` as its payload field `flat`: in the field's slot, or
/// else as bytes at the field's offset.
pub open spec fn holds_payload_value(
    s: EnumSlots,
    fields: Seq<Val>,
    bytes: Seq<Byte>,
    flat: int,
    x: Val,
) -> bool {
    let own = s.field_types[flat];
    match s.field_slots[flat] {
        Some(slot) => fields[slot as int] == adapted(x, own, storage_of(s, flat)),
        None => {
            &&& bytes.len() == byte_size(LlvmShape::Struct(s.fields))
            &&& Val::Aggregate(fields) == decoded(bytes, LlvmShape::Struct(s.fields))
            &&& start_of(s, flat) < end_of(s, flat)
            &&& stays_in_storage(s, flat)
            &&& holds_kept(bytes, s, flat, x)
            &&& integers_whole(x, own)
        },
    }
}

/// Reading a payload field of any enum value gives the value that it holds there, in the
/// payload's own type; a field that takes no bytes gives an undefined value.
#[verifier::rlimit(60)]
pub proof fn law_payloads_are_read_where_they_are(
    b: Body,
    env: Env,
    v: Value,
    history: Seq<MirType>,
    e: MirEnumType,
    variant: u32,
    field: u32,
    fields: Seq<Val>,
    bytes: Seq<Byte>,
    x: Val,
)
    requires
        newest(history, TypeKind::Enum) == Some(MirType::Enum(e)),
        e.spec_variant_count() > 0,
        enum_type_slots(e) is Ok,
        valid(b, v),
        value_of(b, env, v) == Val::Aggregate(fields),
        b.insts.len() + 8 < usize::MAX,
        payload_of(b, v, history, variant, field).0.insts.len() + 8 < usize::MAX,
        ({
            let s = enum_type_slots(e)->Ok_0;
            let flat = fields_before(e.variant_field_counts@, variant as int) + field;
            let own = s.field_types[flat];
            &&& flat < s.field_slots.len()
            &&& value_type(b, v) == LlvmShape::Struct(s.fields)
            &&& fields.len() == s.fields.len()
            &&& size_align(LlvmShape::Struct(s.fields)) is Some
            &&& !zero_sized(own) ==> {
                &&& payload_storage(own) is Ok
                &&& size_align(storage_of(s, flat)) is Some
                &&& indexable(own)
                &&& well_typed(x, own)
                &&& holds_payload_value(s, fields, bytes, flat, x)
            }
            &&& zero_sized(own) ==> s.field_slots[flat] is None
        }),
    ensures
        ({
            let s = enum_type_slots(e)->Ok_0;
            let own = s.field_types[fields_before(e.variant_field_counts@, variant as int) + field];
            let (d, r) = payload_of(b, v, history, variant, field);
            &&& r is Ok
            &&& valid(d, r->Ok_0)
            &&& value_type(d, r->Ok_0) == own
            &&& value_of(d, env, r->Ok_0) == if zero_sized(own) {
                undefined(own)
            } else {
                x
            }
        }),
{
    let s = enum_type_slots(e)->Ok_0;
    let whole = LlvmShape::Struct(s.fields);
    lemma_fields_before_nonnegative(e.variant_field_counts@, variant as int);
    let flat = fields_before(e.variant_field_counts@, variant as int) + field;
    let own = s.field_types[flat];
    let storage = storage_of(s, flat);
    let allow = is_bounded_niche_payload(e, variant, field);
    if !zero_sized(own) {
        lemma_payload_storage_stores(own);
        lemma_indexable_adaptable(own, storage);
        lemma_adaptable_back(own, storage);
        lemma_adapted_back(x, own, storage);
        match s.field_slots[flat] {
            Some(slot) => {
                lemma_payload_slot(e, flat);
                lemma_extract_value(b, env, v, slot, fields);
                let (b1, extracted) = with_extract(b, v, slot);
                let y = extracted->Ok_0;
                lemma_adaptable_succeeds(b1, y, storage, own);
                lemma_coerced_value(b1, env, y, storage, own);
                lemma_coerced_type(b1, y, storage, own);
            },
            None => {
                lemma_read_grows(b, v, e, s, flat, allow);
                lemma_slot_count(e);
                let offset = s.field_offsets[flat];
                let (e1, direct) = rebuilt_payload(b, v, whole, own, offset, allow);
                if direct is Some {
                    lemma_rebuilt_grows(b, v, whole, own, offset, allow);
                    lemma_storage_clean(e);
                    lemma_read_rebuilt(b, env, v, s, flat, allow, bytes, x);
                } else {
                    lemma_read_through_memory(b, env, v, e, s, flat, allow, bytes, x);
                }
            },
        }
    } else {
        let (b1, r) = with_undef(b, own);
        assert(value_of(b1, env, r) == undefined(own));
    }
}

/// A payload is read only of what is recorded as an enum, and only where the variant has
/// the field.
pub proof fn law_missing_payloads_are_refused(
    b: Body,
    v: Value,
    history: Seq<MirType>,
    variant: u32,
    field: u32,
)
    requires
        newest(history, TypeKind::Enum) is None || (newest(history, TypeKind::Enum) matches Some(
            MirType::Enum(e),
        ) && (enum_type_slots(e) is Err || fields_before(
            e.variant_field_counts@,
            variant as int,
        ) + field >= enum_type_slots(e)->Ok_0.field_slots.len())),
    ensures
        payload_of(b, v, history, variant, field).1 is Err,
        payload_of(b, v, history, variant, field).0 == b,
{
}

// ---------------------------------------------------------------------------
// Telling the variant that was built
// ---------------------------------------------------------------------------

/// The discriminant of an enum value is that of the variant it was built of: its declared
/// discriminant for a direct tag, and its index for a niche.
///
/// The payloads of a variant that has carrier bits share no byte with the carrier, as rustc
/// lays them out.
pub proof fn law_built_variants_are_told(
    b: Body,
    env: Env,
    history: Seq<MirType>,
    e: MirEnumType,
    operands: Seq<Value>,
    variant: u32,
    width: u32,
)
    requires
        newest(history, TypeKind::Enum) == Some(MirType::Enum(e)),
        lowered(*e.discriminant_ty) == Ok::<LlvmShape, LowerError>(LlvmShape::Integer(width)),
        has_carrier(e),
        enum_type_slots(e) is Ok,
        readable(e, width),
        carrier_bits(e, variant as usize) is Ok,
        carrier_bits(e, variant as usize)->Ok_0 is Some,
        e.encoding.carrier_kind == EnumCarrierKind::Pointer ==> e.encoding.carrier_width <= 64,
        constructed_enum(b, MirType::Enum(e), operands, variant).0.insts.len() + 32
            <= usize::MAX,
        ({
            let s = enum_type_slots(e)->Ok_0;
            let base = fields_before(e.variant_field_counts@, variant as int);
            &&& base + operands.len() <= s.field_slots.len()
            &&& size_align(LlvmShape::Struct(s.fields)) is Some
            &&& all_fit(b, env, s, operands, base)
            &&& forall|f: int|
                base <= f < base + operands.len() && !zero_sized(s.field_types[f])
                    ==> #[trigger] carrier_apart(e, s, f)
        }),
    ensures
        ({
            let (c, v) = constructed_enum(b, MirType::Enum(e), operands, variant);
            let (d, r) = discriminant_of(c, v->Ok_0, history);
            &&& v is Ok
            &&& r is Ok
            &&& value_of(d, env, r->Ok_0) == Val::Int(
                if e.encoding.layout_kind == EnumLayoutKind::Direct {
                    variant_bits(e, variant) as nat
                } else {
                    variant as nat
                },
            )
        }),
{
    let s = enum_type_slots(e)->Ok_0;
    let base = fields_before(e.variant_field_counts@, variant as int);
    lemma_carrier_slot(e);
    law_variants_can_be_built(b, env, MirType::Enum(e), operands, variant);
    assert forall|i: int| 0 <= i < operands.len() implies fits_payload(
        b,
        env,
        s,
        #[trigger] operands[i],
        base + i,
    ) by {}
    law_constructed_variant_reads_back(b, env, e, operands, variant, width);
    let (c, v) = constructed_enum(b, MirType::Enum(e), operands, variant);
    let (d, r) = read_discriminant(c, v->Ok_0, e, s, width);
    lemma_read_discriminant_adds(c, v->Ok_0, e, s, width);
    lemma_ranged(d, env, r->Ok_0, e, width);
    lemma_value_stable(d, with_range(d, r->Ok_0, e, width), env, r->Ok_0);
    lemma_truncated_is_remainder(
        e.variant_discriminants@[variant as int] as u128,
        e.encoding.carrier_width,
    );
}

proof fn lemma_read_discriminant_adds(
    b: Body,
    v: Value,
    e: MirEnumType,
    s: EnumSlots,
    width: u32,
)
    requires
        b.insts.len() + 16 <= usize::MAX,
        read_discriminant(b, v, e, s, width).1 is Ok,
        valid(b, v),
    ensures
        ({
            let (c, r) = read_discriminant(b, v, e, s, width);
            valid(c, r->Ok_0) && c.insts.len() <= b.insts.len() + 12
        }),
{
}

/// A number keeps its value as it is adapted to its storage.
proof fn lemma_number_adapted(n: nat, own: LlvmShape, storage: LlvmShape)
    requires
        own is Integer || own is Pointer,
        payload_storage(own) == Ok::<LlvmShape, LowerError>(storage),
        well_typed(Val::Int(n), own),
    ensures
        adapted(Val::Int(n), own, storage) == Val::Int(n),
{
    if own == LlvmShape::Integer(1) {
        lemma2_to64();
        lemma_small_mod(n, pow2(8));
    }
}

/// A value that was built of a payload in the carrier's place holds it as its carrier.
#[verifier::rlimit(40)]
proof fn lemma_payload_is_carrier(
    b: Body,
    env: Env,
    e: MirEnumType,
    operands: Seq<Value>,
    variant: u32,
    field: u32,
    n: nat,
)
    requires
        has_carrier(e),
        enum_type_slots(e) is Ok,
        field < operands.len(),
        constructed_enum(b, MirType::Enum(e), operands, variant).1 is Ok,
        constructed_enum(b, MirType::Enum(e), operands, variant).0.insts.len() + 32
            <= usize::MAX,
        ({
            let s = enum_type_slots(e)->Ok_0;
            let base = fields_before(e.variant_field_counts@, variant as int);
            let own = s.field_types[base + field];
            &&& base + operands.len() <= s.field_slots.len()
            &&& size_align(LlvmShape::Struct(s.fields)) is Some
            &&& all_fit(b, env, s, operands, base)
            &&& s.field_slots[base + field] == s.carrier_slot
            &&& not_overwritten(s, base, operands.len() as int, base + field)
            &&& own is Integer || own is Pointer
        }),
        value_of(b, env, operands[field as int]) == Val::Int(n),
        n < pow2(e.encoding.carrier_width as nat),
    ensures
        ({
            let (c, v) = constructed_enum(b, MirType::Enum(e), operands, variant);
            holds_carrier(c, env, v->Ok_0, e, n)
        }),
{
    let s = enum_type_slots(e)->Ok_0;
    let base = fields_before(e.variant_field_counts@, variant as int);
    let flat = base + field;
    lemma_fields_before_nonnegative(e.variant_field_counts@, variant as int);
    lemma_carrier_slot(e);
    lemma_payload_slot(e, flat);
    lemma_slot_count(e);
    let slot = s.carrier_slot->Some_0;
    let operand = operands[field as int];
    assert forall|i: int| 0 <= i < operands.len() implies fits_payload(
        b,
        env,
        s,
        #[trigger] operands[i],
        base + i,
    ) && valid(b, operands[i]) by {}
    assert(fits_payload(b, env, s, operands[field as int], base + field));
    let own = s.field_types[flat];
    lemma_payload_storage_stores(own);
    lemma_number_adapted(n, own, s.fields[slot as int]);
    lemma_slot_undisturbed(b, env, e, base, operands, field as int);
    assert(slot_written(b, env, e, s, operands, variant, slot, field as int));
    lemma_constructed_slots(b, env, e, operands, variant, slot, field as int);
}

/// A niche tells its untagged variant by the payload that stands where the carrier does:
/// the discriminant of a value that was built of it is its index, wherever the payload's
/// bits are none of the niche's.
pub proof fn law_untagged_variants_are_told(
    b: Body,
    env: Env,
    history: Seq<MirType>,
    e: MirEnumType,
    operands: Seq<Value>,
    variant: u32,
    field: u32,
    width: u32,
    n: nat,
)
    requires
        newest(history, TypeKind::Enum) == Some(MirType::Enum(e)),
        lowered(*e.discriminant_ty) == Ok::<LlvmShape, LowerError>(LlvmShape::Integer(width)),
        has_carrier(e),
        enum_type_slots(e) is Ok,
        e.encoding.layout_kind == EnumLayoutKind::Niche,
        niche_fits(e, width),
        variant == e.encoding.untagged_variant,
        variant < e.spec_variant_count(),
        e.inhabited(variant as int),
        field < operands.len(),
        constructed_enum(b, MirType::Enum(e), operands, variant).0.insts.len() + 32
            <= usize::MAX,
        ({
            let s = enum_type_slots(e)->Ok_0;
            let base = fields_before(e.variant_field_counts@, variant as int);
            let own = s.field_types[base + field];
            &&& base + operands.len() <= s.field_slots.len()
            &&& size_align(LlvmShape::Struct(s.fields)) is Some
            &&& all_fit(b, env, s, operands, base)
            &&& s.field_slots[base + field] == s.carrier_slot
            &&& not_overwritten(s, base, operands.len() as int, base + field)
            &&& own is Integer || own is Pointer
        }),
        value_of(b, env, operands[field as int]) == Val::Int(n),
        n < pow2(e.encoding.carrier_width as nat),
        niche_stands_for(e, n) == variant,
    ensures
        ({
            let (c, v) = constructed_enum(b, MirType::Enum(e), operands, variant);
            let (d, r) = discriminant_of(c, v->Ok_0, history);
            &&& v is Ok
            &&& r is Ok
            &&& value_of(d, env, r->Ok_0) == Val::Int(variant as nat)
        }),
{
    law_variants_can_be_built(b, env, MirType::Enum(e), operands, variant);
    lemma_payload_is_carrier(b, env, e, operands, variant, field, n);
    let (c, v) = constructed_enum(b, MirType::Enum(e), operands, variant);
    law_discriminants_tell_the_variant(c, env, v->Ok_0, history, e, width, n);
}

} // verus!
