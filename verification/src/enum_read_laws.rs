//! Enum values read back the variant and the payloads that they were built from.

use crate::enum_access::{payload_of, read_discriminant};
use crate::enum_claims::ClaimShape;
use crate::enum_laws::{
    expected_discriminant, goes_to_memory, has_carrier, lemma_carrier_slot,
    lemma_constructed_variant_reads_back, lemma_fields_before_nonnegative,
    lemma_payload_with_slot_reads_back, readable, slot_used, undisturbed,
};
use crate::enum_memory_laws::{
    apart, end_of, fits_payload, lemma_payload_without_slot_reads_back, integers_whole, slot_apart,
    start_of, stays_in_storage, storage_of,
};
use crate::enum_ops::{carrier_bits, constructed_enum, fields_before};
use crate::enum_slot_laws::{
    claimed_for, claims_traced, law_enum_slots_keep_offsets, lemma_claims_and_payloads,
    lemma_slot_owners, payload_placed,
};
use crate::enum_slots::{
    carrier_type, enum_claims, field_inhabited, lemma_slot_claims, EnumSlots,
};
use crate::enum_storage::{
    covers, enum_storage, law_enum_storage_places_claims, lemma_storage_covers, slot_holds,
};
use crate::ir::{valid, value_type, Body, Value};
use crate::layout::{field_at, natural_offset, size_align};
use crate::llvm::LlvmShape;
use crate::mir::{EnumCarrierKind, MirEnumType, MirType};
use crate::payload_laws::{all_stored_as, lemma_payload_storage_stores, stored_as};
use crate::semantics::{undefined, value_of, Env};
use crate::storage::{byte_faithful, zero_sized};
use crate::struct_laws::lemma_newest_of_one;
use crate::types::{enum_type_slots, lowered, lowered_all};
use crate::values::{
    all_well_typed, byte_size, keeps_byte, lemma_faithful_keeps_bytes, lemma_field_place,
    lemma_struct_keeps_byte, well_typed, Val,
};
use vstd::prelude::*;

verus! {

/// A type that keeps a value that holds something takes bytes.
proof fn lemma_takes_bytes(x: Val, own: LlvmShape, storage: LlvmShape)
    requires
        well_typed(x, own),
        !zero_sized(own),
        stored_as(own, storage),
        size_align(storage) is Some,
    ensures
        byte_size(storage) > 0,
    decreases own,
{
    match (own, storage) {
        (LlvmShape::Struct(fields), LlvmShape::Struct(kept)) => {
            let i = choose|i: int| 0 <= i < fields.len() && !zero_sized(#[trigger] fields[i]);
            assert(all_well_typed(x->Aggregate_0, fields));
            if own != storage {
                assert(all_stored_as(fields, kept));
            }
            assert(well_typed(x->Aggregate_0[i], fields[i]));
            lemma_field_place(kept, i);
            lemma_takes_bytes(x->Aggregate_0[i], fields[i], kept[i]);
        },
        (LlvmShape::Array(elem, n), LlvmShape::Array(kept, _)) => {
            assert(well_typed(x->Aggregate_0[0], *elem));
            lemma_takes_bytes(x->Aggregate_0[0], *elem, *kept);
            assert(byte_size(*kept) * n > 0) by (nonlinear_arith)
                requires
                    byte_size(*kept) > 0,
                    n > 0,
            ;
        },
        _ => {},
    }
}

/// Whether construction writes payload field `g` after payload field `f` of the same
/// variant: first those with a slot, then those that go to memory, each in order.
pub open spec fn written_after(s: EnumSlots, f: int, g: int) -> bool {
    if goes_to_memory(s, g) {
        !goes_to_memory(s, f) || f < g
    } else {
        !goes_to_memory(s, f) && f < g
    }
}

/// Whether no payload of a variant is written over bytes of its payload `flat`. The
/// payloads are those from `base` on, `n` of them.
pub open spec fn not_overwritten(s: EnumSlots, base: int, n: int, flat: int) -> bool {
    forall|g: int|
        base <= g < base + n && !zero_sized(s.field_types[g]) && written_after(s, flat, g)
            ==> #[trigger] apart(s, flat, g)
}

/// A payload with a slot is its slot's bytes, so payloads that are not written over
/// it leave the slot alone.
pub proof fn lemma_slot_undisturbed(
    b: Body,
    env: Env,
    e: MirEnumType,
    base: int,
    operands: Seq<Value>,
    field: int,
)
    requires
        e.spec_variant_count() > 0,
        enum_type_slots(e) is Ok,
        0 <= base,
        0 <= field < operands.len(),
        ({
            let s = enum_type_slots(e)->Ok_0;
            &&& base + operands.len() <= s.field_slots.len()
            &&& size_align(LlvmShape::Struct(s.fields)) is Some
            &&& s.field_slots[base + field] is Some
            &&& forall|i: int|
                0 <= i < operands.len() ==> fits_payload(
                    b,
                    env,
                    s,
                    #[trigger] operands[i],
                    base + i,
                )
            &&& not_overwritten(s, base, operands.len() as int, base + field)
        }),
    ensures
        ({
            let s = enum_type_slots(e)->Ok_0;
            let x = s.field_slots[base + field]->Some_0;
            &&& undisturbed(b, env, s, base, operands, x as int)
            &&& !slot_used(s, base, field, operands.len() as int, x)
        }),
{
    let s = enum_type_slots(e)->Ok_0;
    let flat = base + field;
    let n = operands.len() as int;
    let x = s.field_slots[flat]->Some_0;
    let discriminant = lowered(*e.discriminant_ty);
    let converted = lowered_all(e.all_field_types@);
    law_enum_slots_keep_offsets(e, discriminant, converted);
    lemma_slot_owners(e, discriminant, converted, flat);
    assert(fits_payload(b, env, s, operands[field], flat));
    lemma_payload_storage_stores(s.field_types[flat]);
    let x0 = value_of(b, env, operands[field]);
    lemma_takes_bytes(x0, s.field_types[flat], storage_of(s, flat));
    assert(field_at(s.fields, x as int, storage_of(s, flat), start_of(s, flat)));
    assert forall|i: int| 0 <= i < n && goes_to_memory(s, base + i) implies fits_payload(
        b,
        env,
        s,
        #[trigger] operands[i],
        base + i,
    ) && slot_apart(s, x as int, base + i) by {
        assert(written_after(s, flat, base + i));
        assert(apart(s, flat, base + i));
    }
    if slot_used(s, base, field, n, x) {
        let j = choose|j: int| field < j < n && #[trigger] s.field_slots[base + j] == Some(x);
        let g = base + j;
        lemma_slot_owners(e, discriminant, converted, g);
        assert(field_at(s.fields, x as int, storage_of(s, g), start_of(s, g)));
        assert(apart(s, flat, g));
    }
}

/// Whether byte `o` is padding of payload field `g`.
pub open spec fn pads(s: EnumSlots, g: int, o: int) -> bool {
    start_of(s, g) <= o < end_of(s, g) && !keeps_byte(storage_of(s, g), o - start_of(s, g))
}

/// Whether no payload field that can exist puts padding over a byte of payload
/// field `flat`, but for those that are kept like it at its place.
pub open spec fn unpadded(e: MirEnumType, s: EnumSlots, flat: int) -> bool {
    forall|g: int, o: int|
        {
            &&& 0 <= g < s.field_types.len()
            &&& field_inhabited(e, g)
            &&& !zero_sized(s.field_types[g])
            &&& start_of(s, flat) <= o < end_of(s, flat)
            &&& #[trigger] pads(s, g, o)
        } ==> start_of(s, g) == start_of(s, flat) && storage_of(s, g) == storage_of(s, flat)
}

/// The storage keeps the bytes of a byte-faithful payload field that no other puts
/// padding over.
proof fn lemma_byte_kept(
    e: MirEnumType,
    s: EnumSlots,
    claims: Seq<ClaimShape>,
    flat: int,
    i: int,
    o: int,
)
    requires
        s.field_offsets == e.all_field_offsets@,
        claims_traced(e, s.field_types, claims),
        covers(s.fields, claims, i, o),
        byte_faithful(storage_of(s, flat)),
        unpadded(e, s, flat),
        start_of(s, flat) <= o < end_of(s, flat),
    ensures
        keeps_byte(LlvmShape::Struct(s.fields), o),
{
    let t = s.fields[i];
    let at = natural_offset(s.fields, i);
    if byte_faithful(t) {
        lemma_faithful_keeps_bytes(t, o - at);
    } else {
        let c = choose|c: int|
            0 <= c < claims.len() && (#[trigger] claims[c]).ty == t && claims[c].offset == at;
        let g = choose|g: int| #[trigger] claimed_for(e, s.field_types, claims[c], g);
        assert(storage_of(s, g) == t && start_of(s, g) == at);
        assert(!pads(s, g, o));
    }
    lemma_struct_keeps_byte(s.fields, i, o);
}

/// An enum's storage keeps every payload field that no other puts padding over.
#[verifier::rlimit(80)]
pub proof fn law_unpadded_payloads_stay_in_storage(e: MirEnumType, flat: int)
    requires
        e.spec_variant_count() > 0,
        enum_type_slots(e) is Ok,
        0 <= flat < enum_type_slots(e)->Ok_0.field_types.len(),
        field_inhabited(e, flat),
        !zero_sized(enum_type_slots(e)->Ok_0.field_types[flat]),
        unpadded(e, enum_type_slots(e)->Ok_0, flat),
    ensures
        stays_in_storage(enum_type_slots(e)->Ok_0, flat),
{
    let s = enum_type_slots(e)->Ok_0;
    let carrier = carrier_type(e, lowered(*e.discriminant_ty))->Ok_0;
    let types = s.field_types;
    let total_size = e.encoding.total_size;
    let abi_align = e.encoding.abi_align;
    lemma_slot_claims(e, carrier, types);
    lemma_claims_and_payloads(e, carrier, types);
    let claims = enum_claims(e, carrier, types)->Ok_0.claims;
    let storage = storage_of(s, flat);
    assert(payload_placed(e, types, claims, flat));
    if exists|c: int|
        0 <= c < claims.len() && claimed_for(e, types, #[trigger] claims[c], flat) {
        let c = choose|c: int|
            0 <= c < claims.len() && claimed_for(e, types, #[trigger] claims[c], flat);
        law_enum_storage_places_claims(claims, total_size, abi_align);
        let slot = enum_storage(claims, total_size, abi_align)->Ok_0.slots[c] as int;
        assert(slot_holds(s.fields, slot, claims[c]));
        assert(field_at(s.fields, slot, storage, start_of(s, flat)));
    } else {
        let whole = LlvmShape::Struct(s.fields);
        assert forall|o: int|
            start_of(s, flat) <= o < end_of(s, flat) implies #[trigger] keeps_byte(whole, o) by {
            let i = lemma_storage_covers(claims, total_size, abi_align, o);
            lemma_byte_kept(e, s, claims, flat, i, o);
        }
    }
}

/// Reading a payload of an enum value gives the operand that the value was built
/// from, in the payload's type: a `bool` comes back as an `i1`, a shared-memory
/// pointer in its address space. A payload that holds nothing comes back undefined.
///
/// The payload may own a slot or pass through memory. No payload of the variant is
/// written over it: as rustc lays them out, they share no byte. One without a slot stays in the storage:
/// a byte of it under padding of the storage is lost. None of its integers is
/// defined in part: joined from its bytes, it would be undefined.
#[verifier::rlimit(80)]
pub proof fn law_payloads_read_back(
    b: Body,
    env: Env,
    e: MirEnumType,
    operands: Seq<Value>,
    variant: u32,
    field: u32,
)
    requires
        e.spec_variant_count() > 0,
        enum_type_slots(e) is Ok,
        field < operands.len(),
        constructed_enum(b, MirType::Enum(e), operands, variant).1 is Ok,
        ({
            let s = enum_type_slots(e)->Ok_0;
            let base = fields_before(e.variant_field_counts@, variant as int);
            let flat = base + field;
            let (c, v) = constructed_enum(b, MirType::Enum(e), operands, variant);
            &&& base + operands.len() <= s.field_slots.len()
            &&& size_align(LlvmShape::Struct(s.fields)) is Some
            &&& forall|i: int|
                0 <= i < operands.len() ==> fits_payload(
                    b,
                    env,
                    s,
                    #[trigger] operands[i],
                    base + i,
                )
            &&& not_overwritten(s, base, operands.len() as int, flat)
            &&& goes_to_memory(s, flat) ==> {
                &&& stays_in_storage(s, flat)
                &&& integers_whole(value_of(b, env, operands[field as int]), s.field_types[flat])
                &&& s.field_types[flat] is Struct ==> s.field_types[flat]->Struct_0.len()
                    <= u32::MAX
            }
            &&& c.insts.len() + 16 <= usize::MAX
            &&& payload_of(c, v->Ok_0, seq![MirType::Enum(e)], variant, field).0.insts.len() + 8
                < usize::MAX
        }),
    ensures
        ({
            let s = enum_type_slots(e)->Ok_0;
            let own = s.field_types[fields_before(e.variant_field_counts@, variant as int) + field];
            let (c, v) = constructed_enum(b, MirType::Enum(e), operands, variant);
            let (d, r) = payload_of(c, v->Ok_0, seq![MirType::Enum(e)], variant, field);
            &&& r is Ok
            &&& valid(d, r->Ok_0)
            &&& value_type(d, r->Ok_0) == own
            &&& value_of(d, env, r->Ok_0) == if zero_sized(own) {
                undefined(own)
            } else {
                value_of(b, env, operands[field as int])
            }
        }),
{
    let s = enum_type_slots(e)->Ok_0;
    let base = fields_before(e.variant_field_counts@, variant as int);
    let flat = base + field;
    let own = s.field_types[flat];
    let n = operands.len() as int;
    let x = value_of(b, env, operands[field as int]);
    lemma_fields_before_nonnegative(e.variant_field_counts@, variant as int);
    lemma_newest_of_one(MirType::Enum(e));
    assert(fits_payload(b, env, s, operands[field as int], base + field));
    if s.field_slots[flat] is Some {
        lemma_slot_owners(e, lowered(*e.discriminant_ty), lowered_all(e.all_field_types@), flat);
        lemma_slot_undisturbed(b, env, e, base, operands, field as int);
        assert forall|i: int| 0 <= i < operands.len() implies valid(b, #[trigger] operands[i]) by {
            assert(fits_payload(b, env, s, operands[i], base + i));
        }
        lemma_payload_with_slot_reads_back(b, env, e, operands, variant, field);
    } else if !zero_sized(own) {
        lemma_payload_storage_stores(own);
        lemma_takes_bytes(x, own, storage_of(s, flat));
        assert forall|g: int|
            flat < g < base + operands.len() && goes_to_memory(s, g) implies #[trigger] apart(
            s,
            flat,
            g,
        ) by {}
        lemma_payload_without_slot_reads_back(b, env, e, operands, variant, field);
    }
}

/// Whether payload field `f` shares no byte with the carrier.
pub open spec fn carrier_apart(e: MirEnumType, s: EnumSlots, f: int) -> bool {
    let start = e.encoding.tag_offset as int;
    start + byte_size(s.carrier_ty->Some_0) <= start_of(s, f) || end_of(s, f) <= start
}

/// Reading the discriminant of an enum value gives the variant that it was built
/// of: the declared discriminant for a direct tag, and the variant's index for a
/// niche.
///
/// The payloads of a variant that has carrier bits share no byte with the carrier,
/// as rustc lays them out.
pub proof fn law_constructed_variant_reads_back(
    b: Body,
    env: Env,
    e: MirEnumType,
    operands: Seq<Value>,
    variant: u32,
    width: u32,
)
    requires
        has_carrier(e),
        enum_type_slots(e) is Ok,
        readable(e, width),
        carrier_bits(e, variant as usize) is Ok,
        carrier_bits(e, variant as usize)->Ok_0 is Some,
        e.encoding.carrier_kind == EnumCarrierKind::Pointer ==> e.encoding.carrier_width <= 64,
        constructed_enum(b, MirType::Enum(e), operands, variant).1 is Ok,
        constructed_enum(b, MirType::Enum(e), operands, variant).0.insts.len() + 16
            <= usize::MAX,
        ({
            let s = enum_type_slots(e)->Ok_0;
            let base = fields_before(e.variant_field_counts@, variant as int);
            &&& base + operands.len() <= s.field_slots.len()
            &&& size_align(LlvmShape::Struct(s.fields)) is Some
            &&& forall|i: int|
                0 <= i < operands.len() ==> fits_payload(
                    b,
                    env,
                    s,
                    #[trigger] operands[i],
                    base + i,
                )
            &&& forall|f: int|
                base <= f < base + operands.len() && !zero_sized(s.field_types[f])
                    ==> #[trigger] carrier_apart(e, s, f)
        }),
    ensures
        ({
            let s = enum_type_slots(e)->Ok_0;
            let (c, v) = constructed_enum(b, MirType::Enum(e), operands, variant);
            let (d, r) = read_discriminant(c, v->Ok_0, e, s, width);
            &&& r is Ok
            &&& value_of(d, env, r->Ok_0) == expected_discriminant(e, variant)
        }),
{
    let s = enum_type_slots(e)->Ok_0;
    let base = fields_before(e.variant_field_counts@, variant as int);
    let n = operands.len() as int;
    let discriminant = lowered(*e.discriminant_ty);
    let converted = lowered_all(e.all_field_types@);
    lemma_fields_before_nonnegative(e.variant_field_counts@, variant as int);
    lemma_carrier_slot(e);
    law_enum_slots_keep_offsets(e, discriminant, converted);
    let slot = s.carrier_slot->Some_0;
    assert forall|i: int| 0 <= i < n && goes_to_memory(s, base + i) implies fits_payload(
        b,
        env,
        s,
        #[trigger] operands[i],
        base + i,
    ) && slot_apart(s, slot as int, base + i) by {
        assert(carrier_apart(e, s, base + i));
    }
    assert forall|j: int| 0 <= j < n implies #[trigger] s.field_slots[base + j] != s.carrier_slot by {
        let f = base + j;
        if s.field_slots[f] == s.carrier_slot {
            assert(fits_payload(b, env, s, operands[j], f));
            lemma_slot_owners(e, discriminant, converted, f);
            lemma_payload_storage_stores(s.field_types[f]);
            let x = value_of(b, env, operands[j]);
            lemma_takes_bytes(x, s.field_types[f], storage_of(s, f));
            assert(field_at(s.fields, slot as int, storage_of(s, f), start_of(s, f)));
            assert(carrier_apart(e, s, f));
        }
    }
    assert forall|i: int| 0 <= i < n implies valid(b, #[trigger] operands[i]) by {
        assert(fits_payload(b, env, s, operands[i], base + i));
    }
    lemma_constructed_variant_reads_back(b, env, e, operands, variant, width);
}

} // verus!
