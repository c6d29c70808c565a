//! Building enum values, and reading and writing their tags and payloads.
//!
//! A direct tag holds the variant's declared discriminant. A niche carrier
//! holds `niche_start` plus the variant's distance from the first niche
//! variant, wrapping at the carrier's width.

use crate::enum_slots::{EnumSlotMap, EnumSlots};
use crate::error::LowerError;
use crate::ir::{
    element_type, extends, lemma_extends_transitive, lemma_extends_value, low_bits, truncated,
    valid, value_type, with_cast, with_constant, with_gep, with_insert, with_load, with_store,
    with_undef, Body, Builder, CastOp, GepIndex, GepPath, Value,
};
use crate::llvm::{opt_shape, LlvmShape, LlvmType};
use crate::mir::{EnumCarrierKind, EnumLayoutKind, MirEnumType, MirType};
use crate::payload_values::{
    canonical, canonicalize_bool_value_bytes, coerce_enum_payload_value, coerced,
};
use crate::storage::{enum_payload_storage_type, is_zero_sized_type, payload_storage, zero_sized};
use crate::types::{build_enum_slot_map, lowered, enum_type_slots};
use crate::union_ops::{memory_align, spill_enum_value, spilled};
use vstd::arithmetic::power2::pow2;
use vstd::prelude::*;

verus! {

// ---------------------------------------------------------------------------
// Carrier bits
// ---------------------------------------------------------------------------

/// The carrier bits of a niche variant.
pub open spec fn niche_bits(e: MirEnumType, variant: int) -> u128 {
    let sum = e.encoding.niche_start + (variant - e.encoding.niche_variant_start);
    truncated((sum % pow2(128) as int) as u128, e.encoding.carrier_width)
}

/// The carrier bits that select a variant. Nothing where selecting it writes
/// no bits: the untagged variant of a niche, or a single variant.
pub open spec fn carrier_bits(e: MirEnumType, variant: usize) -> Result<Option<u128>, LowerError> {
    let c = e.encoding;
    if variant >= e.spec_variant_count() || !e.inhabited(variant as int) {
        Err(LowerError::VariantUninhabited { variant })
    } else {
        match c.layout_kind {
            EnumLayoutKind::Direct => if variant < e.variant_discriminants@.len() {
                Ok(Some(e.variant_discriminants@[variant as int] as u128))
            } else {
                Err(LowerError::VariantDiscriminant { variant })
            },
            EnumLayoutKind::Niche => if variant == c.untagged_variant {
                Ok(None)
            } else if variant < c.niche_variant_start || variant > c.niche_variant_end {
                Err(LowerError::VariantNotEncodable { variant })
            } else {
                Ok(Some(niche_bits(e, variant as int)))
            },
            EnumLayoutKind::Single => if variant == c.single_variant {
                Ok(None)
            } else {
                Err(LowerError::VariantNotSingle { variant })
            },
            EnumLayoutKind::Empty => Err(LowerError::EnumUninhabited),
            EnumLayoutKind::Unknown => Err(LowerError::EnumUnknownLayout),
        }
    }
}

/// The carrier bits that select a variant.
///
/// The untagged variant comes before the range check: its index may lie inside
/// the niche range, where its place is a dead value.
pub fn enum_carrier_bits_for_variant(e: &MirEnumType, variant: usize) -> (r: Result<
    Option<u128>,
    LowerError,
>)
    ensures
        r == carrier_bits(*e, variant),
{
    let c = &e.encoding;
    if variant >= e.variant_count() {
        return Err(LowerError::VariantUninhabited { variant });
    }
    match e.variant_is_inhabited(variant) {
        Some(true) => {},
        _ => {
            return Err(LowerError::VariantUninhabited { variant });
        },
    }
    match c.layout_kind {
        EnumLayoutKind::Direct => {
            if variant < e.variant_discriminants.len() {
                Ok(Some(e.variant_discriminants[variant] as u128))
            } else {
                Err(LowerError::VariantDiscriminant { variant })
            }
        },
        EnumLayoutKind::Niche => {
            if variant as u128 == c.untagged_variant as u128 {
                return Ok(None);
            }
            if (variant as u128) < c.niche_variant_start as u128 || variant as u128
                > c.niche_variant_end as u128 {
                return Err(LowerError::VariantNotEncodable { variant });
            }
            let offset: u128 = variant as u128 - c.niche_variant_start as u128;
            let bits: u128 = c.niche_start.wrapping_add(offset);
            proof {
                lemma_wrapping_sum(c.niche_start, offset);
            }
            Ok(Some(low_bits(bits, c.carrier_width)))
        },
        EnumLayoutKind::Single => {
            if variant as u128 == c.single_variant as u128 {
                Ok(None)
            } else {
                Err(LowerError::VariantNotSingle { variant })
            }
        },
        EnumLayoutKind::Empty => Err(LowerError::EnumUninhabited),
        EnumLayoutKind::Unknown => Err(LowerError::EnumUnknownLayout),
    }
}

proof fn lemma_pow2_128()
    ensures
        pow2(128) == 0x1_0000_0000_0000_0000 * 0x1_0000_0000_0000_0000,
        pow2(128) == u128::MAX + 1,
{
    vstd::arithmetic::power2::lemma2_to64();
    vstd::arithmetic::power2::lemma_pow2_adds(64, 64);
}

proof fn lemma_wrapping_sum(a: u128, b: u128)
    ensures
        (a + b) % pow2(128) as int == if a + b > u128::MAX {
            a + b - (u128::MAX + 1)
        } else {
            a + b
        },
{
    lemma_pow2_128();
    let m = u128::MAX + 1;
    if a + b > u128::MAX {
        vstd::arithmetic::div_mod::lemma_mod_add_multiples_vanish(a + b - m, m);
        vstd::arithmetic::div_mod::lemma_small_mod((a + b - m) as nat, m as nat);
    } else {
        vstd::arithmetic::div_mod::lemma_small_mod((a + b) as nat, m as nat);
    }
}

/// The carrier constant with the given bits.
pub open spec fn with_carrier(b: Body, e: MirEnumType, ty: LlvmShape, bits: u128) -> (
    Body,
    Result<Value, LowerError>,
) {
    let (b1, integer) = with_constant(b, e.encoding.carrier_width, bits);
    match e.encoding.carrier_kind {
        EnumCarrierKind::Integer => (b1, Ok(integer)),
        EnumCarrierKind::Pointer => {
            let (b2, r) = with_cast(b1, CastOp::IntToPtr, integer, ty);
            (b2, Ok(r))
        },
        EnumCarrierKind::Absent => (b1, Err(LowerError::NoCarrier)),
    }
}

pub(crate) fn emit_carrier_constant(b: &mut Builder, e: &MirEnumType, ty: LlvmType, bits: u128) -> (r: Result<
    Value,
    LowerError,
>)
    ensures
        (final(b)@, r) == with_carrier(old(b)@, *e, ty@, bits),
        extends(old(b)@, final(b)@),
        r is Ok ==> valid(final(b)@, r->Ok_0),
{
    let ghost b0 = b@;
    let integer = b.constant(e.encoding.carrier_width, bits);
    let ghost b1 = b@;
    match e.encoding.carrier_kind {
        EnumCarrierKind::Integer => Ok(integer),
        EnumCarrierKind::Pointer => {
            let r = b.cast(CastOp::IntToPtr, integer, ty);
            proof {
                lemma_extends_transitive(b0, b1, b@);
            }
            Ok(r)
        },
        EnumCarrierKind::Absent => Err(LowerError::NoCarrier),
    }
}

/// The address `offset` bytes behind `base`.
pub open spec fn byte_address(b: Body, base: Value, offset: u64) -> (Body, Value) {
    let (b1, amount) = with_constant(b, 64, offset as u128);
    with_gep(b1, base, GepPath::One(GepIndex::Value(amount)), LlvmShape::Integer(8))
}

/// Computes the address some bytes behind a pointer.
pub fn enum_byte_gep(b: &mut Builder, base: Value, offset: u64) -> (r: Value)
    requires
        valid(old(b)@, base),
    ensures
        (final(b)@, r) == byte_address(old(b)@, base, offset),
        extends(old(b)@, final(b)@),
        valid(final(b)@, r),
{
    let ghost b0 = b@;
    let amount = b.constant(64, offset as u128);
    let ghost b1 = b@;
    proof {
        lemma_extends_value(b0, b1, base);
    }
    let r = b.gep(base, GepPath::One(GepIndex::Value(amount)), LlvmType::Integer(8));
    proof {
        lemma_extends_transitive(b0, b1, b@);
    }
    r
}

// ---------------------------------------------------------------------------
// Flat payload indices
// ---------------------------------------------------------------------------

/// Number of payload fields of the first `k` variants.
pub open spec fn fields_before(counts: Seq<u32>, k: int) -> int
    decreases k,
{
    if k <= 0 {
        0
    } else if k > counts.len() {
        fields_before(counts, k - 1)
    } else {
        fields_before(counts, k - 1) + counts[k - 1]
    }
}

proof fn lemma_fields_before_bound(counts: Seq<u32>, k: int)
    requires
        0 <= k,
    ensures
        0 <= fields_before(counts, k) <= k * u32::MAX,
    decreases k,
{
    if k > 0 {
        lemma_fields_before_bound(counts, k - 1);
        assert((k - 1) * u32::MAX + u32::MAX == k * u32::MAX) by (nonlinear_arith);
    }
}

proof fn lemma_fields_before_all(counts: Seq<u32>, k: int)
    requires
        counts.len() <= k,
    ensures
        fields_before(counts, k) == fields_before(counts, counts.len() as int),
    decreases k,
{
    if k > counts.len() {
        lemma_fields_before_all(counts, k - 1);
    }
}

/// Number of payload fields that come before those of a variant.
pub(crate) fn payload_base(e: &MirEnumType, variant: u32) -> (r: u64)
    ensures
        r == fields_before(e.variant_field_counts@, variant as int),
{
    let n: usize = e.variant_field_counts.len();
    let mut sum: u64 = 0;
    let mut k: u32 = 0;
    while k < variant && (k as usize) < n
        invariant
            k <= variant,
            k <= n,
            n == e.variant_field_counts@.len(),
            sum == fields_before(e.variant_field_counts@, k as int),
            sum <= k * u32::MAX,
        decreases variant - k,
    {
        let count: u32 = e.variant_field_counts[k as usize];
        proof {
            assert(k * u32::MAX + u32::MAX == (k + 1) * u32::MAX) by (nonlinear_arith);
            assert((k + 1) * u32::MAX <= u32::MAX * u32::MAX) by (nonlinear_arith)
                requires
                    k + 1 <= u32::MAX,
            ;
        }
        sum = sum + count as u64;
        k = k + 1;
    }
    proof {
        if k < variant {
            lemma_fields_before_all(e.variant_field_counts@, variant as int);
        }
    }
    sum
}

// ---------------------------------------------------------------------------
// Construction
// ---------------------------------------------------------------------------

/// The payload fields placed so far: the value built from those with a slot,
/// and the others.
pub ghost struct Payloads {
    pub current: Value,
    pub deferred: Seq<(usize, Value)>,
}

/// The first `k` operands placed as the payload fields from `base` on.
pub open spec fn placed_payloads(
    b: Body,
    s: EnumSlots,
    start: Value,
    operands: Seq<Value>,
    variant: usize,
    base: int,
    k: int,
) -> (Body, Result<Payloads, LowerError>)
    decreases k,
{
    if k <= 0 {
        (b, Ok(Payloads { current: start, deferred: Seq::empty() }))
    } else {
        let (b1, before) = placed_payloads(b, s, start, operands, variant, base, k - 1);
        match before {
            Err(e) => (b1, Err(e)),
            Ok(p) => placed_payload(b1, s, p, operands[k - 1], variant, base + k - 1, k - 1),
        }
    }
}

/// One operand placed as payload field `flat`, the `i`-th of its variant.
pub open spec fn placed_payload(
    b: Body,
    s: EnumSlots,
    p: Payloads,
    operand: Value,
    variant: usize,
    flat: int,
    i: int,
) -> (Body, Result<Payloads, LowerError>) {
    if flat >= s.field_slots.len() {
        (
            b,
            Err(
                LowerError::PayloadIndex {
                    variant,
                    payload: i as usize,
                    fields: s.field_slots.len() as usize,
                },
            ),
        )
    } else {
        match s.field_slots[flat] {
            Some(slot) => match element_type(LlvmShape::Struct(s.fields), slot) {
                None => (b, Err(LowerError::PayloadSlot { slot })),
                Some(storage) => {
                    let (b1, adapted) = coerced(b, operand, value_type(b, operand), storage);
                    match adapted {
                        Err(e) => (b1, Err(e)),
                        Ok(x) => {
                            let (b2, r) = with_insert(b1, p.current, x, slot);
                            (b2, Ok(Payloads { current: r, ..p }))
                        },
                    }
                },
            },
            None => if zero_sized(s.field_types[flat]) {
                (b, Ok(p))
            } else {
                (b, Ok(Payloads { deferred: p.deferred.push((flat as usize, operand)), ..p }))
            },
        }
    }
}

/// Writes one payload without a slot at its byte offset behind `slot`.
pub open spec fn stored_payload(b: Body, s: EnumSlots, slot: Value, flat: usize, operand: Value) -> (
    Body,
    Result<(), LowerError>,
) {
    let (b1, ptr) = byte_address(b, slot, s.field_offsets[flat as int]);
    match payload_storage(s.field_types[flat as int]) {
        Err(e) => (b1, Err(e)),
        Ok(storage) => {
            let (b2, bytes) = canonical(b1, operand, value_type(b1, operand));
            match bytes {
                Err(e) => (b2, Err(e)),
                Ok(x) => {
                    let (b3, adapted) = coerced(b2, x, value_type(b2, x), storage);
                    match adapted {
                        Err(e) => (b3, Err(e)),
                        Ok(y) => (with_store(b3, y, ptr, None), Ok(())),
                    }
                },
            }
        },
    }
}

/// Writes the first `k` payloads without a slot.
pub open spec fn stored_payloads(
    b: Body,
    s: EnumSlots,
    slot: Value,
    deferred: Seq<(usize, Value)>,
    k: int,
) -> (Body, Result<(), LowerError>)
    decreases k,
{
    if k <= 0 {
        (b, Ok(()))
    } else {
        let (b1, before) = stored_payloads(b, s, slot, deferred, k - 1);
        match before {
            Err(e) => (b1, Err(e)),
            Ok(_) => stored_payload(b1, s, slot, deferred[k - 1].0, deferred[k - 1].1),
        }
    }
}

/// `start` with the carrier of a variant.
pub open spec fn with_variant(b: Body, e: MirEnumType, s: EnumSlots, start: Value, variant: usize) -> (
    Body,
    Result<Value, LowerError>,
) {
    match carrier_bits(e, variant) {
        Err(error) => (b, Err(error)),
        Ok(None) => (b, Ok(start)),
        Ok(Some(bits)) => match (s.carrier_slot, s.carrier_ty) {
            (Some(slot), Some(ty)) => {
                let (b1, carrier) = with_carrier(b, e, ty, bits);
                match carrier {
                    Err(error) => (b1, Err(error)),
                    Ok(c) => {
                        let (b2, r) = with_insert(b1, start, c, slot);
                        (b2, Ok(r))
                    },
                }
            },
            _ => (b, Err(LowerError::NoCarrier)),
        },
    }
}

/// The value with its remaining payloads written through memory, where there
/// are any.
pub open spec fn completed_enum(b: Body, e: MirEnumType, s: EnumSlots, p: Payloads) -> (
    Body,
    Result<Value, LowerError>,
) {
    if p.deferred.len() == 0 {
        (b, Ok(p.current))
    } else {
        let ty = LlvmShape::Struct(s.fields);
        let (b1, slot) = spilled(b, p.current, ty, e.encoding.abi_align);
        let (b2, stored) = stored_payloads(b1, s, slot, p.deferred, p.deferred.len() as int);
        match stored {
            Err(error) => (b2, Err(error)),
            Ok(_) => {
                let (b3, r) = with_load(b2, slot, ty, memory_align(e.encoding.abi_align));
                (b3, Ok(r))
            },
        }
    }
}

/// Construction of an enum value of the given variant from its payloads.
pub open spec fn constructed_enum(b: Body, t: MirType, operands: Seq<Value>, variant: u32) -> (
    Body,
    Result<Value, LowerError>,
) {
    match t {
        MirType::Enum(e) => match enum_type_slots(e) {
            Err(error) => (b, Err(error)),
            Ok(s) => {
                let (b1, start) = with_undef(b, LlvmShape::Struct(s.fields));
                let (b2, tagged) = with_variant(b1, e, s, start, variant as usize);
                match tagged {
                    Err(error) => (b2, Err(error)),
                    Ok(current) => {
                        let (b3, placed) = placed_payloads(
                            b2,
                            s,
                            current,
                            operands,
                            variant as usize,
                            fields_before(e.variant_field_counts@, variant as int),
                            operands.len() as int,
                        );
                        match placed {
                            Err(error) => (b3, Err(error)),
                            Ok(p) => completed_enum(b3, e, s, p),
                        }
                    },
                }
            },
        },
        _ => (b, Err(LowerError::UnexpectedType)),
    }
}

proof fn lemma_placed_error(
    b: Body,
    s: EnumSlots,
    start: Value,
    operands: Seq<Value>,
    variant: usize,
    base: int,
    k: int,
    n: int,
)
    requires
        0 <= k <= n,
        placed_payloads(b, s, start, operands, variant, base, k).1 is Err,
    ensures
        placed_payloads(b, s, start, operands, variant, base, n) == placed_payloads(
            b,
            s,
            start,
            operands,
            variant,
            base,
            k,
        ),
    decreases n - k,
{
    if k < n {
        lemma_placed_error(b, s, start, operands, variant, base, k + 1, n);
    }
}

proof fn lemma_stored_error(
    b: Body,
    s: EnumSlots,
    slot: Value,
    deferred: Seq<(usize, Value)>,
    k: int,
    n: int,
)
    requires
        0 <= k <= n,
        stored_payloads(b, s, slot, deferred, k).1 is Err,
    ensures
        stored_payloads(b, s, slot, deferred, n) == stored_payloads(b, s, slot, deferred, k),
    decreases n - k,
{
    if k < n {
        lemma_stored_error(b, s, slot, deferred, k + 1, n);
    }
}

fn emit_variant(b: &mut Builder, e: &MirEnumType, map: &EnumSlotMap, start: Value, variant: usize) -> (r:
    Result<Value, LowerError>)
    requires
        enum_type_slots(*e) is Ok,
        map.models(enum_type_slots(*e)->Ok_0),
        valid(old(b)@, start),
    ensures
        (final(b)@, r) == with_variant(
            old(b)@,
            *e,
            enum_type_slots(*e)->Ok_0,
            start,
            variant,
        ),
        extends(old(b)@, final(b)@),
        r is Ok ==> valid(final(b)@, r->Ok_0),
{
    let bits: u128 = match enum_carrier_bits_for_variant(e, variant) {
        Err(error) => {
            return Err(error);
        },
        Ok(None) => {
            return Ok(start);
        },
        Ok(Some(bits)) => bits,
    };
    match (map.carrier_slot, &map.carrier_llvm_ty) {
        (Some(slot), Some(ty)) => {
            let ghost b0 = b@;
            let carrier = emit_carrier_constant(b, e, ty.duplicate(), bits);
            let ghost b1 = b@;
            match carrier {
                Err(error) => Err(error),
                Ok(c) => {
                    proof {
                        lemma_extends_value(b0, b1, start);
                    }
                    let r = b.insert(start, c, slot);
                    proof {
                        lemma_extends_transitive(b0, b1, b@);
                    }
                    Ok(r)
                },
            }
        },
        _ => Err(LowerError::NoCarrier),
    }
}

/// The type of a slot of an enum's storage struct.
fn slot_storage(map: &EnumSlotMap, slot: u32) -> (r: Option<LlvmType>)
    ensures
        opt_shape(r) == element_type(map.llvm_struct_ty@, slot),
{
    match &map.llvm_struct_ty {
        LlvmType::Struct(fields) => {
            proof {
                LlvmType::lemma_struct_view(*fields);
            }
            if (slot as usize) < fields.len() {
                Some(fields[slot as usize].duplicate())
            } else {
                None
            }
        },
        LlvmType::Array(elem, n) => {
            if (slot as u64) < *n {
                Some(elem.duplicate())
            } else {
                None
            }
        },
        _ => None,
    }
}

fn place_payloads(
    b: &mut Builder,
    map: &EnumSlotMap,
    Ghost(s): Ghost<EnumSlots>,
    start: Value,
    operands: &Vec<Value>,
    variant: usize,
    base: u64,
) -> (r: Result<(Value, Vec<(usize, Value)>), LowerError>)
    requires
        map.models(s),
        s.field_offsets.len() == s.field_slots.len(),
        s.field_types.len() == s.field_slots.len(),
        valid(old(b)@, start),
        forall|i: int| 0 <= i < operands@.len() ==> valid(old(b)@, #[trigger] operands@[i]),
    ensures
        match r {
            Ok((current, deferred)) => {
                &&& placed_payloads(
                    old(b)@,
                    s,
                    start,
                    operands@,
                    variant,
                    base as int,
                    operands@.len() as int,
                ) == (
                    final(b)@,
                    Ok::<Payloads, LowerError>(Payloads { current, deferred: deferred@ }),
                )
                &&& valid(final(b)@, current)
                &&& forall|i: int|
                    0 <= i < deferred@.len() ==> (#[trigger] deferred@[i]).0
                        < s.field_slots.len() && valid(final(b)@, deferred@[i].1)
            },
            Err(e) => placed_payloads(
                old(b)@,
                s,
                start,
                operands@,
                variant,
                base as int,
                operands@.len() as int,
            ) == (final(b)@, Err::<Payloads, LowerError>(e)),
        },
        extends(old(b)@, final(b)@),
{
    let ghost first = b@;
    let mut current = start;
    let mut deferred: Vec<(usize, Value)> = Vec::new();
    assert(deferred@ =~= Seq::empty());
    for i in 0..operands.len()
        invariant
            first == old(b)@,
            map.models(s),
            s.field_offsets.len() == s.field_slots.len(),
            s.field_types.len() == s.field_slots.len(),
            forall|j: int| 0 <= j < operands@.len() ==> valid(first, #[trigger] operands@[j]),
            extends(first, b@),
            valid(b@, current),
            forall|j: int|
                0 <= j < deferred@.len() ==> (#[trigger] deferred@[j]).0 < s.field_slots.len()
                    && valid(first, deferred@[j].1),
            placed_payloads(
                first,
                s,
                start,
                operands@,
                variant,
                base as int,
                i as int,
            ) == (
                b@,
                Ok::<Payloads, LowerError>(Payloads { current, deferred: deferred@ }),
            ),
    {
        let operand = operands[i];
        let ghost c = b@;
        proof {
            lemma_extends_value(first, c, operand);
            if placed_payloads(first, s, start, operands@, variant, base as int, i + 1).1
                is Err {
                lemma_placed_error(
                    first,
                    s,
                    start,
                    operands@,
                    variant,
                    base as int,
                    i + 1,
                    operands@.len() as int,
                );
            }
        }
        let flat: u128 = base as u128 + i as u128;
        if flat >= map.field_slots.len() as u128 {
            return Err(
                LowerError::PayloadIndex { variant, payload: i, fields: map.field_slots.len() },
            );
        }
        let f: usize = flat as usize;
        match map.field_slots[f] {
            Some(slot) => {
                let storage = match slot_storage(map, slot) {
                    None => {
                        return Err(LowerError::PayloadSlot { slot });
                    },
                    Some(storage) => storage,
                };
                match coerce_enum_payload_value(b, operand, &storage) {
                    Err(e) => {
                        proof {
                            lemma_extends_transitive(first, c, b@);
                        }
                        return Err(e);
                    },
                    Ok(x) => {
                        let ghost d = b@;
                        proof {
                            lemma_extends_transitive(first, c, d);
                            lemma_extends_value(c, d, current);
                        }
                        current = b.insert(current, x, slot);
                        proof {
                            lemma_extends_transitive(first, d, b@);
                        }
                    },
                }
            },
            None => {
                assert(s.field_types[f as int] == map.field_llvm_types@[f as int]@);
                if !is_zero_sized_type(&map.field_llvm_types[f]) {
                    deferred.push((f, operand));
                }
            },
        }
    }
    proof {
        assert forall|i: int| 0 <= i < deferred@.len() implies (#[trigger] deferred@[i]).0
            < s.field_slots.len() && valid(b@, deferred@[i].1) by {
            lemma_extends_value(first, b@, deferred@[i].1);
        }
    }
    Ok((current, deferred))
}

fn store_payload(
    b: &mut Builder,
    map: &EnumSlotMap,
    Ghost(s): Ghost<EnumSlots>,
    slot: Value,
    flat: usize,
    operand: Value,
) -> (r: Result<(), LowerError>)
    requires
        map.models(s),
        s.field_offsets.len() == s.field_slots.len(),
        s.field_types.len() == s.field_slots.len(),
        flat < s.field_slots.len(),
        valid(old(b)@, slot),
        valid(old(b)@, operand),
    ensures
        (final(b)@, r) == stored_payload(old(b)@, s, slot, flat, operand),
        extends(old(b)@, final(b)@),
{
    let ghost b0 = b@;
    assert(s.field_types[flat as int] == map.field_llvm_types@[flat as int]@);
    let ptr = enum_byte_gep(b, slot, map.field_offsets[flat]);
    let ghost b1 = b@;
    let storage = match enum_payload_storage_type(&map.field_llvm_types[flat]) {
        Err(e) => {
            return Err(e);
        },
        Ok(storage) => storage,
    };
    proof {
        lemma_extends_value(b0, b1, operand);
    }
    let x = match canonicalize_bool_value_bytes(b, operand) {
        Err(e) => {
            proof {
                lemma_extends_transitive(b0, b1, b@);
            }
            return Err(e);
        },
        Ok(x) => x,
    };
    let ghost b2 = b@;
    proof {
        lemma_extends_transitive(b0, b1, b2);
    }
    let y = match coerce_enum_payload_value(b, x, &storage) {
        Err(e) => {
            proof {
                lemma_extends_transitive(b0, b2, b@);
            }
            return Err(e);
        },
        Ok(y) => y,
    };
    let ghost b3 = b@;
    b.store(y, ptr, None);
    proof {
        lemma_extends_transitive(b0, b2, b3);
        lemma_extends_transitive(b0, b3, b@);
    }
    Ok(())
}

fn complete_enum(
    b: &mut Builder,
    e: &MirEnumType,
    map: &EnumSlotMap,
    Ghost(s): Ghost<EnumSlots>,
    current: Value,
    deferred: &Vec<(usize, Value)>,
) -> (r: Result<Value, LowerError>)
    requires
        map.models(s),
        s.field_offsets.len() == s.field_slots.len(),
        s.field_types.len() == s.field_slots.len(),
        valid(old(b)@, current),
        forall|i: int|
            0 <= i < deferred@.len() ==> (#[trigger] deferred@[i]).0 < s.field_slots.len()
                && valid(old(b)@, deferred@[i].1),
    ensures
        (final(b)@, r) == completed_enum(
            old(b)@,
            *e,
            s,
            Payloads { current, deferred: deferred@ },
        ),
        extends(old(b)@, final(b)@),
        r is Ok ==> valid(final(b)@, r->Ok_0),
{
    if deferred.len() == 0 {
        return Ok(current);
    }
    let align: u64 = e.encoding.abi_align;
    let ghost b0 = b@;
    let slot = spill_enum_value(b, current, map.llvm_struct_ty.duplicate(), align);
    let ghost b1 = b@;
    for i in 0..deferred.len()
        invariant
            b0 == old(b)@,
            map.models(s),
            s.field_offsets.len() == s.field_slots.len(),
            s.field_types.len() == s.field_slots.len(),
            deferred@.len() > 0,
            forall|j: int|
                0 <= j < deferred@.len() ==> (#[trigger] deferred@[j]).0 < s.field_slots.len()
                    && valid(b0, deferred@[j].1),
            (b1, slot) == spilled(b0, current, LlvmShape::Struct(s.fields), e.encoding.abi_align),
            extends(b0, b1),
            extends(b1, b@),
            valid(b1, slot),
            (b@, Ok::<(), LowerError>(())) == stored_payloads(
                b1,
                s,
                slot,
                deferred@,
                i as int,
            ),
    {
        let (flat, operand): (usize, Value) = deferred[i];
        let ghost c = b@;
        proof {
            assert(deferred@[i as int] == (flat, operand));
            lemma_extends_transitive(b0, b1, c);
            lemma_extends_value(b0, c, deferred@[i as int].1);
            lemma_extends_value(b1, c, slot);
            if stored_payloads(b1, s, slot, deferred@, i + 1).1 is Err {
                lemma_stored_error(b1, s, slot, deferred@, i + 1, deferred@.len() as int);
            }
        }
        let stored = store_payload(b, map, Ghost(s), slot, flat, operand);
        proof {
            lemma_extends_transitive(b0, c, b@);
            lemma_extends_transitive(b1, c, b@);
        }
        match stored {
            Err(error) => {
                return Err(error);
            },
            Ok(_) => {},
        }
    }
    let ghost b2 = b@;
    proof {
        lemma_extends_transitive(b0, b1, b2);
    }
    let mem: Option<u32> = if align > 0 {
        Some(align as u32)
    } else {
        None
    };
    let r = b.load(slot, map.llvm_struct_ty.duplicate(), mem);
    proof {
        lemma_extends_transitive(b0, b2, b@);
    }
    Ok(r)
}

/// Lowers the construction of an enum value.
///
/// The carrier gets the variant's bits, and each payload that owns a slot is
/// inserted there. Payloads without a slot are written through memory at their
/// byte offsets. An absent variant index stands for the first variant.
pub fn convert_construct_enum(
    b: &mut Builder,
    result_ty: &MirType,
    operands: &Vec<Value>,
    variant_index: Option<u32>,
) -> (r: Result<Value, LowerError>)
    requires
        forall|i: int| 0 <= i < operands@.len() ==> valid(old(b)@, #[trigger] operands@[i]),
    ensures
        (final(b)@, r) == constructed_enum(
            old(b)@,
            *result_ty,
            operands@,
            match variant_index {
                Some(v) => v,
                None => 0,
            },
        ),
        extends(old(b)@, final(b)@),
        r is Ok ==> valid(final(b)@, r->Ok_0),
{
    let variant: u32 = match variant_index {
        Some(v) => v,
        None => 0,
    };
    let e = match result_ty {
        MirType::Enum(e) => e,
        _ => {
            return Err(LowerError::UnexpectedType);
        },
    };
    let map = match build_enum_slot_map(e) {
        Err(error) => {
            return Err(error);
        },
        Ok(map) => map,
    };
    let ghost s = enum_type_slots(*e)->Ok_0;
    proof {
        crate::enum_slots::lemma_enum_slot_lengths(
            *e,
            lowered(*e.discriminant_ty),
            crate::types::lowered_all(e.all_field_types@),
        );
    }
    let ghost b0 = b@;
    let start = b.undef(map.llvm_struct_ty.duplicate());
    let ghost b1 = b@;
    let current = match emit_variant(b, e, &map, start, variant as usize) {
        Err(error) => {
            proof {
                lemma_extends_transitive(b0, b1, b@);
            }
            return Err(error);
        },
        Ok(current) => current,
    };
    let ghost b2 = b@;
    proof {
        lemma_extends_transitive(b0, b1, b2);
        assert forall|i: int| 0 <= i < operands@.len() implies valid(
            b2,
            #[trigger] operands@[i],
        ) by {
            lemma_extends_value(b0, b2, operands@[i]);
        }
    }
    let base: u64 = payload_base(e, variant);
    match place_payloads(b, &map, Ghost(s), current, operands, variant as usize, base) {
        Err(error) => {
            proof {
                lemma_extends_transitive(b0, b2, b@);
            }
            Err(error)
        },
        Ok((placed, deferred)) => {
            let ghost b3 = b@;
            proof {
                lemma_extends_transitive(b0, b2, b3);
            }
            let r = complete_enum(b, e, &map, Ghost(s), placed, &deferred);
            proof {
                lemma_extends_transitive(b0, b3, b@);
            }
            r
        },
    }
}

} // verus!
