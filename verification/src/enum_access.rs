//! Reading and writing the tag of an enum, reading its payloads, and the
//! addresses of fields.

use crate::enum_bytes::{rebuilt_payload, try_extract_byte_faithful_enum_payload};
use crate::enum_ops::{
    byte_address, carrier_bits, emit_carrier_constant, enum_byte_gep, enum_carrier_bits_for_variant,
    fields_before, payload_base, with_carrier,
};
use crate::enum_slots::{lemma_enum_slot_lengths, EnumSlotMap, EnumSlots};
use crate::error::LowerError;
use crate::ir::{
    extends, lemma_extends_transitive, lemma_extends_value, low_bits, truncated, valid, value_type,
    with_binary, with_cast, with_compare, with_constant, with_extract, with_load, with_select,
    with_store, with_unary_call, with_undef, BinOp, Body, Builder, CastOp, Intrinsic,
    Predicate, Value,
};
use crate::llvm::{LlvmShape, LlvmType};
use crate::mir::{EnumCarrierKind, EnumLayoutKind, MirEnumType, MirType};
use crate::operands::{most_recent_of_kind, newest, Operand, TypeKind};
use crate::payload_values::{coerce_enum_payload_value, coerced};
use crate::storage::{enum_payload_storage_type, is_zero_sized_type, payload_storage, zero_sized};
use crate::types::{build_enum_slot_map, lowered, convert_type, lowered_all, enum_type_slots};
use crate::union_ops::{spill_enum_value, spilled};
use vstd::prelude::*;

verus! {

// ---------------------------------------------------------------------------
// Writing the tag
// ---------------------------------------------------------------------------

/// Writes the carrier of a variant of enum `e` behind `ptr`. Selecting a
/// variant that needs no carrier writes nothing.
pub open spec fn stored_variant(b: Body, ptr: Value, e: MirEnumType, variant: u32) -> (
    Body,
    Result<(), LowerError>,
) {
    match carrier_bits(e, variant as usize) {
        Err(error) => (b, Err(error)),
        Ok(None) => (b, Ok(())),
        Ok(Some(bits)) => match enum_type_slots(e) {
            Err(error) => (b, Err(error)),
            Ok(s) => match s.carrier_ty {
                None => (b, Err(LowerError::NoCarrier)),
                Some(ty) => {
                    let (b1, carrier) = with_carrier(b, e, ty, bits);
                    match carrier {
                        Err(error) => (b1, Err(error)),
                        Ok(c) => {
                            let (b2, address) = byte_address(b1, ptr, e.encoding.tag_offset);
                            (with_store(b2, c, address, None), Ok(()))
                        },
                    }
                },
            },
        },
    }
}

/// Selects a variant of the enum behind a pointer.
pub open spec fn set_discriminant(
    b: Body,
    ptr: Value,
    history: Seq<MirType>,
    variant: Option<u32>,
) -> (Body, Result<(), LowerError>) {
    match variant {
        None => (b, Err(LowerError::MissingIndex)),
        Some(v) => match newest(history, TypeKind::Ptr) {
            None => (b, Err(LowerError::UnexpectedType)),
            Some(t) => match *t->Ptr_0.pointee {
                MirType::Enum(e) => stored_variant(b, ptr, e, v),
                _ => (b, Err(LowerError::UnexpectedType)),
            },
        },
    }
}

/// Lowers the selection of a variant of the enum behind a pointer: the one
/// carrier write that the layout needs, if any.
pub fn convert_set_discriminant(
    b: &mut Builder,
    pointer: &Operand<'_>,
    variant_index: Option<u32>,
) -> (r: Result<(), LowerError>)
    requires
        valid(old(b)@, pointer.value),
    ensures
        (final(b)@, r) == set_discriminant(
            old(b)@,
            pointer.value,
            pointer.history@,
            variant_index,
        ),
        extends(old(b)@, final(b)@),
{
    let variant: u32 = match variant_index {
        None => {
            return Err(LowerError::MissingIndex);
        },
        Some(v) => v,
    };
    let e = match most_recent_of_kind(pointer.history, TypeKind::Ptr) {
        Some(MirType::Ptr(p)) => match &*p.pointee {
            MirType::Enum(e) => e,
            _ => {
                return Err(LowerError::UnexpectedType);
            },
        },
        _ => {
            return Err(LowerError::UnexpectedType);
        },
    };
    let bits: u128 = match enum_carrier_bits_for_variant(e, variant as usize) {
        Err(error) => {
            return Err(error);
        },
        Ok(None) => {
            return Ok(());
        },
        Ok(Some(bits)) => bits,
    };
    let map = match build_enum_slot_map(e) {
        Err(error) => {
            return Err(error);
        },
        Ok(map) => map,
    };
    let ty = match map.carrier_llvm_ty {
        None => {
            return Err(LowerError::NoCarrier);
        },
        Some(ty) => ty,
    };
    let ghost b0 = b@;
    let carrier = match emit_carrier_constant(b, e, ty, bits) {
        Err(error) => {
            return Err(error);
        },
        Ok(c) => c,
    };
    let ghost b1 = b@;
    proof {
        lemma_extends_value(b0, b1, pointer.value);
    }
    let address = enum_byte_gep(b, pointer.value, e.encoding.tag_offset);
    let ghost b2 = b@;
    b.store(carrier, address, None);
    proof {
        lemma_extends_transitive(b0, b1, b2);
        lemma_extends_transitive(b0, b2, b@);
    }
    Ok(())
}

// ---------------------------------------------------------------------------
// Reading the tag
// ---------------------------------------------------------------------------

/// Whether every variant can exist and has its own position as discriminant.
pub open spec fn contiguous_variants(e: MirEnumType) -> bool {
    let n = e.variant_discriminants@.len();
    &&& e.encoding.layout_kind == EnumLayoutKind::Direct
    &&& n >= 2
    &&& e.spec_variant_count() == n
    &&& e.encoding.variant_inhabited@.len() == n
    &&& forall|i: int| 0 <= i < n ==> #[trigger] e.encoding.variant_inhabited@[i] != 0
    &&& forall|i: int| 0 <= i < n ==> #[trigger] e.variant_discriminants@[i] == i
}

/// One past the largest discriminant, where the valid ones are exactly those
/// below it and it fits in `width` bits.
pub open spec fn contiguous_upper_bound(e: MirEnumType, width: u32) -> Option<u128> {
    let n = e.variant_discriminants@.len() as u128;
    if contiguous_variants(e) && truncated(n, width) == n {
        Some(n)
    } else {
        None
    }
}

/// One past the largest discriminant of an enum whose valid discriminants are
/// exactly those below it.
pub fn contiguous_direct_enum_upper_bound(e: &MirEnumType, width: u32) -> (r: Option<u128>)
    ensures
        r == contiguous_upper_bound(*e, width),
{
    let n: usize = e.variant_discriminants.len();
    if e.encoding.layout_kind != EnumLayoutKind::Direct || n < 2 || e.variant_count() != n
        || e.encoding.variant_inhabited.len() != n {
        return None;
    }
    for i in 0..n
        invariant
            n == e.variant_discriminants@.len(),
            n == e.encoding.variant_inhabited@.len(),
            forall|j: int| 0 <= j < i ==> #[trigger] e.encoding.variant_inhabited@[j] != 0,
            forall|j: int| 0 <= j < i ==> #[trigger] e.variant_discriminants@[j] == j,
    {
        if e.encoding.variant_inhabited[i] == 0 || e.variant_discriminants[i] as u128
            != i as u128 {
            return None;
        }
    }
    if low_bits(n as u128, width) != n as u128 {
        return None;
    }
    Some(n as u128)
}

/// Tells LLVM the range of a discriminant, where its valid values are
/// contiguous.
pub open spec fn with_range(b: Body, discriminant: Value, e: MirEnumType, width: u32) -> Body {
    match contiguous_upper_bound(e, width) {
        None => b,
        Some(bound) => {
            let (b1, upper) = with_constant(b, width, bound);
            let (b2, condition) = with_compare(b1, Predicate::Ult, discriminant, upper);
            with_unary_call(b2, Intrinsic::Assume, condition, LlvmShape::Void).0
        },
    }
}

/// Tells LLVM the range of a discriminant.
///
/// Reading an invalid enum value is undefined already; saying so lets LLVM drop
/// bounds checks that depend on the discriminant.
fn emit_contiguous_direct_enum_assume(
    b: &mut Builder,
    discriminant: Value,
    e: &MirEnumType,
    width: u32,
)
    ensures
        final(b)@ == with_range(old(b)@, discriminant, *e, width),
        extends(old(b)@, final(b)@),
{
    let bound: u128 = match contiguous_direct_enum_upper_bound(e, width) {
        None => {
            return ;
        },
        Some(bound) => bound,
    };
    let ghost b0 = b@;
    let upper = b.constant(width, bound);
    let ghost b1 = b@;
    let condition = b.compare(Predicate::Ult, discriminant, upper);
    let ghost b2 = b@;
    let _ = b.call_unary(Intrinsic::Assume, condition, LlvmType::Void);
    proof {
        lemma_extends_transitive(b0, b1, b2);
        lemma_extends_transitive(b0, b2, b@);
    }
}

/// The variant that a niche carrier stands for: by its wrapping distance from
/// `niche_start`, or else the untagged variant.
///
/// The range test is at the carrier's width; variant indices, which may be
/// larger than the carrier can hold, are computed at the logical width.
pub open spec fn decoded_niche(b: Body, carrier: Value, e: MirEnumType, width: u32) -> (
    Body,
    Value,
) {
    let c = e.encoding;
    let (b1, integer) = if c.carrier_kind == EnumCarrierKind::Pointer {
        with_cast(b, CastOp::PtrToInt, carrier, LlvmShape::Integer(c.carrier_width))
    } else {
        (b, carrier)
    };
    let (b2, start) = with_constant(b1, c.carrier_width, c.niche_start);
    let (b3, relative) = with_binary(b2, BinOp::Sub, integer, start);
    let (b4, last) = with_constant(
        b3,
        c.carrier_width,
        (c.niche_variant_end - c.niche_variant_start) as u128,
    );
    let (b5, in_range) = with_compare(b4, Predicate::Ule, relative, last);
    let (b6, distance) = if c.carrier_width == width {
        (b5, relative)
    } else if c.carrier_width > width {
        with_cast(b5, CastOp::Trunc, relative, LlvmShape::Integer(width))
    } else {
        with_cast(b5, CastOp::ZExt, relative, LlvmShape::Integer(width))
    };
    let (b7, base) = with_constant(b6, width, c.niche_variant_start as u128);
    let (b8, variant) = with_binary(b7, BinOp::Add, distance, base);
    let (b9, untagged) = with_constant(b8, width, c.untagged_variant as u128);
    with_select(b9, in_range, variant, untagged, false)
}

/// Reads the discriminant of enum value `v`, at `width` bits.
pub open spec fn read_discriminant(b: Body, v: Value, e: MirEnumType, s: EnumSlots, width: u32) -> (
    Body,
    Result<Value, LowerError>,
) {
    let c = e.encoding;
    match c.layout_kind {
        EnumLayoutKind::Direct => match s.carrier_slot {
            None => (b, Err(LowerError::NoCarrier)),
            Some(slot) => with_extract(b, v, slot),
        },
        EnumLayoutKind::Single => if !e.inhabited(c.single_variant as int) {
            (b, Err(LowerError::VariantUninhabited { variant: c.single_variant as usize }))
        } else if c.single_variant >= e.variant_discriminants@.len() {
            (b, Err(LowerError::VariantDiscriminant { variant: c.single_variant as usize }))
        } else {
            let (b1, r) = with_constant(
                b,
                width,
                e.variant_discriminants@[c.single_variant as int] as u128,
            );
            (b1, Ok(r))
        },
        EnumLayoutKind::Niche => match s.carrier_slot {
            None => (b, Err(LowerError::NoCarrier)),
            Some(slot) => if c.niche_variant_end < c.niche_variant_start {
                (b, Err(LowerError::NicheRange))
            } else {
                let (b1, extracted) = with_extract(b, v, slot);
                match extracted {
                    Err(error) => (b1, Err(error)),
                    Ok(carrier) => {
                        let (b2, r) = decoded_niche(b1, carrier, e, width);
                        (b2, Ok(r))
                    },
                }
            },
        },
        EnumLayoutKind::Empty => (b, Err(LowerError::EnumUninhabited)),
        EnumLayoutKind::Unknown => (b, Err(LowerError::EnumUnknownLayout)),
    }
}

/// Reads the discriminant of an enum value.
pub open spec fn discriminant_of(b: Body, v: Value, history: Seq<MirType>) -> (
    Body,
    Result<Value, LowerError>,
) {
    match newest(history, TypeKind::Enum) {
        None => (b, Err(LowerError::UnexpectedType)),
        Some(t) => {
            let e = t->Enum_0;
            match enum_type_slots(e) {
                Err(error) => (b, Err(error)),
                Ok(s) => match lowered(*e.discriminant_ty) {
                    Err(error) => (b, Err(error)),
                    Ok(LlvmShape::Integer(width)) => {
                        let (b1, read) = read_discriminant(b, v, e, s, width);
                        match read {
                            Err(error) => (b1, Err(error)),
                            Ok(r) => (with_range(b1, r, e, width), Ok(r)),
                        }
                    },
                    Ok(_) => (b, Err(LowerError::UnexpectedType)),
                },
            }
        },
    }
}

fn decode_niche(b: &mut Builder, carrier: Value, e: &MirEnumType, width: u32) -> (r: Value)
    requires
        valid(old(b)@, carrier),
        e.encoding.niche_variant_start <= e.encoding.niche_variant_end,
    ensures
        (final(b)@, r) == decoded_niche(old(b)@, carrier, *e, width),
        extends(old(b)@, final(b)@),
        valid(final(b)@, r),
{
    let c = &e.encoding;
    let ghost b0 = b@;
    let integer = if c.carrier_kind == EnumCarrierKind::Pointer {
        b.cast(CastOp::PtrToInt, carrier, LlvmType::Integer(c.carrier_width))
    } else {
        carrier
    };
    let ghost b1 = b@;
    let start = b.constant(c.carrier_width, c.niche_start);
    let ghost b2 = b@;
    proof {
        lemma_extends_transitive(b0, b1, b2);
        lemma_extends_value(b1, b2, integer);
    }
    let relative = b.binary(BinOp::Sub, integer, start);
    let ghost b3 = b@;
    let last = b.constant(
        c.carrier_width,
        (c.niche_variant_end - c.niche_variant_start) as u128,
    );
    let ghost b4 = b@;
    let in_range = b.compare(Predicate::Ule, relative, last);
    let ghost b5 = b@;
    proof {
        lemma_extends_transitive(b0, b2, b3);
        lemma_extends_transitive(b0, b3, b4);
        lemma_extends_transitive(b0, b4, b5);
        lemma_extends_transitive(b3, b4, b5);
        lemma_extends_value(b3, b5, relative);
    }
    let distance = if c.carrier_width == width {
        relative
    } else if c.carrier_width > width {
        b.cast(CastOp::Trunc, relative, LlvmType::Integer(width))
    } else {
        b.cast(CastOp::ZExt, relative, LlvmType::Integer(width))
    };
    let ghost b6 = b@;
    let base = b.constant(width, c.niche_variant_start as u128);
    let ghost b7 = b@;
    proof {
        lemma_extends_transitive(b0, b5, b6);
        lemma_extends_transitive(b0, b6, b7);
        lemma_extends_value(b6, b7, distance);
    }
    let variant = b.binary(BinOp::Add, distance, base);
    let ghost b8 = b@;
    let untagged = b.constant(width, c.untagged_variant as u128);
    let ghost b9 = b@;
    proof {
        lemma_extends_transitive(b0, b7, b8);
        lemma_extends_transitive(b0, b8, b9);
        lemma_extends_value(b8, b9, variant);
    }
    let r = b.select(in_range, variant, untagged, false);
    proof {
        lemma_extends_transitive(b0, b9, b@);
    }
    r
}

fn emit_read_discriminant(
    b: &mut Builder,
    v: Value,
    e: &MirEnumType,
    carrier_slot: Option<u32>,
    Ghost(s): Ghost<EnumSlots>,
    width: u32,
) -> (r: Result<Value, LowerError>)
    requires
        valid(old(b)@, v),
        carrier_slot == s.carrier_slot,
    ensures
        (final(b)@, r) == read_discriminant(old(b)@, v, *e, s, width),
        extends(old(b)@, final(b)@),
        r is Ok ==> valid(final(b)@, r->Ok_0),
{
    let c = &e.encoding;
    match c.layout_kind {
        EnumLayoutKind::Direct => match carrier_slot {
            None => Err(LowerError::NoCarrier),
            Some(slot) => b.extract(v, slot),
        },
        EnumLayoutKind::Single => {
            let single: usize = c.single_variant as usize;
            match e.variant_is_inhabited(single) {
                Some(true) => {},
                _ => {
                    return Err(LowerError::VariantUninhabited { variant: single });
                },
            }
            if single >= e.variant_discriminants.len() {
                return Err(LowerError::VariantDiscriminant { variant: single });
            }
            Ok(b.constant(width, e.variant_discriminants[single] as u128))
        },
        EnumLayoutKind::Niche => match carrier_slot {
            None => Err(LowerError::NoCarrier),
            Some(slot) => {
                if c.niche_variant_end < c.niche_variant_start {
                    return Err(LowerError::NicheRange);
                }
                let ghost b0 = b@;
                match b.extract(v, slot) {
                    Err(error) => Err(error),
                    Ok(carrier) => {
                        let ghost b1 = b@;
                        let r = decode_niche(b, carrier, e, width);
                        proof {
                            lemma_extends_transitive(b0, b1, b@);
                        }
                        Ok(r)
                    },
                }
            },
        },
        EnumLayoutKind::Empty => Err(LowerError::EnumUninhabited),
        EnumLayoutKind::Unknown => Err(LowerError::EnumUnknownLayout),
    }
}

/// Lowers a read of which variant an enum value holds.
pub fn convert_get_discriminant(b: &mut Builder, value: &Operand<'_>) -> (r: Result<
    Value,
    LowerError,
>)
    requires
        valid(old(b)@, value.value),
    ensures
        (final(b)@, r) == discriminant_of(old(b)@, value.value, value.history@),
        extends(old(b)@, final(b)@),
        r is Ok ==> valid(final(b)@, r->Ok_0),
{
    let e = match most_recent_of_kind(value.history, TypeKind::Enum) {
        Some(MirType::Enum(e)) => e,
        _ => {
            return Err(LowerError::UnexpectedType);
        },
    };
    let map = match build_enum_slot_map(e) {
        Err(error) => {
            return Err(error);
        },
        Ok(map) => map,
    };
    let width: u32 = match convert_type(&e.discriminant_ty) {
        Err(error) => {
            return Err(error);
        },
        Ok(LlvmType::Integer(width)) => width,
        Ok(_) => {
            return Err(LowerError::UnexpectedType);
        },
    };
    let ghost s = enum_type_slots(*e)->Ok_0;
    let ghost b0 = b@;
    match emit_read_discriminant(b, value.value, e, map.carrier_slot, Ghost(s), width) {
        Err(error) => Err(error),
        Ok(r) => {
            let ghost b1 = b@;
            emit_contiguous_direct_enum_assume(b, r, e, width);
            proof {
                lemma_extends_transitive(b0, b1, b@);
                lemma_extends_value(b1, b@, r);
            }
            Ok(r)
        },
    }
}

// ---------------------------------------------------------------------------
// Reading a payload
// ---------------------------------------------------------------------------

/// Whether all of `flags` are set.
pub open spec fn all_set(flags: Seq<u8>) -> bool {
    forall|i: int| 0 <= i < flags.len() ==> #[trigger] flags[i] != 0
}

fn exec_all_set(flags: &Vec<u8>) -> (r: bool)
    ensures
        r == all_set(flags@),
{
    for i in 0..flags.len()
        invariant
            forall|j: int| 0 <= j < i ==> #[trigger] flags@[j] != 0,
    {
        if flags[i] == 0 {
            return false;
        }
    }
    true
}

/// Whether an enum has at most sixteen variants, all of which can exist, have
/// no fields, and have their position as discriminant, in an integer tag.
pub open spec fn is_bounded_fieldless(e: MirEnumType) -> bool {
    let n = e.spec_variant_count();
    &&& e.encoding.layout_kind == EnumLayoutKind::Direct
    &&& e.encoding.carrier_kind == EnumCarrierKind::Integer
    &&& 2 <= n <= 16
    &&& e.variant_field_counts@.len() == n
    &&& e.encoding.variant_inhabited@.len() == n
    &&& forall|i: int| 0 <= i < n ==> #[trigger] e.variant_field_counts@[i] == 0
    &&& all_set(e.encoding.variant_inhabited@)
    &&& e.variant_discriminants@.len() == n
    &&& forall|i: int| 0 <= i < n ==> #[trigger] e.variant_discriminants@[i] == i
}

/// Whether a payload is the one field of the untagged variant of an
/// integer-carried niche with two variants, and is itself a bounded fieldless
/// enum.
pub open spec fn is_bounded_niche_payload(outer: MirEnumType, variant: u32, field: u32) -> bool {
    let c = outer.encoding;
    &&& c.layout_kind == EnumLayoutKind::Niche
    &&& c.carrier_kind == EnumCarrierKind::Integer
    &&& outer.spec_variant_count() == 2
    &&& outer.variant_field_counts@.len() == 2
    &&& outer.all_field_types@.len() == 1
    &&& c.variant_inhabited@.len() == 2
    &&& variant == c.untagged_variant
    &&& field == 0
    &&& all_set(c.variant_inhabited@)
    &&& variant < 2
    &&& outer.variant_field_counts@[variant as int] == 1
    &&& outer.variant_field_counts@[1 - variant] == 0
    &&& match outer.all_field_types@[0] {
        MirType::Enum(e) => is_bounded_fieldless(e),
        _ => false,
    }
}

fn exec_is_bounded_fieldless(e: &MirEnumType) -> (r: bool)
    ensures
        r == is_bounded_fieldless(*e),
{
    let n: usize = e.variant_count();
    if e.encoding.layout_kind != EnumLayoutKind::Direct || e.encoding.carrier_kind
        != EnumCarrierKind::Integer || n < 2 || n > 16 || e.variant_field_counts.len() != n
        || e.encoding.variant_inhabited.len() != n || e.variant_discriminants.len() != n
        || !exec_all_set(&e.encoding.variant_inhabited) {
        return false;
    }
    for i in 0..n
        invariant
            n == e.variant_field_counts@.len(),
            n == e.variant_discriminants@.len(),
            forall|j: int| 0 <= j < i ==> #[trigger] e.variant_field_counts@[j] == 0,
            forall|j: int| 0 <= j < i ==> #[trigger] e.variant_discriminants@[j] == j,
    {
        if e.variant_field_counts[i] != 0 || e.variant_discriminants[i] as u128 != i as u128 {
            return false;
        }
    }
    true
}

/// Whether a payload without a slot is the narrow integer-only shape that is
/// rebuilt without memory.
pub fn is_bounded_fieldless_enum_niche_payload(
    outer: &MirEnumType,
    variant_index: u32,
    field_index: u32,
) -> (r: bool)
    ensures
        r == is_bounded_niche_payload(*outer, variant_index, field_index),
{
    let c = &outer.encoding;
    if c.layout_kind != EnumLayoutKind::Niche || c.carrier_kind != EnumCarrierKind::Integer
        || outer.variant_count() != 2 || outer.variant_field_counts.len() != 2
        || outer.all_field_types.len() != 1 || c.variant_inhabited.len() != 2 || variant_index
        != c.untagged_variant || field_index != 0 || !exec_all_set(&c.variant_inhabited)
        || variant_index >= 2 {
        return false;
    }
    if outer.variant_field_counts[variant_index as usize] != 1 || outer.variant_field_counts[(1
        - variant_index) as usize] != 0 {
        return false;
    }
    match &outer.all_field_types[0] {
        MirType::Enum(e) => exec_is_bounded_fieldless(e),
        _ => false,
    }
}

/// Reads payload field `flat` of enum value `v`.
pub open spec fn read_payload(
    b: Body,
    v: Value,
    e: MirEnumType,
    s: EnumSlots,
    flat: int,
    allow_integer_only: bool,
) -> (Body, Result<Value, LowerError>) {
    let ty = s.field_types[flat];
    let offset = s.field_offsets[flat];
    match s.field_slots[flat] {
        Some(slot) => {
            let (b1, extracted) = with_extract(b, v, slot);
            match extracted {
                Err(error) => (b1, Err(error)),
                Ok(x) => coerced(b1, x, value_type(b1, x), ty),
            }
        },
        None => if zero_sized(ty) {
            let (b1, r) = with_undef(b, ty);
            (b1, Ok(r))
        } else {
            let storage = LlvmShape::Struct(s.fields);
            let (b1, direct) = rebuilt_payload(b, v, storage, ty, offset, allow_integer_only);
            match direct {
                Some(r) => (b1, Ok(r)),
                None => {
                    let (b2, slot) = spilled(b1, v, storage, e.encoding.abi_align);
                    let (b3, ptr) = byte_address(b2, slot, offset);
                    match payload_storage(ty) {
                        Err(error) => (b3, Err(error)),
                        Ok(stored) => {
                            let (b4, x) = with_load(b3, ptr, stored, None);
                            coerced(b4, x, stored, ty)
                        },
                    }
                },
            }
        },
    }
}

/// Reads field `field` of variant `variant` of an enum value.
pub open spec fn payload_of(
    b: Body,
    v: Value,
    history: Seq<MirType>,
    variant: u32,
    field: u32,
) -> (Body, Result<Value, LowerError>) {
    match newest(history, TypeKind::Enum) {
        None => (b, Err(LowerError::UnexpectedType)),
        Some(t) => {
            let e = t->Enum_0;
            match enum_type_slots(e) {
                Err(error) => (b, Err(error)),
                Ok(s) => {
                    let flat = fields_before(e.variant_field_counts@, variant as int) + field;
                    if flat >= s.field_slots.len() {
                        (
                            b,
                            Err(
                                LowerError::PayloadIndex {
                                    variant: variant as usize,
                                    payload: field as usize,
                                    fields: s.field_slots.len() as usize,
                                },
                            ),
                        )
                    } else {
                        read_payload(
                            b,
                            v,
                            e,
                            s,
                            flat,
                            is_bounded_niche_payload(e, variant, field),
                        )
                    }
                },
            }
        },
    }
}

fn emit_read_payload(
    b: &mut Builder,
    v: Value,
    e: &MirEnumType,
    map: &EnumSlotMap,
    Ghost(s): Ghost<EnumSlots>,
    flat: usize,
    allow_integer_only: bool,
) -> (r: Result<Value, LowerError>)
    requires
        valid(old(b)@, v),
        map.models(s),
        s.field_offsets.len() == s.field_slots.len(),
        s.field_types.len() == s.field_slots.len(),
        flat < s.field_slots.len(),
    ensures
        (final(b)@, r) == read_payload(old(b)@, v, *e, s, flat as int, allow_integer_only),
        extends(old(b)@, final(b)@),
        r is Ok ==> valid(final(b)@, r->Ok_0),
{
    let ghost b0 = b@;
    let ty = &map.field_llvm_types[flat];
    assert(s.field_types[flat as int] == map.field_llvm_types@[flat as int]@);
    let offset: u64 = map.field_offsets[flat];
    match map.field_slots[flat] {
        Some(slot) => {
            match b.extract(v, slot) {
                Err(error) => Err(error),
                Ok(x) => {
                    let ghost b1 = b@;
                    let r = coerce_enum_payload_value(b, x, ty);
                    proof {
                        lemma_extends_transitive(b0, b1, b@);
                    }
                    r
                },
            }
        },
        None => {
            if is_zero_sized_type(ty) {
                return Ok(b.undef(ty.duplicate()));
            }
            if let Some(r) = try_extract_byte_faithful_enum_payload(
                b,
                v,
                &map.llvm_struct_ty,
                ty,
                offset,
                allow_integer_only,
            ) {
                return Ok(r);
            }
            let ghost b1 = b@;
            let slot = spill_enum_value(
                b,
                v,
                map.llvm_struct_ty.duplicate(),
                e.encoding.abi_align,
            );
            let ghost b2 = b@;
            let ptr = enum_byte_gep(b, slot, offset);
            let ghost b3 = b@;
            proof {
                lemma_extends_transitive(b0, b1, b2);
                lemma_extends_transitive(b0, b2, b3);
            }
            let stored = match enum_payload_storage_type(ty) {
                Err(error) => {
                    return Err(error);
                },
                Ok(stored) => stored,
            };
            let x = b.load(ptr, stored, None);
            let ghost b4 = b@;
            let r = coerce_enum_payload_value(b, x, ty);
            proof {
                lemma_extends_transitive(b0, b3, b4);
                lemma_extends_transitive(b0, b4, b@);
            }
            r
        },
    }
}

/// Lowers a read of a payload field of an enum value. Absent indices stand for
/// zero.
pub fn convert_enum_payload(
    b: &mut Builder,
    value: &Operand<'_>,
    variant_index: Option<u32>,
    field_index: Option<u32>,
) -> (r: Result<Value, LowerError>)
    requires
        valid(old(b)@, value.value),
    ensures
        (final(b)@, r) == payload_of(
            old(b)@,
            value.value,
            value.history@,
            match variant_index {
                Some(v) => v,
                None => 0,
            },
            match field_index {
                Some(f) => f,
                None => 0,
            },
        ),
        extends(old(b)@, final(b)@),
        r is Ok ==> valid(final(b)@, r->Ok_0),
{
    let variant: u32 = match variant_index {
        Some(v) => v,
        None => 0,
    };
    let field: u32 = match field_index {
        Some(f) => f,
        None => 0,
    };
    let e = match most_recent_of_kind(value.history, TypeKind::Enum) {
        Some(MirType::Enum(e)) => e,
        _ => {
            return Err(LowerError::UnexpectedType);
        },
    };
    let map = match build_enum_slot_map(e) {
        Err(error) => {
            return Err(error);
        },
        Ok(map) => map,
    };
    let ghost s = enum_type_slots(*e)->Ok_0;
    proof {
        lemma_enum_slot_lengths(*e, lowered(*e.discriminant_ty), lowered_all(e.all_field_types@));
    }
    let flat: u128 = payload_base(e, variant) as u128 + field as u128;
    if flat >= map.field_slots.len() as u128 {
        return Err(
            LowerError::PayloadIndex {
                variant: variant as usize,
                payload: field as usize,
                fields: map.field_slots.len(),
            },
        );
    }
    let allow: bool = is_bounded_fieldless_enum_niche_payload(e, variant, field);
    emit_read_payload(b, value.value, e, &map, Ghost(s), flat as usize, allow)
}

} // verus!
