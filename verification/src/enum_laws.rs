//! Enum values read back the variant and the payloads that were written.

use crate::collect::{all_ok, lemma_all_ok_values};
use crate::enum_access::{contiguous_upper_bound, decoded_niche, payload_of, read_discriminant};
use crate::enum_memory_laws::{
    fits_payload, lemma_deferred, lemma_slot_count, lemma_slot_survives, lemma_stored_payloads_grow,
    lemma_variant_type, slot_apart,
};
use crate::enum_ops::{
    carrier_bits, completed_enum, constructed_enum, fields_before, niche_bits, placed_payload,
    placed_payloads, stored_payloads, with_carrier, with_variant, Payloads,
};
use crate::enum_slots::{carrier_type, lemma_slots_keep_offsets, EnumSlots};
use crate::error::LowerError;
use crate::ir::{
    element_type, extends, lemma_extends_transitive, lemma_extends_value, truncated, valid,
    value_type, with_binary, with_cast, with_compare, with_constant, with_extract, with_insert,
    with_load, with_undef, BinOp, Body, CastOp, Op, Predicate, Value,
};
use crate::layout::{natural_offset, size_align};
use crate::llvm::LlvmShape;
use crate::mir::{EnumCarrierKind, EnumLayoutKind, MirEnumType, MirType};
use crate::payload_values::{coerced, lemma_coerced_grows, lemma_coerced_valid};
use crate::payload_laws::{
    adapted, lemma_adapted_back, lemma_back_succeeds, lemma_coerced_type, lemma_coerced_value,
    lemma_payload_storage_stores, stored_as,
};
use crate::semantics::{
    binary_value, lemma_extract_value, lemma_insert_value, lemma_operand_of_new,
    lemma_value_stable, undefined, value_of, Env,
};
use crate::storage::{payload_storage, zero_sized};
use crate::struct_laws::lemma_newest_of_one;
use crate::union_ops::{memory_align, spilled};
use crate::types::{enum_type_slots, lowered, lowered_all};
use crate::values::{
    decoded, encoded, lemma_decoded_encoded, lemma_field_place, lemma_number_survives, well_typed,
    Val,
};
use vstd::arithmetic::div_mod::*;
use vstd::arithmetic::power2::*;
use vstd::prelude::*;

verus! {

// ---------------------------------------------------------------------------
// Decoding a niche
// ---------------------------------------------------------------------------

/// The distance of carrier bits `x` from the first niche value, at the
/// carrier's width.
pub open spec fn niche_distance(e: MirEnumType, x: nat) -> nat {
    let m = pow2(e.encoding.carrier_width as nat);
    ((x - truncated(e.encoding.niche_start, e.encoding.carrier_width)) % m as int) as nat
}

/// The variant that carrier bits `x` stand for.
pub open spec fn niche_variant(e: MirEnumType, x: nat) -> nat {
    let c = e.encoding;
    if niche_distance(e, x) <= c.niche_variant_end - c.niche_variant_start {
        (c.niche_variant_start + niche_distance(e, x)) as nat
    } else {
        c.untagged_variant as nat
    }
}

/// Whether the variants of a niche fit: their range in the carrier, and their
/// indices in `width` bits.
pub open spec fn niche_fits(e: MirEnumType, width: u32) -> bool {
    let c = e.encoding;
    &&& c.niche_variant_start <= c.niche_variant_end
    &&& c.niche_variant_end - c.niche_variant_start < pow2(c.carrier_width as nat)
    &&& c.niche_variant_end < pow2(width as nat)
    &&& c.untagged_variant < pow2(width as nat)
}

/// A number below two to a width is its own truncation.
proof fn lemma_truncated_small(bits: u128, width: u32)
    requires
        bits < pow2(width as nat),
    ensures
        truncated(bits, width) == bits,
{
    if width < 128 {
        lemma_small_mod(bits as nat, pow2(width as nat));
    }
}

/// Truncation is the remainder by two to the width.
proof fn lemma_truncated_is_mod(bits: u128, width: u32)
    requires
        width < 128,
    ensures
        truncated(bits, width) as int == bits as int % pow2(width as nat) as int,
{
    lemma_pow2_pos(width as nat);
    lemma_mod_bound(bits as int, pow2(width as nat) as int);
    lemma_mod_decreases(bits as nat, pow2(width as nat));
}

/// A truncation is below two to its width.
pub proof fn lemma_truncated_bound(bits: u128, width: u32)
    ensures
        truncated(bits, width) < pow2(width as nat),
{
    lemma_pow2_pos(width as nat);
    if width < 128 {
        lemma_mod_bound(bits as int, pow2(width as nat) as int);
    } else {
        lemma_pow2_at_least_128(width as nat);
    }
}

proof fn lemma_pow2_at_least_128(n: nat)
    requires
        n >= 128,
    ensures
        pow2(n) >= pow2(128),
        pow2(128) == u128::MAX + 1,
{
    lemma2_to64();
    lemma_pow2_adds(64, 64);
    if n > 128 {
        lemma_pow2_strictly_increases(128, n);
    }
}

/// A constant is its truncation.
pub proof fn lemma_any_constant(b: Body, env: Env, width: u32, bits: u128)
    requires
        b.insts.len() < usize::MAX,
    ensures
        ({
            let (c, v) = with_constant(b, width, bits);
            &&& extends(b, c)
            &&& c.insts.len() == b.insts.len() + 1
            &&& valid(c, v)
            &&& value_type(c, v) == LlvmShape::Integer(width)
            &&& value_of(c, env, v) == Val::Int(truncated(bits, width) as nat)
        }),
{
}

/// The value of a new binary operation.
pub proof fn lemma_binary(b: Body, env: Env, op: BinOp, lhs: Value, rhs: Value, width: u32)
    requires
        b.insts.len() < usize::MAX,
        valid(b, lhs),
        valid(b, rhs),
        value_type(b, lhs) == LlvmShape::Integer(width),
    ensures
        ({
            let (c, v) = with_binary(b, op, lhs, rhs);
            &&& extends(b, c)
            &&& c.insts.len() == b.insts.len() + 1
            &&& valid(c, v)
            &&& value_type(c, v) == LlvmShape::Integer(width)
            &&& value_of(c, env, v) == binary_value(
                op,
                value_of(b, env, lhs),
                value_of(b, env, rhs),
                width as nat,
            )
        }),
{
    let o = Op::Binary { op, lhs, rhs };
    lemma_operand_of_new(b, env, o, value_type(b, lhs), lhs);
    lemma_operand_of_new(b, env, o, value_type(b, lhs), rhs);
}

pub proof fn lemma_cast(b: Body, env: Env, kind: CastOp, v: Value, to: LlvmShape)
    requires
        b.insts.len() < usize::MAX,
        valid(b, v),
    ensures
        ({
            let (c, r) = with_cast(b, kind, v, to);
            &&& extends(b, c)
            &&& c.insts.len() == b.insts.len() + 1
            &&& valid(c, r)
            &&& value_type(c, r) == to
            &&& value_of(c, env, r) == crate::semantics::cast_value(
                kind,
                value_of(b, env, v),
                value_type(b, v),
                to,
            )
        }),
{
    let o = Op::Cast { kind, value: v };
    lemma_operand_of_new(b, env, o, to, v);
    let (c, r) = with_cast(b, kind, v, to);
    lemma_extends_value(b, c, v);
}

/// What the emitted decoding of a niche carrier computes.
#[verifier::rlimit(80)]
pub proof fn law_niche_decoding_is_exact(
    b: Body,
    env: Env,
    carrier: Value,
    e: MirEnumType,
    width: u32,
    x: nat,
)
    requires
        b.insts.len() + 10 <= usize::MAX,
        valid(b, carrier),
        value_of(b, env, carrier) == Val::Int(x),
        x < pow2(e.encoding.carrier_width as nat),
        e.encoding.carrier_kind == EnumCarrierKind::Pointer ==> value_type(b, carrier) is Pointer,
        e.encoding.carrier_kind != EnumCarrierKind::Pointer ==> value_type(b, carrier)
            == LlvmShape::Integer(e.encoding.carrier_width),
        niche_fits(e, width),
    ensures
        ({
            let (c, r) = decoded_niche(b, carrier, e, width);
            value_of(c, env, r) == Val::Int(niche_variant(e, x))
        }),
{
    let c = e.encoding;
    let cw = c.carrier_width;
    let m = pow2(cw as nat);
    let wide = pow2(width as nat);
    lemma_pow2_pos(cw as nat);
    lemma_pow2_pos(width as nat);
    let word = LlvmShape::Integer(cw);
    let (b1, integer) = if c.carrier_kind == EnumCarrierKind::Pointer {
        with_cast(b, CastOp::PtrToInt, carrier, word)
    } else {
        (b, carrier)
    };
    if c.carrier_kind == EnumCarrierKind::Pointer {
        lemma_cast(b, env, CastOp::PtrToInt, carrier, word);
        lemma_small_mod(x, m);
    }
    assert(valid(b1, integer));
    assert(value_type(b1, integer) == word);
    assert(value_of(b1, env, integer) == Val::Int(x));
    let (b2, start) = with_constant(b1, cw, c.niche_start);
    lemma_any_constant(b1, env, cw, c.niche_start);
    lemma_extends_value(b1, b2, integer);
    lemma_value_stable(b1, b2, env, integer);
    let (b3, relative) = with_binary(b2, BinOp::Sub, integer, start);
    lemma_binary(b2, env, BinOp::Sub, integer, start, cw);
    let rel = niche_distance(e, x);
    assert(value_of(b3, env, relative) == Val::Int(rel));
    lemma_mod_bound(x - truncated(c.niche_start, cw), m as int);
    assert(rel < m);
    let span = (c.niche_variant_end - c.niche_variant_start) as u128;
    let (b4, last) = with_constant(b3, cw, span);
    lemma_any_constant(b3, env, cw, span);
    lemma_truncated_small(span, cw);
    lemma_extends_value(b3, b4, relative);
    lemma_value_stable(b3, b4, env, relative);
    let (b5, in_range) = with_compare(b4, Predicate::Ule, relative, last);
    let o5 = Op::Compare { predicate: Predicate::Ule, lhs: relative, rhs: last };
    lemma_operand_of_new(b4, env, o5, LlvmShape::Integer(1), relative);
    lemma_operand_of_new(b4, env, o5, LlvmShape::Integer(1), last);
    assert(extends(b4, b5));
    lemma_extends_transitive(b3, b4, b5);
    lemma_extends_value(b3, b5, relative);
    lemma_value_stable(b3, b5, env, relative);
    let flag = if rel <= span {
        1nat
    } else {
        0nat
    };
    assert(value_of(b5, env, in_range) == Val::Int(flag));
    let (b6, distance) = if cw == width {
        (b5, relative)
    } else if cw > width {
        with_cast(b5, CastOp::Trunc, relative, LlvmShape::Integer(width))
    } else {
        with_cast(b5, CastOp::ZExt, relative, LlvmShape::Integer(width))
    };
    let dist = if cw > width {
        rel % wide
    } else {
        rel
    };
    if cw > width {
        lemma_cast(b5, env, CastOp::Trunc, relative, LlvmShape::Integer(width));
    } else if cw < width {
        lemma_cast(b5, env, CastOp::ZExt, relative, LlvmShape::Integer(width));
    }
    assert(value_of(b6, env, distance) == Val::Int(dist));
    assert(value_type(b6, distance) == LlvmShape::Integer(width));
    assert(valid(b6, distance));
    assert(extends(b5, b6));
    let (b7, base) = with_constant(b6, width, c.niche_variant_start as u128);
    lemma_any_constant(b6, env, width, c.niche_variant_start as u128);
    lemma_truncated_small(c.niche_variant_start as u128, width);
    lemma_extends_value(b6, b7, distance);
    lemma_value_stable(b6, b7, env, distance);
    let (b8, variant) = with_binary(b7, BinOp::Add, distance, base);
    lemma_binary(b7, env, BinOp::Add, distance, base, width);
    let (b9, untagged) = with_constant(b8, width, c.untagged_variant as u128);
    lemma_any_constant(b8, env, width, c.untagged_variant as u128);
    lemma_truncated_small(c.untagged_variant as u128, width);
    lemma_extends_value(b8, b9, variant);
    lemma_value_stable(b8, b9, env, variant);
    lemma_extends_transitive(b5, b6, b7);
    lemma_extends_transitive(b5, b7, b8);
    lemma_extends_transitive(b5, b8, b9);
    lemma_extends_value(b5, b9, in_range);
    lemma_value_stable(b5, b9, env, in_range);
    let o10 = Op::Select {
        condition: in_range,
        on_true: variant,
        on_false: untagged,
        array_address: false,
    };
    let ty10 = value_type(b9, variant);
    lemma_operand_of_new(b9, env, o10, ty10, in_range);
    lemma_operand_of_new(b9, env, o10, ty10, variant);
    lemma_operand_of_new(b9, env, o10, ty10, untagged);
    if rel <= span {
        let v = (c.niche_variant_start + rel) as nat;
        assert(v < wide);
        lemma_small_mod(rel, wide);
        assert(dist == rel);
        lemma_small_mod(v, wide);
    }
}

/// Whether the niche values of an enum can be written: a niche range is given in
/// 128 bits, and wraps around only in a carrier that is no wider.
pub open spec fn niche_writable(e: MirEnumType) -> bool {
    let c = e.encoding;
    c.carrier_width <= 128 || c.niche_start + (c.niche_variant_end - c.niche_variant_start)
        <= u128::MAX
}

/// The carrier bits of a niche variant stand for that variant.
pub proof fn law_niche_encoding_is_invertible(e: MirEnumType, variant: int, width: u32)
    requires
        niche_writable(e),
        niche_fits(e, width),
        e.encoding.niche_variant_start <= variant <= e.encoding.niche_variant_end,
    ensures
        niche_bits(e, variant) < pow2(e.encoding.carrier_width as nat),
        niche_variant(e, niche_bits(e, variant) as nat) == variant,
{
    let c = e.encoding;
    let cw = c.carrier_width as nat;
    let m = pow2(cw) as int;
    let big = pow2(128) as int;
    lemma_pow2_pos(cw);
    lemma_pow2_pos(128);
    lemma_pow2_at_least_128(128);
    let d = variant - c.niche_variant_start;
    let sum = c.niche_start + d;
    let bits = niche_bits(e, variant);
    lemma_mod_bound(sum, big);
    lemma_truncated_bound((sum % big) as u128, c.carrier_width);
    if cw <= 128 {
        let rest = (128 - cw) as nat;
        lemma_pow2_adds(cw, rest);
        lemma_pow2_pos(rest);
        // (sum mod 2^128) mod 2^cw == sum mod 2^cw
        lemma_mod_mod(sum, m, pow2(rest) as int);
        assert(big == m * pow2(rest)) by (nonlinear_arith)
            requires
                pow2(128) == pow2(cw) * pow2(rest),
                big == pow2(128),
                m == pow2(cw),
        ;
        assert((sum % big) % m == sum % m);
    }
    if cw > 128 {
        lemma_pow2_strictly_increases(128, cw);
        lemma_small_mod(sum as nat, big as nat);
        lemma_small_mod(sum as nat, m as nat);
        lemma_small_mod(c.niche_start as nat, m as nat);
    } else if cw == 128 {
        assert(m == big);
        lemma_mod_bound(sum, m);
        assert(bits == sum % m);
        lemma_small_mod(c.niche_start as nat, m as nat);
    } else {
        lemma_truncated_is_mod((sum % big) as u128, c.carrier_width);
        lemma_truncated_is_mod(c.niche_start, c.carrier_width);
    }
    assert(bits == sum % m);
    let start = truncated(c.niche_start, c.carrier_width) as int;
    assert(start == c.niche_start as int % m);
    lemma_sub_mod_noop(sum, c.niche_start as int, m);
    assert((bits - start) % m == (sum - c.niche_start) % m);
    lemma_small_mod(d as nat, m as nat);
}

// ---------------------------------------------------------------------------
// Reading back what construction wrote
// ---------------------------------------------------------------------------

/// Whether an enum has a carrier.
pub open spec fn has_carrier(e: MirEnumType) -> bool {
    &&& e.spec_variant_count() > 0
    &&& e.encoding.carrier_kind != EnumCarrierKind::Absent
}

/// The slot of a payload field is a field of the storage struct, of the
/// payload's storage type.
pub proof fn lemma_payload_slot(e: MirEnumType, f: int)
    requires
        enum_type_slots(e) is Ok,
        0 <= f < enum_type_slots(e)->Ok_0.field_slots.len(),
        enum_type_slots(e)->Ok_0.field_slots[f] is Some,
    ensures
        ({
            let s = enum_type_slots(e)->Ok_0;
            let slot = s.field_slots[f]->Some_0;
            &&& slot < s.fields.len()
            &&& payload_storage(s.field_types[f]) == Ok::<LlvmShape, LowerError>(
                s.fields[slot as int],
            )
        }),
{
    let carrier = carrier_type(e, lowered(*e.discriminant_ty))->Ok_0;
    let converted = lowered_all(e.all_field_types@);
    let types = all_ok(converted)->Ok_0;
    lemma_all_ok_values(converted, converted.len() as int);
    lemma_slots_keep_offsets(e, carrier, types);
}

/// The slot of a carrier is a field of the storage struct, of the carrier's
/// type.
pub proof fn lemma_carrier_slot(e: MirEnumType)
    requires
        has_carrier(e),
        enum_type_slots(e) is Ok,
    ensures
        ({
            let s = enum_type_slots(e)->Ok_0;
            let slot = s.carrier_slot->Some_0;
            &&& s.carrier_slot is Some
            &&& s.carrier_ty is Some
            &&& slot < s.fields.len()
            &&& s.fields[slot as int] == s.carrier_ty->Some_0
            &&& natural_offset(s.fields, slot as int) == e.encoding.tag_offset
            &&& e.encoding.carrier_kind == EnumCarrierKind::Integer ==> s.carrier_ty
                == Some(LlvmShape::Integer(e.encoding.carrier_width))
            &&& e.encoding.carrier_kind == EnumCarrierKind::Pointer ==> s.carrier_ty->Some_0
                is Pointer
        }),
{
    let carrier = carrier_type(e, lowered(*e.discriminant_ty))->Ok_0;
    let converted = lowered_all(e.all_field_types@);
    let types = all_ok(converted)->Ok_0;
    lemma_all_ok_values(converted, converted.len() as int);
    lemma_slots_keep_offsets(e, carrier, types);
}

/// The carrier of a value whose variant was just written holds its bits.
proof fn lemma_with_variant(
    b: Body,
    env: Env,
    e: MirEnumType,
    s: EnumSlots,
    start: Value,
    variant: usize,
    t: Seq<Val>,
)
    requires
        b.insts.len() + 4 <= usize::MAX,
        valid(b, start),
        value_of(b, env, start) == Val::Aggregate(t),
        s.carrier_slot is Some,
        s.carrier_ty is Some,
        s.carrier_slot->Some_0 < t.len(),
        e.encoding.carrier_kind != EnumCarrierKind::Absent,
        e.encoding.carrier_kind == EnumCarrierKind::Pointer ==> s.carrier_ty->Some_0 is Pointer,
        carrier_bits(e, variant) is Ok,
        carrier_bits(e, variant)->Ok_0 is Some,
    ensures
        ({
            let (c, r) = with_variant(b, e, s, start, variant);
            let bits = carrier_bits(e, variant)->Ok_0->Some_0;
            let written = truncated(bits, e.encoding.carrier_width) as nat;
            &&& r is Ok
            &&& extends(b, c)
            &&& valid(c, r->Ok_0)
            &&& value_type(c, r->Ok_0) == value_type(b, start)
            &&& value_of(c, env, r->Ok_0) == Val::Aggregate(
                t.update(s.carrier_slot->Some_0 as int, Val::Int(written)),
            )
        }),
{
    let bits = carrier_bits(e, variant)->Ok_0->Some_0;
    let cw = e.encoding.carrier_width;
    let ty = s.carrier_ty->Some_0;
    let (b1, integer) = with_constant(b, cw, bits);
    lemma_any_constant(b, env, cw, bits);
    let (b2, carrier) = with_carrier(b, e, ty, bits);
    if e.encoding.carrier_kind == EnumCarrierKind::Pointer {
        lemma_cast(b1, env, CastOp::IntToPtr, integer, ty);
        lemma_extends_transitive(b, b1, b2);
    }
    lemma_extends_value(b, b2, start);
    lemma_value_stable(b, b2, env, start);
    let slot = s.carrier_slot->Some_0;
    lemma_insert_value(b2, env, start, carrier->Ok_0, slot, t);
    let (c, r) = with_insert(b2, start, carrier->Ok_0, slot);
    lemma_extends_transitive(b, b2, c);
}

/// Whether every payload of a variant has a slot or is zero-sized, so that the
/// variant is built without memory.
pub open spec fn built_in_slots(s: EnumSlots, base: int, n: int) -> bool {
    forall|f: int|
        base <= f < base + n && f < s.field_slots.len() ==> #[trigger] s.field_slots[f] is Some
            || zero_sized(s.field_types[f])
}

pub proof fn lemma_placed_grows(
    b: Body,
    s: EnumSlots,
    start: Value,
    operands: Seq<Value>,
    variant: usize,
    base: int,
    k: int,
)
    ensures
        extends(b, placed_payloads(b, s, start, operands, variant, base, k).0),
    decreases k,
{
    if k > 0 {
        lemma_placed_grows(b, s, start, operands, variant, base, k - 1);
        let (b1, before) = placed_payloads(b, s, start, operands, variant, base, k - 1);
        if before is Ok {
            lemma_placed_one_grows(
                b1,
                s,
                before->Ok_0,
                operands[k - 1],
                variant,
                base + k - 1,
                k - 1,
            );
            lemma_extends_transitive(
                b,
                b1,
                placed_payloads(b, s, start, operands, variant, base, k).0,
            );
        }
    }
}

pub proof fn lemma_placed_one_grows(
    b: Body,
    s: EnumSlots,
    p: Payloads,
    operand: Value,
    variant: usize,
    flat: int,
    i: int,
)
    ensures
        extends(b, placed_payload(b, s, p, operand, variant, flat, i).0),
{
    if flat < s.field_slots.len() && s.field_slots[flat] is Some {
        let slot = s.field_slots[flat]->Some_0;
        match element_type(LlvmShape::Struct(s.fields), slot) {
            None => {},
            Some(storage) => {
                lemma_coerced_grows(b, operand, value_type(b, operand), storage);
                let (b1, adapted) = coerced(b, operand, value_type(b, operand), storage);
                if adapted is Ok {
                    let (b2, r) = with_insert(b1, p.current, adapted->Ok_0, slot);
                    assert(extends(b1, b2));
                    lemma_extends_transitive(b, b1, b2);
                }
            },
        }
    }
}

/// Whether one of the first `k` payloads from `base` on uses slot `x`, not
/// counting the first `i + 1` of them.
pub open spec fn slot_used(s: EnumSlots, base: int, i: int, k: int, x: u32) -> bool {
    exists|j: int| i < j < k && #[trigger] s.field_slots[base + j] == Some(x)
}

/// Whether the value of type `s`, built from `operands`, holds in slot `x` what
/// payload `i` put there, or what was there before where `i` is negative.
spec fn slot_keeps(
    before: Seq<Val>,
    after: Seq<Val>,
    operand: Val,
    s: EnumSlots,
    base: int,
    i: int,
    k: int,
    x: u32,
) -> bool {
    !slot_used(s, base, i, k, x) ==> after[x as int] == if i < 0 {
        before[x as int]
    } else {
        operand
    }
}

/// Whether some code adapts `v` from type `from` to type `to`.
pub open spec fn adapts(v: Value, from: LlvmShape, to: LlvmShape) -> bool {
    exists|b: Body| (#[trigger] coerced(b, v, from, to)).1 is Ok
}

/// Placing payloads in slots leaves every other slot as it was, and puts each
/// operand in its slot, adapted to its storage, unless a later one follows there.
#[verifier::rlimit(100)]
proof fn lemma_placed_payloads(
    b: Body,
    env: Env,
    s: EnumSlots,
    start: Value,
    operands: Seq<Value>,
    variant: usize,
    base: int,
    k: int,
    x: u32,
    i: int,
)
    requires
        0 <= k <= operands.len(),
        -1 <= i < k,
        0 <= base,
        valid(b, start),
        forall|j: int| 0 <= j < operands.len() ==> valid(b, #[trigger] operands[j]),
        value_of(b, env, start) is Aggregate,
        value_of(b, env, start)->Aggregate_0.len() == s.fields.len(),
        x < s.fields.len(),
        i >= 0 ==> s.field_slots[base + i] == Some(x) && well_typed(
            value_of(b, env, operands[i]),
            value_type(b, operands[i]),
        ),
        placed_payloads(b, s, start, operands, variant, base, k).1 is Ok,
        placed_payloads(b, s, start, operands, variant, base, k).0.insts.len() < usize::MAX,
    ensures
        ({
            let (c, r) = placed_payloads(b, s, start, operands, variant, base, k);
            let p = r->Ok_0;
            let before = value_of(b, env, start)->Aggregate_0;
            let after = value_of(c, env, p.current)->Aggregate_0;
            &&& extends(b, c)
            &&& valid(c, p.current)
            &&& value_type(c, p.current) == value_type(b, start)
            &&& value_of(c, env, p.current) is Aggregate
            &&& after.len() == s.fields.len()
            &&& slot_keeps(
                before,
                after,
                adapted(
                    value_of(b, env, operands[i]),
                    value_type(b, operands[i]),
                    s.fields[x as int],
                ),
                s,
                base,
                i,
                k,
                x,
            )
            &&& i >= 0 ==> adapts(operands[i], value_type(b, operands[i]), s.fields[x as int])
        }),
    decreases k,
{
    if k > 0 {
        let (b1, past) = placed_payloads(b, s, start, operands, variant, base, k - 1);
        let p = past->Ok_0;
        let operand = operands[k - 1];
        let flat = base + (k - 1);
        lemma_placed_one_grows(b1, s, p, operand, variant, flat, k - 1);
        let (c, r) = placed_payloads(b, s, start, operands, variant, base, k);
        // Until payload `i` is placed, slot `x` may hold anything.
        let earlier = if i == k - 1 {
            -1int
        } else {
            i
        };
        lemma_placed_payloads(b, env, s, start, operands, variant, base, k - 1, x, earlier);
        lemma_extends_transitive(b, b1, c);
        lemma_extends_value(b, b1, operand);
        lemma_value_stable(b, b1, env, operand);
        let before = value_of(b, env, start)->Aggregate_0;
        let t = value_of(b1, env, p.current)->Aggregate_0;
        if slot_used(s, base, i, k - 1, x) {
            let j = choose|j: int| i < j < k - 1 && #[trigger] s.field_slots[base + j] == Some(x);
            assert(s.field_slots[base + j] == Some(x));
            assert(slot_used(s, base, i, k, x));
        }
        assert(flat < s.field_slots.len());
        if s.field_slots[flat] is Some {
            let slot = s.field_slots[flat]->Some_0;
            assert(element_type(LlvmShape::Struct(s.fields), slot) is Some);
            let storage = element_type(LlvmShape::Struct(s.fields), slot)->Some_0;
            let from = value_type(b1, operand);
            let (b2, kept) = coerced(b1, operand, from, storage);
            lemma_coerced_grows(b1, operand, from, storage);
            lemma_coerced_valid(b1, operand, from, storage);
            lemma_extends_value(b1, b2, p.current);
            lemma_value_stable(b1, b2, env, p.current);
            lemma_insert_value(b2, env, p.current, kept->Ok_0, slot, t);
            let after = value_of(c, env, r->Ok_0.current)->Aggregate_0;
            assert(after == t.update(slot as int, value_of(b2, env, kept->Ok_0)));
            if slot == x {
                assert(s.field_slots[base + (k - 1)] == Some(x));
                if i < k - 1 {
                    assert(slot_used(s, base, i, k, x));
                } else {
                    lemma_coerced_value(b1, env, operand, from, storage);
                    assert(adapts(operand, from, storage));
                }
            }
        }
    }
}

/// Whether payload field `f` is written through memory.
pub open spec fn goes_to_memory(s: EnumSlots, f: int) -> bool {
    s.field_slots[f] is None && !zero_sized(s.field_types[f])
}

/// Whether the payloads that are written through memory leave slot `x` alone.
pub open spec fn undisturbed(
    b: Body,
    env: Env,
    s: EnumSlots,
    base: int,
    operands: Seq<Value>,
    x: int,
) -> bool {
    built_in_slots(s, base, operands.len() as int) || {
        &&& size_align(LlvmShape::Struct(s.fields)) is Some
        &&& forall|i: int|
            0 <= i < operands.len() && goes_to_memory(s, base + i) ==> fits_payload(
                b,
                env,
                s,
                #[trigger] operands[i],
                base + i,
            ) && slot_apart(s, x, base + i)
    }
}

/// The code and the value with every payload that has a slot in place, and the
/// payloads that still need memory.
spec fn placed_enum(
    b: Body,
    e: MirEnumType,
    s: EnumSlots,
    operands: Seq<Value>,
    variant: u32,
) -> (Body, Payloads) {
    let (b1, start) = with_undef(b, LlvmShape::Struct(s.fields));
    let (b2, tagged) = with_variant(b1, e, s, start, variant as usize);
    let (b3, placed) = placed_payloads(
        b2,
        s,
        tagged->Ok_0,
        operands,
        variant as usize,
        fields_before(e.variant_field_counts@, variant as int),
        operands.len() as int,
    );
    (b3, placed->Ok_0)
}

/// What slot `x` holds: the carrier's bits where `i` is negative, and else payload
/// `i`.
pub open spec fn slot_content(
    b: Body,
    env: Env,
    e: MirEnumType,
    operands: Seq<Value>,
    variant: u32,
    storage: LlvmShape,
    i: int,
) -> Val {
    if i < 0 {
        let bits = carrier_bits(e, variant as usize)->Ok_0->Some_0;
        Val::Int(truncated(bits, e.encoding.carrier_width) as nat)
    } else {
        adapted(value_of(b, env, operands[i]), value_type(b, operands[i]), storage)
    }
}

/// Whether slot `x` is that of payload `i`, or of the carrier where `i` is negative,
/// and no later payload uses it.
pub open spec fn slot_written(
    b: Body,
    env: Env,
    e: MirEnumType,
    s: EnumSlots,
    operands: Seq<Value>,
    variant: u32,
    x: u32,
    i: int,
) -> bool {
    let base = fields_before(e.variant_field_counts@, variant as int);
    &&& x < s.fields.len()
    &&& s.field_slots.len() <= usize::MAX
    &&& i >= 0 ==> {
        &&& s.field_slots[base + i] == Some(x)
        &&& well_typed(value_of(b, env, operands[i]), value_type(b, operands[i]))
        &&& stored_as(value_type(b, operands[i]), s.fields[x as int])
    }
    &&& i < 0 ==> {
        &&& has_carrier(e)
        &&& carrier_bits(e, variant as usize)->Ok_0 is Some
        &&& s.carrier_slot == Some(x)
        &&& e.encoding.carrier_kind == EnumCarrierKind::Pointer ==> e.encoding.carrier_width <= 64
    }
    &&& !slot_used(s, base, i, operands.len() as int, x)
}

/// What the slots hold before the payloads that need memory are written.
#[verifier::rlimit(60)]
proof fn lemma_placed_slots(
    b: Body,
    env: Env,
    e: MirEnumType,
    operands: Seq<Value>,
    variant: u32,
    x: u32,
    i: int,
)
    requires
        enum_type_slots(e) is Ok,
        -1 <= i < operands.len(),
        forall|j: int| 0 <= j < operands.len() ==> valid(b, #[trigger] operands[j]),
        constructed_enum(b, MirType::Enum(e), operands, variant).1 is Ok,
        constructed_enum(b, MirType::Enum(e), operands, variant).0.insts.len() + 16
            <= usize::MAX,
        slot_written(b, env, e, enum_type_slots(e)->Ok_0, operands, variant, x, i),
    ensures
        ({
            let s = enum_type_slots(e)->Ok_0;
            let (b3, p) = placed_enum(b, e, s, operands, variant);
            let fields = value_of(b3, env, p.current)->Aggregate_0;
            let storage = s.fields[x as int];
            &&& constructed_enum(b, MirType::Enum(e), operands, variant) == completed_enum(
                b3,
                e,
                s,
                p,
            )
            &&& extends(b, b3)
            &&& valid(b3, p.current)
            &&& value_type(b3, p.current) == LlvmShape::Struct(s.fields)
            &&& value_of(b3, env, p.current) is Aggregate
            &&& fields.len() == s.fields.len()
            &&& fields[x as int] == slot_content(b, env, e, operands, variant, storage, i)
            &&& i >= 0 ==> adapts(operands[i], value_type(b, operands[i]), storage)
        }),
{
    let s = enum_type_slots(e)->Ok_0;
    if has_carrier(e) {
        lemma_carrier_slot(e);
    }
    let ty = LlvmShape::Struct(s.fields);
    let base = fields_before(e.variant_field_counts@, variant as int);
    let n = operands.len() as int;
    let (b1, start) = with_undef(b, ty);
    assert(extends(b, b1));
    let (b2, tagged) = with_variant(b1, e, s, start, variant as usize);
    lemma_variant_grows(b1, e, s, start, variant as usize);
    lemma_placed_grows(b2, s, tagged->Ok_0, operands, variant as usize, base, n);
    let (b3, p) = placed_enum(b, e, s, operands, variant);
    lemma_completed_grows(b3, e, s, p);
    lemma_extends_transitive(b, b1, b2);
    lemma_extends_transitive(b, b2, b3);
    let t = undefined(ty)->Aggregate_0;
    assert(value_of(b1, env, start) == Val::Aggregate(t));
    if carrier_bits(e, variant as usize)->Ok_0 is Some {
        lemma_with_variant(b1, env, e, s, start, variant as usize, t);
    }
    assert forall|j: int| 0 <= j < operands.len() implies valid(b2, #[trigger] operands[j]) by {
        lemma_extends_value(b, b2, operands[j]);
    }
    lemma_fields_before_nonnegative(e.variant_field_counts@, variant as int);
    if i >= 0 {
        lemma_extends_value(b, b2, operands[i]);
        lemma_value_stable(b, b2, env, operands[i]);
    }
    lemma_placed_payloads(
        b2,
        env,
        s,
        tagged->Ok_0,
        operands,
        variant as usize,
        base,
        n,
        x,
        i,
    );
}

/// What stands in a slot survives being stored and loaded.
proof fn lemma_content_survives(
    b: Body,
    env: Env,
    e: MirEnumType,
    operands: Seq<Value>,
    variant: u32,
    x: u32,
    i: int,
)
    requires
        enum_type_slots(e) is Ok,
        size_align(LlvmShape::Struct(enum_type_slots(e)->Ok_0.fields)) is Some,
        slot_written(b, env, e, enum_type_slots(e)->Ok_0, operands, variant, x, i),
    ensures
        ({
            let storage = enum_type_slots(e)->Ok_0.fields[x as int];
            let content = slot_content(b, env, e, operands, variant, storage, i);
            decoded(encoded(content, storage), storage) == content
        }),
{
    let s = enum_type_slots(e)->Ok_0;
    let storage = s.fields[x as int];
    if i >= 0 {
        let x0 = value_of(b, env, operands[i]);
        let own = value_type(b, operands[i]);
        lemma_adapted_back(x0, own, storage);
        lemma_field_place(s.fields, x as int);
        lemma_decoded_encoded(adapted(x0, own, storage), storage);
    } else {
        let bits = carrier_bits(e, variant as usize)->Ok_0->Some_0;
        let width = e.encoding.carrier_width;
        lemma_carrier_slot(e);
        lemma_truncated_bound(bits, width);
        lemma_number_survives(truncated(bits, width) as nat, storage, width);
    }
}

/// What the slots of an enum value that was just built hold.
pub proof fn lemma_constructed_slots(
    b: Body,
    env: Env,
    e: MirEnumType,
    operands: Seq<Value>,
    variant: u32,
    x: u32,
    i: int,
)
    requires
        enum_type_slots(e) is Ok,
        -1 <= i < operands.len(),
        forall|j: int| 0 <= j < operands.len() ==> valid(b, #[trigger] operands[j]),
        constructed_enum(b, MirType::Enum(e), operands, variant).1 is Ok,
        constructed_enum(b, MirType::Enum(e), operands, variant).0.insts.len() + 16
            <= usize::MAX,
        slot_written(b, env, e, enum_type_slots(e)->Ok_0, operands, variant, x, i),
        undisturbed(
            b,
            env,
            enum_type_slots(e)->Ok_0,
            fields_before(e.variant_field_counts@, variant as int),
            operands,
            x as int,
        ),
    ensures
        ({
            let s = enum_type_slots(e)->Ok_0;
            let (c, v) = constructed_enum(b, MirType::Enum(e), operands, variant);
            let fields = value_of(c, env, v->Ok_0)->Aggregate_0;
            let storage = s.fields[x as int];
            &&& valid(c, v->Ok_0)
            &&& value_type(c, v->Ok_0) == LlvmShape::Struct(s.fields)
            &&& value_of(c, env, v->Ok_0) is Aggregate
            &&& fields.len() == s.fields.len()
            &&& fields[x as int] == slot_content(b, env, e, operands, variant, storage, i)
            &&& i >= 0 ==> adapts(operands[i], value_type(b, operands[i]), storage)
        }),
{
    let s = enum_type_slots(e)->Ok_0;
    let base = fields_before(e.variant_field_counts@, variant as int);
    let n = operands.len() as int;
    lemma_placed_slots(b, env, e, operands, variant, x, i);
    let (b3, p) = placed_enum(b, e, s, operands, variant);
    let t = value_of(b3, env, p.current)->Aggregate_0;
    lemma_completed_grows(b3, e, s, p);
    lemma_placed_deferred(b, e, operands, variant);
    if built_in_slots(s, base, n) {
        assert(p.deferred.len() == 0);
    } else {
        lemma_content_survives(b, env, e, operands, variant, x, i);
        assert forall|j: int| 0 <= j < p.deferred.len() implies fits_payload(
            b3,
            env,
            s,
            (#[trigger] p.deferred[j]).1,
            p.deferred[j].0 as int,
        ) && slot_apart(s, x as int, p.deferred[j].0 as int) by {
            let f = p.deferred[j].0 - base;
            assert(goes_to_memory(s, base + f));
            assert(operands[f] == p.deferred[j].1);
            lemma_extends_value(b, b3, operands[f]);
            lemma_value_stable(b, b3, env, operands[f]);
        }
    }
    lemma_slot_survives(b3, env, e, s, p, x as int, t);
}

/// The payloads that need memory: those of the variant without a slot that take
/// bytes.
proof fn lemma_placed_deferred(b: Body, e: MirEnumType, operands: Seq<Value>, variant: u32)
    requires
        enum_type_slots(e) is Ok,
        enum_type_slots(e)->Ok_0.field_slots.len() <= usize::MAX,
        constructed_enum(b, MirType::Enum(e), operands, variant).1 is Ok,
        placed_enum(b, e, enum_type_slots(e)->Ok_0, operands, variant).0.insts.len() < usize::MAX,
    ensures
        ({
            let s = enum_type_slots(e)->Ok_0;
            let base = fields_before(e.variant_field_counts@, variant as int);
            let p = placed_enum(b, e, s, operands, variant).1;
            &&& built_in_slots(s, base, operands.len() as int) ==> p.deferred.len() == 0
            &&& forall|d: int|
                #![trigger p.deferred[d]]
                0 <= d < p.deferred.len() ==> {
                    &&& base <= p.deferred[d].0 < base + operands.len()
                    &&& p.deferred[d].1 == operands[p.deferred[d].0 - base]
                    &&& goes_to_memory(s, p.deferred[d].0 as int)
                }
        }),
{
    let s = enum_type_slots(e)->Ok_0;
    let base = fields_before(e.variant_field_counts@, variant as int);
    let n = operands.len() as int;
    let (b1, start) = with_undef(b, LlvmShape::Struct(s.fields));
    let (b2, tagged) = with_variant(b1, e, s, start, variant as usize);
    lemma_fields_before_nonnegative(e.variant_field_counts@, variant as int);
    lemma_placed_grows(b2, s, tagged->Ok_0, operands, variant as usize, base, n);
    lemma_variant_type(b1, e, s, start, variant as usize);
    lemma_deferred(b2, s, tagged->Ok_0, operands, variant as usize, base, n);
    if built_in_slots(s, base, n) {
        lemma_none_deferred(b2, s, tagged->Ok_0, operands, variant as usize, base, n);
    }
}

/// Completing an enum value only adds code.
pub proof fn lemma_completed_grows(b: Body, e: MirEnumType, s: EnumSlots, p: Payloads)
    ensures
        extends(b, completed_enum(b, e, s, p).0),
{
    if p.deferred.len() > 0 {
        let ty = LlvmShape::Struct(s.fields);
        let m = p.deferred.len() as int;
        let (b1, slot) = spilled(b, p.current, ty, e.encoding.abi_align);
        assert(extends(b, b1));
        lemma_stored_payloads_grow(b1, s, slot, p.deferred, m);
        let (b2, stored) = stored_payloads(b1, s, slot, p.deferred, m);
        lemma_extends_transitive(b, b1, b2);
        let (c, r) = with_load(b2, slot, ty, memory_align(e.encoding.abi_align));
        assert(extends(b2, c));
        lemma_extends_transitive(b, b2, c);
    }
}

/// Where every payload has a slot or is zero-sized, none is left for memory.
proof fn lemma_none_deferred(
    b: Body,
    s: EnumSlots,
    start: Value,
    operands: Seq<Value>,
    variant: usize,
    base: int,
    k: int,
)
    requires
        0 <= k <= operands.len(),
        built_in_slots(s, base, operands.len() as int),
        placed_payloads(b, s, start, operands, variant, base, k).1 is Ok,
    ensures
        placed_payloads(b, s, start, operands, variant, base, k).1->Ok_0.deferred.len() == 0,
    decreases k,
{
    if k > 0 {
        lemma_none_deferred(b, s, start, operands, variant, base, k - 1);
        let flat = base + k - 1;
        if flat < s.field_slots.len() {
            assert(s.field_slots[flat] is Some || zero_sized(s.field_types[flat]));
        }
    }
}

/// The variant that `read_discriminant` gives for a value with the carrier bits of
/// `variant`.
pub open spec fn expected_discriminant(e: MirEnumType, variant: u32) -> Val {
    Val::Int(
        if e.encoding.layout_kind == EnumLayoutKind::Direct {
            truncated(
                e.variant_discriminants@[variant as int] as u128,
                e.encoding.carrier_width,
            ) as nat
        } else {
            variant as nat
        },
    )
}

/// Whether the variants of a direct or niche layout can be told apart at `width`
/// bits.
pub open spec fn readable(e: MirEnumType, width: u32) -> bool {
    e.encoding.layout_kind == EnumLayoutKind::Direct || (e.encoding.layout_kind
        == EnumLayoutKind::Niche && niche_fits(e, width) && niche_writable(e))
}

/// Reading the discriminant of a value with the carrier bits of a variant gives
/// the variant: its declared discriminant for a direct tag, and its index for a
/// niche.
pub proof fn law_carrier_bits_read_back(
    c: Body,
    env: Env,
    value: Value,
    e: MirEnumType,
    variant: u32,
    width: u32,
)
    requires
        has_carrier(e),
        enum_type_slots(e) is Ok,
        readable(e, width),
        carrier_bits(e, variant as usize) is Ok,
        carrier_bits(e, variant as usize)->Ok_0 is Some,
        c.insts.len() + 16 <= usize::MAX,
        valid(c, value),
        value_type(c, value) == LlvmShape::Struct(enum_type_slots(e)->Ok_0.fields),
        value_of(c, env, value) is Aggregate,
        ({
            let s = enum_type_slots(e)->Ok_0;
            let fields = value_of(c, env, value)->Aggregate_0;
            let bits = carrier_bits(e, variant as usize)->Ok_0->Some_0;
            &&& fields.len() == s.fields.len()
            &&& fields[s.carrier_slot->Some_0 as int] == Val::Int(
                truncated(bits, e.encoding.carrier_width) as nat,
            )
        }),
    ensures
        ({
            let s = enum_type_slots(e)->Ok_0;
            let (d, r) = read_discriminant(c, value, e, s, width);
            &&& r is Ok
            &&& value_of(d, env, r->Ok_0) == expected_discriminant(e, variant)
        }),
        e.encoding.layout_kind == EnumLayoutKind::Direct
            && e.variant_discriminants@[variant as int] < pow2(e.encoding.carrier_width as nat)
            ==> expected_discriminant(e, variant) == Val::Int(
            e.variant_discriminants@[variant as int] as nat,
        ),
        e.encoding.layout_kind == EnumLayoutKind::Niche ==> expected_discriminant(e, variant)
            == Val::Int(variant as nat),
{
    if e.encoding.layout_kind == EnumLayoutKind::Direct
        && e.variant_discriminants@[variant as int] < pow2(e.encoding.carrier_width as nat) {
        lemma_truncated_small(
            e.variant_discriminants@[variant as int] as u128,
            e.encoding.carrier_width,
        );
    }
    let s = enum_type_slots(e)->Ok_0;
    lemma_carrier_slot(e);
    let slot = s.carrier_slot->Some_0;
    let bits = carrier_bits(e, variant as usize)->Ok_0->Some_0;
    let fields = value_of(c, env, value)->Aggregate_0;
    let written = truncated(bits, e.encoding.carrier_width) as nat;
    lemma_extract_value(c, env, value, slot, fields);
    let (d, x) = with_extract(c, value, slot);
    if e.encoding.layout_kind == EnumLayoutKind::Niche {
        law_niche_encoding_is_invertible(e, variant as int, width);
        lemma_truncated_small(bits, e.encoding.carrier_width);
        lemma_truncated_bound(bits, e.encoding.carrier_width);
        law_niche_decoding_is_exact(d, env, x->Ok_0, e, width, written);
    }
}

/// Reading the discriminant of an enum value gives the variant that it was built
/// of, where its payloads leave the carrier's slot alone.
pub proof fn lemma_constructed_variant_reads_back(
    b: Body,
    env: Env,
    e: MirEnumType,
    operands: Seq<Value>,
    variant: u32,
    width: u32,
)
    requires
        has_carrier(e),
        enum_type_slots(e) is Ok,
        readable(e, width),
        carrier_bits(e, variant as usize) is Ok,
        carrier_bits(e, variant as usize)->Ok_0 is Some,
        forall|i: int| 0 <= i < operands.len() ==> valid(b, #[trigger] operands[i]),
        constructed_enum(b, MirType::Enum(e), operands, variant).1 is Ok,
        constructed_enum(b, MirType::Enum(e), operands, variant).0.insts.len() + 16
            <= usize::MAX,
        ({
            let s = enum_type_slots(e)->Ok_0;
            let base = fields_before(e.variant_field_counts@, variant as int);
            &&& undisturbed(b, env, s, base, operands, s.carrier_slot->Some_0 as int)
            &&& e.encoding.carrier_kind == EnumCarrierKind::Pointer
                ==> e.encoding.carrier_width <= 64
            &&& forall|j: int|
                0 <= j < operands.len() ==> #[trigger] s.field_slots[base + j] != s.carrier_slot
        }),
    ensures
        ({
            let s = enum_type_slots(e)->Ok_0;
            let (c, v) = constructed_enum(b, MirType::Enum(e), operands, variant);
            let (d, r) = read_discriminant(c, v->Ok_0, e, s, width);
            &&& r is Ok
            &&& value_of(d, env, r->Ok_0) == expected_discriminant(e, variant)
        }),
{
    let s = enum_type_slots(e)->Ok_0;
    lemma_carrier_slot(e);
    let slot = s.carrier_slot->Some_0;
    let base = fields_before(e.variant_field_counts@, variant as int);
    lemma_slot_count(e);
    assert(!slot_used(s, base, -1, operands.len() as int, slot));
    lemma_constructed_slots(b, env, e, operands, variant, slot, -1);
    let (c, v) = constructed_enum(b, MirType::Enum(e), operands, variant);
    let value = v->Ok_0;
    law_carrier_bits_read_back(c, env, value, e, variant, width);
}

/// Reading a payload that owns a slot gives the operand that the enum value was
/// built from.
pub proof fn lemma_payload_with_slot_reads_back(
    b: Body,
    env: Env,
    e: MirEnumType,
    operands: Seq<Value>,
    variant: u32,
    field: u32,
)
    requires
        enum_type_slots(e) is Ok,
        field < operands.len(),
        forall|i: int| 0 <= i < operands.len() ==> valid(b, #[trigger] operands[i]),
        constructed_enum(b, MirType::Enum(e), operands, variant).1 is Ok,
        ({
            let s = enum_type_slots(e)->Ok_0;
            let base = fields_before(e.variant_field_counts@, variant as int);
            let flat = base + field;
            let (c, v) = constructed_enum(b, MirType::Enum(e), operands, variant);
            &&& flat < s.field_slots.len()
            &&& s.field_slots[flat] is Some
            &&& undisturbed(b, env, s, base, operands, s.field_slots[flat]->Some_0 as int)
            &&& value_type(b, operands[field as int]) == s.field_types[flat]
            &&& well_typed(value_of(b, env, operands[field as int]), s.field_types[flat])
            &&& !slot_used(
                s,
                base,
                field as int,
                operands.len() as int,
                s.field_slots[flat]->Some_0,
            )
            &&& c.insts.len() + 16 <= usize::MAX
            &&& payload_of(c, v->Ok_0, seq![MirType::Enum(e)], variant, field).0.insts.len()
                < usize::MAX
        }),
    ensures
        ({
            let (c, v) = constructed_enum(b, MirType::Enum(e), operands, variant);
            let (d, r) = payload_of(c, v->Ok_0, seq![MirType::Enum(e)], variant, field);
            &&& r is Ok
            &&& valid(d, r->Ok_0)
            &&& value_type(d, r->Ok_0) == value_type(b, operands[field as int])
            &&& value_of(d, env, r->Ok_0) == value_of(b, env, operands[field as int])
        }),
{
    let s = enum_type_slots(e)->Ok_0;
    let base = fields_before(e.variant_field_counts@, variant as int);
    let flat = base + field;
    let slot = s.field_slots[flat]->Some_0;
    lemma_fields_before_nonnegative(e.variant_field_counts@, variant as int);
    lemma_payload_slot(e, flat);
    lemma_slot_count(e);
    lemma_payload_storage_stores(s.field_types[flat]);
    lemma_constructed_slots(b, env, e, operands, variant, slot, field as int);
    let (c, v) = constructed_enum(b, MirType::Enum(e), operands, variant);
    let fields = value_of(c, env, v->Ok_0)->Aggregate_0;
    lemma_extract_value(c, env, v->Ok_0, slot, fields);
    lemma_newest_of_one(MirType::Enum(e));
    let operand = operands[field as int];
    let own = s.field_types[flat];
    let storage = s.fields[slot as int];
    let (c1, extracted) = with_extract(c, v->Ok_0, slot);
    let x = extracted->Ok_0;
    lemma_coerced_grows(c1, x, storage, own);
    lemma_payload_storage_stores(own);
    lemma_adapted_back(value_of(b, env, operand), own, storage);
    let made = choose|made: Body| (#[trigger] coerced(made, operand, own, storage)).1 is Ok;
    lemma_back_succeeds(made, operand, c1, x, own, storage);
    lemma_coerced_value(c1, env, x, storage, own);
    lemma_coerced_type(c1, x, storage, own);
}

/// The range that a discriminant is assumed to have holds the discriminant of each
/// variant, and no other number.
pub proof fn law_assumed_range_is_exact(e: MirEnumType, width: u32, n: nat)
    requires
        e.variant_discriminants@.len() <= usize::MAX,
        contiguous_upper_bound(e, width) is Some,
    ensures
        n < contiguous_upper_bound(e, width)->Some_0 <==> exists|variant: int|
            0 <= variant < e.spec_variant_count() && e.inhabited(variant)
                && #[trigger] e.variant_discriminants@[variant] == n,
{
    let bound = contiguous_upper_bound(e, width)->Some_0;
    if n < bound {
        assert(e.variant_discriminants@[n as int] == n);
        assert(e.encoding.variant_inhabited@[n as int] != 0);
    }
}

pub proof fn lemma_fields_before_nonnegative(counts: Seq<u32>, k: int)
    ensures
        fields_before(counts, k) >= 0,
    decreases k,
{
    if k > 0 {
        lemma_fields_before_nonnegative(counts, k - 1);
    }
}

pub proof fn lemma_variant_grows(b: Body, e: MirEnumType, s: EnumSlots, start: Value, variant: usize)
    ensures
        extends(b, with_variant(b, e, s, start, variant).0),
{
    if carrier_bits(e, variant) is Ok && carrier_bits(e, variant)->Ok_0 is Some
        && s.carrier_slot is Some && s.carrier_ty is Some {
        let bits = carrier_bits(e, variant)->Ok_0->Some_0;
        let (b1, carrier) = with_carrier(b, e, s.carrier_ty->Some_0, bits);
        assert(extends(b, b1));
        if carrier is Ok {
            let (b2, r) = with_insert(b1, start, carrier->Ok_0, s.carrier_slot->Some_0);
            assert(extends(b1, b2));
            lemma_extends_transitive(b, b1, b2);
        }
    }
}

/// Where the variants of a directly tagged enum can all exist and count from zero, and the
/// tag can hold their number, that number is assumed to bound the discriminant.
pub proof fn law_counted_discriminants_are_bounded(e: MirEnumType, width: u32)
    requires
        e.encoding.layout_kind == EnumLayoutKind::Direct,
        e.variant_discriminants@.len() >= 2,
        e.variant_discriminants@.len() <= usize::MAX,
        e.spec_variant_count() == e.variant_discriminants@.len(),
        e.encoding.variant_inhabited@.len() == e.variant_discriminants@.len(),
        forall|v: int|
            0 <= v < e.variant_discriminants@.len() ==> e.inhabited(v)
                && #[trigger] e.variant_discriminants@[v] == v,
        width >= 128 || e.variant_discriminants@.len() < pow2(width as nat),
    ensures
        contiguous_upper_bound(e, width) is Some,
        contiguous_upper_bound(e, width)->Some_0 == e.variant_discriminants@.len(),
{
    assert forall|i: int| 0 <= i < e.variant_discriminants@.len() implies #[trigger]
        e.encoding.variant_inhabited@[i] != 0 by {
        assert(e.variant_discriminants@[i] == i);
    }
    let n = e.variant_discriminants@.len() as u128;
    if width < 128 {
        lemma_small_mod(n as nat, pow2(width as nat));
    }
}

} // verus!
