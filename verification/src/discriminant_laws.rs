//! Reading a discriminant tells which variant an enum value holds, and selecting a
//! variant makes the value one of it.

use crate::enum_access::{
    contiguous_upper_bound, discriminant_of, read_discriminant, set_discriminant, with_range,
};
use crate::enum_laws::{
    has_carrier, law_counted_discriminants_are_bounded, law_niche_decoding_is_exact,
    law_niche_encoding_is_invertible, lemma_any_constant, lemma_carrier_slot, lemma_truncated_bound,
    niche_fits, niche_variant, niche_writable,
};
use crate::enum_memory_laws::{lemma_byte_address, lemma_carrier_constant};
use crate::enum_ops::{byte_address, carrier_bits, niche_bits, with_carrier};
use crate::error::LowerError;
use crate::ir::{
    defining_op, extends, lemma_extends_transitive, lemma_extends_value, truncated, valid,
    value_type, with_compare, with_constant, with_extract, Body, Intrinsic, Op, Predicate, Value,
};
use crate::llvm::LlvmShape;
use crate::memory_laws::lemma_new_store;
use crate::mir::{EnumCarrierKind, EnumLayoutKind, MirEnumType, MirPtrType, MirType};
use crate::operands::{newest, TypeKind};
use crate::quiet::{lemma_quiet_memory, lemma_quiet_transitive, quiet};
use crate::semantics::{
    computed_address, lemma_extract_value, lemma_operand_of_new, lemma_value_stable, memory_after,
    value_of, written, Env,
};
use crate::types::{enum_type_slots, lowered};
use crate::values::Val;
use vstd::arithmetic::div_mod::{
    lemma_add_mod_noop_right, lemma_mod_bound, lemma_small_mod, lemma_sub_mod_noop,
    lemma_sub_mod_noop_right,
};
use vstd::arithmetic::power2::{lemma_pow2_pos, pow2};
use vstd::prelude::*;

verus! {

/// Whether the code that `c` adds to `b` assumes only what is so when it runs.
pub open spec fn assumptions_hold(b: Body, c: Body, env: Env) -> bool {
    forall|i: int|
        b.insts.len() <= i < c.insts.len() && (#[trigger] c.insts[i]).op is CallUnary
            && c.insts[i].op->CallUnary_callee == Intrinsic::Assume ==> value_of(
            c,
            env,
            c.insts[i].op->CallUnary_arg,
        ) == Val::Int(1)
}

/// Whether `v` is a value of enum `e` whose carrier holds the bits `x`.
pub open spec fn holds_carrier(b: Body, env: Env, v: Value, e: MirEnumType, x: nat) -> bool {
    let s = enum_type_slots(e)->Ok_0;
    let fields = value_of(b, env, v)->Aggregate_0;
    &&& valid(b, v)
    &&& value_type(b, v) == LlvmShape::Struct(s.fields)
    &&& value_of(b, env, v) is Aggregate
    &&& fields.len() == s.fields.len()
    &&& fields[s.carrier_slot->Some_0 as int] == Val::Int(x)
    &&& x < pow2(e.encoding.carrier_width as nat)
}

/// The variant that the bits `x` of a niche carrier stand for, by how far they lie
/// behind the first niche value.
pub open spec fn niche_stands_for(e: MirEnumType, x: nat) -> int {
    let c = e.encoding;
    let distance = (x - c.niche_start) % pow2(c.carrier_width as nat) as int;
    if distance <= c.niche_variant_end - c.niche_variant_start {
        c.niche_variant_start + distance
    } else {
        c.untagged_variant as int
    }
}

pub proof fn lemma_niche_stands_for(e: MirEnumType, x: nat)
    ensures
        niche_variant(e, x) == niche_stands_for(e, x),
{
    let c = e.encoding;
    let m = pow2(c.carrier_width as nat) as int;
    lemma_pow2_pos(c.carrier_width as nat);
    lemma_truncated_is_remainder(c.niche_start, c.carrier_width);
    lemma_sub_mod_noop_right(x as int, c.niche_start as int, m);
    lemma_mod_bound(x - c.niche_start, m);
}

/// Truncation is the remainder by two to the width.
pub proof fn lemma_truncated_is_remainder(bits: u128, width: u32)
    ensures
        truncated(bits, width) as int == bits as int % pow2(width as nat) as int,
{
    lemma_truncated_bound(bits, width);
    lemma_pow2_pos(width as nat);
    lemma_mod_bound(bits as int, pow2(width as nat) as int);
    if width < 128 {
        vstd::arithmetic::div_mod::lemma_mod_decreases(bits as nat, pow2(width as nat));
    } else {
        lemma_small_mod(bits as nat, pow2(width as nat));
    }
}

/// Whether `c` is `b` with a few instructions behind it that leave memory alone and
/// call nothing.
spec fn few_more(b: Body, c: Body, n: int) -> bool {
    &&& extends(b, c)
    &&& c.insts.len() <= b.insts.len() + n
    &&& forall|i: int|
        b.insts.len() <= i < c.insts.len() ==> {
            &&& !((#[trigger] c.insts[i]).op is Store)
            &&& !(c.insts[i].op is CallTransfer)
            &&& !(c.insts[i].op is CallUnary)
        }
}

/// What reading a discriminant adds to the code.
proof fn lemma_read_adds(b: Body, env: Env, v: Value, e: MirEnumType, width: u32, x: nat)
    requires
        has_carrier(e),
        enum_type_slots(e) is Ok,
        lowered(*e.discriminant_ty) == Ok::<LlvmShape, LowerError>(LlvmShape::Integer(width)),
        holds_carrier(b, env, v, e, x),
        b.insts.len() + 32 <= usize::MAX,
        e.encoding.layout_kind == EnumLayoutKind::Direct || e.encoding.layout_kind
            == EnumLayoutKind::Niche && niche_fits(e, width),
    ensures
        ({
            let (c, r) = read_discriminant(b, v, e, enum_type_slots(e)->Ok_0, width);
            &&& r is Ok
            &&& few_more(b, c, 11)
            &&& valid(c, r->Ok_0)
            &&& e.encoding.layout_kind == EnumLayoutKind::Niche || e.encoding.carrier_kind
                == EnumCarrierKind::Integer ==> value_type(c, r->Ok_0) == LlvmShape::Integer(
                width,
            )
            &&& value_of(c, env, r->Ok_0) == Val::Int(
                if e.encoding.layout_kind == EnumLayoutKind::Direct {
                    x
                } else {
                    niche_stands_for(e, x) as nat
                },
            )
        }),
{
    let s = enum_type_slots(e)->Ok_0;
    lemma_carrier_slot(e);
    let slot = s.carrier_slot->Some_0;
    let fields = value_of(b, env, v)->Aggregate_0;
    lemma_extract_value(b, env, v, slot, fields);
    let (b1, extracted) = with_extract(b, v, slot);
    if e.encoding.layout_kind == EnumLayoutKind::Niche {
        law_niche_decoding_is_exact(b1, env, extracted->Ok_0, e, width, x);
        lemma_niche_stands_for(e, x);
        lemma_decoded_adds(b1, extracted->Ok_0, e, width);
        let c = read_discriminant(b, v, e, s, width).0;
        lemma_extends_transitive(b, b1, c);
        assert(few_more(b, c, 11)) by {
            assert forall|i: int| b.insts.len() <= i < c.insts.len() implies {
                &&& !((#[trigger] c.insts[i]).op is Store)
                &&& !(c.insts[i].op is CallTransfer)
                &&& !(c.insts[i].op is CallUnary)
            } by {
                if i < b1.insts.len() {
                    assert(c.insts[i] == b1.insts[i]);
                }
            }
        }
    }
}

proof fn lemma_decoded_adds(b: Body, carrier: Value, e: MirEnumType, width: u32)
    requires
        b.insts.len() + 16 <= usize::MAX,
        valid(b, carrier),
        e.encoding.carrier_kind != EnumCarrierKind::Pointer ==> value_type(b, carrier)
            == LlvmShape::Integer(e.encoding.carrier_width),
    ensures
        ({
            let (c, r) = crate::enum_access::decoded_niche(b, carrier, e, width);
            &&& few_more(b, c, 10)
            &&& valid(c, r)
            &&& value_type(c, r) == LlvmShape::Integer(width)
        }),
{
}

/// Reading the discriminant of an enum value tells its variant by its carrier: the
/// bits of a direct tag are the discriminant, and those of a niche stand for the
/// variant that lies as far behind the first niche variant as they lie behind the
/// first niche value, or for the untagged variant.
///
/// Reading leaves memory alone, and assumes no more than that the discriminant is
/// that of a variant that can exist.
pub proof fn law_discriminants_tell_the_variant(
    b: Body,
    env: Env,
    v: Value,
    history: Seq<MirType>,
    e: MirEnumType,
    width: u32,
    x: nat,
)
    requires
        newest(history, TypeKind::Enum) == Some(MirType::Enum(e)),
        has_carrier(e),
        enum_type_slots(e) is Ok,
        lowered(*e.discriminant_ty) == Ok::<LlvmShape, LowerError>(LlvmShape::Integer(width)),
        holds_carrier(b, env, v, e, x),
        b.insts.len() + 32 <= usize::MAX,
        e.encoding.layout_kind == EnumLayoutKind::Direct || e.encoding.layout_kind
            == EnumLayoutKind::Niche && niche_fits(e, width),
    ensures
        ({
            let (c, r) = discriminant_of(b, v, history);
            &&& r is Ok
            &&& valid(c, r->Ok_0)
            &&& e.encoding.layout_kind == EnumLayoutKind::Niche || e.encoding.carrier_kind
                == EnumCarrierKind::Integer ==> value_type(c, r->Ok_0) == LlvmShape::Integer(
                width,
            )
            &&& value_of(c, env, r->Ok_0) == Val::Int(
                if e.encoding.layout_kind == EnumLayoutKind::Direct {
                    x
                } else {
                    niche_stands_for(e, x) as nat
                },
            )
            &&& memory_after(c, env) == memory_after(b, env)
            &&& e.encoding.layout_kind == EnumLayoutKind::Niche || (exists|variant: int|
                0 <= variant < e.variant_discriminants@.len() && e.inhabited(variant)
                    && #[trigger] e.variant_discriminants@[variant] == x) ==> assumptions_hold(
                b,
                c,
                env,
            )
        }),
{
    let s = enum_type_slots(e)->Ok_0;
    lemma_read_adds(b, env, v, e, width, x);
    let (b1, read) = read_discriminant(b, v, e, s, width);
    let r = read->Ok_0;
    let c = with_range(b1, r, e, width);
    lemma_ranged(b1, env, r, e, width);
    lemma_extends_transitive(b, b1, c);
    lemma_extends_value(b1, c, r);
    lemma_value_stable(b1, c, env, r);
    assert(quiet(b, b1));
    lemma_quiet_transitive(b, b1, c);
    lemma_quiet_memory(b, c, env);
    if e.encoding.layout_kind == EnumLayoutKind::Niche || (exists|variant: int|
        0 <= variant < e.variant_discriminants@.len() && e.inhabited(variant)
            && #[trigger] e.variant_discriminants@[variant] == x) {
        assert forall|i: int|
            b.insts.len() <= i < c.insts.len() && (#[trigger] c.insts[i]).op is CallUnary
                && c.insts[i].op->CallUnary_callee == Intrinsic::Assume implies value_of(
            c,
            env,
            c.insts[i].op->CallUnary_arg,
        ) == Val::Int(1) by {
            if i < b1.insts.len() {
                assert(c.insts[i] == b1.insts[i]);
            }
        }
    }
}

/// What telling the range of a discriminant adds to the code.
pub proof fn lemma_ranged(b: Body, env: Env, r: Value, e: MirEnumType, width: u32)
    requires
        valid(b, r),
        b.insts.len() + 8 <= usize::MAX,
    ensures
        ({
            let c = with_range(b, r, e, width);
            &&& quiet(b, c)
            &&& e.encoding.layout_kind != EnumLayoutKind::Direct ==> c == b
            &&& forall|i: int|
                b.insts.len() <= i < c.insts.len() && (#[trigger] c.insts[i]).op is CallUnary ==> {
                    &&& e.encoding.layout_kind == EnumLayoutKind::Direct
                    &&& value_of(b, env, r) is Int && (exists|variant: int|
                        0 <= variant < e.variant_discriminants@.len() && #[trigger]
                            e.variant_discriminants@[variant] == value_of(b, env, r)->Int_0)
                        ==> value_of(c, env, c.insts[i].op->CallUnary_arg) == Val::Int(1)
                }
        }),
{
    let c = with_range(b, r, e, width);
    assert(e.variant_discriminants@.len() == e.variant_discriminants.len());
    if let Some(bound) = contiguous_upper_bound(e, width) {
        let (b1, upper) = with_constant(b, width, bound);
        lemma_any_constant(b, env, width, bound);
        lemma_extends_value(b, b1, r);
        lemma_value_stable(b, b1, env, r);
        let (b2, condition) = with_compare(b1, Predicate::Ult, r, upper);
        let op = Op::Compare { predicate: Predicate::Ult, lhs: r, rhs: upper };
        lemma_operand_of_new(b1, env, op, LlvmShape::Integer(1), r);
        lemma_operand_of_new(b1, env, op, LlvmShape::Integer(1), upper);
        assert(extends(b1, b2));
        assert(extends(b2, c));
        lemma_extends_transitive(b, b1, b2);
        lemma_extends_transitive(b, b2, c);
        lemma_value_stable(b2, c, env, condition);
        assert(truncated(bound, width) == bound);
        assert forall|i: int|
            b.insts.len() <= i < c.insts.len() && (#[trigger] c.insts[i]).op is CallUnary
            && value_of(b, env, r) is Int && (exists|variant: int|
            0 <= variant < e.variant_discriminants@.len() && #[trigger]
                e.variant_discriminants@[variant] == value_of(b, env, r)->Int_0)
            implies value_of(c, env, c.insts[i].op->CallUnary_arg) == Val::Int(1) by {
            let variant = choose|variant: int|
                0 <= variant < e.variant_discriminants@.len() && #[trigger]
                    e.variant_discriminants@[variant] == value_of(b, env, r)->Int_0;
            assert(c.insts[i].op->CallUnary_arg == condition);
        }
    }
}

/// The number that the carrier of an enum value of a variant holds: its declared
/// discriminant for a direct tag, and for a niche the number that lies as far behind the
/// first niche value as the variant lies behind the first niche variant.
pub open spec fn variant_bits(e: MirEnumType, variant: u32) -> int {
    let c = e.encoding;
    let m = pow2(c.carrier_width as nat) as int;
    if c.layout_kind == EnumLayoutKind::Direct {
        e.variant_discriminants@[variant as int] as int % m
    } else {
        (c.niche_start + (variant - c.niche_variant_start)) % m
    }
}

proof fn lemma_variant_bits_stand_for(e: MirEnumType, variant: u32, width: u32)
    requires
        niche_fits(e, width),
        e.encoding.layout_kind == EnumLayoutKind::Niche,
        e.encoding.niche_variant_start <= variant <= e.encoding.niche_variant_end,
    ensures
        0 <= variant_bits(e, variant) < pow2(e.encoding.carrier_width as nat),
        niche_stands_for(e, variant_bits(e, variant) as nat) == variant,
{
    let c = e.encoding;
    let m = pow2(c.carrier_width as nat) as int;
    let d = variant - c.niche_variant_start;
    let sum = c.niche_start + d;
    lemma_pow2_pos(c.carrier_width as nat);
    lemma_mod_bound(sum, m);
    lemma_sub_mod_noop(sum, c.niche_start as int, m);
    lemma_sub_mod_noop_right(sum % m, c.niche_start as int, m);
    lemma_small_mod(d as nat, m as nat);
}

/// Each variant of a direct or niche layout is told by its own carrier bits, whether the
/// carrier is an integer or a pointer: reading the discriminant of a value that holds
/// them gives its declared discriminant or, for a niche, its index.
pub proof fn law_variants_are_told_apart(
    b: Body,
    env: Env,
    v: Value,
    history: Seq<MirType>,
    e: MirEnumType,
    width: u32,
    variant: u32,
)
    requires
        newest(history, TypeKind::Enum) == Some(MirType::Enum(e)),
        has_carrier(e),
        enum_type_slots(e) is Ok,
        lowered(*e.discriminant_ty) == Ok::<LlvmShape, LowerError>(LlvmShape::Integer(width)),
        b.insts.len() + 32 <= usize::MAX,
        match e.encoding.layout_kind {
            EnumLayoutKind::Direct => variant < e.variant_discriminants@.len(),
            EnumLayoutKind::Niche => niche_fits(e, width) && e.encoding.niche_variant_start
                <= variant <= e.encoding.niche_variant_end,
            _ => false,
        },
        holds_carrier(b, env, v, e, variant_bits(e, variant) as nat),
    ensures
        ({
            let (c, r) = discriminant_of(b, v, history);
            &&& r is Ok
            &&& value_of(c, env, r->Ok_0) == Val::Int(
                if e.encoding.layout_kind == EnumLayoutKind::Direct {
                    (e.variant_discriminants@[variant as int] as int % pow2(
                        e.encoding.carrier_width as nat,
                    ) as int) as nat
                } else {
                    variant as nat
                },
            )
        }),
{
    law_discriminants_tell_the_variant(
        b,
        env,
        v,
        history,
        e,
        width,
        variant_bits(e, variant) as nat,
    );
    if e.encoding.layout_kind == EnumLayoutKind::Niche {
        lemma_variant_bits_stand_for(e, variant, width);
    }
}

/// An enum that has one variant only is always of that variant.
pub proof fn law_single_variants_have_their_discriminant(
    b: Body,
    env: Env,
    v: Value,
    history: Seq<MirType>,
    e: MirEnumType,
    width: u32,
)
    requires
        newest(history, TypeKind::Enum) == Some(MirType::Enum(e)),
        enum_type_slots(e) is Ok,
        lowered(*e.discriminant_ty) == Ok::<LlvmShape, LowerError>(LlvmShape::Integer(width)),
        b.insts.len() + 32 <= usize::MAX,
        e.encoding.layout_kind == EnumLayoutKind::Single,
    ensures
        ({
            let k = e.encoding.single_variant as int;
            let (c, r) = discriminant_of(b, v, history);
            &&& r is Ok <==> e.inhabited(k) && k < e.variant_discriminants@.len()
            &&& r is Ok ==> valid(c, r->Ok_0) && value_type(c, r->Ok_0) == LlvmShape::Integer(
                width,
            )
            &&& r is Ok ==> value_of(c, env, r->Ok_0) == Val::Int(
                (e.variant_discriminants@[k] as int % pow2(width as nat) as int) as nat,
            )
            &&& memory_after(c, env) == memory_after(b, env)
            &&& assumptions_hold(b, c, env)
        }),
{
    let k = e.encoding.single_variant as int;
    let s = enum_type_slots(e)->Ok_0;
    let (c, r) = read_discriminant(b, v, e, s, width);
    assert(quiet(b, c));
    if r is Ok {
        let bits = e.variant_discriminants@[k] as u128;
        lemma_any_constant(b, env, width, bits);
        lemma_truncated_is_remainder(bits, width);
    }
    lemma_quiet_memory(b, c, env);
}

/// The discriminant is read of enums with a known layout only: not of one that no value
/// can be of, nor where no enum type was recorded.
pub proof fn law_unknown_discriminants_are_refused(b: Body, v: Value, history: Seq<MirType>)
    ensures
        newest(history, TypeKind::Enum) is None ==> discriminant_of(b, v, history).1 is Err,
        newest(history, TypeKind::Enum) matches Some(MirType::Enum(e)) ==> (
        e.encoding.layout_kind == EnumLayoutKind::Empty || e.encoding.layout_kind
            == EnumLayoutKind::Unknown || enum_type_slots(e) is Err || !(lowered(
            *e.discriminant_ty,
        ) matches Ok(LlvmShape::Integer(_)))) ==> discriminant_of(b, v, history).1 is Err,
{
}

/// The bits that select a niche variant are the number its carrier holds.
pub proof fn lemma_niche_bits(e: MirEnumType, variant: u32, width: u32)
    requires
        niche_fits(e, width),
        niche_writable(e),
        e.encoding.layout_kind == EnumLayoutKind::Niche,
        e.encoding.niche_variant_start <= variant <= e.encoding.niche_variant_end,
        variant != e.encoding.untagged_variant,
    ensures
        niche_bits(e, variant as int) == variant_bits(e, variant),
        truncated(niche_bits(e, variant as int), e.encoding.carrier_width) == variant_bits(
            e,
            variant,
        ),
{
    let c = e.encoding;
    let m = pow2(c.carrier_width as nat) as int;
    let x = niche_bits(e, variant as int);
    law_niche_encoding_is_invertible(e, variant as int, width);
    lemma_niche_stands_for(e, x as nat);
    let d = variant - c.niche_variant_start;
    assert((x - c.niche_start) % m == d);
    lemma_add_mod_noop_right(c.niche_start as int, x - c.niche_start, m);
    lemma_small_mod(x as nat, m as nat);
    lemma_truncated_is_remainder(x, c.carrier_width);
}

/// Selecting a variant of the enum behind a pointer writes the variant's number where
/// the carrier stands and touches nothing else. The variant that a niche tells by any
/// other number, and the only variant of an enum, need no write.
pub proof fn law_selecting_writes_the_carrier(
    b: Body,
    env: Env,
    ptr: Value,
    history: Seq<MirType>,
    p: MirPtrType,
    e: MirEnumType,
    width: u32,
    variant: u32,
)
    requires
        b.insts.len() + 32 <= usize::MAX,
        valid(b, ptr),
        newest(history, TypeKind::Ptr) == Some(MirType::Ptr(p)),
        *p.pointee == MirType::Enum(e),
        variant < e.spec_variant_count(),
        e.inhabited(variant as int),
        has_carrier(e),
        enum_type_slots(e) is Ok,
        match e.encoding.layout_kind {
            EnumLayoutKind::Direct => variant < e.variant_discriminants@.len(),
            EnumLayoutKind::Niche => variant == e.encoding.untagged_variant || (niche_fits(
                e,
                width,
            ) && niche_writable(e) && e.encoding.niche_variant_start <= variant
                <= e.encoding.niche_variant_end),
            EnumLayoutKind::Single => variant == e.encoding.single_variant,
            _ => false,
        },
    ensures
        ({
            let (c, r) = set_discriminant(b, ptr, history, Some(variant));
            let silent = e.encoding.layout_kind == EnumLayoutKind::Single
                || e.encoding.layout_kind == EnumLayoutKind::Niche && variant
                == e.encoding.untagged_variant;
            let ty = enum_type_slots(e)->Ok_0.carrier_ty->Some_0;
            &&& r is Ok
            &&& silent ==> c == b
            &&& !silent ==> memory_after(c, env) == written(
                memory_after(b, env),
                computed_address(
                    value_of(b, env, ptr),
                    seq![Val::Int(e.encoding.tag_offset as nat)],
                    LlvmShape::Integer(8),
                ),
                Val::Int(variant_bits(e, variant) as nat),
                ty,
            )
            &&& if e.encoding.carrier_kind == EnumCarrierKind::Integer {
                ty == LlvmShape::Integer(e.encoding.carrier_width)
            } else {
                ty is Pointer
            }
        }),
{
    let s = enum_type_slots(e)->Ok_0;
    lemma_carrier_slot(e);
    let ty = s.carrier_ty->Some_0;
    let chosen = carrier_bits(e, variant as usize);
    if chosen->Ok_0 is Some {
        let bits = chosen->Ok_0->Some_0;
        let tag = truncated(bits, e.encoding.carrier_width) as nat;
        lemma_truncated_is_remainder(bits, e.encoding.carrier_width);
        if e.encoding.layout_kind == EnumLayoutKind::Niche {
            lemma_niche_bits(e, variant, width);
        }
        lemma_carrier_constant(b, env, e, ty, bits);
        let (b1, carrier) = with_carrier(b, e, ty, bits);
        let x = carrier->Ok_0;
        lemma_quiet_memory(b, b1, env);
        lemma_extends_value(b, b1, ptr);
        lemma_value_stable(b, b1, env, ptr);
        lemma_byte_address(b1, env, ptr, e.encoding.tag_offset);
        let (b2, address) = byte_address(b1, ptr, e.encoding.tag_offset);
        lemma_extends_value(b1, b2, x);
        lemma_value_stable(b1, b2, env, x);
        lemma_new_store(
            b2,
            env,
            Op::Store { value: x, ptr: address, align: None, is_volatile: false },
        );
    }
}

/// A variant that no value can be of is not selected, nor one without an index, nor one
/// of what is not known to be an enum.
pub proof fn law_impossible_variants_are_refused(
    b: Body,
    ptr: Value,
    history: Seq<MirType>,
    variant: Option<u32>,
)
    ensures
        ({
            let (c, r) = set_discriminant(b, ptr, history, variant);
            &&& variant is None ==> r is Err
            &&& newest(history, TypeKind::Ptr) is None ==> r is Err
            &&& newest(history, TypeKind::Ptr) matches Some(MirType::Ptr(p)) ==> {
                &&& !(*p.pointee is Enum) ==> r is Err
                &&& *p.pointee matches MirType::Enum(e) ==> variant matches Some(k) ==> {
                    &&& !e.inhabited(k as int) || k >= e.spec_variant_count() ==> r is Err
                    &&& e.encoding.layout_kind == EnumLayoutKind::Single && k
                        != e.encoding.single_variant ==> r is Err
                    &&& e.encoding.layout_kind == EnumLayoutKind::Niche && k
                        != e.encoding.untagged_variant && !(e.encoding.niche_variant_start <= k
                        <= e.encoding.niche_variant_end) ==> r is Err
                    &&& e.encoding.layout_kind == EnumLayoutKind::Empty
                        || e.encoding.layout_kind == EnumLayoutKind::Unknown ==> r is Err
                }
            }
            &&& r is Err ==> quiet(b, c)
        }),
{
}

/// Reading the discriminant of a directly tagged enum whose variants can all exist and count
/// from zero tells LLVM that it is below their number, where the tag can hold that.
pub proof fn law_counted_discriminants_are_assumed(
    b: Body,
    v: Value,
    history: Seq<MirType>,
    e: MirEnumType,
    width: u32,
)
    requires
        b.insts.len() + 8 < usize::MAX,
        newest(history, TypeKind::Enum) == Some(MirType::Enum(e)),
        lowered(*e.discriminant_ty) == Ok::<LlvmShape, LowerError>(LlvmShape::Integer(width)),
        discriminant_of(b, v, history).1 is Ok,
        e.encoding.layout_kind == EnumLayoutKind::Direct,
        e.variant_discriminants@.len() >= 2,
        e.spec_variant_count() == e.variant_discriminants@.len(),
        e.encoding.variant_inhabited@.len() == e.variant_discriminants@.len(),
        forall|i: int|
            0 <= i < e.variant_discriminants@.len() ==> e.inhabited(i)
                && #[trigger] e.variant_discriminants@[i] == i,
        width >= 128 || e.variant_discriminants@.len() < pow2(width as nat),
    ensures
        ({
            let (c, r) = discriminant_of(b, v, history);
            let last = c.insts.last().op;
            &&& last is CallUnary
            &&& last->CallUnary_callee == Intrinsic::Assume
            &&& defining_op(c, last->CallUnary_arg) matches Some(Op::Compare {
                predicate,
                lhs,
                rhs,
            }) && {
                &&& predicate == Predicate::Ult
                &&& lhs == r->Ok_0
                &&& defining_op(c, rhs) matches Some(Op::Constant { width: held, bits }) && held
                    == width && bits == e.variant_discriminants@.len()
            }
        }),
{
    assert(e.variant_discriminants@.len() == e.variant_discriminants.len());
    law_counted_discriminants_are_bounded(e, width);
    let s = enum_type_slots(e)->Ok_0;
    let (b1, read) = read_discriminant(b, v, e, s, width);
    let r = read->Ok_0;
    let bound = contiguous_upper_bound(e, width)->Some_0;
    let (b2, upper) = with_constant(b1, width, bound);
    let (b3, condition) = with_compare(b2, Predicate::Ult, r, upper);
    let c = with_range(b1, r, e, width);
    assert(c.insts.len() == b3.insts.len() + 1);
    assert(c.insts[b3.insts.len() as int].op == Op::CallUnary {
        callee: Intrinsic::Assume,
        arg: condition,
    });
    assert(c.insts[condition->Inst_0 as int] == b3.insts[condition->Inst_0 as int]);
    assert(c.insts[upper->Inst_0 as int] == b2.insts[upper->Inst_0 as int]);
}

} // verus!
