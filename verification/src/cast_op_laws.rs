//! What a cast operation computes, by its kind and the types it converts between.

use crate::byte_laws::{lemma_spilled, law_transmute_through_memory_keeps_bytes};
use crate::cast::{
    cast, int_to_ptr, is_aggregate, pointer_cast, ptr_to_int, transmuted_in_memory, CastKind,
};
use crate::cast_laws::{is_pointer_value, law_integer_casts_keep_the_number, number};
use crate::enum_laws::lemma_cast;
use crate::error::LowerError;
use crate::ir::{
    extends, is_declared, lemma_extends_value, valid, value_type, with_cast, with_extract,
    with_insert, with_stack_slot, with_store, with_undef, Body, CastOp, Intrinsic, Op, Value,
};
use crate::layout::size_align;
use crate::llvm::{LlvmShape, GENERIC, SHARED};
use crate::memory_laws::lemma_new_load;
use crate::mir::{MirPtrType, MirType, Signedness};
use crate::quiet::{lemma_quiet_memory, lemma_quiet_transitive, quiet};
use crate::semantics::{
    lemma_extract_value, lemma_insert_value, lemma_value_stable, memory_after, undefined, value_of,
    Env,
};
use crate::storage::{byte_faithful, contains_leaf, LeafKind};
use crate::types::lowered;
use crate::values::{byte_size, decoded, encoded, is_place, Val};
use vstd::arithmetic::div_mod::lemma_small_mod;
use vstd::arithmetic::power2::{lemma2_to64, lemma_pow2_strictly_increases, pow2};
use vstd::prelude::*;

verus! {

/// A cast has one operand, a kind, and a result type with an LLVM equivalent; without
/// them it is refused, and adds no code.
pub proof fn law_incomplete_casts_are_refused(
    b: Body,
    operands: Seq<Value>,
    history: Seq<MirType>,
    kind: Option<CastKind>,
    result: MirType,
)
    requires
        operands.len() != 1 || kind is None || lowered(result) is Err,
    ensures
        cast(b, operands, history, kind, result).1 is Err,
        cast(b, operands, history, kind, result).0 == b,
{
}

/// A cast between integers keeps the number modulo two to the target's width. A wider
/// target is filled by the sign of the operand's Rust type; an operand whose newest type
/// is no integer is not widened.
pub proof fn law_integers_are_cast_by_their_sign(
    b: Body,
    env: Env,
    v: Value,
    history: Seq<MirType>,
    result: MirType,
    from: u32,
    to: u32,
    n: nat,
)
    requires
        b.insts.len() < usize::MAX,
        valid(b, v),
        value_type(b, v) == LlvmShape::Integer(from),
        value_of(b, env, v) == Val::Int(n),
        n < pow2(from as nat),
        lowered(result) == Ok::<LlvmShape, LowerError>(LlvmShape::Integer(to)),
    ensures
        ({
            let (c, r) = cast(b, seq![v], history, Some(CastKind::IntToInt), result);
            let signed = history.len() > 0 && (history.last() matches MirType::Integer(_, sign)
                && sign == Signedness::Signed);
            &&& r is Ok <==> to <= from || history.len() == 0 || history.last() is Integer
            &&& r is Ok ==> {
                &&& valid(c, r->Ok_0)
                &&& value_type(c, r->Ok_0) == LlvmShape::Integer(to)
                &&& value_of(c, env, r->Ok_0) == Val::Int(
                    (number(n, from as nat, signed) % pow2(to as nat) as int) as nat,
                )
                &&& memory_after(c, env) == memory_after(b, env)
            }
        }),
{
    let (c, r) = cast(b, seq![v], history, Some(CastKind::IntToInt), result);
    if r is Ok {
        law_integer_casts_keep_the_number(b, env, v, history, from, to, n);
        assert(quiet(b, c));
        lemma_quiet_memory(b, c, env);
    }
}

/// The width of a floating-point type.
pub open spec fn float_width(t: LlvmShape) -> int {
    match t {
        LlvmShape::Half => 16,
        LlvmShape::Float => 32,
        LlvmShape::Double => 64,
        _ => 0,
    }
}

/// Whether `c` is `b` with the one operation `op`, which gives `r` of type `ty`.
pub open spec fn only_adds(b: Body, c: Body, op: Op, r: Value, ty: LlvmShape) -> bool {
    &&& extends(b, c)
    &&& c.insts.len() == b.insts.len() + 1
    &&& c.insts[b.insts.len() as int].op == op
    &&& r == Value::Inst(b.insts.len() as usize)
    &&& value_type(c, r) == ty
}

/// An integer is cast to a float by one conversion: a signed one where the newest Rust
/// type of the operand is a signed integer, and an unsigned one where it is an unsigned
/// integer or not recorded.
pub proof fn law_integers_become_floats_by_their_sign(
    b: Body,
    v: Value,
    history: Seq<MirType>,
    result: MirType,
    from: u32,
    to: LlvmShape,
)
    requires
        b.insts.len() < usize::MAX,
        valid(b, v),
        value_type(b, v) == LlvmShape::Integer(from),
        history.len() > 0 ==> history.last() is Integer,
        lowered(result) == Ok::<LlvmShape, LowerError>(to),
    ensures
        ({
            let (c, r) = cast(b, seq![v], history, Some(CastKind::IntToFloat), result);
            let signed = history.len() > 0 && (history.last() matches MirType::Integer(_, sign)
                && sign == Signedness::Signed);
            &&& r is Ok
            &&& only_adds(
                b,
                c,
                Op::Cast {
                    kind: if signed {
                        CastOp::SIToFP
                    } else {
                        CastOp::UIToFP
                    },
                    value: v,
                },
                r->Ok_0,
                to,
            )
        }),
{
}

/// A float is cast to an integer by the saturating conversion from the float's width to
/// the integer's, signed as the Rust type is. The conversion is declared.
pub proof fn law_floats_become_integers_by_saturation(
    b: Body,
    v: Value,
    history: Seq<MirType>,
    width: u32,
    sign: Signedness,
)
    requires
        b.insts.len() < usize::MAX,
        valid(b, v),
    ensures
        ({
            let result = MirType::Integer(width, sign);
            let from = value_type(b, v);
            let (c, r) = cast(b, seq![v], history, Some(CastKind::FloatToInt), result);
            let callee = Intrinsic::FloatToIntSat {
                signed: sign == Signedness::Signed,
                int_width: width,
                float_width: float_width(from) as u32,
            };
            &&& r is Ok <==> from is Half || from is Float || from is Double
            &&& r is Ok ==> {
                &&& only_adds(
                    b,
                    c,
                    Op::CallUnary { callee, arg: v },
                    r->Ok_0,
                    LlvmShape::Integer(width),
                )
                &&& is_declared(c.declared, callee)
            }
        }),
{
    let from = value_type(b, v);
    let result = MirType::Integer(width, sign);
    let (c, r) = cast(b, seq![v], history, Some(CastKind::FloatToInt), result);
    if r is Ok {
        let callee = Intrinsic::FloatToIntSat {
            signed: sign == Signedness::Signed,
            int_width: width,
            float_width: float_width(from) as u32,
        };
        if !is_declared(b.declared, callee) {
            let d = c.declared;
            assert(d[d.len() - 1].intrinsic == callee);
        }
    }
}

/// A float is cast to a float by extension to a wider type, truncation to a narrower one,
/// and as it is to one of its width. Nothing else is cast so.
pub proof fn law_floats_are_cast_by_their_widths(
    b: Body,
    v: Value,
    history: Seq<MirType>,
    result: MirType,
    to: LlvmShape,
)
    requires
        b.insts.len() < usize::MAX,
        valid(b, v),
        lowered(result) == Ok::<LlvmShape, LowerError>(to),
    ensures
        ({
            let from = value_type(b, v);
            let (c, r) = cast(b, seq![v], history, Some(CastKind::FloatToFloat), result);
            let kind = if float_width(from) < float_width(to) {
                CastOp::FPExt
            } else if float_width(from) > float_width(to) {
                CastOp::FPTrunc
            } else {
                CastOp::Bitcast
            };
            &&& r is Ok <==> float_width(from) > 0 && float_width(to) > 0
            &&& r is Ok ==> only_adds(b, c, Op::Cast { kind, value: v }, r->Ok_0, to)
        }),
{
}

/// Whether the code that `c` adds to `b` turns only generic pointers into integers, and
/// integers only into generic pointers.
pub open spec fn generic_addresses(b: Body, c: Body) -> bool {
    forall|i: int|
        b.insts.len() <= i < c.insts.len() && (#[trigger] c.insts[i]).op is Cast ==> {
            &&& c.insts[i].op->Cast_kind == CastOp::PtrToInt ==> value_type(
                c,
                c.insts[i].op->Cast_value,
            ) == LlvmShape::Pointer(GENERIC)
            &&& c.insts[i].op->Cast_kind == CastOp::IntToPtr ==> c.insts[i].ty
                == LlvmShape::Pointer(GENERIC)
        }
}

/// Whether a cast of this kind leaves a pointer what it is.
pub open spec fn is_pointer_kind(kind: CastKind) -> bool {
    match kind {
        CastKind::PtrToPtr => true,
        CastKind::FnPtrToPtr => true,
        CastKind::PointerCoercionMutToConst => true,
        CastKind::PointerCoercionReifyFnPointer => true,
        CastKind::PointerCoercionUnsafeFnPointer => true,
        CastKind::PointerCoercionClosureFnPointer => true,
        CastKind::PointerCoercionArrayToPointer => true,
        CastKind::Subtype => true,
        _ => false,
    }
}

/// Exposing a pointer, casting it to an integer or transmuting it to one gives the pointer
/// as an integer, by its generic address.
pub proof fn law_pointers_become_integers(
    b: Body,
    env: Env,
    v: Value,
    history: Seq<MirType>,
    kind: CastKind,
    result: MirType,
    space: u32,
    width: u32,
)
    requires
        b.insts.len() + 4 <= usize::MAX,
        valid(b, v),
        value_type(b, v) == LlvmShape::Pointer(space),
        is_pointer_value(value_of(b, env, v)),
        lowered(result) == Ok::<LlvmShape, LowerError>(LlvmShape::Integer(width)),
        width >= 64,
        is_pointer_kind(kind) || kind == CastKind::PointerExposeAddress || kind
            == CastKind::Transmute && width == 64,
    ensures
        ({
            let (c, r) = cast(b, seq![v], history, Some(kind), result);
            &&& r is Ok
            &&& valid(c, r->Ok_0)
            &&& value_type(c, r->Ok_0) == LlvmShape::Integer(width)
            &&& value_of(c, env, r->Ok_0) == value_of(b, env, v)
            &&& memory_after(c, env) == memory_after(b, env)
            &&& generic_addresses(b, c)
        }),
{
    let generic = LlvmShape::Pointer(GENERIC);
    let integer = LlvmShape::Integer(width);
    if let Val::Int(n) = value_of(b, env, v) {
        if width > 64 {
            lemma_pow2_strictly_increases(64, width as nat);
        }
        lemma_small_mod(n, pow2(width as nat));
    }
    let (b1, g) = if space == GENERIC {
        (b, v)
    } else {
        with_cast(b, CastOp::AddrSpaceCast, v, generic)
    };
    if space != GENERIC {
        lemma_cast(b, env, CastOp::AddrSpaceCast, v, generic);
    }
    lemma_cast(b1, env, CastOp::PtrToInt, g, integer);
    let (c, word) = ptr_to_int(b, v, integer);
    assert(quiet(b, b1));
    assert(quiet(b1, c));
    lemma_quiet_transitive(b, b1, c);
    lemma_quiet_memory(b, c, env);
    lemma_extends_value(b1, c, g);
}

/// Making a pointer of an exposed address, casting an integer to a pointer or transmuting
/// it to one gives the integer as a pointer, through the generic address space.
pub proof fn law_integers_become_pointers(
    b: Body,
    env: Env,
    v: Value,
    history: Seq<MirType>,
    kind: CastKind,
    p: MirPtrType,
    width: u32,
)
    requires
        b.insts.len() + 4 <= usize::MAX,
        valid(b, v),
        value_type(b, v) == LlvmShape::Integer(width),
        value_of(b, env, v) is Int || is_place(value_of(b, env, v)) && width >= 64,
        is_pointer_kind(kind) || kind == CastKind::PointerWithExposedProvenance || kind
            == CastKind::Transmute && width == 64 && p.address_space != SHARED,
    ensures
        ({
            let (c, r) = cast(b, seq![v], history, Some(kind), MirType::Ptr(p));
            &&& r is Ok
            &&& valid(c, r->Ok_0)
            &&& value_type(c, r->Ok_0) == LlvmShape::Pointer(p.address_space)
            &&& value_of(c, env, r->Ok_0) == value_of(b, env, v)
            &&& memory_after(c, env) == memory_after(b, env)
            &&& generic_addresses(b, c)
        }),
{
    let generic = LlvmShape::Pointer(GENERIC);
    let to = LlvmShape::Pointer(p.address_space);
    lemma_cast(b, env, CastOp::IntToPtr, v, generic);
    let (b1, g) = with_cast(b, CastOp::IntToPtr, v, generic);
    let (c, r) = int_to_ptr(b, v, to);
    if p.address_space != GENERIC {
        lemma_cast(b1, env, CastOp::AddrSpaceCast, g, to);
        assert(quiet(b1, c));
    }
    assert(quiet(b, b1));
    if p.address_space != GENERIC {
        lemma_quiet_transitive(b, b1, c);
    }
    lemma_quiet_memory(b, c, env);
}

/// A pointer that is cast to a pointer stays what it is, in the address space of its new
/// type.
pub proof fn law_pointers_stay_themselves(
    b: Body,
    env: Env,
    v: Value,
    history: Seq<MirType>,
    kind: CastKind,
    p: MirPtrType,
    space: u32,
)
    requires
        b.insts.len() + 4 <= usize::MAX,
        valid(b, v),
        value_type(b, v) == LlvmShape::Pointer(space),
        is_pointer_kind(kind) || kind == CastKind::PointerCoercionUnsize || kind
            == CastKind::Transmute && space != SHARED && p.address_space != SHARED,
    ensures
        ({
            let (c, r) = cast(b, seq![v], history, Some(kind), MirType::Ptr(p));
            &&& r is Ok
            &&& valid(c, r->Ok_0)
            &&& value_type(c, r->Ok_0) == LlvmShape::Pointer(p.address_space)
            &&& value_of(c, env, r->Ok_0) == value_of(b, env, v)
            &&& memory_after(c, env) == memory_after(b, env)
        }),
{
    let to = LlvmShape::Pointer(p.address_space);
    let op = if space != p.address_space {
        CastOp::AddrSpaceCast
    } else {
        CastOp::Bitcast
    };
    lemma_cast(b, env, op, v, to);
    let (c, r) = with_cast(b, op, v, to);
    assert(quiet(b, c));
    lemma_quiet_memory(b, c, env);
}

/// A fat pointer that is cast to a thin one keeps its first field.
pub proof fn law_fat_pointers_become_thin(
    b: Body,
    env: Env,
    v: Value,
    history: Seq<MirType>,
    kind: CastKind,
    p: MirPtrType,
    fields: Seq<LlvmShape>,
    s: Seq<Val>,
)
    requires
        b.insts.len() + 4 <= usize::MAX,
        valid(b, v),
        value_type(b, v) == LlvmShape::Struct(fields),
        fields.len() > 0,
        s.len() == fields.len(),
        value_of(b, env, v) == Val::Aggregate(s),
        is_pointer_kind(kind) || kind == CastKind::PointerCoercionUnsize,
    ensures
        ({
            let (c, r) = cast(b, seq![v], history, Some(kind), MirType::Ptr(p));
            &&& r is Ok
            &&& valid(c, r->Ok_0)
            &&& value_type(c, r->Ok_0) == fields[0]
            &&& value_of(c, env, r->Ok_0) == s[0]
            &&& memory_after(c, env) == memory_after(b, env)
        }),
{
    lemma_extract_value(b, env, v, 0, s);
    let (c, r) = with_extract(b, v, 0);
    assert(quiet(b, c));
    lemma_quiet_memory(b, c, env);
}

/// A thin pointer that is cast to a struct is its first field, and the other fields are
/// undefined.
pub proof fn law_thin_pointers_become_first_fields(
    b: Body,
    env: Env,
    v: Value,
    history: Seq<MirType>,
    kind: CastKind,
    result: MirType,
    space: u32,
    fields: Seq<LlvmShape>,
)
    requires
        b.insts.len() + 4 <= usize::MAX,
        valid(b, v),
        value_type(b, v) == LlvmShape::Pointer(space),
        lowered(result) == Ok::<LlvmShape, LowerError>(LlvmShape::Struct(fields)),
        fields.len() > 0,
        is_pointer_kind(kind),
    ensures
        ({
            let (c, r) = cast(b, seq![v], history, Some(kind), result);
            let x = value_of(c, env, r->Ok_0);
            &&& r is Ok
            &&& valid(c, r->Ok_0)
            &&& value_type(c, r->Ok_0) == LlvmShape::Struct(fields)
            &&& x is Aggregate
            &&& x->Aggregate_0.len() == fields.len()
            &&& x->Aggregate_0[0] == value_of(b, env, v)
            &&& memory_after(c, env) == memory_after(b, env)
        }),
{
    let whole = LlvmShape::Struct(fields);
    let (b1, start) = with_undef(b, whole);
    assert(extends(b, b1));
    assert(quiet(b, b1));
    let empty = Seq::new(fields.len(), |i: int| Val::Undef);
    assert(value_of(b1, env, start) == undefined(whole));
    assert(undefined(whole) == Val::Aggregate(empty));
    lemma_extends_value(b, b1, v);
    lemma_value_stable(b, b1, env, v);
    lemma_insert_value(b1, env, start, v, 0, empty);
    let (c, r) = with_insert(b1, start, v, 0);
    assert(quiet(b1, c));
    lemma_quiet_transitive(b, b1, c);
    lemma_quiet_memory(b, c, env);
}

/// Whether the code that `c` adds to `b` changes memory only in stack slots of its own.
pub open spec fn only_new_slots(b: Body, c: Body, env: Env) -> bool {
    forall|p: Val, o: int|
        !(p matches Val::Slot(k) && k >= b.insts.len()) ==> #[trigger] memory_after(c, env)(p, o)
            == memory_after(b, env)(p, o)
}

/// What crosses memory between two types of one size.
proof fn lemma_through_memory(b: Body, env: Env, v: Value, to: LlvmShape)
    requires
        b.insts.len() + 8 < usize::MAX,
        valid(b, v),
        value_type(b, v) != LlvmShape::Integer(1),
        to != LlvmShape::Integer(1),
        size_align(value_type(b, v)) is Some,
        size_align(to) is Some,
        byte_size(value_type(b, v)) == byte_size(to),
        is_aggregate(value_type(b, v)) && value_type(b, v) != to ==> byte_faithful(
            value_type(b, v),
        ),
    ensures
        ({
            let from = value_type(b, v);
            let (c, r) = transmuted_in_memory(b, v, to);
            &&& r is Ok
            &&& valid(c, r->Ok_0)
            &&& value_type(c, r->Ok_0) == to
            &&& value_of(c, env, r->Ok_0) == decoded(encoded(value_of(b, env, v), from), to)
            &&& only_new_slots(b, c, env)
        }),
{
    let from = value_type(b, v);
    let x = value_of(b, env, v);
    law_transmute_through_memory_keeps_bytes(b, env, v, to);
    let from_align = size_align(from)->Some_0.1;
    let to_align = size_align(to)->Some_0.1;
    let align = Some(
        (if from_align >= to_align {
            from_align
        } else {
            to_align
        }) as u32,
    );
    lemma_spilled(b, env, v, from, 64, align, align);
    let (b1, slot) = with_stack_slot(b, from, 64, align);
    let b2 = with_store(b1, v, slot, align);
    lemma_new_load(b2, env, slot, Op::Load { ptr: slot, align, is_volatile: false }, to);
}

/// A transmute that involves a struct or an array keeps every byte: the result is the
/// value that the operand's bytes make up. It needs types of one size, an operand type
/// whose bytes are all its fields', and no pointer to shared memory.
pub proof fn law_aggregates_are_transmuted_by_their_bytes(
    b: Body,
    env: Env,
    v: Value,
    history: Seq<MirType>,
    result: MirType,
    to: LlvmShape,
)
    requires
        b.insts.len() + 8 < usize::MAX,
        valid(b, v),
        lowered(result) == Ok::<LlvmShape, LowerError>(to),
        is_aggregate(value_type(b, v)) || is_aggregate(to),
        value_type(b, v) != LlvmShape::Integer(1),
        to != LlvmShape::Integer(1),
    ensures
        ({
            let from = value_type(b, v);
            let (c, r) = cast(b, seq![v], history, Some(CastKind::Transmute), result);
            &&& r is Ok <==> {
                &&& size_align(from) is Some
                &&& size_align(to) is Some
                &&& byte_size(from) == byte_size(to)
                &&& !contains_leaf(from, LeafKind::PointerIn(SHARED))
                &&& !contains_leaf(to, LeafKind::PointerIn(SHARED))
                &&& is_aggregate(from) && from != to ==> byte_faithful(from)
            }
            &&& r is Ok ==> {
                &&& valid(c, r->Ok_0)
                &&& value_type(c, r->Ok_0) == to
                &&& value_of(c, env, r->Ok_0) == decoded(encoded(value_of(b, env, v), from), to)
                &&& only_new_slots(b, c, env)
            }
        }),
{
    let from = value_type(b, v);
    let r = cast(b, seq![v], history, Some(CastKind::Transmute), result).1;
    if r is Ok {
        lemma_through_memory(b, env, v, to);
    }
}

/// The width of a number or of a pointer.
pub open spec fn number_width(t: LlvmShape) -> int {
    match t {
        LlvmShape::Integer(width) => width as int,
        LlvmShape::Pointer(_) => 64,
        _ => float_width(t),
    }
}

/// Numbers and pointers of one width are transmuted to each other as they are.
pub proof fn law_numbers_are_transmuted_as_they_are(
    b: Body,
    env: Env,
    v: Value,
    history: Seq<MirType>,
    result: MirType,
    to: LlvmShape,
    n: nat,
)
    requires
        b.insts.len() + 8 < usize::MAX,
        valid(b, v),
        lowered(result) == Ok::<LlvmShape, LowerError>(to),
        number_width(value_type(b, v)) == number_width(to),
        number_width(to) > 0,
        value_type(b, v) != LlvmShape::Pointer(SHARED),
        to != LlvmShape::Pointer(SHARED),
        value_of(b, env, v) == Val::Int(n),
        n < pow2(number_width(to) as nat),
    ensures
        ({
            let (c, r) = cast(b, seq![v], history, Some(CastKind::Transmute), result);
            &&& r is Ok
            &&& valid(c, r->Ok_0)
            &&& value_type(c, r->Ok_0) == to
            &&& value_of(c, env, r->Ok_0) == Val::Int(n)
            &&& memory_after(c, env) == memory_after(b, env)
        }),
{
    let from = value_type(b, v);
    let bits = number_width(to) as u32;
    let word = LlvmShape::Integer(bits);
    let generic = LlvmShape::Pointer(GENERIC);
    let (c, r) = cast(b, seq![v], history, Some(CastKind::Transmute), result);
    lemma_small_mod(n, pow2(bits as nat));
    match (from, to) {
        (LlvmShape::Pointer(s), LlvmShape::Pointer(d)) => {
            let kind = if s != d {
                CastOp::AddrSpaceCast
            } else {
                CastOp::Bitcast
            };
            lemma_cast(b, env, kind, v, to);
            assert(quiet(b, c));
        },
        (LlvmShape::Pointer(s), LlvmShape::Integer(w)) => {
            if s == GENERIC {
                lemma_cast(b, env, CastOp::PtrToInt, v, to);
                assert(quiet(b, c));
            } else {
                lemma_cast(b, env, CastOp::AddrSpaceCast, v, generic);
                let (b1, g) = with_cast(b, CastOp::AddrSpaceCast, v, generic);
                lemma_cast(b1, env, CastOp::PtrToInt, g, to);
                assert(quiet(b, b1));
                assert(quiet(b1, c));
                lemma_quiet_transitive(b, b1, c);
            }
        },
        (LlvmShape::Pointer(_), _) => {
            lemma_cast(b, env, CastOp::PtrToInt, v, word);
            let (b1, w) = with_cast(b, CastOp::PtrToInt, v, word);
            lemma_cast(b1, env, CastOp::Bitcast, w, to);
            assert(quiet(b, b1));
            assert(quiet(b1, c));
            lemma_quiet_transitive(b, b1, c);
        },
        (_, LlvmShape::Pointer(d)) => {
            let (b1, w) = if from is Integer {
                (b, v)
            } else {
                with_cast(b, CastOp::Bitcast, v, word)
            };
            if !(from is Integer) {
                lemma_cast(b, env, CastOp::Bitcast, v, word);
            }
            assert(quiet(b, b1));
            lemma_cast(b1, env, CastOp::IntToPtr, w, generic);
            let (b2, g) = with_cast(b1, CastOp::IntToPtr, w, generic);
            assert(quiet(b1, b2));
            lemma_quiet_transitive(b, b1, b2);
            if d != GENERIC {
                lemma_cast(b2, env, CastOp::AddrSpaceCast, g, to);
                assert(quiet(b2, c));
                lemma_quiet_transitive(b, b2, c);
            }
        },
        _ => {
            lemma_cast(b, env, CastOp::Bitcast, v, to);
            assert(quiet(b, c));
        },
    }
    lemma_quiet_memory(b, c, env);
}

/// A `bool` and a byte are transmuted to each other as the number zero or one.
pub proof fn law_bools_are_transmuted_as_bytes(
    b: Body,
    env: Env,
    v: Value,
    history: Seq<MirType>,
    result: MirType,
    to_bool: bool,
    n: nat,
)
    requires
        b.insts.len() + 8 < usize::MAX,
        valid(b, v),
        value_type(b, v) == LlvmShape::Integer(
            if to_bool {
                8
            } else {
                1
            },
        ),
        lowered(result) == Ok::<LlvmShape, LowerError>(
            LlvmShape::Integer(
                if to_bool {
                    1
                } else {
                    8
                },
            ),
        ),
        value_of(b, env, v) == Val::Int(n),
        n < 2,
    ensures
        ({
            let (c, r) = cast(b, seq![v], history, Some(CastKind::Transmute), result);
            &&& r is Ok
            &&& valid(c, r->Ok_0)
            &&& Ok::<LlvmShape, LowerError>(value_type(c, r->Ok_0)) == lowered(result)
            &&& value_of(c, env, r->Ok_0) == Val::Int(n)
            &&& memory_after(c, env) == memory_after(b, env)
        }),
{
    lemma2_to64();
    let (c, r) = cast(b, seq![v], history, Some(CastKind::Transmute), result);
    if to_bool {
        lemma_cast(b, env, CastOp::Trunc, v, LlvmShape::Integer(1));
        lemma_small_mod(n, pow2(1));
    } else {
        lemma_cast(b, env, CastOp::ZExt, v, LlvmShape::Integer(8));
    }
    assert(quiet(b, c));
    lemma_quiet_memory(b, c, env);
}

/// Types of different sizes are not transmuted to each other, nor is a pointer to shared
/// memory transmuted to anything but an integer.
pub proof fn law_unequal_sizes_are_not_transmuted(
    b: Body,
    v: Value,
    history: Seq<MirType>,
    result: MirType,
    to: LlvmShape,
)
    requires
        lowered(result) == Ok::<LlvmShape, LowerError>(to),
        size_align(value_type(b, v)) is None || size_align(to) is None || byte_size(
            value_type(b, v),
        ) != byte_size(to) || (contains_leaf(value_type(b, v), LeafKind::PointerIn(SHARED))
            && !(value_type(b, v) is Pointer && to is Integer)) || contains_leaf(
            to,
            LeafKind::PointerIn(SHARED),
        ),
    ensures
        cast(b, seq![v], history, Some(CastKind::Transmute), result).1 is Err,
        cast(b, seq![v], history, Some(CastKind::Transmute), result).0 == b,
{
}

/// Whether a cast that leaves a pointer what it is goes by the bytes of its operand: it
/// involves a struct or an array, and is not between a pointer and a struct.
pub open spec fn goes_by_bytes(from: LlvmShape, to: LlvmShape) -> bool {
    ||| from is Array
    ||| to is Array
    ||| from is Struct && (to is Struct || to is Integer)
    ||| from is Integer && to is Struct
}

/// A cast of a struct or an array that leaves pointers what they are keeps every byte. It
/// needs types of one size and an operand type whose bytes are all its fields'.
pub proof fn law_aggregates_are_cast_by_their_bytes(
    b: Body,
    env: Env,
    v: Value,
    history: Seq<MirType>,
    kind: CastKind,
    result: MirType,
    to: LlvmShape,
)
    requires
        b.insts.len() + 8 < usize::MAX,
        valid(b, v),
        is_pointer_kind(kind),
        lowered(result) == Ok::<LlvmShape, LowerError>(to),
        goes_by_bytes(value_type(b, v), to),
        value_type(b, v) != LlvmShape::Integer(1),
        to != LlvmShape::Integer(1),
    ensures
        ({
            let from = value_type(b, v);
            let (c, r) = cast(b, seq![v], history, Some(kind), result);
            &&& r is Ok <==> {
                &&& size_align(from) is Some
                &&& size_align(to) is Some
                &&& byte_size(from) == byte_size(to)
                &&& is_aggregate(from) && from != to ==> byte_faithful(from)
            }
            &&& r is Ok ==> {
                &&& valid(c, r->Ok_0)
                &&& value_type(c, r->Ok_0) == to
                &&& value_of(c, env, r->Ok_0) == decoded(encoded(value_of(b, env, v), from), to)
                &&& only_new_slots(b, c, env)
            }
        }),
{
    let r = cast(b, seq![v], history, Some(kind), result).1;
    assert(cast(b, seq![v], history, Some(kind), result) == pointer_cast(b, v, to));
    if r is Ok {
        lemma_through_memory(b, env, v, to);
    }
}

/// A cast of a number that leaves pointers what they are keeps its bits.
pub proof fn law_numbers_keep_their_bits(
    b: Body,
    v: Value,
    history: Seq<MirType>,
    kind: CastKind,
    result: MirType,
    to: LlvmShape,
)
    requires
        b.insts.len() < usize::MAX,
        is_pointer_kind(kind),
        lowered(result) == Ok::<LlvmShape, LowerError>(to),
        value_type(b, v) is Integer || float_width(value_type(b, v)) > 0,
        to is Integer || float_width(to) > 0,
    ensures
        ({
            let (c, r) = cast(b, seq![v], history, Some(kind), result);
            r is Ok && only_adds(b, c, Op::Cast { kind: CastOp::Bitcast, value: v }, r->Ok_0, to)
        }),
{
    assert(cast(b, seq![v], history, Some(kind), result) == pointer_cast(b, v, to));
}

/// Whether every stack slot that `c` adds to `b`, and every access of memory, has the
/// alignment `align`.
pub open spec fn all_aligned(b: Body, c: Body, align: u64) -> bool {
    forall|i: int|
        b.insts.len() <= i < c.insts.len() ==> match (#[trigger] c.insts[i]).op {
            Op::Alloca { count, align: a } => a == Some(align as u32),
            Op::Load { ptr, align: a, is_volatile } => a == Some(align as u32) && !is_volatile,
            Op::Store { value, ptr, align: a, is_volatile } => a == Some(align as u32)
                && !is_volatile,
            _ => true,
        }
}

/// A stack slot that a value passes through on its way to another type is aligned for both
/// types: as the one that is aligned wider.
pub proof fn law_passed_values_are_aligned_for_both(
    b: Body,
    v: Value,
    history: Seq<MirType>,
    result: MirType,
    to: LlvmShape,
    align: u64,
)
    requires
        lowered(result) == Ok::<LlvmShape, LowerError>(to),
        is_aggregate(value_type(b, v)) || is_aggregate(to),
        size_align(value_type(b, v)) is Some,
        size_align(to) is Some,
        size_align(value_type(b, v))->Some_0.1 <= align,
        size_align(to)->Some_0.1 <= align,
        align == size_align(value_type(b, v))->Some_0.1 || align == size_align(to)->Some_0.1,
    ensures
        all_aligned(b, cast(b, seq![v], history, Some(CastKind::Transmute), result).0, align),
{
}

} // verus!
