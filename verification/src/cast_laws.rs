//! Integer casts keep the number as far as the target type holds it, and
//! addresses come back from integers.

use crate::cast::{int_to_int, int_to_ptr, ptr_to_int, source_signed};
use crate::ir::{
    extends, lemma_extends_value, valid, value_type, with_cast, Body, CastOp, Op, Value,
};
use crate::llvm::{LlvmShape, GENERIC};
use crate::mir::MirType;
use crate::semantics::{cast_value, lemma_operand_of_new, value_of, Env};
use crate::values::{is_place, Val};
use vstd::arithmetic::div_mod::{lemma_mod_multiples_vanish, lemma_small_mod};
use vstd::arithmetic::power2::{
    lemma_pow2_adds, lemma_pow2_pos, lemma_pow2_strictly_increases, pow2,
};
use vstd::prelude::*;

verus! {

/// The number that the bits `n` of an integer type stand for.
pub open spec fn number(n: nat, width: nat, signed: bool) -> int {
    if signed && width > 0 && n >= pow2((width - 1) as nat) {
        n - pow2(width)
    } else {
        n as int
    }
}

/// An integer cast gives the number that the operand stands for, modulo two to
/// the target's width.
pub proof fn law_integer_casts_keep_the_number(
    b: Body,
    env: Env,
    v: Value,
    history: Seq<MirType>,
    from: u32,
    to: u32,
    n: nat,
)
    requires
        b.insts.len() < usize::MAX,
        valid(b, v),
        value_type(b, v) == LlvmShape::Integer(from),
        value_of(b, env, v) == Val::Int(n),
        n < pow2(from as nat),
        int_to_int(b, v, history, LlvmShape::Integer(to)).1 is Ok,
    ensures
        ({
            let (c, r) = int_to_int(b, v, history, LlvmShape::Integer(to));
            let signed = source_signed(history, value_type(b, v)) == Some(true);
            value_of(c, env, r->Ok_0) == Val::Int(
                (number(n, from as nat, signed) % pow2(to as nat) as int) as nat,
            )
        }),
{
    let signed = source_signed(history, value_type(b, v)) == Some(true);
    let kind = if to > from {
        if signed {
            CastOp::SExt
        } else {
            CastOp::ZExt
        }
    } else if to < from {
        CastOp::Trunc
    } else {
        CastOp::Bitcast
    };
    let ty = LlvmShape::Integer(to);
    let (c, r) = with_cast(b, kind, v, ty);
    assert(extends(b, c));
    lemma_operand_of_new(b, env, Op::Cast { kind, value: v }, ty, v);
    lemma_extends_value(b, c, v);
    let f = pow2(from as nat) as int;
    let t = pow2(to as nat) as int;
    lemma_pow2_pos(from as nat);
    lemma_pow2_pos(to as nat);
    let x = number(n, from as nat, signed);
    if to > from {
        lemma_pow2_strictly_increases(from as nat, to as nat);
        if x < 0 {
            lemma_mod_multiples_vanish(1, x, t);
            lemma_small_mod((x + t) as nat, t as nat);
        } else {
            lemma_small_mod(n, t as nat);
        }
    } else {
        lemma_pow2_adds(to as nat, (from - to) as nat);
        let q = pow2((from - to) as nat) as int;
        if x < 0 {
            assert(t * (-q) + n == x) by (nonlinear_arith)
                requires
                    f == t * q,
                    x == n - f,
            ;
            lemma_mod_multiples_vanish(-q, n as int, t);
        }
        if to == from {
            lemma_small_mod(n, t as nat);
        }
    }
}

/// Whether `x` is a pointer: the address of a place, or a 64-bit address.
pub open spec fn is_pointer_value(x: Val) -> bool {
    match x {
        Val::Int(n) => n < pow2(64),
        _ => is_place(x),
    }
}

/// An exposed address makes the pointer that it was taken of: turning a pointer
/// into an integer that can hold it and back computes the pointer, in whatever
/// address space it points.
pub proof fn law_exposed_addresses_come_back(
    b: Body,
    env: Env,
    v: Value,
    space: u32,
    width: u32,
)
    requires
        b.insts.len() + 4 < usize::MAX,
        valid(b, v),
        value_type(b, v) == LlvmShape::Pointer(space),
        is_pointer_value(value_of(b, env, v)),
        width >= 64,
    ensures
        ({
            let (c, word) = ptr_to_int(b, v, LlvmShape::Integer(width));
            let (d, r) = int_to_ptr(c, word, LlvmShape::Pointer(space));
            &&& value_of(c, env, word) == value_of(b, env, v)
            &&& value_of(d, env, r) == value_of(b, env, v)
            &&& value_type(d, r) == LlvmShape::Pointer(space)
        }),
{
    let x = value_of(b, env, v);
    let integer = LlvmShape::Integer(width);
    let pointer = LlvmShape::Pointer(space);
    let generic = LlvmShape::Pointer(GENERIC);
    if let Val::Int(n) = x {
        if width > 64 {
            lemma_pow2_strictly_increases(64, width as nat);
        }
        lemma_small_mod(n, pow2(width as nat));
    }
    let (b1, g) = if space == GENERIC {
        (b, v)
    } else {
        with_cast(b, CastOp::AddrSpaceCast, v, generic)
    };
    if space != GENERIC {
        lemma_cast_value(b, env, CastOp::AddrSpaceCast, v, generic);
    }
    lemma_cast_value(b1, env, CastOp::PtrToInt, g, integer);
    let (c, word) = ptr_to_int(b, v, integer);
    if space == GENERIC {
        lemma_cast_value(c, env, CastOp::IntToPtr, word, pointer);
    } else {
        lemma_cast_value(c, env, CastOp::IntToPtr, word, generic);
        let (c1, h) = with_cast(c, CastOp::IntToPtr, word, generic);
        lemma_cast_value(c1, env, CastOp::AddrSpaceCast, h, pointer);
    }
}

/// The value of a conversion that was just added.
proof fn lemma_cast_value(b: Body, env: Env, kind: CastOp, v: Value, ty: LlvmShape)
    requires
        b.insts.len() < usize::MAX,
        valid(b, v),
    ensures
        ({
            let (c, r) = with_cast(b, kind, v, ty);
            &&& extends(b, c)
            &&& valid(c, r)
            &&& value_type(c, r) == ty
            &&& value_of(c, env, r) == cast_value(kind, value_of(b, env, v), value_type(b, v), ty)
        }),
{
    let (c, r) = with_cast(b, kind, v, ty);
    assert(extends(b, c));
    lemma_operand_of_new(b, env, Op::Cast { kind, value: v }, ty, v);
    lemma_extends_value(b, c, v);
}

} // verus!
