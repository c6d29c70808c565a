//! Float arrays kept in the integer slot of a union read back as they were
//! written.

use crate::error::LowerError;
use crate::ir::{
    extends, lemma_extends_transitive, lemma_extends_value, valid, value_type, with_binary,
    with_cast, with_constant, with_extract, with_insert, with_undef, BinOp, Body, CastOp, Op, Value,
};
use crate::llvm::LlvmShape;
use crate::mir::MirUnionType;
use crate::semantics::{
    cast_value, lemma_bit_or_adds, lemma_constant_value, lemma_extract_value, lemma_insert_value,
    lemma_operand_of_new, lemma_value_stable, undefined, value_of, Env,
};
use crate::storage::zero_sized;
use crate::types::{lowered, union_type_storage};
use crate::union_ops::{
    extracted_union_field, float_packing, inserted_union_field, integer_carrier, packed_element,
    packed_elements, packed_union, unpacked_element, unpacked_elements, unpacked_union,
};
use crate::values::Val;
use vstd::arithmetic::div_mod::{
    lemma_fundamental_div_mod_converse, lemma_hoist_over_denominator, lemma_mod_multiples_vanish,
    lemma_small_mod,
};
use vstd::arithmetic::power2::{
    lemma2_to64, lemma_pow2_adds, lemma_pow2_pos, lemma_pow2_strictly_increases, pow2,
};
use vstd::prelude::*;

verus! {

// ---------------------------------------------------------------------------
// Digits
// ---------------------------------------------------------------------------

/// The number whose digits of `bits` bits are the first `k` of `digits`, the
/// lowest first.
pub open spec fn packed_number(digits: Seq<nat>, bits: nat, k: int) -> nat
    decreases k,
{
    if k <= 0 {
        0
    } else {
        packed_number(digits, bits, k - 1) + digits[k - 1] * pow2((bits * (k - 1)) as nat)
    }
}

/// Whether every digit has at most `bits` bits.
pub open spec fn are_digits(digits: Seq<nat>, bits: nat) -> bool {
    forall|i: int| 0 <= i < digits.len() ==> #[trigger] digits[i] < pow2(bits)
}

proof fn lemma_packed_bound(digits: Seq<nat>, bits: nat, k: int)
    requires
        are_digits(digits, bits),
        0 <= k <= digits.len(),
    ensures
        packed_number(digits, bits, k) < pow2((bits * k) as nat),
    decreases k,
{
    lemma2_to64();
    if k > 0 {
        lemma_packed_bound(digits, bits, k - 1);
        let p = pow2((bits * (k - 1)) as nat);
        assert(bits * k == bits * (k - 1) + bits) by (nonlinear_arith);
        lemma_pow2_adds((bits * (k - 1)) as nat, bits);
        let d = digits[k - 1];
        assert(packed_number(digits, bits, k - 1) + d * p < p * pow2(bits)) by (nonlinear_arith)
            requires
                packed_number(digits, bits, k - 1) < p,
                d + 1 <= pow2(bits),
        ;
    } else {
        assert(bits * 0 == 0) by (nonlinear_arith);
    }
}

/// Shifting a packed number down to a digit and cutting it off gives the digit.
proof fn lemma_digit(digits: Seq<nat>, bits: nat, k: int, i: int)
    requires
        are_digits(digits, bits),
        0 <= i < k <= digits.len(),
    ensures
        (packed_number(digits, bits, k) / pow2((bits * i) as nat)) % pow2(bits) == digits[i],
    decreases k,
{
    let low = packed_number(digits, bits, k - 1) as int;
    let d = digits[k - 1] as int;
    let p = pow2((bits * i) as nat) as int;
    let m = pow2(bits) as int;
    lemma_pow2_pos((bits * i) as nat);
    lemma_pow2_pos(bits);
    if i == k - 1 {
        lemma_packed_bound(digits, bits, k - 1);
        lemma_fundamental_div_mod_converse(low + d * p, p, d, low);
        lemma_small_mod(d as nat, m as nat);
    } else {
        lemma_digit(digits, bits, k - 1, i);
        let rest = (bits * (k - 1 - i)) as nat;
        assert(bits * (k - 1) == bits * i + bits * (k - 1 - i)) by (nonlinear_arith);
        lemma_pow2_adds((bits * i) as nat, rest);
        let r = pow2(rest) as int;
        assert(d * (p * r) == p * (d * r)) by (nonlinear_arith);
        lemma_hoist_over_denominator(low, d * r, p as nat);
        assert(bits * (k - 1 - i) == bits + bits * (k - 2 - i)) by (nonlinear_arith);
        assert(0 <= bits * (k - 2 - i)) by (nonlinear_arith)
            requires
                0 <= k - 2 - i,
        ;
        lemma_pow2_adds(bits, (bits * (k - 2 - i)) as nat);
        let q = pow2((bits * (k - 2 - i)) as nat) as int;
        assert(d * r == m * (d * q)) by (nonlinear_arith)
            requires
                r == m * q,
        ;
        lemma_mod_multiples_vanish(d * q, low / p, m);
    }
}

/// The values of digits.
pub open spec fn digit_values(digits: Seq<nat>) -> Seq<Val> {
    Seq::new(digits.len(), |i: int| Val::Int(digits[i]))
}

// ---------------------------------------------------------------------------
// Packing
// ---------------------------------------------------------------------------

/// Whether `elem` is a floating-point type of `bits` bits.
pub open spec fn is_float(elem: LlvmShape, bits: u32) -> bool {
    (elem == LlvmShape::Float && bits == 32) || (elem == LlvmShape::Double && bits == 64)
}

proof fn lemma_below_pow2(n: nat)
    ensures
        n < pow2(n),
    decreases n,
{
    lemma2_to64();
    if n > 0 {
        lemma_below_pow2((n - 1) as nat);
        lemma_pow2_adds(1, (n - 1) as nat);
    }
}

proof fn lemma_packed_grows(b: Body, v: Value, bits: u32, width: u32, k: int)
    ensures
        extends(b, packed_elements(b, v, bits, width, k).0),
    decreases k,
{
    if k > 0 {
        lemma_packed_grows(b, v, bits, width, k - 1);
        let (b1, before) = packed_elements(b, v, bits, width, k - 1);
        if let Ok(joined) = before {
            let (b2, element) = packed_element(b1, v, bits, width, (k - 1) as u32);
            assert(extends(b1, b2));
            lemma_extends_transitive(b, b1, b2);
            if let Ok(x) = element {
                if let Some(previous) = joined {
                    let (b3, both) = with_binary(b2, BinOp::Or, previous, x);
                    assert(extends(b2, b3));
                    lemma_extends_transitive(b, b2, b3);
                }
            }
        }
    }
}

/// A conversion at the end of the code converts what its operand is.
proof fn lemma_new_cast(b: Body, env: Env, kind: CastOp, v: Value, to: LlvmShape)
    requires
        b.insts.len() < usize::MAX,
        valid(b, v),
    ensures
        ({
            let (c, r) = with_cast(b, kind, v, to);
            &&& extends(b, c)
            &&& c.insts.len() == b.insts.len() + 1
            &&& valid(c, r)
            &&& value_type(c, r) == to
            &&& value_of(c, env, r) == cast_value(
                kind,
                value_of(b, env, v),
                value_type(b, v),
                to,
            )
        }),
{
    lemma_operand_of_new(b, env, Op::Cast { kind, value: v }, to, v);
    lemma_extends_value(b, with_cast(b, kind, v, to).0, v);
}

/// The code for one element puts its bits at their place.
proof fn lemma_packed_element(
    b: Body,
    env: Env,
    v: Value,
    elem: LlvmShape,
    length: u64,
    bits: u32,
    width: u32,
    index: u32,
    digits: Seq<nat>,
)
    requires
        b.insts.len() + 6 < usize::MAX,
        valid(b, v),
        is_float(elem, bits),
        value_type(b, v) == LlvmShape::Array(Box::new(elem), length),
        value_of(b, env, v) == Val::Aggregate(digit_values(digits)),
        are_digits(digits, bits as nat),
        digits.len() == length,
        length * bits == width,
        index < length,
    ensures
        ({
            let (c, r) = packed_element(b, v, bits, width, index);
            &&& r is Ok
            &&& extends(b, c)
            &&& valid(c, r->Ok_0)
            &&& value_type(c, r->Ok_0) == LlvmShape::Integer(width)
            &&& value_of(c, env, r->Ok_0) == Val::Int(
                digits[index as int] * pow2((bits * index) as nat),
            )
        }),
{
    lemma2_to64();
    let ty = LlvmShape::Integer(width);
    let d = digits[index as int];
    lemma_extract_value(b, env, v, index, digit_values(digits));
    let (b1, extracted) = with_extract(b, v, index);
    let x = extracted->Ok_0;
    lemma_new_cast(b1, env, CastOp::Bitcast, x, LlvmShape::Integer(bits));
    let (b2, raw) = with_cast(b1, CastOp::Bitcast, x, LlvmShape::Integer(bits));
    lemma_extends_transitive(b, b1, b2);
    let (b3, wide) = if bits == width {
        (b2, raw)
    } else {
        with_cast(b2, CastOp::ZExt, raw, ty)
    };
    if bits != width {
        lemma_new_cast(b2, env, CastOp::ZExt, raw, ty);
        lemma_extends_transitive(b, b2, b3);
    }
    assert(value_of(b3, env, wide) == Val::Int(d));
    if index > 0 {
        let place = (bits * index) as nat;
        assert(place + bits <= width) by (nonlinear_arith)
            requires
                place == bits * index,
                index + 1 <= length,
                length * bits == width,
        ;
        assert(index * bits == bits * index) by (nonlinear_arith);
        let amount_bits = (index * bits) as u128;
        lemma_below_pow2(width as nat);
        lemma_constant_value(b3, env, width, amount_bits);
        let (b4, amount) = with_constant(b3, width, amount_bits);
        lemma_extends_transitive(b, b3, b4);
        lemma_extends_value(b3, b4, wide);
        lemma_value_stable(b3, b4, env, wide);
        let (c, r) = with_binary(b4, BinOp::Shl, wide, amount);
        assert(extends(b4, c));
        lemma_extends_transitive(b, b4, c);
        let op = Op::Binary { op: BinOp::Shl, lhs: wide, rhs: amount };
        lemma_operand_of_new(b4, env, op, ty, wide);
        lemma_operand_of_new(b4, env, op, ty, amount);
        lemma_pow2_adds(bits as nat, place);
        lemma_pow2_pos(place);
        assert(d * pow2(place) < pow2(bits as nat) * pow2(place)) by (nonlinear_arith)
            requires
                d < pow2(bits as nat),
                pow2(place) > 0,
        ;
        if place + bits < width {
            lemma_pow2_strictly_increases((bits + place) as nat, width as nat);
        }
        lemma_small_mod(d * pow2(place), pow2(width as nat));
    } else {
        assert(bits * 0 == 0) by (nonlinear_arith);
        assert(d * pow2(0) == d) by (nonlinear_arith)
            requires
                pow2(0) == 1,
        ;
    }
}

/// The code for joining elements gives the number whose digits they are.
proof fn lemma_packed_value(
    b: Body,
    env: Env,
    v: Value,
    elem: LlvmShape,
    length: u64,
    bits: u32,
    width: u32,
    k: int,
    digits: Seq<nat>,
)
    requires
        valid(b, v),
        is_float(elem, bits),
        value_type(b, v) == LlvmShape::Array(Box::new(elem), length),
        value_of(b, env, v) == Val::Aggregate(digit_values(digits)),
        are_digits(digits, bits as nat),
        digits.len() == length,
        length * bits == width,
        0 < k <= length,
        packed_elements(b, v, bits, width, k).0.insts.len() + 8 < usize::MAX,
    ensures
        ({
            let (c, r) = packed_elements(b, v, bits, width, k);
            &&& extends(b, c)
            &&& r is Ok
            &&& r->Ok_0 is Some
            &&& valid(c, r->Ok_0->Some_0)
            &&& value_type(c, r->Ok_0->Some_0) == LlvmShape::Integer(width)
            &&& value_of(c, env, r->Ok_0->Some_0) == Val::Int(
                packed_number(digits, bits as nat, k),
            )
        }),
    decreases k,
{
    lemma_packed_grows(b, v, bits, width, k);
    lemma_packed_grows(b, v, bits, width, k - 1);
    let (b1, before) = packed_elements(b, v, bits, width, k - 1);
    lemma_extends_value(b, b1, v);
    lemma_value_stable(b, b1, env, v);
    assert(k <= length <= u32::MAX) by (nonlinear_arith)
        requires
            length * bits == width,
            bits >= 1,
            width <= u32::MAX,
            k <= length,
    ;
    let index = (k - 1) as u32;
    lemma_packed_element(b1, env, v, elem, length, bits, width, index, digits);
    let (b2, element) = packed_element(b1, v, bits, width, index);
    lemma_extends_transitive(b, b1, b2);
    if k == 1 {
        reveal_with_fuel(packed_number, 2);
    } else {
        lemma_packed_value(b, env, v, elem, length, bits, width, k - 1, digits);
        let previous = before->Ok_0->Some_0;
        lemma_extends_value(b1, b2, previous);
        lemma_value_stable(b1, b2, env, previous);
        let x = element->Ok_0;
        let (c, both) = with_binary(b2, BinOp::Or, previous, x);
        assert(extends(b2, c));
        lemma_extends_transitive(b, b2, c);
        let op = Op::Binary { op: BinOp::Or, lhs: previous, rhs: x };
        lemma_operand_of_new(b2, env, op, LlvmShape::Integer(width), previous);
        lemma_operand_of_new(b2, env, op, LlvmShape::Integer(width), x);
        lemma_packed_bound(digits, bits as nat, k - 1);
        lemma_bit_or_adds(
            packed_number(digits, bits as nat, k - 1),
            digits[k - 1],
            (bits * (k - 1)) as nat,
        );
    }
}

// ---------------------------------------------------------------------------
// Unpacking
// ---------------------------------------------------------------------------

proof fn lemma_unpacked_grows(
    b: Body,
    word: Value,
    array: Value,
    elem: LlvmShape,
    bits: u32,
    width: u32,
    k: int,
)
    ensures
        extends(b, unpacked_elements(b, word, array, elem, bits, width, k).0),
    decreases k,
{
    if k > 0 {
        lemma_unpacked_grows(b, word, array, elem, bits, width, k - 1);
        let (b1, current) = unpacked_elements(b, word, array, elem, bits, width, k - 1);
        let c = unpacked_element(b1, word, current, elem, bits, width, (k - 1) as u32).0;
        assert(extends(b1, c));
        lemma_extends_transitive(b, b1, c);
    }
}

/// The code for taking an element out of an integer gives its bits.
proof fn lemma_unpacked_element(
    b: Body,
    env: Env,
    word: Value,
    array: Value,
    elem: LlvmShape,
    length: u64,
    bits: u32,
    width: u32,
    index: u32,
    digits: Seq<nat>,
    t: Seq<Val>,
)
    requires
        b.insts.len() + 6 < usize::MAX,
        valid(b, word),
        valid(b, array),
        is_float(elem, bits),
        value_type(b, word) == LlvmShape::Integer(width),
        value_of(b, env, word) == Val::Int(packed_number(digits, bits as nat, length as int)),
        are_digits(digits, bits as nat),
        digits.len() == length,
        length * bits == width,
        index < length,
        value_of(b, env, array) == Val::Aggregate(t),
        t.len() == length,
    ensures
        ({
            let (c, r) = unpacked_element(b, word, array, elem, bits, width, index);
            &&& extends(b, c)
            &&& valid(c, r)
            &&& value_of(c, env, r) == Val::Aggregate(
                t.update(index as int, Val::Int(digits[index as int])),
            )
        }),
{
    lemma2_to64();
    let n = packed_number(digits, bits as nat, length as int);
    let place = (bits * index) as nat;
    assert(place + bits <= width) by (nonlinear_arith)
        requires
            place == bits * index,
            index + 1 <= length,
            length * bits == width,
    ;
    lemma_digit(digits, bits as nat, length as int, index as int);
    lemma_packed_bound(digits, bits as nat, length as int);
    assert(bits * length == length * bits) by (nonlinear_arith);
    let (b1, shifted) = if index == 0 {
        (b, word)
    } else {
        let (c, amount) = with_constant(b, width, (index * bits) as u128);
        with_binary(c, BinOp::LShr, word, amount)
    };
    if index > 0 {
        assert(index * bits == bits * index) by (nonlinear_arith);
        lemma_below_pow2(width as nat);
        let amount_bits = (index * bits) as u128;
        lemma_constant_value(b, env, width, amount_bits);
        let (c, amount) = with_constant(b, width, amount_bits);
        lemma_extends_value(b, c, word);
        lemma_value_stable(b, c, env, word);
        assert(extends(c, b1));
        lemma_extends_transitive(b, c, b1);
        let op = Op::Binary { op: BinOp::LShr, lhs: word, rhs: amount };
        lemma_operand_of_new(c, env, op, LlvmShape::Integer(width), word);
        lemma_operand_of_new(c, env, op, LlvmShape::Integer(width), amount);
        assert(value_of(b1, env, shifted) == Val::Int(n / pow2(place)));
    } else {
        assert(bits * 0 == 0) by (nonlinear_arith);
        assert(n / pow2(0) == n) by (nonlinear_arith)
            requires
                pow2(0) == 1,
        ;
    }
    assert(value_of(b1, env, shifted) == Val::Int(n / pow2(place)));
    assert(value_type(b1, shifted) == LlvmShape::Integer(width));
    let narrow_ty = LlvmShape::Integer(bits);
    let (b2, narrow) = if bits == width {
        (b1, shifted)
    } else {
        with_cast(b1, CastOp::Trunc, shifted, narrow_ty)
    };
    if bits != width {
        lemma_new_cast(b1, env, CastOp::Trunc, shifted, narrow_ty);
        lemma_extends_transitive(b, b1, b2);
    } else {
        // The whole integer is one element.
        assert(length == 1) by (nonlinear_arith)
            requires
                length * bits == bits,
                bits > 0,
        ;
        lemma_small_mod(n, pow2(bits as nat));
    }
    assert(value_of(b2, env, narrow) == Val::Int(digits[index as int]));
    lemma_new_cast(b2, env, CastOp::Bitcast, narrow, elem);
    let (b3, x) = with_cast(b2, CastOp::Bitcast, narrow, elem);
    lemma_extends_transitive(b, b2, b3);
    lemma_extends_value(b, b3, array);
    lemma_value_stable(b, b3, env, array);
    lemma_insert_value(b3, env, array, x, index, t);
    lemma_extends_transitive(b, b3, with_insert(b3, array, x, index).0);
}

/// The first `k` digits as values, and undefined elements behind them.
spec fn unpacked_so_far(digits: Seq<nat>, k: int) -> Seq<Val> {
    Seq::new(
        digits.len(),
        |i: int|
            if i < k {
                Val::Int(digits[i])
            } else {
                Val::Undef
            },
    )
}

proof fn lemma_unpacked_value(
    b: Body,
    env: Env,
    word: Value,
    array: Value,
    elem: LlvmShape,
    length: u64,
    bits: u32,
    width: u32,
    k: int,
    digits: Seq<nat>,
)
    requires
        valid(b, word),
        valid(b, array),
        is_float(elem, bits),
        value_type(b, word) == LlvmShape::Integer(width),
        value_of(b, env, word) == Val::Int(packed_number(digits, bits as nat, length as int)),
        are_digits(digits, bits as nat),
        digits.len() == length,
        length * bits == width,
        0 <= k <= length,
        value_of(b, env, array) == Val::Aggregate(unpacked_so_far(digits, 0)),
        unpacked_elements(b, word, array, elem, bits, width, k).0.insts.len() + 8 < usize::MAX,
    ensures
        ({
            let (c, r) = unpacked_elements(b, word, array, elem, bits, width, k);
            &&& extends(b, c)
            &&& valid(c, r)
            &&& value_of(c, env, r) == Val::Aggregate(unpacked_so_far(digits, k))
        }),
    decreases k,
{
    lemma_unpacked_grows(b, word, array, elem, bits, width, k);
    if k > 0 {
        let (b1, current) = unpacked_elements(b, word, array, elem, bits, width, k - 1);
        assert(k <= length <= u32::MAX) by (nonlinear_arith)
            requires
                length * bits == width,
                bits >= 1,
                width <= u32::MAX,
                k <= length,
        ;
        let index = (k - 1) as u32;
        let (c, r) = unpacked_element(b1, word, current, elem, bits, width, index);
        assert(extends(b1, c));
        lemma_unpacked_value(b, env, word, array, elem, length, bits, width, k - 1, digits);
        lemma_extends_value(b, b1, word);
        lemma_value_stable(b, b1, env, word);
        let t = unpacked_so_far(digits, k - 1);
        lemma_unpacked_element(
            b1,
            env,
            word,
            current,
            elem,
            length,
            bits,
            width,
            index,
            digits,
            t,
        );
        assert(t.update(k - 1, Val::Int(digits[k - 1])) =~= unpacked_so_far(digits, k));
    }
}

// ---------------------------------------------------------------------------
// Unions
// ---------------------------------------------------------------------------

proof fn lemma_integer_carrier(fields: Seq<LlvmShape>, size: u64, from: int)
    requires
        0 <= from,
        fields.len() <= u32::MAX,
        integer_carrier(fields, size, from) is Some,
    ensures
        ({
            let (slot, width) = integer_carrier(fields, size, from)->Some_0;
            slot < fields.len() && fields[slot as int] == LlvmShape::Integer(width)
        }),
    decreases fields.len() - from,
{
    match fields[from] {
        LlvmShape::Integer(width) => {
            if (width + 7) / 8 != size {
                lemma_integer_carrier(fields, size, from + 1);
            }
        },
        _ => {
            lemma_integer_carrier(fields, size, from + 1);
        },
    }
}

/// Whether `c` is `b` with code behind it that neither reserves, reads nor writes
/// memory.
pub open spec fn stays_in_registers(b: Body, c: Body) -> bool {
    &&& extends(b, c)
    &&& forall|i: int|
        b.insts.len() <= i < c.insts.len() ==> {
            &&& !((#[trigger] c.insts[i]).op is Alloca)
            &&& !(c.insts[i].op is Load)
            &&& !(c.insts[i].op is Store)
            &&& !(c.insts[i].op is CallTransfer)
        }
}

proof fn lemma_registers_transitive(a: Body, b: Body, c: Body)
    requires
        stays_in_registers(a, b),
        stays_in_registers(b, c),
    ensures
        stays_in_registers(a, c),
{
    lemma_extends_transitive(a, b, c);
    assert forall|i: int| a.insts.len() <= i < c.insts.len() implies {
        &&& !((#[trigger] c.insts[i]).op is Alloca)
        &&& !(c.insts[i].op is Load)
        &&& !(c.insts[i].op is Store)
        &&& !(c.insts[i].op is CallTransfer)
    } by {
        if i < b.insts.len() {
            assert(c.insts[i] == b.insts[i]);
        }
    }
}

proof fn lemma_packed_in_registers(b: Body, v: Value, bits: u32, width: u32, k: int)
    ensures
        stays_in_registers(b, packed_elements(b, v, bits, width, k).0),
    decreases k,
{
    if k > 0 {
        lemma_packed_in_registers(b, v, bits, width, k - 1);
        let (b1, before) = packed_elements(b, v, bits, width, k - 1);
        if let Ok(joined) = before {
            let (b2, element) = packed_element(b1, v, bits, width, (k - 1) as u32);
            assert(stays_in_registers(b1, b2));
            lemma_registers_transitive(b, b1, b2);
            if let Ok(x) = element {
                if let Some(previous) = joined {
                    let (b3, both) = with_binary(b2, BinOp::Or, previous, x);
                    assert(stays_in_registers(b2, b3));
                    lemma_registers_transitive(b, b2, b3);
                }
            }
        }
    }
}

proof fn lemma_unpacked_in_registers(
    b: Body,
    word: Value,
    array: Value,
    elem: LlvmShape,
    bits: u32,
    width: u32,
    k: int,
)
    ensures
        stays_in_registers(b, unpacked_elements(b, word, array, elem, bits, width, k).0),
    decreases k,
{
    if k > 0 {
        lemma_unpacked_in_registers(b, word, array, elem, bits, width, k - 1);
        let (b1, current) = unpacked_elements(b, word, array, elem, bits, width, k - 1);
        let c = unpacked_element(b1, word, current, elem, bits, width, (k - 1) as u32).0;
        assert(stays_in_registers(b1, c));
        lemma_registers_transitive(b, b1, c);
    }
}

/// Packing a float array into a union's integer and unpacking it uses no memory.
pub proof fn law_packing_uses_no_memory(
    b: Body,
    v: Value,
    field: LlvmShape,
    storage: LlvmShape,
    size: u64,
)
    ensures
        stays_in_registers(b, packed_union(b, v, field, storage, size).0),
        stays_in_registers(b, unpacked_union(b, v, field, storage, size).0),
{
    if let Some((length, bits, slot, width)) = float_packing(field, storage, size) {
        let n = length as int;
        lemma_packed_in_registers(b, v, bits, width, n);
        let (b1, joined) = packed_elements(b, v, bits, width, n);
        if joined is Ok {
            let c = packed_union(b, v, field, storage, size).0;
            assert(stays_in_registers(b1, c));
            lemma_registers_transitive(b, b1, c);
        }
        let (d1, extracted) = with_extract(b, v, slot);
        assert(stays_in_registers(b, d1));
        if let Ok(word) = extracted {
            let (d2, array) = with_undef(d1, field);
            assert(stays_in_registers(b, d2));
            let elem = *field->Array_0;
            lemma_unpacked_in_registers(d2, word, array, elem, bits, width, n);
            let d = unpacked_union(b, v, field, storage, size).0;
            lemma_registers_transitive(b, d2, d);
        }
    }
}

/// Whether `word` is an integer of `length` numbers of `bits` bits each: bits
/// `i * bits` to `(i + 1) * bits` are `digits[i]`.
pub open spec fn joins(word: Val, digits: Seq<nat>, bits: nat, length: int) -> bool {
    &&& word is Int
    &&& word->Int_0 < pow2((bits * length) as nat)
    &&& forall|i: int|
        0 <= i < length ==> (word->Int_0 / pow2((bits * i) as nat)) % pow2(bits)
            == #[trigger] digits[i]
}

/// Packing a float array gives the integer whose digits its elements are.
#[verifier::rlimit(60)]
proof fn lemma_packs(
    b: Body,
    env: Env,
    v: Value,
    field: LlvmShape,
    storage: LlvmShape,
    size: u64,
    digits: Seq<nat>,
)
    requires
        valid(b, v),
        value_type(b, v) == field,
        storage is Struct,
        storage->Struct_0.len() <= u32::MAX,
        float_packing(field, storage, size) is Some,
        ({
            let (length, bits, slot, width) = float_packing(field, storage, size)->Some_0;
            &&& length > 0
            &&& digits.len() == length
            &&& are_digits(digits, bits as nat)
        }),
        value_of(b, env, v) == Val::Aggregate(digit_values(digits)),
        packed_union(b, v, field, storage, size).0.insts.len() + 8 < usize::MAX,
    ensures
        ({
            let (length, bits, slot, width) = float_packing(field, storage, size)->Some_0;
            let (c, u) = packed_union(b, v, field, storage, size);
            let slots = value_of(c, env, u->Some_0);
            let number = packed_number(digits, bits as nat, length as int);
            &&& u is Some
            &&& valid(c, u->Some_0)
            &&& value_type(c, u->Some_0) == storage
            &&& slots is Aggregate
            &&& slots->Aggregate_0.len() == storage->Struct_0.len()
            &&& slot < storage->Struct_0.len()
            &&& storage->Struct_0[slot as int] == LlvmShape::Integer(width)
            &&& slots->Aggregate_0[slot as int] == Val::Int(number)
            &&& joins(slots->Aggregate_0[slot as int], digits, bits as nat, length as int)
        }),
{
    let fields = storage->Struct_0;
    let (length, bits, slot, width) = float_packing(field, storage, size)->Some_0;
    let n = length as int;
    let elem = *field->Array_0;
    assert(is_float(elem, bits));
    lemma_integer_carrier(fields, size, 0);
    lemma_packed_grows(b, v, bits, width, n);
    let (b1, joined) = packed_elements(b, v, bits, width, n);
    lemma_packed_length(b, v, field, storage, size);
    lemma_packed_value(b, env, v, elem, length, bits, width, n, digits);
    let word = joined->Ok_0->Some_0;
    let (b2, undef) = with_undef(b1, storage);
    assert(extends(b1, b2));
    lemma_extends_value(b1, b2, word);
    lemma_value_stable(b1, b2, env, word);
    let t = undefined(storage)->Aggregate_0;
    assert(value_of(b2, env, undef) == undefined(storage));
    let (c, w) = with_insert(b2, undef, word, slot);
    lemma_insert_value(b2, env, undef, word, slot, t);
    assert((c, Some(w)) == packed_union(b, v, field, storage, size));
    lemma_packed_bound(digits, bits as nat, n);
    assert forall|i: int| 0 <= i < n implies (packed_number(digits, bits as nat, n) / pow2(
        (bits * i) as nat,
    )) % pow2(bits as nat) == #[trigger] digits[i] by {
        lemma_digit(digits, bits as nat, n, i);
    }
}

/// A float array that can be packed into a union's integer comes back out of it, and
/// element `i`, of `w` bits, is bits `i * w` to `(i + 1) * w` of the integer.
///
/// The elements are given by their bits: one that is undefined has none, and leaves
/// the whole integer undefined.
#[verifier::rlimit(80)]
pub proof fn law_packed_arrays_unpack(
    b: Body,
    env: Env,
    v: Value,
    field: LlvmShape,
    storage: LlvmShape,
    size: u64,
    digits: Seq<nat>,
)
    requires
        valid(b, v),
        value_type(b, v) == field,
        storage is Struct,
        storage->Struct_0.len() <= u32::MAX,
        float_packing(field, storage, size) is Some,
        ({
            let (length, bits, slot, width) = float_packing(field, storage, size)->Some_0;
            &&& length > 0
            &&& digits.len() == length
            &&& are_digits(digits, bits as nat)
        }),
        value_of(b, env, v) == Val::Aggregate(digit_values(digits)),
        ({
            let (c, u) = packed_union(b, v, field, storage, size);
            &&& c.insts.len() + 8 < usize::MAX
            &&& unpacked_union(c, u->Some_0, field, storage, size).0.insts.len() + 8 < usize::MAX
        }),
    ensures
        ({
            let (length, bits, slot, width) = float_packing(field, storage, size)->Some_0;
            let (c, u) = packed_union(b, v, field, storage, size);
            let (d, r) = unpacked_union(c, u->Some_0, field, storage, size);
            let slots = value_of(c, env, u->Some_0);
            &&& u is Some
            &&& valid(c, u->Some_0)
            &&& value_type(c, u->Some_0) == storage
            &&& slots is Aggregate
            &&& joins(slots->Aggregate_0[slot as int], digits, bits as nat, length as int)
            &&& r is Some
            &&& value_of(d, env, r->Some_0) == value_of(b, env, v)
        }),
{
    let (length, bits, slot, width) = float_packing(field, storage, size)->Some_0;
    let n = length as int;
    let elem = *field->Array_0;
    assert(is_float(elem, bits));
    lemma_packs(b, env, v, field, storage, size, digits);
    let (c, u) = packed_union(b, v, field, storage, size);
    let w = u->Some_0;
    let kept = value_of(c, env, w)->Aggregate_0;
    lemma_extract_value(c, env, w, slot, kept);
    let (d1, extracted) = with_extract(c, w, slot);
    let read = extracted->Ok_0;
    let (d2, array) = with_undef(d1, field);
    assert(extends(d1, d2));
    lemma_unpacked_grows(d2, read, array, elem, bits, width, n);
    lemma_extends_value(d1, d2, read);
    lemma_value_stable(d1, d2, env, read);
    assert(value_of(d2, env, array) == undefined(field));
    assert(undefined(field)->Aggregate_0 =~= unpacked_so_far(digits, 0));
    lemma_unpacked_value(d2, env, read, array, elem, length, bits, width, n, digits);
    assert(unpacked_so_far(digits, n) =~= digit_values(digits));
}

/// Unpacking a float array from any union value gives the digits of the integer in its
/// slot, the lowest first.
#[verifier::rlimit(60)]
pub proof fn law_unpacked_arrays_are_digits(
    b: Body,
    env: Env,
    v: Value,
    field: LlvmShape,
    storage: LlvmShape,
    size: u64,
    slots: Seq<Val>,
    digits: Seq<nat>,
)
    requires
        valid(b, v),
        value_type(b, v) == storage,
        storage is Struct,
        storage->Struct_0.len() <= u32::MAX,
        value_of(b, env, v) == Val::Aggregate(slots),
        slots.len() == storage->Struct_0.len(),
        float_packing(field, storage, size) is Some,
        ({
            let (length, bits, slot, width) = float_packing(field, storage, size)->Some_0;
            &&& length > 0
            &&& digits.len() == length
            &&& are_digits(digits, bits as nat)
            &&& slots[slot as int] == Val::Int(
                packed_number(digits, bits as nat, length as int),
            )
        }),
        b.insts.len() + 8 < usize::MAX,
        unpacked_union(b, v, field, storage, size).0.insts.len() + 8 < usize::MAX,
    ensures
        ({
            let (d, r) = unpacked_union(b, v, field, storage, size);
            &&& r is Some
            &&& value_of(d, env, r->Some_0) == Val::Aggregate(digit_values(digits))
        }),
{
    let (length, bits, slot, width) = float_packing(field, storage, size)->Some_0;
    let n = length as int;
    let elem = *field->Array_0;
    assert(is_float(elem, bits));
    lemma_integer_carrier(storage->Struct_0, size, 0);
    lemma_extract_value(b, env, v, slot, slots);
    let (d1, extracted) = with_extract(b, v, slot);
    let read = extracted->Ok_0;
    let (d2, array) = with_undef(d1, field);
    assert(extends(d1, d2));
    lemma_unpacked_grows(d2, read, array, elem, bits, width, n);
    lemma_extends_value(d1, d2, read);
    lemma_value_stable(d1, d2, env, read);
    assert(value_of(d2, env, array) == undefined(field));
    assert(undefined(field)->Aggregate_0 =~= unpacked_so_far(digits, 0));
    lemma_unpacked_value(d2, env, read, array, elem, length, bits, width, n, digits);
    assert(unpacked_so_far(digits, n) =~= digit_values(digits));
}

/// A float array that was just written to a union's integer slot reads back without
/// memory, and its elements are the digits of the integer.
pub proof fn law_packed_floats_read_back(
    b: Body,
    env: Env,
    v: Value,
    new: Value,
    u: MirUnionType,
    index: u32,
    digits: Seq<nat>,
)
    requires
        valid(b, v),
        valid(b, new),
        index < u.field_types@.len(),
        union_type_storage(u) is Ok,
        union_type_storage(u)->Ok_0 is Struct,
        union_type_storage(u)->Ok_0->Struct_0.len() <= u32::MAX,
        lowered(u.field_types@[index as int]) == Ok::<LlvmShape, LowerError>(
            value_type(b, new),
        ),
        !zero_sized(value_type(b, new)),
        float_packing(value_type(b, new), union_type_storage(u)->Ok_0, u.total_size) is Some,
        ({
            let (length, bits, slot, width) = float_packing(
                value_type(b, new),
                union_type_storage(u)->Ok_0,
                u.total_size,
            )->Some_0;
            &&& length > 0
            &&& digits.len() == length
            &&& are_digits(digits, bits as nat)
        }),
        value_of(b, env, new) == Val::Aggregate(digit_values(digits)),
        ({
            let (c, w) = inserted_union_field(b, v, new, u, index);
            &&& c.insts.len() + 8 < usize::MAX
            &&& extracted_union_field(c, w->Ok_0, u, index).0.insts.len() + 8 < usize::MAX
        }),
    ensures
        ({
            let (length, bits, slot, width) = float_packing(
                value_type(b, new),
                union_type_storage(u)->Ok_0,
                u.total_size,
            )->Some_0;
            let (c, w) = inserted_union_field(b, v, new, u, index);
            let (d, r) = extracted_union_field(c, w->Ok_0, u, index);
            let slots = value_of(c, env, w->Ok_0);
            &&& w is Ok
            &&& slots is Aggregate
            &&& joins(slots->Aggregate_0[slot as int], digits, bits as nat, length as int)
            &&& r is Ok
            &&& value_of(d, env, r->Ok_0) == value_of(b, env, new)
            &&& stays_in_registers(b, c)
            &&& stays_in_registers(c, d)
        }),
{
    let field = value_type(b, new);
    let storage = union_type_storage(u)->Ok_0;
    lemma_packs(b, env, new, field, storage, u.total_size, digits);
    let (c, packed) = packed_union(b, new, field, storage, u.total_size);
    let w = packed->Some_0;
    assert((c, Ok::<Value, LowerError>(w)) == inserted_union_field(b, v, new, u, index));
    law_packed_arrays_unpack(b, env, new, field, storage, u.total_size, digits);
    law_packing_uses_no_memory(b, new, field, storage, u.total_size);
    law_packing_uses_no_memory(c, w, field, storage, u.total_size);
}

/// Packing a union field takes the instructions that joining its elements does,
/// and up to two more.
proof fn lemma_packed_length(
    b: Body,
    v: Value,
    field: LlvmShape,
    storage: LlvmShape,
    size: u64,
)
    requires
        float_packing(field, storage, size) is Some,
    ensures
        ({
            let (length, bits, slot, width) = float_packing(field, storage, size)->Some_0;
            packed_elements(b, v, bits, width, length as int).0.insts.len() <= packed_union(
                b,
                v,
                field,
                storage,
                size,
            ).0.insts.len()
        }),
{
}

} // verus!
