//! What the emitted code computes, as far as the laws of the library speak of
//! it.
//!
//! Integers are natural numbers below two to their width, and a generic pointer
//! made from an integer is that integer. Moving a pointer between address spaces
//! keeps what it points to. Memory holds bytes. Indices count as unsigned, and
//! what the block transfers move is not described.

use crate::array_ops::{
    extracted_bounded, extracted_candidates, extracted_small, element_address, selected_address,
    selected_candidate, selected_element, selected_on_match, small_element_address,
    MAX_SSA_ARRAY_ELEMENTS,
};
use crate::ir::{
    element_type, extends, lemma_extends_transitive, lemma_extends_value, rank, valid, value_type,
    with_compare, with_constant, with_extract, with_gep, with_insert, with_op, with_select, BinOp,
    Body, CastOp, GepIndex, GepPath, Intrinsic, Op, Predicate, Value,
};
use crate::layout::{natural_offset, size_align};
use crate::llvm::LlvmShape;
use crate::values::{byte_size, decoded, encoded, is_place, Byte, Val};
use vstd::arithmetic::div_mod::*;
use vstd::arithmetic::power2::*;
use vstd::prelude::*;

verus! {

/// What each byte of memory holds, by the place it belongs to and its offset.
pub type Memory = spec_fn(Val, int) -> Byte;

/// What the code is run on.
pub ghost struct Env {
    pub args: Seq<Val>,
    /// What memory holds before the code runs.
    pub memory: Memory,
}

/// The address computed from `base` by `indices` into `elem`.
pub open spec fn computed_address(base: Val, indices: Seq<Val>, elem: LlvmShape) -> Val {
    if base is Undef {
        Val::Undef
    } else {
        Val::Address(Box::new(base), indices, elem)
    }
}

/// How many bytes `indices` into `elem` lead on, where they are numbers.
pub open spec fn index_offset(indices: Seq<Val>, elem: LlvmShape) -> Option<int> {
    if size_align(elem) is None || indices.len() == 0 || !(indices[0] is Int) {
        None
    } else if indices.len() == 1 {
        Some(indices[0]->Int_0 * byte_size(elem))
    } else if indices.len() > 2 || !(indices[1] is Int) {
        None
    } else {
        let start = indices[0]->Int_0 * byte_size(elem);
        let j = indices[1]->Int_0;
        match elem {
            LlvmShape::Struct(fields) => if j < fields.len() {
                Some(start + natural_offset(fields, j as int))
            } else {
                None
            },
            LlvmShape::Array(e, _) => Some(start + j * byte_size(*e)),
            _ => None,
        }
    }
}

/// The place that an address belongs to, and its offset there. An address whose
/// offset is not known is a place of its own.
pub open spec fn place_of(address: Val) -> (Val, int)
    decreases address,
{
    match address {
        Val::Address(base, indices, elem) => match index_offset(indices, elem) {
            None => (address, 0),
            Some(offset) => {
                let (place, start) = place_of(*base);
                (place, start + offset)
            },
        },
        _ => (address, 0),
    }
}

/// The `size` bytes at an address.
pub open spec fn bytes_at(memory: Memory, address: Val, size: int) -> Seq<Byte> {
    let (place, start) = place_of(address);
    Seq::new(size as nat, |i: int| memory(place, start + i))
}

/// What memory holds at an address, as a value of type `t`.
pub open spec fn loaded(memory: Memory, address: Val, t: LlvmShape) -> Val {
    if address is Undef || size_align(t) is None {
        Val::Undef
    } else {
        decoded(bytes_at(memory, address, byte_size(t)), t)
    }
}

/// Memory after value `x` of type `t` was stored at an address.
pub open spec fn written(memory: Memory, address: Val, x: Val, t: LlvmShape) -> Memory {
    let (place, start) = place_of(address);
    let bytes = encoded(x, t);
    if address is Undef {
        memory
    } else if size_align(t) is None {
        |p: Val, o: int| Byte::Undef
    } else {
        |p: Val, o: int|
            if p == place && start <= o < start + bytes.len() {
                bytes[o - start]
            } else {
                memory(p, o)
            }
    }
}

/// Whether `n` bytes at `dst` and `n` bytes at `src` share some but not all.
pub open spec fn partly_overlap(dst: Val, src: Val, n: nat) -> bool {
    let (to, at) = place_of(dst);
    let (from, start) = place_of(src);
    to == from && at != start && at < start + n && start < at + n
}

/// Memory after `length` bytes were transferred from `src` to `dst`. Ranges that
/// share some bytes may be transferred only where that is allowed for.
pub open spec fn transferred(
    memory: Memory,
    dst: Val,
    src: Val,
    length: Val,
    may_overlap: bool,
) -> Memory {
    let (to, at) = place_of(dst);
    let (from, start) = place_of(src);
    match length {
        Val::Int(n) => if n == 0 {
            memory
        } else if dst is Undef || src is Undef || (!may_overlap && partly_overlap(dst, src, n)) {
            |p: Val, o: int| Byte::Undef
        } else {
            |p: Val, o: int|
                if p == to && at <= o < at + n {
                    memory(from, start + (o - at))
                } else {
                    memory(p, o)
                }
        },
        _ => |p: Val, o: int| Byte::Undef,
    }
}

/// An undefined value of type `ty`; aggregates keep their fields apart.
pub open spec fn undefined(ty: LlvmShape) -> Val {
    match ty {
        LlvmShape::Struct(fields) => Val::Aggregate(Seq::new(fields.len(), |i: int| Val::Undef)),
        LlvmShape::Array(_, n) => Val::Aggregate(Seq::new(n as nat, |i: int| Val::Undef)),
        _ => Val::Undef,
    }
}

/// `x`, an integer of `from` bits, extended by its sign to `to` bits.
pub open spec fn sign_extended(x: nat, from: nat, to: nat) -> nat {
    if from > 0 && x >= pow2((from - 1) as nat) {
        (x + pow2(to) - pow2(from)) as nat
    } else {
        x
    }
}

/// Whether values of a type are numbers.
pub open spec fn is_number_type(t: LlvmShape) -> bool {
    t is Integer || t is Half || t is Float || t is Double
}

/// The result of a scalar conversion. The address of a place is still that place
/// as an integer of 64 bits or more.
pub open spec fn cast_value(kind: CastOp, x: Val, from: LlvmShape, to: LlvmShape) -> Val {
    match (x, from, to) {
        (_, LlvmShape::Pointer(s), LlvmShape::Pointer(d)) => if s != d && kind
            == CastOp::AddrSpaceCast || s == d && kind == CastOp::Bitcast {
            x
        } else {
            Val::Undef
        },
        (Val::Int(n), LlvmShape::Integer(w), LlvmShape::Integer(m)) => match kind {
            CastOp::ZExt => Val::Int(n),
            CastOp::SExt => Val::Int(sign_extended(n, w as nat, m as nat)),
            CastOp::Trunc => Val::Int(n % pow2(m as nat)),
            CastOp::Bitcast => Val::Int(n),
            _ => Val::Undef,
        },
        (Val::Int(n), LlvmShape::Integer(_), LlvmShape::Pointer(_)) => if kind
            == CastOp::IntToPtr {
            Val::Int(n)
        } else {
            Val::Undef
        },
        (Val::Int(n), LlvmShape::Pointer(_), LlvmShape::Integer(m)) => if kind
            == CastOp::PtrToInt {
            Val::Int(n % pow2(m as nat))
        } else {
            Val::Undef
        },
        (Val::Int(_), _, _) => if kind == CastOp::Bitcast && is_number_type(from)
            && is_number_type(to) {
            x
        } else {
            Val::Undef
        },
        (_, LlvmShape::Pointer(_), LlvmShape::Integer(m)) => if kind == CastOp::PtrToInt
            && is_place(x) && m >= 64 {
            x
        } else {
            Val::Undef
        },
        (_, LlvmShape::Integer(m), LlvmShape::Pointer(_)) => if kind == CastOp::IntToPtr
            && is_place(x) && m >= 64 {
            x
        } else {
            Val::Undef
        },
        _ => Val::Undef,
    }
}

/// The bits that are set in one of two numbers.
pub open spec fn bit_or(m: nat, n: nat) -> nat
    decreases m,
{
    if m == 0 {
        n
    } else {
        2 * bit_or(m / 2, n / 2) + if m % 2 == 1 || n % 2 == 1 {
            1nat
        } else {
            0nat
        }
    }
}

/// Joining the bits of a number below two to the `k` and of a multiple of it
/// adds them.
pub proof fn lemma_bit_or_adds(m: nat, q: nat, k: nat)
    requires
        m < pow2(k),
    ensures
        bit_or(m, q * pow2(k)) == m + q * pow2(k),
    decreases k,
{
    lemma2_to64();
    if m > 0 {
        let half = pow2((k - 1) as nat);
        lemma_pow2_adds(1, (k - 1) as nat);
        let n = q * pow2(k);
        assert(n == 2 * (q * half)) by (nonlinear_arith)
            requires
                n == q * pow2(k),
                pow2(k) == 2 * half,
        ;
        lemma_bit_or_adds(m / 2, q, (k - 1) as nat);
    }
}

/// The result of an integer operation at `width` bits.
pub open spec fn binary_value(op: BinOp, x: Val, y: Val, width: nat) -> Val {
    match (x, y) {
        (Val::Int(m), Val::Int(n)) => match op {
            BinOp::Add => Val::Int((m + n) % pow2(width)),
            BinOp::Sub => Val::Int(((m - n) % pow2(width) as int) as nat),
            BinOp::Mul => Val::Int((m * n) % pow2(width)),
            BinOp::URem => if n > 0 {
                Val::Int(m % n)
            } else {
                Val::Undef
            },
            BinOp::Shl => if n < width {
                Val::Int((m * pow2(n)) % pow2(width))
            } else {
                Val::Undef
            },
            BinOp::LShr => if n < width {
                Val::Int(m / pow2(n))
            } else {
                Val::Undef
            },
            BinOp::Or => Val::Int(bit_or(m, n)),
        },
        _ => Val::Undef,
    }
}

/// The result of a comparison.
pub open spec fn compare_value(predicate: Predicate, x: Val, y: Val) -> Val {
    match (x, y) {
        (Val::Int(m), Val::Int(n)) => {
            let holds = match predicate {
                Predicate::Eq => m == n,
                Predicate::Ult => m < n,
                Predicate::Ule => m <= n,
            };
            Val::Int(
                if holds {
                    1
                } else {
                    0
                },
            )
        },
        _ => Val::Undef,
    }
}

/// What value `v` is when the code is run on `env`.
pub open spec fn value_of(b: Body, env: Env, v: Value) -> Val
    decreases rank(v), 1int,
{
    match v {
        Value::Arg(i) => if i < env.args.len() {
            env.args[i as int]
        } else {
            Val::Undef
        },
        Value::Inst(i) => if i < b.insts.len() {
            let inst = b.insts[i as int];
            match inst.op {
                Op::Constant { width, bits } => Val::Int(bits as nat),
                Op::Undef => undefined(inst.ty),
                Op::ExtractValue { aggregate, index } => match operand_value(
                    b,
                    env,
                    aggregate,
                    v,
                ) {
                    Val::Aggregate(s) => if index < s.len() {
                        s[index as int]
                    } else {
                        Val::Undef
                    },
                    _ => Val::Undef,
                },
                Op::InsertValue { aggregate, value, index } => match operand_value(
                    b,
                    env,
                    aggregate,
                    v,
                ) {
                    Val::Aggregate(s) => if index < s.len() {
                        Val::Aggregate(
                            s.update(index as int, operand_value(b, env, value, v)),
                        )
                    } else {
                        Val::Undef
                    },
                    _ => Val::Undef,
                },
                Op::Cast { kind, value } => cast_value(
                    kind,
                    operand_value(b, env, value, v),
                    value_type(b, value),
                    inst.ty,
                ),
                Op::Binary { op, lhs, rhs } => match inst.ty {
                    LlvmShape::Integer(width) => binary_value(
                        op,
                        operand_value(b, env, lhs, v),
                        operand_value(b, env, rhs, v),
                        width as nat,
                    ),
                    _ => Val::Undef,
                },
                Op::Compare { predicate, lhs, rhs } => compare_value(
                    predicate,
                    operand_value(b, env, lhs, v),
                    operand_value(b, env, rhs, v),
                ),
                Op::Select { condition, on_true, on_false, array_address } => match operand_value(
                    b,
                    env,
                    condition,
                    v,
                ) {
                    Val::Int(c) => if c != 0 {
                        operand_value(b, env, on_true, v)
                    } else {
                        operand_value(b, env, on_false, v)
                    },
                    _ => Val::Undef,
                },
                Op::GetElementPtr { base, path, inbounds } => computed_address(
                    operand_value(b, env, base, v),
                    match path {
                        GepPath::One(x) => seq![index_value(b, env, x, v)],
                        GepPath::Two(x, y) => seq![
                            index_value(b, env, x, v),
                            index_value(b, env, y, v),
                        ],
                    },
                    inst.elem,
                ),
                Op::Alloca { count, align } => Val::Slot(i as nat),
                Op::AddressOf => match inst.symbol {
                    Some(symbol) => Val::Global(symbol),
                    None => Val::Undef,
                },
                Op::Load { ptr, align, is_volatile } => loaded(
                    memory_before(b, env, i),
                    operand_value(b, env, ptr, v),
                    inst.ty,
                ),
                _ => Val::Undef,
            }
        } else {
            Val::Undef
        },
    }
}

/// What memory holds before instruction `k` runs.
pub open spec fn memory_before(b: Body, env: Env, k: usize) -> Memory
    decreases k as int, 2int,
{
    if k == 0 || k > b.insts.len() {
        env.memory
    } else {
        let i = (k - 1) as usize;
        let past = memory_before(b, env, i);
        match b.insts[i as int].op {
            Op::Store { value, ptr, align, is_volatile } => written(
                past,
                operand_value(b, env, ptr, Value::Inst(i)),
                operand_value(b, env, value, Value::Inst(i)),
                if rank(value) < rank(Value::Inst(i)) {
                    value_type(b, value)
                } else {
                    LlvmShape::Void
                },
            ),
            Op::CallTransfer { callee, dst, src, length, volatile_flag } => transferred(
                past,
                operand_value(b, env, dst, Value::Inst(i)),
                operand_value(b, env, src, Value::Inst(i)),
                operand_value(b, env, length, Value::Inst(i)),
                callee matches Intrinsic::MemTransfer { may_overlap, .. } && may_overlap,
            ),
            _ => past,
        }
    }
}

/// What memory holds after the code has run.
pub open spec fn memory_after(b: Body, env: Env) -> Memory {
    memory_before(b, env, b.insts.len() as usize)
}

/// What an index of the address that `v` is comes to.
pub open spec fn index_value(b: Body, env: Env, index: GepIndex, v: Value) -> Val
    decreases rank(v), 0int,
{
    match index {
        GepIndex::Constant(j) => Val::Int(j as nat),
        GepIndex::Value(x) => if rank(x) < rank(v) {
            value_of(b, env, x)
        } else {
            Val::Undef
        },
    }
}

/// What operand `o` of the instruction that gives `v` is.
pub open spec fn operand_value(b: Body, env: Env, o: Value, v: Value) -> Val
    decreases rank(v), 0int,
{
    if rank(o) < rank(v) {
        value_of(b, env, o)
    } else {
        Val::Undef
    }
}

/// A value stays what it is as code is added behind it.
pub proof fn lemma_value_stable(b: Body, c: Body, env: Env, v: Value)
    requires
        extends(b, c),
        valid(b, v),
    ensures
        value_of(c, env, v) == value_of(b, env, v),
    decreases rank(v), 1int,
{
    match v {
        Value::Arg(_) => {},
        Value::Inst(i) => {
            let inst = b.insts[i as int];
            assert(c.insts[i as int] == inst);
            match inst.op {
                Op::ExtractValue { aggregate, index } => {
                    lemma_operand_stable(b, c, env, aggregate, v);
                },
                Op::InsertValue { aggregate, value, index } => {
                    lemma_operand_stable(b, c, env, aggregate, v);
                    lemma_operand_stable(b, c, env, value, v);
                },
                Op::Cast { kind, value } => {
                    lemma_operand_stable(b, c, env, value, v);
                    match value {
                        Value::Arg(_) => {},
                        Value::Inst(j) => {
                            if j < i {
                                assert(c.insts[j as int] == b.insts[j as int]);
                            }
                        },
                    }
                },
                Op::Binary { op, lhs, rhs } => {
                    lemma_operand_stable(b, c, env, lhs, v);
                    lemma_operand_stable(b, c, env, rhs, v);
                },
                Op::Compare { predicate, lhs, rhs } => {
                    lemma_operand_stable(b, c, env, lhs, v);
                    lemma_operand_stable(b, c, env, rhs, v);
                },
                Op::Select { condition, on_true, on_false, array_address } => {
                    lemma_operand_stable(b, c, env, condition, v);
                    lemma_operand_stable(b, c, env, on_true, v);
                    lemma_operand_stable(b, c, env, on_false, v);
                },
                Op::GetElementPtr { base, path, inbounds } => {
                    lemma_operand_stable(b, c, env, base, v);
                    match path {
                        GepPath::One(x) => {
                            lemma_index_stable(b, c, env, x, v);
                        },
                        GepPath::Two(x, y) => {
                            lemma_index_stable(b, c, env, x, v);
                            lemma_index_stable(b, c, env, y, v);
                        },
                    }
                },
                Op::Load { ptr, align, is_volatile } => {
                    lemma_operand_stable(b, c, env, ptr, v);
                    lemma_memory_stable(b, c, env, i);
                },
                _ => {},
            }
        },
    }
}

/// What memory holds before an instruction stays what it is as code is added
/// behind it.
pub proof fn lemma_memory_stable(b: Body, c: Body, env: Env, k: usize)
    requires
        extends(b, c),
        k <= b.insts.len(),
    ensures
        memory_before(c, env, k) == memory_before(b, env, k),
    decreases k as int, 2int,
{
    if k > 0 {
        let i = (k - 1) as usize;
        lemma_memory_stable(b, c, env, i);
        assert(c.insts[i as int] == b.insts[i as int]);
        match b.insts[i as int].op {
            Op::Store { value, ptr, align, is_volatile } => {
                lemma_operand_stable(b, c, env, ptr, Value::Inst(i));
                lemma_operand_stable(b, c, env, value, Value::Inst(i));
                match value {
                    Value::Arg(_) => {},
                    Value::Inst(j) => {
                        if j < i {
                            assert(c.insts[j as int] == b.insts[j as int]);
                        }
                    },
                }
            },
            Op::CallTransfer { callee, dst, src, length, volatile_flag } => {
                lemma_operand_stable(b, c, env, dst, Value::Inst(i));
                lemma_operand_stable(b, c, env, src, Value::Inst(i));
                lemma_operand_stable(b, c, env, length, Value::Inst(i));
            },
            _ => {},
        }
    }
}

proof fn lemma_index_stable(b: Body, c: Body, env: Env, index: GepIndex, v: Value)
    requires
        extends(b, c),
        valid(b, v),
    ensures
        index_value(c, env, index, v) == index_value(b, env, index, v),
    decreases rank(v), 0int,
{
    match index {
        GepIndex::Constant(_) => {},
        GepIndex::Value(x) => {
            if rank(x) < rank(v) {
                match x {
                    Value::Arg(_) => {},
                    Value::Inst(_) => {
                        lemma_value_stable(b, c, env, x);
                    },
                }
            }
        },
    }
}

proof fn lemma_operand_stable(b: Body, c: Body, env: Env, o: Value, v: Value)
    requires
        extends(b, c),
        valid(b, v),
    ensures
        operand_value(c, env, o, v) == operand_value(b, env, o, v),
    decreases rank(v), 0int,
{
    if rank(o) < rank(v) {
        match o {
            Value::Arg(_) => {},
            Value::Inst(_) => {
                lemma_value_stable(b, c, env, o);
            },
        }
    }
}

/// In the code that a new instruction ends, an operand of it is what it was.
pub proof fn lemma_operand_of_new(b: Body, env: Env, op: Op, ty: LlvmShape, o: Value)
    requires
        b.insts.len() < usize::MAX,
        valid(b, o),
    ensures
        ({
            let (c, v) = with_op(b, op, ty);
            operand_value(c, env, o, v) == value_of(b, env, o)
        }),
{
    let (c, v) = with_op(b, op, ty);
    lemma_value_stable(b, c, env, o);
}

/// A constant below two to its width is that number.
pub proof fn lemma_constant_value(b: Body, env: Env, width: u32, bits: u128)
    requires
        b.insts.len() < usize::MAX,
        width >= 128 || bits < pow2(width as nat),
    ensures
        ({
            let (c, v) = with_constant(b, width, bits);
            &&& extends(b, c)
            &&& valid(c, v)
            &&& value_type(c, v) == LlvmShape::Integer(width)
            &&& value_of(c, env, v) == Val::Int(bits as nat)
        }),
{
    if width < 128 {
        lemma_small_mod(bits as nat, pow2(width as nat));
    }
}

// ---------------------------------------------------------------------------
// Array elements
// ---------------------------------------------------------------------------

/// Whether an integer type can tell `n` indices apart.
pub open spec fn index_fits(ty: LlvmShape, n: int) -> bool {
    match ty {
        LlvmShape::Integer(width) => width >= 128 || n <= pow2(width as nat),
        _ => false,
    }
}

/// Comparing an index with a candidate and selecting gives the candidate's value
/// where they are equal, and the other value elsewhere.
proof fn lemma_selected_on_match(
    b: Body,
    env: Env,
    index: Value,
    candidate: int,
    on_match: Value,
    otherwise: Value,
    array_address: bool,
    i: nat,
)
    requires
        b.insts.len() + 3 <= usize::MAX,
        valid(b, index),
        valid(b, on_match),
        valid(b, otherwise),
        value_of(b, env, index) == Val::Int(i),
        0 <= candidate < 16,
        index_fits(value_type(b, index), candidate + 1),
    ensures
        ({
            let (c, r) = selected_on_match(
                b,
                index,
                candidate,
                on_match,
                otherwise,
                array_address,
            );
            &&& r is Ok
            &&& extends(b, c)
            &&& c.insts.len() == b.insts.len() + 3
            &&& valid(c, r->Ok_0)
            &&& value_of(c, env, r->Ok_0) == if i == candidate {
                value_of(b, env, on_match)
            } else {
                value_of(b, env, otherwise)
            }
        }),
{
    let width = value_type(b, index)->Integer_0;
    let (b1, constant) = with_constant(b, width, candidate as u128);
    lemma_constant_value(b, env, width, candidate as u128);
    lemma_value_stable(b, b1, env, index);
    let (b2, condition) = with_compare(b1, Predicate::Eq, index, constant);
    let op2 = Op::Compare { predicate: Predicate::Eq, lhs: index, rhs: constant };
    lemma_operand_of_new(b1, env, op2, LlvmShape::Integer(1), index);
    lemma_operand_of_new(b1, env, op2, LlvmShape::Integer(1), constant);
    assert(extends(b1, b2));
    lemma_extends_transitive(b, b1, b2);
    lemma_value_stable(b, b2, env, on_match);
    lemma_value_stable(b, b2, env, otherwise);
    lemma_extends_value(b, b2, on_match);
    lemma_extends_value(b, b2, otherwise);
    let (b3, r) = with_select(b2, condition, on_match, otherwise, array_address);
    let op3 = Op::Select { condition, on_true: on_match, on_false: otherwise, array_address };
    let ty3 = value_type(b2, on_match);
    lemma_operand_of_new(b2, env, op3, ty3, condition);
    lemma_operand_of_new(b2, env, op3, ty3, on_match);
    lemma_operand_of_new(b2, env, op3, ty3, otherwise);
    assert(extends(b2, b3));
    lemma_extends_transitive(b, b2, b3);
}

/// Reading a field or element of an aggregate gives it.
pub proof fn lemma_extract_value(b: Body, env: Env, aggregate: Value, index: u32, s: Seq<Val>)
    requires
        b.insts.len() < usize::MAX,
        valid(b, aggregate),
        value_of(b, env, aggregate) == Val::Aggregate(s),
        index < s.len(),
        element_type(value_type(b, aggregate), index) is Some,
    ensures
        ({
            let (c, r) = with_extract(b, aggregate, index);
            &&& r is Ok
            &&& extends(b, c)
            &&& c.insts.len() == b.insts.len() + 1
            &&& valid(c, r->Ok_0)
            &&& Some(value_type(c, r->Ok_0)) == element_type(value_type(b, aggregate), index)
            &&& value_of(c, env, r->Ok_0) == s[index as int]
        }),
{
    let ty = element_type(value_type(b, aggregate), index)->Some_0;
    lemma_operand_of_new(b, env, Op::ExtractValue { aggregate, index }, ty, aggregate);
}

/// Replacing a field or element of an aggregate replaces it and keeps the
/// others.
pub proof fn lemma_insert_value(
    b: Body,
    env: Env,
    aggregate: Value,
    value: Value,
    index: u32,
    s: Seq<Val>,
)
    requires
        b.insts.len() < usize::MAX,
        valid(b, aggregate),
        valid(b, value),
        value_of(b, env, aggregate) == Val::Aggregate(s),
        index < s.len(),
    ensures
        ({
            let (c, r) = with_insert(b, aggregate, value, index);
            &&& extends(b, c)
            &&& c.insts.len() == b.insts.len() + 1
            &&& valid(c, r)
            &&& value_type(c, r) == value_type(b, aggregate)
            &&& value_of(c, env, r) == Val::Aggregate(
                s.update(index as int, value_of(b, env, value)),
            )
        }),
{
    let op = Op::InsertValue { aggregate, value, index };
    let ty = value_type(b, aggregate);
    lemma_operand_of_new(b, env, op, ty, aggregate);
    lemma_operand_of_new(b, env, op, ty, value);
}

proof fn lemma_selected_element(
    b: Body,
    env: Env,
    array: Value,
    index: Value,
    selected: Value,
    j: int,
    s: Seq<Val>,
    i: nat,
    elem: LlvmShape,
)
    requires
        0 <= j < 16,
        b.insts.len() + 4 * j <= usize::MAX,
        valid(b, array),
        valid(b, index),
        valid(b, selected),
        value_type(b, array) == LlvmShape::Array(Box::new(elem), s.len() as u64),
        s.len() <= 16,
        j <= s.len(),
        value_of(b, env, array) == Val::Aggregate(s),
        index_fits(value_type(b, index), j),
        value_of(b, env, index) == Val::Int(i),
        i < s.len(),
        i >= j ==> value_of(b, env, selected) == s[i as int],
    ensures
        ({
            let (c, r) = selected_element(b, array, index, selected, j);
            &&& r is Ok
            &&& extends(b, c)
            &&& valid(c, r->Ok_0)
            &&& value_of(c, env, r->Ok_0) == s[i as int]
        }),
    decreases j,
{
    if j > 0 {
        let slot = (j - 1) as u32;
        let (b1, extracted) = with_extract(b, array, slot);
        lemma_extract_value(b, env, array, slot, s);
        let element = extracted->Ok_0;
        lemma_extends_value(b, b1, index);
        lemma_extends_value(b, b1, selected);
        lemma_value_stable(b, b1, env, index);
        lemma_value_stable(b, b1, env, selected);
        let (b2, next) = selected_on_match(b1, index, j - 1, element, selected, false);
        lemma_selected_on_match(b1, env, index, j - 1, element, selected, false, i);
        lemma_extends_transitive(b, b1, b2);
        lemma_extends_value(b, b2, array);
        lemma_extends_value(b, b2, index);
        lemma_value_stable(b, b2, env, array);
        lemma_value_stable(b, b2, env, index);
        lemma_selected_element(b2, env, array, index, next->Ok_0, j - 1, s, i, elem);
        let (c, r) = selected_element(b, array, index, selected, j);
        lemma_extends_transitive(b, b2, c);
    }
}

/// The code for reading a small array at an index within its bounds gives the
/// element at that index.
pub proof fn law_small_array_read_gives_element(
    b: Body,
    env: Env,
    array: Value,
    index: Value,
    elem: LlvmShape,
    s: Seq<Val>,
    i: nat,
)
    requires
        b.insts.len() + 64 <= usize::MAX,
        valid(b, array),
        valid(b, index),
        0 < s.len() <= MAX_SSA_ARRAY_ELEMENTS,
        value_type(b, array) == LlvmShape::Array(Box::new(elem), s.len() as u64),
        value_of(b, env, array) == Val::Aggregate(s),
        index_fits(value_type(b, index), s.len() as int),
        value_of(b, env, index) == Val::Int(i),
        i < s.len(),
    ensures
        ({
            let (c, r) = extracted_small(b, array, index, elem, s.len() as u64);
            &&& r is Ok
            &&& value_of(c, env, r->Ok_0) == s[i as int]
        }),
{
    let size = s.len() as u64;
    let slot = (size - 1) as u32;
    let (b1, last) = with_extract(b, array, slot);
    lemma_extract_value(b, env, array, slot, s);
    lemma_extends_value(b, b1, array);
    lemma_extends_value(b, b1, index);
    lemma_value_stable(b, b1, env, array);
    lemma_value_stable(b, b1, env, index);
    lemma_selected_element(b1, env, array, index, last->Ok_0, size - 1, s, i, elem);
}

proof fn lemma_candidates(b: Body, env: Env, array: Value, k: int, s: Seq<Val>, elem: LlvmShape)
    requires
        0 <= k <= s.len() <= 0xffff_ffff,
        b.insts.len() + k <= usize::MAX,
        valid(b, array),
        value_type(b, array) == LlvmShape::Array(Box::new(elem), s.len() as u64),
        value_of(b, env, array) == Val::Aggregate(s),
    ensures
        ({
            let (c, r) = extracted_candidates(b, array, k);
            &&& r is Ok
            &&& extends(b, c)
            &&& c.insts.len() == b.insts.len() + k
            &&& r->Ok_0.len() == k
            &&& forall|j: int|
                0 <= j < k ==> valid(c, #[trigger] r->Ok_0[j]) && value_of(c, env, r->Ok_0[j])
                    == s[j]
        }),
    decreases k,
{
    if k > 0 {
        lemma_candidates(b, env, array, k - 1, s, elem);
        let (b1, before) = extracted_candidates(b, array, k - 1);
        let values = before->Ok_0;
        lemma_extends_value(b, b1, array);
        lemma_value_stable(b, b1, env, array);
        let slot = (k - 1) as u32;
        lemma_extract_value(b1, env, array, slot, s);
        let (b2, x) = with_extract(b1, array, slot);
        lemma_extends_transitive(b, b1, b2);
        let (c, r) = extracted_candidates(b, array, k);
        assert forall|j: int| 0 <= j < k implies valid(c, #[trigger] r->Ok_0[j]) && value_of(
            c,
            env,
            r->Ok_0[j],
        ) == s[j] by {
            if j < k - 1 {
                assert(r->Ok_0[j] == values[j]);
                lemma_value_stable(b1, b2, env, values[j]);
            }
        }
    }
}

proof fn lemma_selected_candidate(
    b: Body,
    env: Env,
    index: Value,
    candidates: Seq<Value>,
    selected: Value,
    j: int,
    s: Seq<Val>,
    i: nat,
)
    requires
        0 <= j < 16,
        b.insts.len() + 3 * j <= usize::MAX,
        valid(b, index),
        valid(b, selected),
        j <= candidates.len() <= s.len(),
        forall|m: int|
            0 <= m < candidates.len() ==> valid(b, #[trigger] candidates[m]) && value_of(
                b,
                env,
                candidates[m],
            ) == s[m],
        index_fits(value_type(b, index), j),
        value_of(b, env, index) == Val::Int(i),
        i < s.len(),
        i >= j ==> value_of(b, env, selected) == s[i as int],
    ensures
        ({
            let (c, r) = selected_candidate(b, index, candidates, selected, j);
            &&& r is Ok
            &&& value_of(c, env, r->Ok_0) == s[i as int]
        }),
    decreases j,
{
    if j > 0 {
        let on_match = candidates[j - 1];
        lemma_selected_on_match(b, env, index, j - 1, on_match, selected, false, i);
        let (b1, next) = selected_on_match(b, index, j - 1, on_match, selected, false);
        lemma_extends_value(b, b1, index);
        lemma_value_stable(b, b1, env, index);
        assert forall|m: int| 0 <= m < candidates.len() implies valid(
            b1,
            #[trigger] candidates[m],
        ) && value_of(b1, env, candidates[m]) == s[m] by {
            lemma_extends_value(b, b1, candidates[m]);
            lemma_value_stable(b, b1, env, candidates[m]);
        }
        lemma_selected_candidate(b1, env, index, candidates, next->Ok_0, j - 1, s, i);
    }
}

/// The code for reading an array at an index below `count` gives the element at
/// that index.
pub proof fn law_bounded_array_read_gives_element(
    b: Body,
    env: Env,
    array: Value,
    index: Value,
    elem: LlvmShape,
    s: Seq<Val>,
    count: int,
    i: nat,
)
    requires
        b.insts.len() + 64 <= usize::MAX,
        valid(b, array),
        valid(b, index),
        0 < count <= 16,
        count <= s.len() <= 0xffff_ffff,
        value_type(b, array) == LlvmShape::Array(Box::new(elem), s.len() as u64),
        value_of(b, env, array) == Val::Aggregate(s),
        index_fits(value_type(b, index), count),
        value_of(b, env, index) == Val::Int(i),
        i < count,
    ensures
        ({
            let (c, r) = extracted_bounded(b, array, index, count);
            &&& r is Ok
            &&& value_of(c, env, r->Ok_0) == s[i as int]
        }),
{
    lemma_candidates(b, env, array, count, s, elem);
    let (b1, extracted) = extracted_candidates(b, array, count);
    let candidates = extracted->Ok_0;
    lemma_extends_value(b, b1, index);
    lemma_value_stable(b, b1, env, index);
    assert(valid(b1, candidates[count - 1]));
    lemma_selected_candidate(
        b1,
        env,
        index,
        candidates,
        candidates[count - 1],
        count - 1,
        s.take(count),
        i,
    );
}

/// The address of element `i` of the array of type `array_ty` at `base`.
pub open spec fn element_of(base: Val, i: nat, array_ty: LlvmShape) -> Val {
    computed_address(base, seq![Val::Int(0), Val::Int(i)], array_ty)
}

proof fn lemma_element_address(b: Body, env: Env, ptr: Value, array_ty: LlvmShape, j: int)
    requires
        b.insts.len() < usize::MAX,
        valid(b, ptr),
        0 <= j < 16,
    ensures
        ({
            let (c, r) = element_address(b, ptr, array_ty, j);
            &&& extends(b, c)
            &&& c.insts.len() == b.insts.len() + 1
            &&& valid(c, r)
            &&& value_of(c, env, r) == element_of(value_of(b, env, ptr), j as nat, array_ty)
        }),
{
    let (c, r) = element_address(b, ptr, array_ty, j);
    assert(extends(b, c));
    lemma_value_stable(b, c, env, ptr);
}

proof fn lemma_selected_address(
    b: Body,
    env: Env,
    ptr: Value,
    index: Value,
    array_ty: LlvmShape,
    selected: Value,
    j: int,
    i: nat,
)
    requires
        0 <= j < 16,
        b.insts.len() + 4 * j <= usize::MAX,
        valid(b, ptr),
        valid(b, index),
        valid(b, selected),
        index_fits(value_type(b, index), j),
        value_of(b, env, index) == Val::Int(i),
        i >= j ==> value_of(b, env, selected) == element_of(value_of(b, env, ptr), i, array_ty),
    ensures
        ({
            let (c, r) = selected_address(b, ptr, index, array_ty, selected, j);
            &&& r is Ok
            &&& value_of(c, env, r->Ok_0) == element_of(value_of(b, env, ptr), i, array_ty)
        }),
    decreases j,
{
    if j > 0 {
        let (b1, address) = element_address(b, ptr, array_ty, j - 1);
        lemma_element_address(b, env, ptr, array_ty, j - 1);
        lemma_extends_value(b, b1, index);
        lemma_extends_value(b, b1, selected);
        lemma_value_stable(b, b1, env, index);
        lemma_value_stable(b, b1, env, selected);
        lemma_selected_on_match(b1, env, index, j - 1, address, selected, true, i);
        let (b2, next) = selected_on_match(b1, index, j - 1, address, selected, true);
        lemma_extends_transitive(b, b1, b2);
        lemma_extends_value(b, b2, index);
        lemma_extends_value(b, b2, ptr);
        lemma_value_stable(b, b2, env, index);
        lemma_value_stable(b, b2, env, ptr);
        lemma_selected_address(b2, env, ptr, index, array_ty, next->Ok_0, j - 1, i);
    }
}

/// Selecting among the constant addresses of a small array gives the same
/// address as computing it from the index.
pub proof fn law_small_array_address_is_exact(
    b: Body,
    env: Env,
    ptr: Value,
    index: Value,
    array_ty: LlvmShape,
    size: u64,
    i: nat,
)
    requires
        b.insts.len() + 64 <= usize::MAX,
        valid(b, ptr),
        valid(b, index),
        1 <= size <= MAX_SSA_ARRAY_ELEMENTS,
        index_fits(value_type(b, index), size as int),
        value_of(b, env, index) == Val::Int(i),
        i < size,
    ensures
        ({
            let (c, r) = small_element_address(b, ptr, index, array_ty, size);
            let (d, dynamic) = with_gep(
                b,
                ptr,
                GepPath::Two(GepIndex::Constant(0), GepIndex::Value(index)),
                array_ty,
            );
            &&& r is Ok
            &&& value_of(c, env, r->Ok_0) == value_of(d, env, dynamic)
        }),
{
    let (b1, last) = element_address(b, ptr, array_ty, size - 1);
    lemma_element_address(b, env, ptr, array_ty, size - 1);
    lemma_extends_value(b, b1, index);
    lemma_extends_value(b, b1, ptr);
    lemma_value_stable(b, b1, env, index);
    lemma_value_stable(b, b1, env, ptr);
    lemma_selected_address(b1, env, ptr, index, array_ty, last, size - 1, i);
    let (d, dynamic) = with_gep(
        b,
        ptr,
        GepPath::Two(GepIndex::Constant(0), GepIndex::Value(index)),
        array_ty,
    );
    assert(extends(b, d));
    lemma_value_stable(b, d, env, index);
    lemma_value_stable(b, d, env, ptr);
}

} // verus!
