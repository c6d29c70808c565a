//! Which accesses of memory an operation makes, and what they carry.

use crate::byte_laws::lemma_stack_slot;
use crate::cast_op_laws::only_adds;
use crate::enum_laws::lemma_any_constant;
use crate::error::LowerError;
use crate::ir::{
    extends, lemma_extends_transitive, rank, valid, value_type, with_constant, with_gep, with_load,
    with_select, with_stack_slot, with_store, Body, DebugInfo, DebugNote, Intrinsic, Location, Op,
    Value,
};
use crate::layout::size_align;
use crate::llvm::{LlvmShape, GENERIC};
use crate::memory::{
    alloca_of, debug_value_of, element_bytes, is_split, load_of, loaded_through, recorded_align,
    reference_to, repeated, scaled_count, step_at, store_of, stored_through, transfer_of,
    value_align, DeferredGepShape, Step,
};
use crate::mir::{MirPtrType, MirType};
use crate::operands::{newest, TypeKind};
use crate::quiet::{lemma_quiet_memory, quiet};
use crate::semantics::{lemma_value_stable, memory_after, transferred, value_of, Env};
use crate::struct_slots::stored_size;
use crate::transfer_laws::law_transfers_move_their_elements;
use crate::types::{abi_align, lowered};
use crate::values::{byte_size, Val};
use vstd::arithmetic::power2::{lemma2_to64, pow2};
use vstd::prelude::*;

verus! {

// ---------------------------------------------------------------------------
// Alignments
// ---------------------------------------------------------------------------

/// The alignment of a type is the one that rustc stored for it, and zero stands for none.
/// An array is aligned as its elements are. Other types have none of their own.
pub proof fn law_alignments_are_those_stored(t: MirType, elem: MirType, n: u64)
    ensures
        t matches MirType::Struct(s) ==> abi_align(t) == if s.abi_align == 0 {
            None
        } else {
            Some(s.abi_align)
        },
        t matches MirType::Tuple(s) ==> abi_align(t) == if s.abi_align == 0 {
            None
        } else {
            Some(s.abi_align)
        },
        t matches MirType::Enum(e) ==> abi_align(t) == if e.encoding.abi_align == 0 {
            None
        } else {
            Some(e.encoding.abi_align)
        },
        t matches MirType::Union(u) ==> abi_align(t) == if u.abi_align == 0 {
            None
        } else {
            Some(u.abi_align)
        },
        abi_align(MirType::Array(Box::new(elem), n)) == abi_align(elem),
        !(t is Struct || t is Tuple || t is Enum || t is Union || t is Array) ==> abi_align(
            t,
        ) is None,
{
}

/// The alignment of a value is that of the newest type it had that stores one.
pub proof fn law_values_are_aligned_by_their_newest_type(
    history: Seq<MirType>,
    t: MirType,
    later: Seq<MirType>,
    align: u32,
)
    requires
        abi_align(t) == Some(align as u64),
        forall|j: int| 0 <= j < later.len() ==> abi_align(#[trigger] later[j]) is None,
    ensures
        value_align(history.push(t) + later) == Some(align),
        value_align(later) is None,
{
    let all = history.push(t) + later;
    lemma_recorded_align(all, history.len() as int, align, all.len() as int);
    lemma_no_recorded_align(later, later.len() as int);
}

proof fn lemma_recorded_align(all: Seq<MirType>, at: int, align: u32, k: int)
    requires
        0 <= at < k <= all.len(),
        abi_align(all[at]) == Some(align as u64),
        forall|j: int| at < j < all.len() ==> abi_align(#[trigger] all[j]) is None,
    ensures
        recorded_align(all, k) == Some(align),
    decreases k,
{
    if k - 1 > at {
        assert(abi_align(all[k - 1]) is None);
        lemma_recorded_align(all, at, align, k - 1);
    }
}

proof fn lemma_no_recorded_align(all: Seq<MirType>, k: int)
    requires
        k <= all.len(),
        forall|j: int| 0 <= j < all.len() ==> abi_align(#[trigger] all[j]) is None,
    ensures
        recorded_align(all, k) is None,
    decreases k,
{
    if k > 0 {
        assert(abi_align(all[k - 1]) is None);
        lemma_no_recorded_align(all, k - 1);
    }
}

// ---------------------------------------------------------------------------
// Loads and stores
// ---------------------------------------------------------------------------

/// A load is refused only for a type without an LLVM equivalent. A volatile one, and one
/// that is not split, is a single load of the whole value, with the alignment stored for
/// its type and as volatile as it was.
pub proof fn law_loads_are_single_accesses(
    b: Body,
    ptr: Value,
    t: MirType,
    align: Option<u32>,
    is_volatile: bool,
)
    requires
        b.insts.len() < usize::MAX,
        valid(b, ptr),
    ensures
        ({
            let (c, r) = load_of(b, ptr, t, align, is_volatile);
            &&& r is Ok <==> lowered(t) is Ok
            &&& r is Err ==> c == b
            &&& r is Ok && (is_volatile || !is_split(b, ptr, is_volatile)) ==> only_adds(
                b,
                c,
                Op::Load {
                    ptr,
                    align: match abi_align(t) {
                        Some(a) => Some(a as u32),
                        None => None,
                    },
                    is_volatile,
                },
                r->Ok_0,
                lowered(t)->Ok_0,
            )
        }),
{
}

/// A store is refused only for a wrong number of operands. A volatile one, and one that is
/// not split, is a single store of the value, with the alignment of the value's newest
/// type that stores one and as volatile as it was.
pub proof fn law_stores_are_single_accesses(
    b: Body,
    operands: Seq<Value>,
    history: Seq<MirType>,
    align: Option<u32>,
    is_volatile: bool,
)
    ensures
        ({
            let (c, r) = store_of(b, operands, history, align, is_volatile);
            &&& r is Ok <==> operands.len() == 2
            &&& r is Err ==> c == b
            &&& r is Ok && (is_volatile || !is_split(b, operands[0], is_volatile)) ==> {
                &&& c.insts.len() == b.insts.len() + 1
                &&& extends(b, c)
                &&& c.insts.last().op == Op::Store {
                    value: operands[1],
                    ptr: operands[0],
                    align: value_align(history),
                    is_volatile,
                }
            }
        }),
{
}

/// Whether each access of memory that `c` adds to `b` carries the alignment `align` and
/// is not volatile.
pub open spec fn accesses_carry(b: Body, c: Body, align: Option<u32>) -> bool {
    forall|i: int|
        b.insts.len() <= i < c.insts.len() ==> match (#[trigger] c.insts[i]).op {
            Op::Load { ptr, align: a, is_volatile } => a == align && !is_volatile,
            Op::Store { value, ptr, align: a, is_volatile } => a == align && !is_volatile,
            _ => true,
        }
}

proof fn lemma_accesses_carry(a: Body, b: Body, c: Body, align: Option<u32>)
    requires
        extends(a, b),
        extends(b, c),
        accesses_carry(a, b, align),
        accesses_carry(b, c, align),
    ensures
        extends(a, c),
        accesses_carry(a, c, align),
{
    lemma_extends_transitive(a, b, c);
    assert forall|i: int| a.insts.len() <= i < c.insts.len() implies match (
    #[trigger] c.insts[i]).op {
        Op::Load { ptr, align: x, is_volatile } => x == align && !is_volatile,
        Op::Store { value, ptr, align: x, is_volatile } => x == align && !is_volatile,
        _ => true,
    } by {
        if i < b.insts.len() {
            assert(c.insts[i] == b.insts[i]);
        }
    }
}

pub proof fn lemma_repeated_accesses(
    b: Body,
    ptr: Value,
    geps: Seq<DeferredGepShape>,
    k: int,
    align: Option<u32>,
)
    ensures
        extends(b, repeated(b, ptr, geps, k).0),
        accesses_carry(b, repeated(b, ptr, geps, k).0, align),
    decreases k,
{
    if k > 0 {
        let gep = geps[k - 1];
        let (b1, next) = with_gep(b, ptr, gep.path, gep.elem);
        assert(extends(b, b1));
        assert(accesses_carry(b, b1, align));
        lemma_repeated_accesses(b1, next, geps, k - 1, align);
        lemma_accesses_carry(b, b1, repeated(b1, next, geps, k - 1).0, align);
    }
}

pub proof fn lemma_split_load_accesses(
    b: Body,
    v: Value,
    ty: LlvmShape,
    align: Option<u32>,
    geps: Seq<DeferredGepShape>,
)
    ensures
        extends(b, loaded_through(b, v, ty, align, geps).0),
        accesses_carry(b, loaded_through(b, v, ty, align, geps).0, align),
    decreases rank(v),
{
    match step_at(b, v) {
        Step::Choice { condition, on_true, on_false } => {
            if rank(on_true) < rank(v) && rank(on_false) < rank(v) {
                lemma_split_load_accesses(b, on_true, ty, align, geps);
                let (b1, x) = loaded_through(b, on_true, ty, align, geps);
                lemma_split_load_accesses(b1, on_false, ty, align, geps);
                let (b2, y) = loaded_through(b1, on_false, ty, align, geps);
                lemma_accesses_carry(b, b1, b2, align);
                let b3 = with_select(b2, condition, x, y, false).0;
                assert(extends(b2, b3));
                assert(accesses_carry(b2, b3, align));
                lemma_accesses_carry(b, b2, b3, align);
            }
        },
        Step::Computed { base, gep } => {
            if rank(base) < rank(v) {
                lemma_split_load_accesses(b, base, ty, align, geps.push(gep));
            }
        },
        Step::Plain => {
            lemma_repeated_accesses(b, v, geps, geps.len() as int, align);
            let (b1, ptr) = repeated(b, v, geps, geps.len() as int);
            let b2 = with_load(b1, ptr, ty, align).0;
            assert(extends(b1, b2));
            assert(accesses_carry(b1, b2, align));
            lemma_accesses_carry(b, b1, b2, align);
        },
    }
}

pub proof fn lemma_split_store_accesses(
    b: Body,
    v: Value,
    value: Value,
    align: Option<u32>,
    geps: Seq<DeferredGepShape>,
    enabled: Value,
    never: Value,
)
    ensures
        extends(b, stored_through(b, v, value, align, geps, enabled, never)),
        accesses_carry(b, stored_through(b, v, value, align, geps, enabled, never), align),
    decreases rank(v),
{
    match step_at(b, v) {
        Step::Choice { condition, on_true, on_false } => {
            if rank(on_true) < rank(v) && rank(on_false) < rank(v) {
                let (b1, if_true) = with_select(b, condition, enabled, never, false);
                assert(extends(b, b1));
                assert(accesses_carry(b, b1, align));
                let (b2, if_false) = with_select(b1, condition, never, enabled, false);
                assert(extends(b1, b2));
                assert(accesses_carry(b1, b2, align));
                lemma_accesses_carry(b, b1, b2, align);
                lemma_split_store_accesses(b2, on_true, value, align, geps, if_true, never);
                let b3 = stored_through(b2, on_true, value, align, geps, if_true, never);
                lemma_accesses_carry(b, b2, b3, align);
                lemma_split_store_accesses(b3, on_false, value, align, geps, if_false, never);
                let b4 = stored_through(b3, on_false, value, align, geps, if_false, never);
                lemma_accesses_carry(b, b3, b4, align);
            }
        },
        Step::Computed { base, gep } => {
            if rank(base) < rank(v) {
                lemma_split_store_accesses(
                    b,
                    base,
                    value,
                    align,
                    geps.push(gep),
                    enabled,
                    never,
                );
            }
        },
        Step::Plain => {
            lemma_repeated_accesses(b, v, geps, geps.len() as int, align);
            let (b1, ptr) = repeated(b, v, geps, geps.len() as int);
            let (b2, before) = with_load(b1, ptr, value_type(b1, value), align);
            assert(extends(b1, b2));
            assert(accesses_carry(b1, b2, align));
            lemma_accesses_carry(b, b1, b2, align);
            let (b3, selected) = with_select(b2, enabled, value, before, false);
            assert(extends(b2, b3));
            assert(accesses_carry(b2, b3, align));
            lemma_accesses_carry(b, b2, b3, align);
            let b4 = with_store(b3, selected, ptr, align);
            assert(extends(b3, b4));
            assert(accesses_carry(b3, b4, align));
            lemma_accesses_carry(b, b3, b4, align);
        },
    }
}

/// The accesses that a load or store is split into carry the alignment that the operation
/// itself records, and none of them is volatile.
pub proof fn law_split_accesses_carry_their_alignment(
    b: Body,
    operands: Seq<Value>,
    history: Seq<MirType>,
    t: MirType,
    align: Option<u32>,
)
    requires
        operands.len() == 2,
        is_split(b, operands[0], false),
    ensures
        accesses_carry(b, load_of(b, operands[0], t, align, false).0, align),
        accesses_carry(b, store_of(b, operands, history, align, false).0, align),
{
    if lowered(t) is Ok {
        lemma_split_load_accesses(b, operands[0], lowered(t)->Ok_0, align, Seq::empty());
    }
    let (b1, never) = with_constant(b, 1, 0);
    assert(extends(b, b1));
    assert(accesses_carry(b, b1, align));
    let (b2, always) = with_constant(b1, 1, 1);
    assert(extends(b1, b2));
    assert(accesses_carry(b1, b2, align));
    lemma_accesses_carry(b, b1, b2, align);
    lemma_split_store_accesses(
        b2,
        operands[0],
        operands[1],
        align,
        Seq::empty(),
        always,
        never,
    );
    lemma_accesses_carry(
        b,
        b2,
        stored_through(b2, operands[0], operands[1], align, Seq::empty(), always, never),
        align,
    );
}

// ---------------------------------------------------------------------------
// Debug markers and stack slots
// ---------------------------------------------------------------------------

/// A debug marker marks its value, carries its place and its variable, and does nothing.
pub proof fn law_debug_markers_only_mark(
    b: Body,
    env: Env,
    value: Value,
    location: Location,
    info: DebugInfo,
)
    requires
        b.insts.len() < usize::MAX,
    ensures
        ({
            let c = debug_value_of(b, value, location, info);
            let marker = Value::Inst(b.insts.len() as usize);
            &&& only_adds(b, c, Op::DebugValue { value }, marker, LlvmShape::Void)
            &&& c.notes == b.notes.push(DebugNote { at: marker, location, info })
            &&& memory_after(c, env) == memory_after(b, env)
        }),
{
    let c = debug_value_of(b, value, location, info);
    assert(quiet(b, c));
    lemma_quiet_memory(b, c, env);
}

/// Whether `r` is a stack slot of `c` that `b` lacks, for one value of type `elem`.
pub open spec fn is_new_slot(
    b: Body,
    c: Body,
    env: Env,
    r: Value,
    elem: LlvmShape,
    align: Option<u32>,
) -> bool {
    &&& valid(c, r)
    &&& !valid(b, r)
    &&& value_type(c, r) == LlvmShape::Pointer(GENERIC)
    &&& value_of(c, env, r) is Slot
    &&& r matches Value::Inst(i) && {
        &&& c.insts[i as int].elem == elem
        &&& c.insts[i as int].op matches Op::Alloca { count, align: a } && {
            &&& a == align
            &&& value_of(c, env, count) == Val::Int(1)
        }
    }
}

/// A stack slot is one for what its pointer type points to, aligned as stored for that
/// type; it carries its variable, and making it changes nothing. It is refused for what
/// is no pointer, and for a pointee without an LLVM equivalent.
pub proof fn law_stack_slots_fit_their_type(b: Body, env: Env, t: MirType, info: DebugInfo)
    requires
        b.insts.len() + 4 < usize::MAX,
    ensures
        ({
            let (c, r) = alloca_of(b, t, info);
            &&& r is Ok <==> (t matches MirType::Ptr(p) && lowered(*p.pointee) is Ok)
            &&& r is Ok ==> {
                let pointee = *t->Ptr_0.pointee;
                &&& is_new_slot(
                    b,
                    c,
                    env,
                    r->Ok_0,
                    lowered(pointee)->Ok_0,
                    match abi_align(pointee) {
                        Some(a) => Some(a as u32),
                        None => None,
                    },
                )
                &&& c.notes == b.notes.push(
                    DebugNote { at: r->Ok_0, location: Location::Unknown, info },
                )
                &&& memory_after(c, env) == memory_after(b, env)
            }
        }),
{
    let (c, r) = alloca_of(b, t, info);
    if r is Ok {
        lemma2_to64();
        lemma_any_constant(b, env, 32, 1);
        let (b1, count) = with_constant(b, 32, 1);
        assert(extends(b1, c));
        lemma_value_stable(b1, c, env, count);
        assert(quiet(b, c));
        lemma_quiet_memory(b, c, env);
    }
}

/// A reference is to a stack slot of its own, for one value of the operand's type and
/// with the alignment of its newest type that stores one.
pub proof fn law_references_are_new_slots(b: Body, env: Env, v: Value, history: Seq<MirType>)
    requires
        b.insts.len() + 4 < usize::MAX,
        valid(b, v),
    ensures
        ({
            let (c, r) = reference_to(b, v, history);
            &&& is_new_slot(b, c, env, r, value_type(b, v), value_align(history))
            &&& accesses_carry(b, c, value_align(history))
        }),
{
    let (c, r) = reference_to(b, v, history);
    let (b1, count) = with_constant(b, 32, 1);
    lemma2_to64();
    lemma_any_constant(b, env, 32, 1);
    let (b2, slot) = with_stack_slot(b, value_type(b, v), 32, value_align(history));
    lemma_stack_slot(b, env, value_type(b, v), 32, value_align(history));
    assert(extends(b2, c));
    assert(extends(b1, c));
    lemma_value_stable(b1, c, env, count);
    lemma_value_stable(b2, c, env, slot);
}

// ---------------------------------------------------------------------------
// Block transfers
// ---------------------------------------------------------------------------

/// The size that rustc gave a type, where it stored one: that of a struct or an enum where
/// it is not zero, that of a union, and for an array that of its elements.
pub open spec fn rust_size(t: MirType) -> Option<int>
    decreases t,
{
    match t {
        MirType::Struct(s) => if s.total_size == 0 {
            None
        } else {
            Some(s.total_size as int)
        },
        MirType::Enum(e) => if e.encoding.total_size == 0 {
            None
        } else {
            Some(e.encoding.total_size as int)
        },
        MirType::Union(u) => Some(u.total_size as int),
        MirType::Array(elem, n) => match rust_size(*elem) {
            None => None,
            Some(size) => Some(size * n),
        },
        _ => None,
    }
}

proof fn lemma_rust_size(t: MirType)
    requires
        rust_size(t) matches Some(size) ==> size <= u64::MAX && (size > 0 || !(t is Array)),
    ensures
        stored_size(t) == Ok::<Option<u64>, LowerError>(
            match rust_size(t) {
                Some(size) => Some(size as u64),
                None => None,
            },
        ),
        rust_size(t) matches Some(size) ==> size >= 0,
    decreases t,
{
    if let MirType::Array(elem, n) = t {
        if let Some(size) = rust_size(*elem) {
            assert(size * n > 0 && n >= 0 ==> size > 0 && size <= size * n) by (nonlinear_arith);
            lemma_rust_size(*elem);
        } else {
            lemma_rust_size(*elem);
        }
    }
}

/// A block transfer of `n` elements moves `n` times as many bytes as the pointee takes: as
/// many as rustc gave it or, where that is not stored, as its LLVM equivalent has. The
/// call names the address spaces and the width of its operands, and is not volatile.
pub proof fn law_transfers_count_in_elements(
    b: Body,
    env: Env,
    operands: Seq<Value>,
    history: Seq<MirType>,
    may_overlap: bool,
    p: MirPtrType,
    t: LlvmShape,
    size: int,
    width: u32,
    dst_space: u32,
    src_space: u32,
    n: nat,
)
    requires
        b.insts.len() + 4 < usize::MAX,
        operands.len() == 3,
        forall|i: int| 0 <= i < operands.len() ==> valid(b, #[trigger] operands[i]),
        newest(history, TypeKind::Ptr) == Some(MirType::Ptr(p)),
        lowered(*p.pointee) == Ok::<LlvmShape, LowerError>(t),
        match rust_size(*p.pointee) {
            Some(s) => s == size && size <= u64::MAX && (size > 0 || !(*p.pointee is Array)),
            None => size_align(t) is Some && size == byte_size(t),
        },
        value_type(b, operands[0]) == LlvmShape::Pointer(dst_space),
        value_type(b, operands[1]) == LlvmShape::Pointer(src_space),
        value_type(b, operands[2]) == LlvmShape::Integer(width),
        value_of(b, env, operands[2]) == Val::Int(n),
        n * size < pow2(width as nat),
    ensures
        ({
            let (c, r) = transfer_of(b, operands, history, may_overlap);
            &&& r is Ok
            &&& memory_after(c, env) == transferred(
                memory_after(b, env),
                value_of(b, env, operands[0]),
                value_of(b, env, operands[1]),
                Val::Int((n * size) as nat),
                may_overlap,
            )
            &&& c.insts.last().op matches Op::CallTransfer {
                callee,
                dst,
                src,
                length,
                volatile_flag,
            } && {
                &&& callee == Intrinsic::MemTransfer {
                    may_overlap,
                    dst_space,
                    src_space,
                    length_bits: width,
                }
                &&& dst == operands[0]
                &&& src == operands[1]
                &&& value_of(c, env, volatile_flag) == Val::Int(0)
            }
        }),
{
    lemma_rust_size(*p.pointee);
    assert(element_bytes(*p.pointee, t) == Ok::<u64, LowerError>(size as u64));
    assert(valid(b, operands[0]) && valid(b, operands[1]) && valid(b, operands[2]));
    law_transfers_move_their_elements(b, env, operands, history, may_overlap, width, n);
    let (c, r) = transfer_of(b, operands, history, may_overlap);
    let (b1, length) = scaled_count(b, operands[2], size as u64);
    assert(extends(b, b1));
    lemma2_to64();
    lemma_any_constant(b1, env, 1, 0);
    let (b2, flag) = with_constant(b1, 1, 0);
    assert(extends(b2, c));
    lemma_value_stable(b2, c, env, flag);
}

} // verus!
