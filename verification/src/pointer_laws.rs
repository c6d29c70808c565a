//! Where computed addresses lead, and what a fat pointer holds.

use crate::array_ops::{
    array_element_address, element_address, selected_address, selected_on_match,
    small_element_address, MAX_SSA_ARRAY_ELEMENTS,
};
use crate::cast::{cast, CastKind};
use crate::enum_laws::{lemma_any_constant, lemma_cast};
use crate::error::LowerError;
use crate::ir::{
    extends, lemma_extends_value, valid, value_type, with_cast, with_constant, with_gep,
    with_insert, with_inst, with_undef, Body, CastOp, GepIndex, GepPath, Op, Value,
};
use crate::layout::size_align;
use crate::llvm::LlvmShape;
use crate::memory::offset_of;
use crate::mir::{memory_order, MirPtrType, MirType};
use crate::operands::{newest, TypeKind};
use crate::quiet::{lemma_quiet_memory, lemma_quiet_transitive, quiet};
use crate::semantics::{
    index_fits, law_small_array_address_is_exact, lemma_insert_value, lemma_value_stable,
    memory_after, place_of, undefined, value_of, Env,
};
use crate::types::lowered;
use crate::values::{byte_size, Val};
use vstd::arithmetic::power2::lemma2_to64;
use vstd::prelude::*;

verus! {

/// Whether address `y` lies `bytes` bytes behind address `x`.
pub open spec fn moved(x: Val, y: Val, bytes: int) -> bool {
    &&& place_of(y).0 == place_of(x).0
    &&& place_of(y).1 == place_of(x).1 + bytes
}

/// A pointer offset of `k` leads `k` elements on: as many times the size of what the
/// pointer points to, and as many bytes where its type was not recorded.
///
/// It is refused only for a wrong number of operands, or where the pointee has no
/// LLVM equivalent.
pub proof fn law_offsets_move_by_elements(
    b: Body,
    env: Env,
    operands: Seq<Value>,
    history: Seq<MirType>,
    inbounds: bool,
    elem: LlvmShape,
    k: nat,
)
    requires
        operands.len() == 2,
        valid(b, operands[0]),
        valid(b, operands[1]),
        b.insts.len() < usize::MAX,
        match newest(history, TypeKind::Ptr) {
            Some(MirType::Ptr(p)) => lowered(*p.pointee) == Ok::<LlvmShape, LowerError>(elem),
            Some(_) => false,
            None => elem == LlvmShape::Integer(8),
        },
        size_align(elem) is Some,
        !(value_of(b, env, operands[0]) is Undef),
        value_of(b, env, operands[1]) == Val::Int(k),
    ensures
        ({
            let (c, r) = offset_of(b, operands, history, inbounds);
            let v = r->Ok_0;
            &&& r is Ok
            &&& valid(c, v)
            &&& value_type(c, v) == value_type(b, operands[0])
            &&& moved(value_of(b, env, operands[0]), value_of(c, env, v), k * byte_size(elem))
            &&& memory_after(c, env) == memory_after(b, env)
            &&& c.insts.last().op->GetElementPtr_inbounds == inbounds
        }),
{
    let op = Op::GetElementPtr {
        base: operands[0],
        path: GepPath::One(GepIndex::Value(operands[1])),
        inbounds,
    };
    let (c, v) = with_inst(b, op, value_type(b, operands[0]), elem);
    assert(extends(b, c));
    assert(quiet(b, c));
    lemma_quiet_memory(b, c, env);
    lemma_value_stable(b, c, env, operands[0]);
    lemma_value_stable(b, c, env, operands[1]);
}

/// Selecting among the addresses of a small array leaves memory alone.
proof fn lemma_selected_address_quiet(
    b: Body,
    ptr: Value,
    index: Value,
    array_ty: LlvmShape,
    selected: Value,
    j: int,
)
    requires
        valid(b, selected),
        b.insts.len() + 4 * j <= usize::MAX,
    ensures
        ({
            let (c, r) = selected_address(b, ptr, index, array_ty, selected, j);
            &&& quiet(b, c)
            &&& c.insts.len() <= b.insts.len() + if j > 0 {
                4 * j
            } else {
                0
            }
            &&& r is Ok ==> valid(c, r->Ok_0)
            &&& r is Ok && value_type(b, ptr) == value_type(b, selected) && valid(b, ptr)
                ==> value_type(c, r->Ok_0) == value_type(b, ptr)
        }),
    decreases j,
{
    if j > 0 {
        let (b1, address) = element_address(b, ptr, array_ty, j - 1);
        assert(quiet(b, b1));
        let (b2, next) = selected_on_match(b1, index, j - 1, address, selected, true);
        assert(quiet(b1, b2));
        lemma_quiet_transitive(b, b1, b2);
        if next is Ok {
            if valid(b, ptr) {
                lemma_extends_value(b, b1, ptr);
                lemma_extends_value(b, b2, ptr);
            }
            lemma_selected_address_quiet(b2, ptr, index, array_ty, next->Ok_0, j - 1);
            lemma_quiet_transitive(
                b,
                b2,
                selected_address(b2, ptr, index, array_ty, next->Ok_0, j - 1).0,
            );
        }
    }
}

/// The address of element `i` of an array lies `i` elements behind the array, whether
/// the array is a local variable, a field or behind any other pointer, and whatever its
/// length.
pub proof fn law_elements_lie_behind_each_other(
    b: Body,
    env: Env,
    ptr: Value,
    history: Seq<MirType>,
    index: Value,
    p: MirPtrType,
    elem: MirType,
    n: u64,
    t: LlvmShape,
    i: nat,
)
    requires
        b.insts.len() + 64 <= usize::MAX,
        valid(b, ptr),
        valid(b, index),
        newest(history, TypeKind::Ptr) == Some(MirType::Ptr(p)),
        *p.pointee == MirType::Array(Box::new(elem), n),
        lowered(elem) == Ok::<LlvmShape, LowerError>(t),
        size_align(LlvmShape::Array(Box::new(t), n)) is Some,
        n <= MAX_SSA_ARRAY_ELEMENTS ==> index_fits(value_type(b, index), n as int),
        value_of(b, env, index) == Val::Int(i),
        i < n,
        !(value_of(b, env, ptr) is Undef),
    ensures
        ({
            let (c, r) = array_element_address(b, ptr, history, index);
            let v = r->Ok_0;
            &&& r is Ok
            &&& valid(c, v)
            &&& value_type(c, v) == value_type(b, ptr)
            &&& moved(value_of(b, env, ptr), value_of(c, env, v), i * byte_size(t))
            &&& memory_after(c, env) == memory_after(b, env)
        }),
{
    let array_ty = LlvmShape::Array(Box::new(t), n);
    let path = GepPath::Two(GepIndex::Constant(0), GepIndex::Value(index));
    let (d, dynamic) = with_gep(b, ptr, path, array_ty);
    assert(extends(b, d));
    assert(quiet(b, d));
    lemma_quiet_memory(b, d, env);
    lemma_value_stable(b, d, env, ptr);
    lemma_value_stable(b, d, env, index);
    assert(0 * byte_size(array_ty) == 0);
    assert(moved(value_of(b, env, ptr), value_of(d, env, dynamic), i * byte_size(t)));
    let (c, r) = array_element_address(b, ptr, history, index);
    if n <= MAX_SSA_ARRAY_ELEMENTS {
        law_small_array_address_is_exact(b, env, ptr, index, array_ty, n, i);
        let (b1, last) = element_address(b, ptr, array_ty, n - 1);
        assert(quiet(b, b1));
        lemma_extends_value(b, b1, ptr);
        lemma_selected_address_quiet(b1, ptr, index, array_ty, last, n - 1);
        let e = small_element_address(b, ptr, index, array_ty, n).0;
        lemma_quiet_transitive(b, b1, e);
        lemma_quiet_memory(b, e, env);
    }
}

/// Unsizing a pointer to an array gives a fat pointer: the pointer itself, in whatever
/// address space it was, and the number of elements.
pub proof fn law_unsizing_records_the_length(
    b: Body,
    env: Env,
    v: Value,
    history: Seq<MirType>,
    result: MirType,
    fields: Seq<LlvmShape>,
    p: MirPtrType,
    elem: MirType,
    n: u64,
    from: u32,
    to: u32,
)
    requires
        b.insts.len() + 8 <= usize::MAX,
        valid(b, v),
        value_type(b, v) == LlvmShape::Pointer(from),
        history.len() > 0,
        history.last() == MirType::Ptr(p),
        *p.pointee == MirType::Array(Box::new(elem), n) || (*p.pointee matches MirType::Struct(s)
            && s.field_types@.len() > 0 && ({
            let last = if s.mem_to_decl@.len() == 0 {
                s.field_types@.len() - 1
            } else {
                s.mem_to_decl@.last() as int
            };
            &&& last < s.field_types@.len() <= usize::MAX
            &&& s.field_types@[last] == MirType::Array(Box::new(elem), n)
        })),
        lowered(result) == Ok::<LlvmShape, LowerError>(LlvmShape::Struct(fields)),
        fields.len() == 2,
        fields[0] == LlvmShape::Pointer(to),
    ensures
        ({
            let (c, r) = cast(
                b,
                seq![v],
                history,
                Some(CastKind::PointerCoercionUnsize),
                result,
            );
            &&& r is Ok
            &&& valid(c, r->Ok_0)
            &&& value_type(c, r->Ok_0) == LlvmShape::Struct(fields)
            &&& value_of(c, env, r->Ok_0) == Val::Aggregate(
                seq![value_of(b, env, v), Val::Int(n as nat)],
            )
            &&& memory_after(c, env) == memory_after(b, env)
        }),
{
    let whole = LlvmShape::Struct(fields);
    let x = value_of(b, env, v);
    if from != to {
        lemma_cast(b, env, CastOp::AddrSpaceCast, v, LlvmShape::Pointer(to));
    }
    let (b1, data) = if from != to {
        with_cast(b, CastOp::AddrSpaceCast, v, LlvmShape::Pointer(to))
    } else {
        (b, v)
    };
    assert(quiet(b, b1));
    assert(value_of(b1, env, data) == x);
    let (b2, start) = with_undef(b1, whole);
    assert(quiet(b1, b2));
    lemma_extends_value(b1, b2, data);
    lemma_value_stable(b1, b2, env, data);
    let empty = Seq::new(2, |i: int| Val::Undef);
    assert(value_of(b2, env, start) == undefined(whole));
    assert(undefined(whole) == Val::Aggregate(empty));
    lemma_insert_value(b2, env, start, data, 0, empty);
    let (b3, with_data) = with_insert(b2, start, data, 0);
    assert(quiet(b2, b3));
    let filled = empty.update(0, x);
    lemma2_to64();
    lemma_any_constant(b3, env, 64, n as u128);
    vstd::arithmetic::div_mod::lemma_small_mod(
        n as nat,
        vstd::arithmetic::power2::pow2(64),
    );
    let (b4, len) = with_constant(b3, 64, n as u128);
    assert(quiet(b3, b4));
    lemma_extends_value(b3, b4, with_data);
    lemma_value_stable(b3, b4, env, with_data);
    lemma_insert_value(b4, env, with_data, len, 1, filled);
    let (b5, r) = with_insert(b4, with_data, len, 1);
    assert(quiet(b4, b5));
    lemma_quiet_transitive(b, b1, b2);
    lemma_quiet_transitive(b, b2, b3);
    lemma_quiet_transitive(b, b3, b4);
    lemma_quiet_transitive(b, b4, b5);
    lemma_quiet_memory(b, b5, env);
    assert(filled.update(1, Val::Int(n as nat)) =~= seq![x, Val::Int(n as nat)]);
    assert(crate::cast::recorded_length(history) == Some(n)) by {
        match *p.pointee {
            MirType::Struct(s) => {
                let order = memory_order(s.mem_to_decl@, s.field_types@.len());
                assert(order.len() > 0);
            },
            _ => {},
        }
    }
    assert(crate::ir::element_type(whole, 0) == Some(LlvmShape::Pointer(to)));
    assert(cast(b, seq![v], history, Some(CastKind::PointerCoercionUnsize), result) == (
        b5,
        Ok::<Value, LowerError>(r),
    ));
}

} // verus!
