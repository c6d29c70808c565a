//! Loads and stores through choices of addresses access the chosen address
//! alone.

use crate::error::LowerError;
use crate::ir::{
    comes_before, extends, lemma_extends_transitive, lemma_extends_value, rank, valid, value_type,
    with_constant, with_gep, with_inst, with_load, with_op, with_select, with_store, Body, GepIndex,
    GepPath, Op, Value,
};
use crate::layout::size_align;
use crate::llvm::LlvmShape;
use crate::memory::{
    candidate_count, is_split, load_of, loaded_through, repeated, step_at, store_of, stored_through,
    type_align, value_align, DeferredGepShape, Step,
};
use crate::mir::MirType;
use crate::semantics::{
    bytes_at, computed_address, index_value, lemma_constant_value, lemma_memory_stable,
    lemma_value_stable, loaded, memory_after, memory_before, operand_value, place_of, value_of,
    written, Env, Memory,
};
use crate::storage::byte_faithful;
use crate::values::{
    byte_size, decoded, encoded, keeps_byte, lemma_decoded_encoded, lemma_encoded_len,
    lemma_faithful_keeps_bytes, lemma_keeps_byte, well_typed, Byte, Val,
};
use crate::types::lowered;
use vstd::prelude::*;

verus! {

/// What was stored at an address is loaded from it.
pub proof fn lemma_load_written(memory: Memory, address: Val, x: Val, t: LlvmShape)
    requires
        !(address is Undef),
        size_align(t) is Some,
    ensures
        bytes_at(written(memory, address, x, t), address, byte_size(t)) == encoded(x, t),
        well_typed(x, t) ==> loaded(written(memory, address, x, t), address, t) == x,
{
    lemma_encoded_len(x, t);
    assert(bytes_at(written(memory, address, x, t), address, byte_size(t)) =~= encoded(x, t));
    if well_typed(x, t) {
        lemma_decoded_encoded(x, t);
    }
}

/// Whether an index is a value that comes before `v`, where it is a value.
pub open spec fn index_before(b: Body, index: GepIndex, v: Value) -> bool {
    match index {
        GepIndex::Constant(_) => true,
        GepIndex::Value(x) => comes_before(b, x, v),
    }
}

/// Whether the indices of an address computation come before `v`.
pub open spec fn path_before(b: Body, path: GepPath, v: Value) -> bool {
    match path {
        GepPath::One(x) => index_before(b, x, v),
        GepPath::Two(x, y) => index_before(b, x, v) && index_before(b, y, v),
    }
}

/// Whether the choices and address computations of `b` use only values that
/// come before them.
pub open spec fn ordered(b: Body) -> bool {
    forall|i: int| 0 <= i < b.insts.len() ==> ordered_at(b, i)
}

/// Whether instruction `i` uses only values that come before it, where it is a
/// choice or an address computation.
pub open spec fn ordered_at(b: Body, i: int) -> bool {
    match b.insts[i].op {
        Op::Select { condition, on_true, on_false, array_address } => comes_before(
            b,
            condition,
            Value::Inst(i as usize),
        ),
        Op::GetElementPtr { base, path, inbounds } => path_before(b, path, Value::Inst(i as usize)),
        _ => true,
    }
}

/// Whether every condition of the choice of addresses `v` is defined.
pub open spec fn choices_defined(b: Body, env: Env, v: Value) -> bool
    decreases rank(v),
{
    match step_at(b, v) {
        Step::Choice { condition, on_true, on_false } => {
            &&& value_of(b, env, condition) is Int
            &&& rank(on_true) < rank(v) ==> choices_defined(b, env, on_true)
            &&& rank(on_false) < rank(v) ==> choices_defined(b, env, on_false)
        },
        Step::Computed { base, gep } => rank(base) < rank(v) ==> choices_defined(b, env, base),
        Step::Plain => true,
    }
}

// ---------------------------------------------------------------------------
// Address computations
// ---------------------------------------------------------------------------

/// What an index comes to where it is a value of `b`.
pub open spec fn index_in(b: Body, env: Env, index: GepIndex) -> Val {
    match index {
        GepIndex::Constant(j) => Val::Int(j as nat),
        GepIndex::Value(x) => value_of(b, env, x),
    }
}

/// What the indices of an address computation come to.
pub open spec fn path_in(b: Body, env: Env, path: GepPath) -> Seq<Val> {
    match path {
        GepPath::One(x) => seq![index_in(b, env, x)],
        GepPath::Two(x, y) => seq![index_in(b, env, x), index_in(b, env, y)],
    }
}

/// The address that the first `k` deferred computations make of `base`, the last
/// of them first.
pub open spec fn applied(b: Body, env: Env, base: Val, geps: Seq<DeferredGepShape>, k: int) -> Val
    decreases k,
{
    if k <= 0 {
        base
    } else {
        let gep = geps[k - 1];
        applied(
            b,
            env,
            computed_address(base, path_in(b, env, gep.path), gep.elem),
            geps,
            k - 1,
        )
    }
}

spec fn index_valid(b: Body, index: GepIndex) -> bool {
    match index {
        GepIndex::Constant(_) => true,
        GepIndex::Value(x) => valid(b, x),
    }
}

spec fn path_valid(b: Body, path: GepPath) -> bool {
    match path {
        GepPath::One(x) => index_valid(b, x),
        GepPath::Two(x, y) => index_valid(b, x) && index_valid(b, y),
    }
}

spec fn geps_valid(b: Body, geps: Seq<DeferredGepShape>) -> bool {
    forall|j: int| 0 <= j < geps.len() ==> path_valid(b, (#[trigger] geps[j]).path)
}

proof fn lemma_applied_undef(b: Body, env: Env, geps: Seq<DeferredGepShape>, k: int)
    ensures
        applied(b, env, Val::Undef, geps, k) == Val::Undef,
    decreases k,
{
    if k > 0 {
        lemma_applied_undef(b, env, geps, k - 1);
    }
}

proof fn lemma_applied_prefix(
    b: Body,
    env: Env,
    base: Val,
    geps: Seq<DeferredGepShape>,
    more: DeferredGepShape,
    k: int,
)
    requires
        k <= geps.len(),
    ensures
        applied(b, env, base, geps.push(more), k) == applied(b, env, base, geps, k),
    decreases k,
{
    if k > 0 {
        let gep = geps[k - 1];
        lemma_applied_prefix(
            b,
            env,
            computed_address(base, path_in(b, env, gep.path), gep.elem),
            geps,
            more,
            k - 1,
        );
    }
}

/// An index of a new address computation is what it was.
proof fn lemma_new_index(a: Body, b: Body, env: Env, index: GepIndex, v: Value, c: Body)
    requires
        extends(a, b),
        extends(b, c),
        index_valid(a, index),
        v == Value::Inst(b.insts.len() as usize),
        b.insts.len() < usize::MAX,
    ensures
        index_value(c, env, index, v) == index_in(a, env, index),
{
    match index {
        GepIndex::Constant(_) => {},
        GepIndex::Value(x) => {
            lemma_extends_transitive(a, b, c);
            lemma_value_stable(a, c, env, x);
        },
    }
}

/// An address computation at the end of the code gives the address computed from
/// what its base and its indices are.
proof fn lemma_new_gep(a: Body, b: Body, env: Env, ptr: Value, gep: DeferredGepShape)
    requires
        extends(a, b),
        valid(b, ptr),
        path_valid(a, gep.path),
        b.insts.len() < usize::MAX,
    ensures
        ({
            let (c, r) = with_gep(b, ptr, gep.path, gep.elem);
            &&& extends(b, c)
            &&& valid(c, r)
            &&& memory_after(c, env) == memory_after(b, env)
            &&& value_of(c, env, r) == computed_address(
                value_of(b, env, ptr),
                path_in(a, env, gep.path),
                gep.elem,
            )
        }),
{
    let (c, r) = with_gep(b, ptr, gep.path, gep.elem);
    assert(extends(b, c));
    lemma_value_stable(b, c, env, ptr);
    lemma_memory_stable(b, c, env, b.insts.len() as usize);
    match gep.path {
        GepPath::One(x) => {
            lemma_new_index(a, b, env, x, r, c);
        },
        GepPath::Two(x, y) => {
            lemma_new_index(a, b, env, x, r, c);
            lemma_new_index(a, b, env, y, r, c);
        },
    }
}

proof fn lemma_repeated_grows(b: Body, ptr: Value, geps: Seq<DeferredGepShape>, k: int)
    ensures
        extends(b, repeated(b, ptr, geps, k).0),
    decreases k,
{
    if k > 0 {
        let gep = geps[k - 1];
        let (b1, next) = with_gep(b, ptr, gep.path, gep.elem);
        assert(extends(b, b1));
        lemma_repeated_grows(b1, next, geps, k - 1);
        lemma_extends_transitive(b, b1, repeated(b, ptr, geps, k).0);
    }
}

/// Repeating deferred computations applies them.
proof fn lemma_repeated(
    a: Body,
    b: Body,
    env: Env,
    ptr: Value,
    geps: Seq<DeferredGepShape>,
    k: int,
)
    requires
        extends(a, b),
        valid(b, ptr),
        k <= geps.len(),
        geps_valid(a, geps),
        repeated(b, ptr, geps, k).0.insts.len() < usize::MAX,
    ensures
        ({
            let (c, r) = repeated(b, ptr, geps, k);
            &&& extends(b, c)
            &&& valid(c, r)
            &&& memory_after(c, env) == memory_after(b, env)
            &&& value_of(c, env, r) == applied(a, env, value_of(b, env, ptr), geps, k)
        }),
    decreases k,
{
    lemma_repeated_grows(b, ptr, geps, k);
    if k > 0 {
        let gep = geps[k - 1];
        let (b1, next) = with_gep(b, ptr, gep.path, gep.elem);
        assert(extends(b, b1));
        lemma_repeated_grows(b1, next, geps, k - 1);
        lemma_new_gep(a, b, env, ptr, gep);
        lemma_extends_transitive(a, b, b1);
        lemma_repeated(a, b1, env, next, geps, k - 1);
        lemma_extends_transitive(b, b1, repeated(b, ptr, geps, k).0);
    }
}

// ---------------------------------------------------------------------------
// What stays as code is added
// ---------------------------------------------------------------------------

pub proof fn lemma_candidates_stable(a: Body, b: Body, v: Value)
    requires
        extends(a, b),
        valid(a, v),
    ensures
        candidate_count(b, v) == candidate_count(a, v),
    decreases rank(v),
{
    match v {
        Value::Arg(_) => {},
        Value::Inst(i) => {
            assert(b.insts[i as int] == a.insts[i as int]);
            match a.insts[i as int].op {
                Op::Select { condition, on_true, on_false, array_address } => {
                    if array_address && comes_before(a, on_true, v) && comes_before(
                        a,
                        on_false,
                        v,
                    ) {
                        lemma_candidates_stable(a, b, on_true);
                        lemma_candidates_stable(a, b, on_false);
                    }
                },
                Op::GetElementPtr { base, path, inbounds } => {
                    if comes_before(a, base, v) {
                        lemma_candidates_stable(a, b, base);
                    }
                },
                _ => {},
            }
        },
    }
}

proof fn lemma_step_stable(a: Body, b: Body, v: Value)
    requires
        extends(a, b),
        valid(a, v),
    ensures
        step_at(b, v) == step_at(a, v),
{
    match v {
        Value::Arg(_) => {},
        Value::Inst(i) => {
            assert(b.insts[i as int] == a.insts[i as int]);
            match a.insts[i as int].op {
                Op::GetElementPtr { base, path, inbounds } => {
                    if comes_before(a, base, v) {
                        lemma_candidates_stable(a, b, base);
                    }
                },
                _ => {},
            }
        },
    }
}

// ---------------------------------------------------------------------------
// Loads
// ---------------------------------------------------------------------------

proof fn lemma_loaded_grows(
    b: Body,
    v: Value,
    ty: LlvmShape,
    align: Option<u32>,
    geps: Seq<DeferredGepShape>,
)
    ensures
        extends(b, loaded_through(b, v, ty, align, geps).0),
    decreases rank(v),
{
    match step_at(b, v) {
        Step::Choice { condition, on_true, on_false } => {
            if rank(on_true) < rank(v) && rank(on_false) < rank(v) {
                lemma_loaded_grows(b, on_true, ty, align, geps);
                let (b1, x) = loaded_through(b, on_true, ty, align, geps);
                lemma_loaded_grows(b1, on_false, ty, align, geps);
                let (b2, y) = loaded_through(b1, on_false, ty, align, geps);
                lemma_extends_transitive(b, b1, b2);
                let (c, r) = with_select(b2, condition, x, y, false);
                assert(extends(b2, c));
                lemma_extends_transitive(b, b2, c);
            }
        },
        Step::Computed { base, gep } => {
            if rank(base) < rank(v) {
                lemma_loaded_grows(b, base, ty, align, geps.push(gep));
            }
        },
        Step::Plain => {
            lemma_repeated_grows(b, v, geps, geps.len() as int);
            let (b1, ptr) = repeated(b, v, geps, geps.len() as int);
            let (c, r) = with_load(b1, ptr, ty, align);
            assert(extends(b1, c));
            lemma_extends_transitive(b, b1, c);
        },
    }
}

/// Selecting at the end of the code chooses between what the values are.
pub proof fn lemma_new_select(b: Body, env: Env, condition: Value, x: Value, y: Value)
    requires
        valid(b, condition),
        valid(b, x),
        valid(b, y),
        b.insts.len() < usize::MAX,
    ensures
        ({
            let (c, r) = with_select(b, condition, x, y, false);
            &&& extends(b, c)
            &&& valid(c, r)
            &&& memory_after(c, env) == memory_after(b, env)
            &&& value_of(c, env, r) == match value_of(b, env, condition) {
                Val::Int(n) => if n != 0 {
                    value_of(b, env, x)
                } else {
                    value_of(b, env, y)
                },
                _ => Val::Undef,
            }
        }),
{
    let (c, r) = with_select(b, condition, x, y, false);
    assert(extends(b, c));
    lemma_value_stable(b, c, env, condition);
    lemma_value_stable(b, c, env, x);
    lemma_value_stable(b, c, env, y);
    lemma_memory_stable(b, c, env, b.insts.len() as usize);
}

/// Loading at the end of the code gives what memory holds.
pub proof fn lemma_new_load(b: Body, env: Env, ptr: Value, op: Op, ty: LlvmShape)
    requires
        valid(b, ptr),
        b.insts.len() < usize::MAX,
        op is Load,
        op->Load_ptr == ptr,
    ensures
        ({
            let (c, r) = with_op(b, op, ty);
            &&& extends(b, c)
            &&& valid(c, r)
            &&& memory_after(c, env) == memory_after(b, env)
            &&& value_of(c, env, r) == loaded(memory_after(b, env), value_of(b, env, ptr), ty)
        }),
{
    let (c, r) = with_op(b, op, ty);
    assert(extends(b, c));
    lemma_value_stable(b, c, env, ptr);
    lemma_memory_stable(b, c, env, b.insts.len() as usize);
}

/// A choice of addresses is one of the two.
proof fn lemma_choice_value(a: Body, env: Env, v: Value)
    requires
        ordered(a),
        valid(a, v),
        step_at(a, v) is Choice,
    ensures
        ({
            let condition = step_at(a, v)->Choice_condition;
            let on_true = step_at(a, v)->on_true;
            let on_false = step_at(a, v)->on_false;
            &&& valid(a, condition)
            &&& valid(a, on_true)
            &&& valid(a, on_false)
            &&& rank(on_true) < rank(v)
            &&& rank(on_false) < rank(v)
            &&& value_of(a, env, v) == match value_of(a, env, condition) {
                Val::Int(n) => if n != 0 {
                    value_of(a, env, on_true)
                } else {
                    value_of(a, env, on_false)
                },
                _ => Val::Undef,
            }
        }),
{
    let i = v->Inst_0;
    assert(ordered_at(a, i as int));
}

/// A computed address is computed from what its base and its indices are.
proof fn lemma_computed_value(a: Body, env: Env, v: Value)
    requires
        ordered(a),
        valid(a, v),
        step_at(a, v) is Computed,
    ensures
        ({
            let base = step_at(a, v)->base;
            let gep = step_at(a, v)->gep;
            &&& valid(a, base)
            &&& rank(base) < rank(v)
            &&& path_valid(a, gep.path)
            &&& value_of(a, env, v) == computed_address(
                value_of(a, env, base),
                path_in(a, env, gep.path),
                gep.elem,
            )
        }),
{
    let i = v->Inst_0;
    assert(ordered_at(a, i as int));
    match step_at(a, v)->gep.path {
        GepPath::One(x) => {
            assert(index_value(a, env, x, v) == index_in(a, env, x));
        },
        GepPath::Two(x, y) => {
            assert(index_value(a, env, x, v) == index_in(a, env, x));
            assert(index_value(a, env, y, v) == index_in(a, env, y));
        },
    }
}

proof fn lemma_loaded(
    a: Body,
    b: Body,
    env: Env,
    v: Value,
    ty: LlvmShape,
    align: Option<u32>,
    geps: Seq<DeferredGepShape>,
)
    requires
        extends(a, b),
        ordered(a),
        valid(a, v),
        geps_valid(a, geps),
        loaded_through(b, v, ty, align, geps).0.insts.len() < usize::MAX,
    ensures
        ({
            let (c, r) = loaded_through(b, v, ty, align, geps);
            &&& extends(b, c)
            &&& valid(c, r)
            &&& memory_after(c, env) == memory_after(b, env)
            &&& value_of(c, env, r) == loaded(
                memory_after(b, env),
                applied(a, env, value_of(a, env, v), geps, geps.len() as int),
                ty,
            )
        }),
    decreases rank(v),
{
    let n = geps.len() as int;
    lemma_step_stable(a, b, v);
    lemma_loaded_grows(b, v, ty, align, geps);
    match step_at(a, v) {
        Step::Choice { condition, on_true, on_false } => {
            lemma_choice_value(a, env, v);
            let (b1, x) = loaded_through(b, on_true, ty, align, geps);
            lemma_loaded_grows(b, on_true, ty, align, geps);
            lemma_loaded_grows(b1, on_false, ty, align, geps);
            let (b2, y) = loaded_through(b1, on_false, ty, align, geps);
            let (c, r) = with_select(b2, condition, x, y, false);
            assert(extends(b2, c));
            lemma_loaded(a, b, env, on_true, ty, align, geps);
            lemma_extends_transitive(a, b, b1);
            lemma_loaded(a, b1, env, on_false, ty, align, geps);
            lemma_extends_value(b1, b2, x);
            lemma_value_stable(b1, b2, env, x);
            lemma_extends_transitive(a, b1, b2);
            lemma_extends_value(a, b2, condition);
            lemma_value_stable(a, b2, env, condition);
            lemma_new_select(b2, env, condition, x, y);
            lemma_applied_undef(a, env, geps, n);
        },
        Step::Computed { base, gep } => {
            lemma_computed_value(a, env, v);
            lemma_loaded(a, b, env, base, ty, align, geps.push(gep));
            lemma_applied_prefix(a, env, value_of(a, env, v), geps, gep, n);
        },
        Step::Plain => {
            let (b1, ptr) = repeated(b, v, geps, n);
            lemma_repeated_grows(b, v, geps, n);
            let (c, r) = with_load(b1, ptr, ty, align);
            assert(extends(b1, c));
            lemma_extends_value(a, b, v);
            lemma_value_stable(a, b, env, v);
            lemma_repeated(a, b, env, v, geps, n);
            lemma_new_load(b1, env, ptr, Op::Load { ptr, align, is_volatile: false }, ty);
        },
    }
}

/// A load gives what memory holds at its address and changes nothing, also where
/// it is split over the addresses of a choice.
pub proof fn law_loads_read_their_address(
    b: Body,
    env: Env,
    ptr: Value,
    t: MirType,
    align: Option<u32>,
    is_volatile: bool,
)
    requires
        ordered(b),
        valid(b, ptr),
        load_of(b, ptr, t, align, is_volatile).1 is Ok,
        load_of(b, ptr, t, align, is_volatile).0.insts.len() < usize::MAX,
    ensures
        ({
            let (c, r) = load_of(b, ptr, t, align, is_volatile);
            &&& value_of(c, env, r->Ok_0) == loaded(
                memory_after(b, env),
                value_of(b, env, ptr),
                lowered(t)->Ok_0,
            )
            &&& memory_after(c, env) == memory_after(b, env)
        }),
{
    let ty = lowered(t)->Ok_0;
    if is_split(b, ptr, is_volatile) {
        lemma_loaded(b, b, env, ptr, ty, align, Seq::empty());
    } else {
        let op = Op::Load { ptr, align: type_align(t), is_volatile };
        assert(extends(b, with_op(b, op, ty).0));
        lemma_new_load(b, env, ptr, op, ty);
    }
}

// ---------------------------------------------------------------------------
// Stores
// ---------------------------------------------------------------------------

proof fn lemma_stored_grows(
    b: Body,
    v: Value,
    value: Value,
    align: Option<u32>,
    geps: Seq<DeferredGepShape>,
    enabled: Value,
    never: Value,
)
    ensures
        extends(b, stored_through(b, v, value, align, geps, enabled, never)),
    decreases rank(v),
{
    match step_at(b, v) {
        Step::Choice { condition, on_true, on_false } => {
            if rank(on_true) < rank(v) && rank(on_false) < rank(v) {
                let (b1, if_true) = with_select(b, condition, enabled, never, false);
                let (b2, if_false) = with_select(b1, condition, never, enabled, false);
                assert(extends(b, b2));
                lemma_stored_grows(b2, on_true, value, align, geps, if_true, never);
                let b3 = stored_through(b2, on_true, value, align, geps, if_true, never);
                lemma_extends_transitive(b, b2, b3);
                lemma_stored_grows(b3, on_false, value, align, geps, if_false, never);
                let c = stored_through(b3, on_false, value, align, geps, if_false, never);
                lemma_extends_transitive(b, b3, c);
            }
        },
        Step::Computed { base, gep } => {
            if rank(base) < rank(v) {
                lemma_stored_grows(b, base, value, align, geps.push(gep), enabled, never);
            }
        },
        Step::Plain => {
            lemma_repeated_grows(b, v, geps, geps.len() as int);
            let (b1, ptr) = repeated(b, v, geps, geps.len() as int);
            let (b2, before) = with_load(b1, ptr, value_type(b1, value), align);
            let (b3, selected) = with_select(b2, enabled, value, before, false);
            let c = with_store(b3, selected, ptr, align);
            assert(extends(b1, c));
            lemma_extends_transitive(b, b1, c);
        },
    }
}

/// Storing at the end of the code changes memory at the address.
pub proof fn lemma_new_store(b: Body, env: Env, op: Op)
    requires
        op is Store,
        valid(b, op->Store_ptr),
        valid(b, op->Store_value),
        b.insts.len() < usize::MAX,
    ensures
        ({
            let (c, r) = with_op(b, op, LlvmShape::Void);
            &&& extends(b, c)
            &&& memory_after(c, env) == written(
                memory_after(b, env),
                value_of(b, env, op->Store_ptr),
                value_of(b, env, op->Store_value),
                value_type(b, op->Store_value),
            )
        }),
{
    let (c, r) = with_op(b, op, LlvmShape::Void);
    assert(extends(b, c));
    lemma_value_stable(b, c, env, op->Store_ptr);
    lemma_value_stable(b, c, env, op->Store_value);
    lemma_memory_stable(b, c, env, b.insts.len() as usize);
    let n = b.insts.len() as usize;
    let past = memory_before(c, env, n);
    assert(c.insts[n as int].op == op);
    lemma_extends_value(b, c, op->Store_value);
    assert(memory_before(c, env, (n + 1) as usize) == written(
        past,
        operand_value(c, env, op->Store_ptr, Value::Inst(n)),
        operand_value(c, env, op->Store_value, Value::Inst(n)),
        value_type(c, op->Store_value),
    ));
}

/// Whether byte `o` of `place` is padding of a value of type `t` at `address`.
pub open spec fn is_padding(address: Val, t: LlvmShape, place: Val, o: int) -> bool {
    let (at, start) = place_of(address);
    &&& !(address is Undef)
    &&& place == at
    &&& start <= o < start + byte_size(t)
    &&& !keeps_byte(t, o - start)
}

/// Whether byte `o` of `place` is padding of a value of type `t` at an address that
/// the choice `v` of addresses does not come to, where `e` says that it is reached.
pub open spec fn passed_padding(
    b: Body,
    env: Env,
    v: Value,
    geps: Seq<DeferredGepShape>,
    e: bool,
    t: LlvmShape,
    place: Val,
    o: int,
) -> bool
    decreases rank(v),
{
    match step_at(b, v) {
        Step::Choice { condition, on_true, on_false } => {
            let d = value_of(b, env, condition) == Val::Int(0);
            ||| rank(on_true) < rank(v) && passed_padding(
                b,
                env,
                on_true,
                geps,
                e && !d,
                t,
                place,
                o,
            )
            ||| rank(on_false) < rank(v) && passed_padding(
                b,
                env,
                on_false,
                geps,
                e && d,
                t,
                place,
                o,
            )
        },
        Step::Computed { base, gep } => rank(base) < rank(v) && passed_padding(
            b,
            env,
            base,
            geps.push(gep),
            e,
            t,
            place,
            o,
        ),
        Step::Plain => !e && is_padding(
            applied(b, env, value_of(b, env, v), geps, geps.len() as int),
            t,
            place,
            o,
        ),
    }
}

/// Storing what was loaded changes no byte but padding.
proof fn lemma_written_back(memory: Memory, address: Val, t: LlvmShape, place: Val, o: int)
    requires
        size_align(t) is Some,
        !is_padding(address, t, place, o),
    ensures
        written(memory, address, loaded(memory, address, t), t)(place, o) == memory(place, o),
{
    if !(address is Undef) {
        let bytes = bytes_at(memory, address, byte_size(t));
        let (at, start) = place_of(address);
        lemma_encoded_len(decoded(bytes, t), t);
        if place == at && start <= o < start + byte_size(t) {
            lemma_keeps_byte(bytes, t, o - start);
        }
    }
}

/// One address of a choice gets the new value where it is enabled, and keeps its
/// own elsewhere, but for the padding.
#[verifier::rlimit(80)]
proof fn lemma_stored_leaf(
    a: Body,
    b: Body,
    env: Env,
    v: Value,
    value: Value,
    align: Option<u32>,
    geps: Seq<DeferredGepShape>,
    enabled: Value,
    e: nat,
    place: Val,
    o: int,
)
    requires
        extends(a, b),
        valid(a, v),
        valid(a, value),
        size_align(value_type(a, value)) is Some,
        geps_valid(a, geps),
        valid(b, enabled),
        value_of(b, env, enabled) == Val::Int(e),
        ({
            let (b1, ptr) = repeated(b, v, geps, geps.len() as int);
            b1.insts.len() + 3 < usize::MAX
        }),
    ensures
        ({
            let (b1, ptr) = repeated(b, v, geps, geps.len() as int);
            let (b2, before) = with_load(b1, ptr, value_type(b1, value), align);
            let (b3, selected) = with_select(b2, enabled, value, before, false);
            let c = with_store(b3, selected, ptr, align);
            let target = applied(a, env, value_of(a, env, v), geps, geps.len() as int);
            let t = value_type(a, value);
            ||| e == 0 && is_padding(target, t, place, o)
            ||| memory_after(c, env)(place, o) == if e != 0 {
                written(memory_after(b, env), target, value_of(a, env, value), t)(place, o)
            } else {
                memory_after(b, env)(place, o)
            }
        }),
{
    let n = geps.len() as int;
    let (b1, ptr) = repeated(b, v, geps, n);
    lemma_extends_value(a, b, v);
    lemma_value_stable(a, b, env, v);
    lemma_repeated(a, b, env, v, geps, n);
    lemma_extends_transitive(a, b, b1);
    let ty = value_type(b1, value);
    let (b2, before) = with_load(b1, ptr, ty, align);
    lemma_new_load(b1, env, ptr, Op::Load { ptr, align, is_volatile: false }, ty);
    lemma_extends_transitive(a, b1, b2);
    lemma_extends_transitive(b, b1, b2);
    lemma_extends_value(a, b2, value);
    lemma_value_stable(a, b2, env, value);
    lemma_extends_value(b, b2, enabled);
    lemma_value_stable(b, b2, env, enabled);
    let (b3, selected) = with_select(b2, enabled, value, before, false);
    lemma_new_select(b2, env, enabled, value, before);
    lemma_extends_transitive(b1, b2, b3);
    lemma_extends_value(b1, b3, ptr);
    lemma_value_stable(b1, b3, env, ptr);
    let op = Op::Store { value: selected, ptr, align, is_volatile: false };
    lemma_new_store(b3, env, op);
    let c = with_store(b3, selected, ptr, align);
    let target = applied(a, env, value_of(a, env, v), geps, n);
    lemma_extends_value(a, b1, value);
    if e == 0 && !is_padding(target, ty, place, o) {
        lemma_written_back(memory_after(b, env), target, ty, place, o);
    }
}

#[verifier::rlimit(100)]
proof fn lemma_stored(
    a: Body,
    b: Body,
    env: Env,
    v: Value,
    value: Value,
    align: Option<u32>,
    geps: Seq<DeferredGepShape>,
    enabled: Value,
    never: Value,
    e: nat,
    place: Val,
    o: int,
)
    requires
        extends(a, b),
        ordered(a),
        valid(a, v),
        valid(a, value),
        size_align(value_type(a, value)) is Some,
        valid(b, never),
        value_of(b, env, never) == Val::Int(0),
        geps_valid(a, geps),
        choices_defined(a, env, v),
        valid(b, enabled),
        value_of(b, env, enabled) == Val::Int(e),
        stored_through(b, v, value, align, geps, enabled, never).insts.len() < usize::MAX,
    ensures
        ({
            let c = stored_through(b, v, value, align, geps, enabled, never);
            let target = applied(a, env, value_of(a, env, v), geps, geps.len() as int);
            let t = value_type(a, value);
            &&& extends(b, c)
            &&& passed_padding(a, env, v, geps, e != 0, t, place, o) || memory_after(c, env)(
                place,
                o,
            ) == if e != 0 {
                written(memory_after(b, env), target, value_of(a, env, value), t)(place, o)
            } else {
                memory_after(b, env)(place, o)
            }
        }),
    decreases rank(v),
{
    let n = geps.len() as int;
    lemma_step_stable(a, b, v);
    lemma_stored_grows(b, v, value, align, geps, enabled, never);
    match step_at(a, v) {
        Step::Choice { condition, on_true, on_false } => {
            lemma_choice_value(a, env, v);
            let d = value_of(a, env, condition)->Int_0;
            let (b1, if_true) = with_select(b, condition, enabled, never, false);
            let (b2, if_false) = with_select(b1, condition, never, enabled, false);
            assert(extends(b, b2));
            lemma_stored_grows(b2, on_true, value, align, geps, if_true, never);
            let b3 = stored_through(b2, on_true, value, align, geps, if_true, never);
            lemma_stored_grows(b3, on_false, value, align, geps, if_false, never);
            let c = stored_through(b3, on_false, value, align, geps, if_false, never);
            lemma_extends_value(a, b, condition);
            lemma_value_stable(a, b, env, condition);
            lemma_new_select(b, env, condition, enabled, never);
            lemma_extends_transitive(a, b, b1);
            lemma_extends_value(a, b1, condition);
            lemma_value_stable(a, b1, env, condition);
            lemma_extends_value(b, b1, never);
            lemma_value_stable(b, b1, env, never);
            lemma_extends_value(b, b1, enabled);
            lemma_value_stable(b, b1, env, enabled);
            lemma_new_select(b1, env, condition, never, enabled);
            lemma_extends_value(b1, b2, if_true);
            lemma_value_stable(b1, b2, env, if_true);
            lemma_extends_transitive(a, b1, b2);
            let e1: nat = if d != 0 {
                e
            } else {
                0
            };
            let e2: nat = if d != 0 {
                0
            } else {
                e
            };
            lemma_extends_value(b, b2, never);
            lemma_value_stable(b, b2, env, never);
            lemma_stored(a, b2, env, on_true, value, align, geps, if_true, never, e1, place, o);
            lemma_extends_transitive(a, b2, b3);
            lemma_extends_value(b2, b3, if_false);
            lemma_value_stable(b2, b3, env, if_false);
            lemma_extends_value(b2, b3, never);
            lemma_value_stable(b2, b3, env, never);
            lemma_stored(a, b3, env, on_false, value, align, geps, if_false, never, e2, place, o);
        },
        Step::Computed { base, gep } => {
            lemma_computed_value(a, env, v);
            lemma_stored(
                a,
                b,
                env,
                base,
                value,
                align,
                geps.push(gep),
                enabled,
                never,
                e,
                place,
                o,
            );
            lemma_applied_prefix(a, env, value_of(a, env, v), geps, gep, n);
        },
        Step::Plain => {
            lemma_repeated_grows(b, v, geps, n);
            lemma_stored_leaf(a, b, env, v, value, align, geps, enabled, e, place, o);
        },
    }
}

/// A byte-faithful type leaves no padding at the addresses that a choice passes.
proof fn lemma_no_passed_padding(
    b: Body,
    env: Env,
    v: Value,
    geps: Seq<DeferredGepShape>,
    e: bool,
    t: LlvmShape,
    place: Val,
    o: int,
)
    requires
        size_align(t) is Some,
        byte_faithful(t),
    ensures
        !passed_padding(b, env, v, geps, e, t, place, o),
    decreases rank(v),
{
    match step_at(b, v) {
        Step::Choice { condition, on_true, on_false } => {
            let d = value_of(b, env, condition) == Val::Int(0);
            if rank(on_true) < rank(v) {
                lemma_no_passed_padding(b, env, on_true, geps, e && !d, t, place, o);
            }
            if rank(on_false) < rank(v) {
                lemma_no_passed_padding(b, env, on_false, geps, e && d, t, place, o);
            }
        },
        Step::Computed { base, gep } => {
            if rank(base) < rank(v) {
                lemma_no_passed_padding(b, env, base, geps.push(gep), e, t, place, o);
            }
        },
        Step::Plain => {
            let address = applied(b, env, value_of(b, env, v), geps, geps.len() as int);
            let (at, start) = place_of(address);
            if start <= o < start + byte_size(t) {
                lemma_faithful_keeps_bytes(t, o - start);
            }
        },
    }
}

/// A store puts its value at its address and changes nothing else, also where it
/// is split over the addresses of a choice.
///
/// A split store loads and stores at the other addresses, which leaves each byte
/// of theirs but for padding. Byte-faithful types have none.
#[verifier::rlimit(80)]
pub proof fn law_stores_write_their_address(
    b: Body,
    env: Env,
    operands: Seq<Value>,
    history: Seq<MirType>,
    align: Option<u32>,
    is_volatile: bool,
)
    requires
        ordered(b),
        operands.len() == 2,
        valid(b, operands[0]),
        valid(b, operands[1]),
        choices_defined(b, env, operands[0]),
        is_split(b, operands[0], is_volatile) ==> size_align(value_type(b, operands[1])) is Some,
        store_of(b, operands, history, align, is_volatile).0.insts.len() < usize::MAX,
    ensures
        ({
            let (c, r) = store_of(b, operands, history, align, is_volatile);
            let t = value_type(b, operands[1]);
            let expected = written(
                memory_after(b, env),
                value_of(b, env, operands[0]),
                value_of(b, env, operands[1]),
                t,
            );
            &&& !is_split(b, operands[0], is_volatile) || byte_faithful(t) ==> memory_after(c, env)
                == expected
            &&& forall|place: Val, o: int|
                !passed_padding(b, env, operands[0], Seq::empty(), true, t, place, o)
                    ==> #[trigger] memory_after(c, env)(place, o) == expected(place, o)
        }),
{
    let (c, r) = store_of(b, operands, history, align, is_volatile);
    let ptr = operands[0];
    let value = operands[1];
    let t = value_type(b, value);
    let expected = written(
        memory_after(b, env),
        value_of(b, env, ptr),
        value_of(b, env, value),
        t,
    );
    if is_split(b, ptr, is_volatile) {
        let (b1, never) = with_constant(b, 1, 0);
        let (b2, always) = with_constant(b1, 1, 1);
        assert(extends(b, b1));
        assert(extends(b, b2));
        lemma_stored_grows(b2, ptr, value, align, Seq::empty(), always, never);
        vstd::arithmetic::power2::lemma2_to64();
        lemma_constant_value(b, env, 1, 0);
        lemma_constant_value(b1, env, 1, 1);
        lemma_value_stable(b1, b2, env, never);
        lemma_memory_stable(b, b1, env, b.insts.len() as usize);
        lemma_memory_stable(b1, b2, env, b1.insts.len() as usize);
        assert forall|place: Val, o: int|
            !passed_padding(b, env, ptr, Seq::empty(), true, t, place, o) implies #[trigger] memory_after(
            c,
            env,
        )(place, o) == expected(place, o) by {
            lemma_stored(
                b,
                b2,
                env,
                ptr,
                value,
                align,
                Seq::empty(),
                always,
                never,
                1,
                place,
                o,
            );
        }
        if byte_faithful(t) {
            assert forall|place: Val, o: int| #[trigger]
                memory_after(c, env)(place, o) == expected(place, o) by {
                lemma_no_passed_padding(b, env, ptr, Seq::empty(), true, t, place, o);
            }
            assert(memory_after(c, env) =~= expected);
        }
    } else {
        let op = Op::Store {
            value,
            ptr,
            align: value_align(history),
            is_volatile,
        };
        assert(extends(b, with_op(b, op, LlvmShape::Void).0));
        lemma_new_store(b, env, op);
    }
}

/// Constants behind ordered code leave it ordered.
proof fn lemma_ordered_extended(a: Body, b: Body)
    requires
        extends(a, b),
        ordered(a),
        forall|i: int| a.insts.len() <= i < b.insts.len() ==> #[trigger] b.insts[i].op is Constant,
    ensures
        ordered(b),
{
    assert forall|i: int| 0 <= i < b.insts.len() implies ordered_at(b, i) by {
        if i < a.insts.len() {
            assert(ordered_at(a, i));
            assert(b.insts[i] == a.insts[i]);
        } else {
            assert(b.insts[i].op is Constant);
        }
    }
}

proof fn lemma_choices_stable(a: Body, b: Body, env: Env, v: Value)
    requires
        extends(a, b),
        ordered(a),
        valid(a, v),
        choices_defined(a, env, v),
    ensures
        choices_defined(b, env, v),
    decreases rank(v),
{
    lemma_step_stable(a, b, v);
    match step_at(a, v) {
        Step::Choice { condition, on_true, on_false } => {
            lemma_choice_value(a, env, v);
            lemma_value_stable(a, b, env, condition);
            lemma_choices_stable(a, b, env, on_true);
            lemma_choices_stable(a, b, env, on_false);
        },
        Step::Computed { base, gep } => {
            lemma_computed_value(a, env, v);
            lemma_choices_stable(a, b, env, base);
        },
        Step::Plain => {},
    }
}

// ---------------------------------------------------------------------------
// Loads after stores
// ---------------------------------------------------------------------------

/// An instruction whose operands come before it leaves code ordered.
proof fn lemma_ordered_push(b: Body, op: Op, ty: LlvmShape, elem: LlvmShape)
    requires
        ordered(b),
        b.insts.len() < usize::MAX,
        op is Select ==> valid(b, op->Select_condition),
        op is GetElementPtr ==> path_valid(b, op->path),
    ensures
        ordered(with_inst(b, op, ty, elem).0),
{
    let c = with_inst(b, op, ty, elem).0;
    assert forall|i: int| 0 <= i < c.insts.len() implies ordered_at(c, i) by {
        if i < b.insts.len() {
            assert(ordered_at(b, i));
            assert(c.insts[i] == b.insts[i]);
        }
    }
}

proof fn lemma_path_valid_extended(a: Body, b: Body, path: GepPath)
    requires
        extends(a, b),
        path_valid(a, path),
    ensures
        path_valid(b, path),
{
}

proof fn lemma_repeated_ordered(a: Body, b: Body, ptr: Value, geps: Seq<DeferredGepShape>, k: int)
    requires
        extends(a, b),
        ordered(b),
        k <= geps.len(),
        geps_valid(a, geps),
        repeated(b, ptr, geps, k).0.insts.len() < usize::MAX,
    ensures
        ordered(repeated(b, ptr, geps, k).0),
    decreases k,
{
    if k > 0 {
        let gep = geps[k - 1];
        let (b1, next) = with_gep(b, ptr, gep.path, gep.elem);
        assert(extends(b, b1));
        lemma_repeated_grows(b1, next, geps, k - 1);
        lemma_path_valid_extended(a, b, gep.path);
        let op = Op::GetElementPtr { base: ptr, path: gep.path, inbounds: false };
        lemma_ordered_push(b, op, value_type(b, ptr), gep.elem);
        lemma_extends_transitive(a, b, b1);
        lemma_repeated_ordered(a, b1, next, geps, k - 1);
    }
}

proof fn lemma_stored_ordered(
    a: Body,
    b: Body,
    v: Value,
    value: Value,
    align: Option<u32>,
    geps: Seq<DeferredGepShape>,
    enabled: Value,
    never: Value,
)
    requires
        extends(a, b),
        ordered(a),
        ordered(b),
        valid(a, v),
        geps_valid(a, geps),
        valid(b, enabled),
        stored_through(b, v, value, align, geps, enabled, never).insts.len() < usize::MAX,
    ensures
        ordered(stored_through(b, v, value, align, geps, enabled, never)),
    decreases rank(v),
{
    lemma_step_stable(a, b, v);
    match step_at(a, v) {
        Step::Choice { condition, on_true, on_false } => {
            let env = Env { args: Seq::empty(), memory: |p: Val, o: int| Byte::Undef };
            lemma_choice_value(a, env, v);
            let (b1, if_true) = with_select(b, condition, enabled, never, false);
            let (b2, if_false) = with_select(b1, condition, never, enabled, false);
            assert(extends(b, b1));
            assert(extends(b1, b2));
            assert(extends(b, b2));
            lemma_stored_grows(b2, on_true, value, align, geps, if_true, never);
            let b3 = stored_through(b2, on_true, value, align, geps, if_true, never);
            lemma_stored_grows(b3, on_false, value, align, geps, if_false, never);
            lemma_extends_value(a, b, condition);
            lemma_ordered_push(b, b1.insts[b.insts.len() as int].op, value_type(b, enabled), LlvmShape::Void);
            lemma_extends_value(b, b1, condition);
            lemma_ordered_push(b1, b2.insts[b1.insts.len() as int].op, value_type(b1, never), LlvmShape::Void);
            lemma_extends_transitive(a, b, b2);
            lemma_extends_value(b1, b2, if_true);
            lemma_stored_ordered(a, b2, on_true, value, align, geps, if_true, never);
            lemma_extends_transitive(a, b2, b3);
            lemma_extends_value(b2, b3, if_false);
            lemma_stored_ordered(a, b3, on_false, value, align, geps, if_false, never);
        },
        Step::Computed { base, gep } => {
            let env = Env { args: Seq::empty(), memory: |p: Val, o: int| Byte::Undef };
            lemma_computed_value(a, env, v);
            lemma_stored_ordered(a, b, base, value, align, geps.push(gep), enabled, never);
        },
        Step::Plain => {
            let n = geps.len() as int;
            lemma_repeated_grows(b, v, geps, n);
            let (b1, ptr) = repeated(b, v, geps, n);
            lemma_repeated_ordered(a, b, v, geps, n);
            let ty = value_type(b1, value);
            let (b2, before) = with_load(b1, ptr, ty, align);
            assert(extends(b1, b2));
            lemma_ordered_push(
                b1,
                Op::Load { ptr, align, is_volatile: false },
                ty,
                LlvmShape::Void,
            );
            let (b3, selected) = with_select(b2, enabled, value, before, false);
            lemma_extends_transitive(b, b1, b2);
            lemma_extends_value(b, b2, enabled);
            lemma_ordered_push(
                b2,
                Op::Select {
                    condition: enabled,
                    on_true: value,
                    on_false: before,
                    array_address: false,
                },
                value_type(b2, value),
                LlvmShape::Void,
            );
            lemma_ordered_push(
                b3,
                Op::Store { value: selected, ptr, align, is_volatile: false },
                LlvmShape::Void,
                LlvmShape::Void,
            );
        },
    }
}

/// Whether the padding at the addresses that a choice passes lies outside the value
/// at the address that it comes to.
pub open spec fn undisturbed_by_padding(b: Body, env: Env, v: Value, t: LlvmShape) -> bool {
    let (place, start) = place_of(value_of(b, env, v));
    byte_faithful(t) || forall|o: int|
        start <= o < start + byte_size(t) ==> !#[trigger] passed_padding(
            b,
            env,
            v,
            Seq::empty(),
            true,
            t,
            place,
            o,
        )
}

/// A load through the address of the store before it gives the stored value, also
/// where the two are split over the addresses of a choice.
pub proof fn law_load_after_store_gives_the_value(
    b: Body,
    env: Env,
    operands: Seq<Value>,
    history: Seq<MirType>,
    t: MirType,
    store_align: Option<u32>,
    load_align: Option<u32>,
    is_volatile: bool,
)
    requires
        ordered(b),
        operands.len() == 2,
        valid(b, operands[0]),
        valid(b, operands[1]),
        !(value_of(b, env, operands[0]) is Undef),
        choices_defined(b, env, operands[0]),
        lowered(t) == Ok::<LlvmShape, LowerError>(value_type(b, operands[1])),
        size_align(value_type(b, operands[1])) is Some,
        well_typed(value_of(b, env, operands[1]), value_type(b, operands[1])),
        is_split(b, operands[0], is_volatile) ==> undisturbed_by_padding(
            b,
            env,
            operands[0],
            value_type(b, operands[1]),
        ),
        ({
            let (c, stored) = store_of(b, operands, history, store_align, is_volatile);
            let (d, r) = load_of(c, operands[0], t, load_align, is_volatile);
            c.insts.len() < usize::MAX && d.insts.len() < usize::MAX
        }),
    ensures
        ({
            let (c, stored) = store_of(b, operands, history, store_align, is_volatile);
            let (d, r) = load_of(c, operands[0], t, load_align, is_volatile);
            &&& stored is Ok
            &&& r is Ok
            &&& value_of(d, env, r->Ok_0) == value_of(b, env, operands[1])
        }),
{
    let (c, stored) = store_of(b, operands, history, store_align, is_volatile);
    let ptr = operands[0];
    let value = operands[1];
    let ty = value_type(b, value);
    law_stores_write_their_address(b, env, operands, history, store_align, is_volatile);
    if is_split(b, ptr, is_volatile) {
        let (b1, never) = with_constant(b, 1, 0);
        let (b2, always) = with_constant(b1, 1, 1);
        assert(extends(b, b2));
        lemma_stored_grows(b2, ptr, value, store_align, Seq::empty(), always, never);
        lemma_extends_transitive(b, b2, c);
        lemma_ordered_extended(b, b2);
        lemma_stored_ordered(b2, b2, ptr, value, store_align, Seq::empty(), always, never);
    } else {
        let op = Op::Store { value, ptr, align: value_align(history), is_volatile };
        assert(extends(b, c));
        lemma_ordered_push(b, op, LlvmShape::Void, LlvmShape::Void);
    }
    lemma_extends_value(b, c, ptr);
    lemma_value_stable(b, c, env, ptr);
    law_loads_read_their_address(c, env, ptr, t, load_align, is_volatile);
    let address = value_of(b, env, ptr);
    let expected = written(memory_after(b, env), address, value_of(b, env, value), ty);
    let (place, start) = place_of(address);
    assert forall|i: int| 0 <= i < byte_size(ty) implies #[trigger] memory_after(c, env)(
        place,
        start + i,
    ) == expected(place, start + i) by {
        if is_split(b, ptr, is_volatile) && !byte_faithful(ty) {
            assert(!passed_padding(b, env, ptr, Seq::empty(), true, ty, place, start + i));
        }
    }
    assert(bytes_at(memory_after(c, env), address, byte_size(ty)) =~= bytes_at(
        expected,
        address,
        byte_size(ty),
    ));
    lemma_load_written(memory_after(b, env), value_of(b, env, ptr), value_of(b, env, value), ty);
}

} // verus!
