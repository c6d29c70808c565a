//! Which addresses are chosen among constant ones, and how many there are to choose from.

use crate::access_laws::{
    lemma_repeated_accesses, lemma_split_load_accesses, lemma_split_store_accesses,
};
use crate::array_ops::{
    array_element_address, element_address, is_local_address, selected_address, selected_on_match,
    MAX_SSA_ARRAY_ELEMENTS,
};
use crate::error::LowerError;
use crate::ir::{
    extends, lemma_extends_transitive, lemma_extends_value, rank, valid, value_type, with_compare,
    with_constant, with_gep, with_load, with_select, with_stack_slot, with_store, Body, GepIndex,
    GepPath, Op, Predicate, Value,
};
use crate::llvm::LlvmShape;
use crate::memory::{
    candidate_count, load_of, loaded_through, repeated, step_at, store_of, stored_through,
    DeferredGepShape, Step,
};
use crate::memory_laws::lemma_candidates_stable;
use crate::mir::{MirPtrType, MirType};
use crate::operands::{newest, TypeKind};
use crate::types::lowered;
use vstd::prelude::*;

verus! {

proof fn lemma_local_stable(a: Body, b: Body, v: Value)
    requires
        extends(a, b),
        valid(a, v),
    ensures
        is_local_address(a, v) ==> is_local_address(b, v),
        well_ordered(a) ==> is_local_address(b, v) == is_local_address(a, v),
    decreases rank(v),
{
    if let Value::Inst(i) = v {
        assert(b.insts[i as int] == a.insts[i as int]);
        if well_ordered(a) {
            assert(names_values(a, i as int));
        }
        match a.insts[i as int].op {
            Op::Select { condition, on_true, on_false, array_address } => {
                lemma_local_valid(a, on_true);
                lemma_local_valid(a, on_false);
                if rank(on_true) < rank(v) && valid(a, on_true) {
                    lemma_local_stable(a, b, on_true);
                }
                if rank(on_false) < rank(v) && valid(a, on_false) {
                    lemma_local_stable(a, b, on_false);
                }
            },
            Op::GetElementPtr { base, path, inbounds } => {
                lemma_local_valid(a, base);
                if rank(base) < rank(v) && valid(a, base) {
                    lemma_local_stable(a, b, base);
                }
            },
            _ => {},
        }
    }
}

proof fn lemma_local_valid(b: Body, v: Value)
    ensures
        is_local_address(b, v) ==> valid(b, v),
{
}

/// Whether the addresses that instruction `i` works on are values.
pub open spec fn names_values(b: Body, i: int) -> bool {
    match b.insts[i].op {
        Op::Select { condition, on_true, on_false, array_address } => valid(b, on_true) && valid(
            b,
            on_false,
        ),
        Op::GetElementPtr { base, path, inbounds } => valid(b, base),
        _ => true,
    }
}

/// Whether the addresses that the instructions of `b` work on are values.
pub open spec fn well_ordered(b: Body) -> bool {
    forall|i: int| 0 <= i < b.insts.len() ==> #[trigger] names_values(b, i)
}

/// A stack slot is local, and so is what is computed from a local address. A choice among
/// addresses of a small array is local where both are. An argument is not, nor is an address
/// that was read from memory, nor another choice.
pub proof fn law_addresses_in_slots_are_local(
    b: Body,
    v: Value,
    w: Value,
    condition: Value,
    path: GepPath,
    elem: LlvmShape,
    width: u32,
    align: Option<u32>,
    n: usize,
)
    requires
        b.insts.len() + 2 < usize::MAX,
        valid(b, v),
        valid(b, w),
        well_ordered(b),
    ensures
        ({
            let (c, slot) = with_stack_slot(b, elem, width, align);
            is_local_address(c, slot)
        }),
        ({
            let (c, r) = with_gep(b, v, path, elem);
            is_local_address(c, r) == is_local_address(b, v)
        }),
        ({
            let (c, r) = with_select(b, condition, v, w, true);
            is_local_address(c, r) == (is_local_address(b, v) && is_local_address(b, w))
        }),
        ({
            let (c, r) = with_select(b, condition, v, w, false);
            !is_local_address(c, r)
        }),
        ({
            let (c, r) = with_load(b, v, elem, align);
            !is_local_address(c, r)
        }),
        !is_local_address(b, Value::Arg(n)),
{
    let (c, r) = with_gep(b, v, path, elem);
    lemma_local_stable(b, c, v);
    let (d, s) = with_select(b, condition, v, w, true);
    lemma_local_stable(b, d, v);
    lemma_local_stable(b, d, w);
    let (e, t) = with_select(b, condition, v, w, false);
    assert(e.insts[t->Inst_0 as int].op == Op::Select {
        condition,
        on_true: v,
        on_false: w,
        array_address: false,
    });
    let (f, u) = with_load(b, v, elem, align);
    assert(f.insts[u->Inst_0 as int].op is Load);
}

/// How many addresses a value stands for.
pub open spec fn choices(b: Body, v: Value) -> int {
    match candidate_count(b, v) {
        None => 1,
        Some(n) => n as int,
    }
}

/// A marked choice stands for the addresses that both of its sides stand for, and what is
/// computed from an address for as many as that. Nothing else is a choice.
pub proof fn law_choices_are_counted(
    b: Body,
    v: Value,
    w: Value,
    condition: Value,
    path: GepPath,
    elem: LlvmShape,
    width: u32,
    align: Option<u32>,
    n: usize,
)
    requires
        b.insts.len() + 2 < usize::MAX,
        valid(b, v),
        valid(b, w),
    ensures
        ({
            let (c, r) = with_select(b, condition, v, w, true);
            &&& choices(b, v) + choices(b, w) <= u64::MAX ==> candidate_count(c, r) is Some
                && candidate_count(c, r)->Some_0 == choices(b, v) + choices(b, w)
            &&& choices(b, v) + choices(b, w) > u64::MAX ==> candidate_count(c, r) is None
        }),
        ({
            let (c, r) = with_gep(b, v, path, elem);
            candidate_count(c, r) == candidate_count(b, v)
        }),
        ({
            let (c, r) = with_select(b, condition, v, w, false);
            candidate_count(c, r) is None
        }),
        ({
            let (c, slot) = with_stack_slot(b, elem, width, align);
            candidate_count(c, slot) is None
        }),
        ({
            let (c, r) = with_load(b, v, elem, align);
            candidate_count(c, r) is None
        }),
        candidate_count(b, Value::Arg(n)) is None,
{
    let (c, r) = with_gep(b, v, path, elem);
    lemma_candidates_stable(b, c, v);
    let (d, s) = with_select(b, condition, v, w, true);
    lemma_candidates_stable(b, d, v);
    lemma_candidates_stable(b, d, w);
    let (e, t) = with_select(b, condition, v, w, false);
    assert(e.insts[t->Inst_0 as int].op is Select);
    let (g, slot) = with_stack_slot(b, elem, width, align);
    assert(g.insts[slot->Inst_0 as int].op is Alloca);
    let (f, u) = with_load(b, v, elem, align);
    assert(f.insts[u->Inst_0 as int].op is Load);
}

/// Whether an address computation depends on no value but its base.
pub open spec fn constant_path(path: GepPath) -> bool {
    match path {
        GepPath::One(first) => first is Constant,
        GepPath::Two(first, second) => first is Constant && second is Constant,
    }
}

/// Whether every address that `c` computes beyond `b` is a constant distance from its base.
pub open spec fn only_constant_steps(b: Body, c: Body) -> bool {
    &&& extends(b, c)
    &&& forall|i: int|
        b.insts.len() <= i < c.insts.len() ==> ((
        #[trigger] c.insts[i]).op matches Op::GetElementPtr { base, path, inbounds }
            ==> constant_path(path))
}

/// The address of an element of a small array in a stack slot, or of one that is a field
/// behind a reference that does not allow writes, is a choice among the addresses of its
/// elements. Each of these is a constant distance from the array.
pub proof fn law_near_elements_are_chosen(
    b: Body,
    ptr: Value,
    history: Seq<MirType>,
    index: Value,
    p: MirPtrType,
    elem: MirType,
    n: u64,
    t: LlvmShape,
)
    requires
        b.insts.len() + 128 < usize::MAX,
        valid(b, ptr),
        valid(b, index),
        value_type(b, index) is Integer,
        newest(history, TypeKind::Ptr) == Some(MirType::Ptr(p)),
        *p.pointee == MirType::Array(Box::new(elem), n),
        lowered(elem) == Ok::<LlvmShape, LowerError>(t),
        1 <= n <= MAX_SSA_ARRAY_ELEMENTS,
        n * choices(b, ptr) <= u64::MAX,
        is_local_address(b, ptr) || {
            &&& !p.mutable
            &&& ptr is Inst
            &&& b.insts[ptr->Inst_0 as int].op is GetElementPtr
            &&& b.insts[ptr->Inst_0 as int].elem is Struct
        },
    ensures
        ({
            let (c, r) = array_element_address(b, ptr, history, index);
            &&& r is Ok
            &&& only_constant_steps(b, c)
            &&& choices(c, r->Ok_0) == n * choices(b, ptr)
            &&& n > 1 ==> candidate_count(c, r->Ok_0) is Some
        }),
{
    let array_ty = LlvmShape::Array(Box::new(t), n);
    assert(lowered(*p.pointee) == Ok::<LlvmShape, LowerError>(array_ty));
    let (b1, last) = element_address(b, ptr, array_ty, n - 1);
    lemma_extends_value(b, b1, index);
    lemma_extends_value(b, b1, ptr);
    lemma_candidates_stable(b, b1, ptr);
    let m = choices(b, ptr);
    assert(1 * m == m) by (nonlinear_arith);
    assert(m <= n * m) by (nonlinear_arith)
        requires
            n >= 1,
            m >= 0,
    ;
    lemma_selected_choices(b1, ptr, index, array_ty, last, n - 1, 1, m);
    let (c, r) = selected_address(b1, ptr, index, array_ty, last, n - 1);
    lemma_extends_transitive(b, b1, c);
    assert forall|i: int| b.insts.len() <= i < c.insts.len() implies ((#[trigger] c.insts[i]).op
        matches Op::GetElementPtr { base, path, inbounds } ==> constant_path(path)) by {
        if i == b.insts.len() {
            assert(c.insts[i] == b1.insts[i]);
        }
    }
}

proof fn lemma_selected_choices(
    b: Body,
    ptr: Value,
    index: Value,
    array_ty: LlvmShape,
    selected: Value,
    j: int,
    done: int,
    m: int,
)
    requires
        0 <= j,
        1 <= done,
        b.insts.len() + 4 * j + 1 < usize::MAX,
        valid(b, ptr),
        valid(b, index),
        valid(b, selected),
        value_type(b, index) is Integer,
        choices(b, ptr) == m,
        choices(b, selected) == done * m,
        (done + j) * m <= u64::MAX,
        0 <= m,
    ensures
        ({
            let (c, r) = selected_address(b, ptr, index, array_ty, selected, j);
            &&& r is Ok
            &&& only_constant_steps(b, c)
            &&& choices(c, r->Ok_0) == (done + j) * m
            &&& j > 0 ==> candidate_count(c, r->Ok_0) is Some
            &&& j == 0 ==> r->Ok_0 == selected
        }),
    decreases j,
{
    if j > 0 {
        let (b1, address) = element_address(b, ptr, array_ty, j - 1);
        assert(extends(b, b1));
        lemma_extends_value(b, b1, index);
        let width = value_type(b1, index)->Integer_0;
        let (b2, constant) = with_constant(b1, width, (j - 1) as u128);
        let (b3, condition) = with_compare(b2, Predicate::Eq, index, constant);
        let (b4, next) = with_select(b3, condition, address, selected, true);
        assert(extends(b1, b3));
        assert(extends(b, b3));
        assert(extends(b, b4));
        lemma_candidates_stable(b, b3, ptr);
        lemma_candidates_stable(b, b4, ptr);
        lemma_candidates_stable(b, b1, ptr);
        lemma_candidates_stable(b, b3, selected);
        assert(candidate_count(b1, address) == candidate_count(b1, ptr));
        lemma_candidates_stable(b1, b3, address);
        assert((done + 1) * m == done * m + m) by (nonlinear_arith);
        assert((done + 1) * m <= (done + j) * m) by (nonlinear_arith)
            requires
                m >= 0,
                j >= 1,
        ;
        law_choices_are_counted(
            b3,
            address,
            selected,
            condition,
            GepPath::One(GepIndex::Constant(0)),
            array_ty,
            width,
            None,
            0,
        );
        assert(choices(b4, next) == (done + 1) * m);
        lemma_extends_value(b, b4, index);
        lemma_extends_value(b, b4, ptr);
        assert(selected_on_match(b1, index, j - 1, address, selected, true) == (
            b4,
            Ok::<_, LowerError>(next),
        ));
        assert((done + 1 + (j - 1)) * m == (done + j) * m);
        lemma_selected_choices(b4, ptr, index, array_ty, next, j - 1, done + 1, m);
        let (c, r) = selected_address(b4, ptr, index, array_ty, next, j - 1);
        lemma_extends_transitive(b, b4, c);
        assert forall|i: int| b.insts.len() <= i < c.insts.len() implies ((
        #[trigger] c.insts[i]).op matches Op::GetElementPtr { base, path, inbounds }
            ==> constant_path(path)) by {
            if i < b4.insts.len() {
                assert(c.insts[i] == b4.insts[i]);
            }
        }
    }
}

/// The address of an element of any other array is computed from the index at once.
pub proof fn law_other_elements_are_not_chosen(
    b: Body,
    ptr: Value,
    history: Seq<MirType>,
    index: Value,
    p: MirPtrType,
    elem: MirType,
    n: u64,
    t: LlvmShape,
)
    requires
        b.insts.len() < usize::MAX,
        valid(b, ptr),
        newest(history, TypeKind::Ptr) == Some(MirType::Ptr(p)),
        *p.pointee == MirType::Array(Box::new(elem), n),
        lowered(elem) == Ok::<LlvmShape, LowerError>(t),
        !is_local_address(b, ptr),
        p.mutable || ptr is Arg || !(b.insts[ptr->Inst_0 as int].op is GetElementPtr) || !(
        b.insts[ptr->Inst_0 as int].elem is Struct),
    ensures
        ({
            let (c, r) = array_element_address(b, ptr, history, index);
            &&& r is Ok
            &&& extends(b, c)
            &&& c.insts.len() == b.insts.len() + 1
            &&& c.insts.last().op is GetElementPtr
            &&& candidate_count(c, r->Ok_0) == candidate_count(b, ptr)
        }),
{
    let (c, r) = array_element_address(b, ptr, history, index);
    lemma_candidates_stable(b, c, ptr);
}

// ---------------------------------------------------------------------------
// Accesses through a choice
// ---------------------------------------------------------------------------

/// Whether no access of memory that `c` adds to `b` goes through a choice of addresses.
pub open spec fn spares_choices(b: Body, c: Body) -> bool {
    &&& extends(b, c)
    &&& forall|i: int|
        b.insts.len() <= i < c.insts.len() ==> match (#[trigger] c.insts[i]).op {
            Op::Load { ptr, align, is_volatile } => valid(c, ptr) && candidate_count(c, ptr)
                is None,
            Op::Store { value, ptr, align, is_volatile } => valid(c, ptr) && candidate_count(
                c,
                ptr,
            ) is None,
            _ => true,
        }
}

proof fn lemma_spared_transitive(a: Body, b: Body, c: Body)
    requires
        spares_choices(a, b),
        spares_choices(b, c),
    ensures
        spares_choices(a, c),
{
    lemma_extends_transitive(a, b, c);
    assert forall|i: int| a.insts.len() <= i < c.insts.len() implies match (
    #[trigger] c.insts[i]).op {
        Op::Load { ptr, align, is_volatile } => valid(c, ptr) && candidate_count(c, ptr) is None,
        Op::Store { value, ptr, align, is_volatile } => valid(c, ptr) && candidate_count(c, ptr)
            is None,
        _ => true,
    } by {
        if i < b.insts.len() {
            assert(c.insts[i] == b.insts[i]);
            match b.insts[i].op {
                Op::Load { ptr, align, is_volatile } => {
                    lemma_candidates_stable(b, c, ptr);
                },
                Op::Store { value, ptr, align, is_volatile } => {
                    lemma_candidates_stable(b, c, ptr);
                },
                _ => {},
            }
        }
    }
}

proof fn lemma_repeated_spared(b: Body, ptr: Value, geps: Seq<DeferredGepShape>, k: int)
    requires
        valid(b, ptr),
        candidate_count(b, ptr) is None,
        repeated(b, ptr, geps, k).0.insts.len() <= usize::MAX,
    ensures
        ({
            let (c, r) = repeated(b, ptr, geps, k);
            &&& spares_choices(b, c)
            &&& valid(c, r)
            &&& candidate_count(c, r) is None
        }),
    decreases k,
{
    if k > 0 {
        let gep = geps[k - 1];
        let (b1, next) = with_gep(b, ptr, gep.path, gep.elem);
        assert(extends(b, b1));
        lemma_repeated_accesses(b1, next, geps, k - 1, None);
        lemma_candidates_stable(b, b1, ptr);
        assert(b1.insts[next->Inst_0 as int].op is GetElementPtr);
        assert(candidate_count(b1, next) is None);
        assert(spares_choices(b, b1));
        lemma_repeated_spared(b1, next, geps, k - 1);
        lemma_spared_transitive(b, b1, repeated(b1, next, geps, k - 1).0);
    }
}

proof fn lemma_plain_is_no_choice(b: Body, v: Value)
    requires
        step_at(b, v) is Plain,
    ensures
        candidate_count(b, v) is None,
{
}

proof fn lemma_loads_spared(
    b: Body,
    v: Value,
    ty: LlvmShape,
    align: Option<u32>,
    geps: Seq<DeferredGepShape>,
)
    requires
        valid(b, v),
        loaded_through(b, v, ty, align, geps).0.insts.len() <= usize::MAX,
    ensures
        spares_choices(b, loaded_through(b, v, ty, align, geps).0),
    decreases rank(v),
{
    match step_at(b, v) {
        Step::Choice { condition, on_true, on_false } => {
            if rank(on_true) < rank(v) && rank(on_false) < rank(v) {
                let (b1, x) = loaded_through(b, on_true, ty, align, geps);
                let (b2, y) = loaded_through(b1, on_false, ty, align, geps);
                lemma_split_load_accesses(b, on_true, ty, align, geps);
                lemma_split_load_accesses(b1, on_false, ty, align, geps);
                lemma_loads_spared(b, on_true, ty, align, geps);
                lemma_extends_value(b, b1, on_false);
                lemma_loads_spared(b1, on_false, ty, align, geps);
                lemma_spared_transitive(b, b1, b2);
                let b3 = with_select(b2, condition, x, y, false).0;
                assert(spares_choices(b2, b3));
                lemma_spared_transitive(b, b2, b3);
            }
        },
        Step::Computed { base, gep } => {
            if rank(base) < rank(v) {
                lemma_loads_spared(b, base, ty, align, geps.push(gep));
            }
        },
        Step::Plain => {
            lemma_plain_is_no_choice(b, v);
            let (b1, ptr) = repeated(b, v, geps, geps.len() as int);
            lemma_repeated_spared(b, v, geps, geps.len() as int);
            let b2 = with_load(b1, ptr, ty, align).0;
            assert(extends(b1, b2));
            lemma_candidates_stable(b1, b2, ptr);
            assert(spares_choices(b1, b2));
            lemma_spared_transitive(b, b1, b2);
        },
    }
}

proof fn lemma_stores_spared(
    b: Body,
    v: Value,
    value: Value,
    align: Option<u32>,
    geps: Seq<DeferredGepShape>,
    enabled: Value,
    never: Value,
)
    requires
        valid(b, v),
        stored_through(b, v, value, align, geps, enabled, never).insts.len() <= usize::MAX,
    ensures
        spares_choices(b, stored_through(b, v, value, align, geps, enabled, never)),
    decreases rank(v),
{
    match step_at(b, v) {
        Step::Choice { condition, on_true, on_false } => {
            if rank(on_true) < rank(v) && rank(on_false) < rank(v) {
                let (b1, if_true) = with_select(b, condition, enabled, never, false);
                let (b2, if_false) = with_select(b1, condition, never, enabled, false);
                assert(spares_choices(b, b1));
                assert(spares_choices(b1, b2));
                lemma_spared_transitive(b, b1, b2);
                let b3 = stored_through(b2, on_true, value, align, geps, if_true, never);
                let b4 = stored_through(b3, on_false, value, align, geps, if_false, never);
                lemma_split_store_accesses(b2, on_true, value, align, geps, if_true, never);
                lemma_split_store_accesses(b3, on_false, value, align, geps, if_false, never);
                lemma_extends_value(b, b2, on_true);
                lemma_stores_spared(b2, on_true, value, align, geps, if_true, never);
                lemma_spared_transitive(b, b2, b3);
                lemma_extends_value(b, b3, on_false);
                lemma_stores_spared(b3, on_false, value, align, geps, if_false, never);
                lemma_spared_transitive(b, b3, b4);
            }
        },
        Step::Computed { base, gep } => {
            if rank(base) < rank(v) {
                lemma_stores_spared(b, base, value, align, geps.push(gep), enabled, never);
            }
        },
        Step::Plain => {
            lemma_plain_is_no_choice(b, v);
            let (b1, ptr) = repeated(b, v, geps, geps.len() as int);
            lemma_repeated_spared(b, v, geps, geps.len() as int);
            let (b2, before) = with_load(b1, ptr, value_type(b1, value), align);
            let (b3, selected) = with_select(b2, enabled, value, before, false);
            let b4 = with_store(b3, selected, ptr, align);
            assert(extends(b1, b2));
            lemma_candidates_stable(b1, b2, ptr);
            assert(spares_choices(b1, b2));
            assert(spares_choices(b2, b3));
            assert(extends(b2, b3));
            lemma_candidates_stable(b2, b3, ptr);
            assert(extends(b3, b4));
            lemma_candidates_stable(b3, b4, ptr);
            assert(spares_choices(b3, b4));
            lemma_spared_transitive(b, b1, b2);
            lemma_spared_transitive(b, b2, b3);
            lemma_spared_transitive(b, b3, b4);
        },
    }
}

/// A load or store through a choice among up to 64 addresses goes through each of them, and
/// never through the choice, unless it is volatile.
pub proof fn law_choices_are_not_accessed(
    b: Body,
    operands: Seq<Value>,
    history: Seq<MirType>,
    t: MirType,
    align: Option<u32>,
    n: u64,
)
    requires
        operands.len() == 2,
        valid(b, operands[0]),
        candidate_count(b, operands[0]) == Some(n),
        1 <= n <= 64,
        load_of(b, operands[0], t, align, false).0.insts.len() <= usize::MAX,
        store_of(b, operands, history, align, false).0.insts.len() <= usize::MAX,
    ensures
        spares_choices(b, load_of(b, operands[0], t, align, false).0),
        spares_choices(b, store_of(b, operands, history, align, false).0),
{
    if lowered(t) is Ok {
        lemma_loads_spared(b, operands[0], lowered(t)->Ok_0, align, Seq::empty());
    }
    let (b1, never) = with_constant(b, 1, 0);
    let (b2, always) = with_constant(b1, 1, 1);
    assert(spares_choices(b, b1));
    assert(spares_choices(b1, b2));
    lemma_spared_transitive(b, b1, b2);
    lemma_extends_value(b, b2, operands[0]);
    lemma_stores_spared(
        b2,
        operands[0],
        operands[1],
        align,
        Seq::empty(),
        always,
        never,
    );
    lemma_spared_transitive(b, b2, store_of(b, operands, history, align, false).0);
}

} // verus!
