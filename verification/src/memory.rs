//! Loads, stores, stack slots, address offsets and block transfers.

use crate::error::LowerError;
use crate::ir::{
    comes_before, defining_op, extends, lemma_extends_transitive, lemma_extends_value, rank, valid,
    value_type, with_binary, with_constant, with_gep, with_inst, with_load, with_op, with_note,
    with_select, with_stack_slot, with_store, with_transfer_call, BinOp, Body, Builder, DebugInfo,
    GepIndex, GepPath, Intrinsic, Location, Op, Value,
};
use crate::layout::{llvm_type_size_align, size_align};
use crate::llvm::{LlvmShape, LlvmType, GENERIC};
use crate::mir::MirType;
use crate::operands::{most_recent_of_kind, newest, Operand, TypeKind};
use crate::struct_slots::{mir_stored_size, stored_size};
use crate::types::{abi_align, convert_type, lowered, mir_type_abi_align};
use vstd::prelude::*;

verus! {

// ---------------------------------------------------------------------------
// Alignments
// ---------------------------------------------------------------------------

/// The newest stored alignment among the first `k` types of a history.
pub open spec fn recorded_align(history: Seq<MirType>, k: int) -> Option<u32>
    decreases k,
{
    if k <= 0 {
        None
    } else {
        match abi_align(history[k - 1]) {
            Some(align) => Some(align as u32),
            None => recorded_align(history, k - 1),
        }
    }
}

/// The alignment of memory operations on a value with the given history.
pub open spec fn value_align(history: Seq<MirType>) -> Option<u32> {
    recorded_align(history, history.len() as int)
}

/// Recovers the alignment that rustc gave a value's type.
///
/// LLVM types cannot express over-alignment, so it is read from the newest
/// earlier type that records one.
pub fn value_abi_align(history: &Vec<MirType>) -> (r: Option<u32>)
    ensures
        r == value_align(history@),
{
    let mut k: usize = history.len();
    while k > 0
        invariant
            k <= history@.len(),
            value_align(history@) == recorded_align(history@, k as int),
        decreases k,
    {
        k = k - 1;
        match mir_type_abi_align(&history[k]) {
            Some(align) => {
                return Some(align as u32);
            },
            None => {},
        }
    }
    None
}

/// The alignment of memory operations on a value of type `t`.
pub open spec fn type_align(t: MirType) -> Option<u32> {
    match abi_align(t) {
        None => None,
        Some(align) => Some(align as u32),
    }
}

fn exec_type_align(t: &MirType) -> (r: Option<u32>)
    ensures
        r == type_align(*t),
{
    match mir_type_abi_align(t) {
        None => None,
        Some(align) => Some(align as u32),
    }
}

// ---------------------------------------------------------------------------
// Choices between addresses of one small array
// ---------------------------------------------------------------------------

/// How many constant addresses a marked choice stands for, also behind further
/// address computations. Nothing where there is no such choice.
pub open spec fn candidate_count(b: Body, v: Value) -> Option<u64>
    decreases rank(v),
{
    match defining_op(b, v) {
        Some(Op::Select { condition, on_true, on_false, array_address }) => if array_address
            && comes_before(b, on_true, v) && comes_before(b, on_false, v) {
            let m = match candidate_count(b, on_true) {
                Some(n) => n,
                None => 1,
            };
            let n = match candidate_count(b, on_false) {
                Some(n) => n,
                None => 1,
            };
            if m + n <= u64::MAX {
                Some((m + n) as u64)
            } else {
                None
            }
        } else {
            None
        },
        Some(Op::GetElementPtr { base, path, inbounds }) => if comes_before(b, base, v) {
            candidate_count(b, base)
        } else {
            None
        },
        _ => None,
    }
}

/// Counts the constant addresses that a marked choice stands for.
pub fn small_array_pointer_candidate_count(b: &Builder, v: Value) -> (r: Option<u64>)
    ensures
        r == candidate_count(b@, v),
    decreases rank(v),
{
    match b.defining_op(v) {
        Some(Op::Select { condition: _, on_true, on_false, array_address }) => {
            if !array_address || !b.precedes(on_true, v) || !b.precedes(on_false, v) {
                return None;
            }
            let m: u64 = match small_array_pointer_candidate_count(b, on_true) {
                Some(n) => n,
                None => 1,
            };
            let n: u64 = match small_array_pointer_candidate_count(b, on_false) {
                Some(n) => n,
                None => 1,
            };
            m.checked_add(n)
        },
        Some(Op::GetElementPtr { base, path: _, inbounds: _ }) => {
            if b.precedes(base, v) {
                small_array_pointer_candidate_count(b, base)
            } else {
                None
            }
        },
        _ => None,
    }
}

/// An address computation that is repeated on each constant address.
pub struct DeferredGep {
    pub path: GepPath,
    pub elem: LlvmType,
}

/// The model of a [`DeferredGep`].
pub ghost struct DeferredGepShape {
    pub path: GepPath,
    pub elem: LlvmShape,
}

impl View for DeferredGep {
    type V = DeferredGepShape;

    open spec fn view(&self) -> DeferredGepShape {
        DeferredGepShape { path: self.path, elem: self.elem@ }
    }
}

/// The models of a list of deferred computations.
pub open spec fn gep_shapes(geps: Seq<DeferredGep>) -> Seq<DeferredGepShape> {
    Seq::new(geps.len(), |i: int| geps[i]@)
}

/// What happens at an address behind choices.
pub ghost enum Step {
    /// The address is a choice between two.
    Choice { condition: Value, on_true: Value, on_false: Value },
    /// The address is computed from a base that is such a choice.
    Computed { base: Value, gep: DeferredGepShape },
    /// The address is used as it is.
    Plain,
}

/// What happens at address `v`.
pub open spec fn step_at(b: Body, v: Value) -> Step {
    match defining_op(b, v) {
        Some(Op::Select { condition, on_true, on_false, array_address }) => if array_address
            && comes_before(b, on_true, v) && comes_before(b, on_false, v) {
            Step::Choice { condition, on_true, on_false }
        } else {
            Step::Plain
        },
        Some(Op::GetElementPtr { base, path, inbounds }) => if comes_before(b, base, v)
            && candidate_count(b, base) is Some {
            Step::Computed {
                base,
                gep: DeferredGepShape { path, elem: b.insts[v->Inst_0 as int].elem },
            }
        } else {
            Step::Plain
        },
        _ => Step::Plain,
    }
}

/// Repeats the first `k` deferred computations, the last of them first.
pub open spec fn repeated(b: Body, ptr: Value, geps: Seq<DeferredGepShape>, k: int) -> (
    Body,
    Value,
)
    decreases k,
{
    if k <= 0 {
        (b, ptr)
    } else {
        let gep = geps[k - 1];
        let (b1, next) = with_gep(b, ptr, gep.path, gep.elem);
        repeated(b1, next, geps, k - 1)
    }
}

/// Loads through a choice of addresses: loads from each and selects among the
/// values.
pub open spec fn loaded_through(
    b: Body,
    v: Value,
    ty: LlvmShape,
    align: Option<u32>,
    geps: Seq<DeferredGepShape>,
) -> (Body, Value)
    decreases rank(v),
{
    match step_at(b, v) {
        Step::Choice { condition, on_true, on_false } => if rank(on_true) < rank(v) && rank(
            on_false,
        ) < rank(v) {
            let (b1, x) = loaded_through(b, on_true, ty, align, geps);
            let (b2, y) = loaded_through(b1, on_false, ty, align, geps);
            with_select(b2, condition, x, y, false)
        } else {
            (b, v)
        },
        Step::Computed { base, gep } => if rank(base) < rank(v) {
            loaded_through(b, base, ty, align, geps.push(gep))
        } else {
            (b, v)
        },
        Step::Plain => {
            let (b1, ptr) = repeated(b, v, geps, geps.len() as int);
            with_load(b1, ptr, ty, align)
        },
    }
}

/// Stores through a choice of addresses: each address gets the new value where
/// `enabled` holds for it, and its own old value elsewhere.
pub open spec fn stored_through(
    b: Body,
    v: Value,
    value: Value,
    align: Option<u32>,
    geps: Seq<DeferredGepShape>,
    enabled: Value,
    never: Value,
) -> Body
    decreases rank(v),
{
    match step_at(b, v) {
        Step::Choice { condition, on_true, on_false } => if rank(on_true) < rank(v) && rank(
            on_false,
        ) < rank(v) {
            let (b1, if_true) = with_select(b, condition, enabled, never, false);
            let (b2, if_false) = with_select(b1, condition, never, enabled, false);
            let b3 = stored_through(b2, on_true, value, align, geps, if_true, never);
            stored_through(b3, on_false, value, align, geps, if_false, never)
        } else {
            b
        },
        Step::Computed { base, gep } => if rank(base) < rank(v) {
            stored_through(b, base, value, align, geps.push(gep), enabled, never)
        } else {
            b
        },
        Step::Plain => {
            let (b1, ptr) = repeated(b, v, geps, geps.len() as int);
            let (b2, before) = with_load(b1, ptr, value_type(b1, value), align);
            let (b3, selected) = with_select(b2, enabled, value, before, false);
            with_store(b3, selected, ptr, align)
        },
    }
}

fn repeat_geps(b: &mut Builder, ptr: Value, geps: &Vec<DeferredGep>) -> (r: Value)
    requires
        valid(old(b)@, ptr),
    ensures
        (final(b)@, r) == repeated(old(b)@, ptr, gep_shapes(geps@), geps@.len() as int),
        extends(old(b)@, final(b)@),
        valid(final(b)@, r),
{
    let ghost first = b@;
    let ghost gs = gep_shapes(geps@);
    let mut current = ptr;
    let mut k: usize = geps.len();
    while k > 0
        invariant
            k <= geps@.len(),
            gs == gep_shapes(geps@),
            first == old(b)@,
            extends(first, b@),
            valid(b@, current),
            repeated(first, ptr, gs, geps@.len() as int) == repeated(b@, current, gs, k as int),
        decreases k,
    {
        let ghost c = b@;
        k = k - 1;
        assert(gs[k as int] == geps@[k as int]@);
        current = b.gep(current, geps[k].path, geps[k].elem.duplicate());
        proof {
            lemma_extends_transitive(first, c, b@);
        }
    }
    current
}

fn extend_geps(geps: &Vec<DeferredGep>, path: GepPath, elem: &LlvmType) -> (r: Vec<DeferredGep>)
    ensures
        gep_shapes(r@) == gep_shapes(geps@).push(DeferredGepShape { path, elem: elem@ }),
{
    let mut out: Vec<DeferredGep> = Vec::new();
    for i in 0..geps.len()
        invariant
            out@.len() == i,
            forall|j: int| 0 <= j < i ==> (#[trigger] out@[j])@ == geps@[j]@,
    {
        out.push(DeferredGep { path: geps[i].path, elem: geps[i].elem.duplicate() });
    }
    out.push(DeferredGep { path, elem: elem.duplicate() });
    assert(gep_shapes(out@) =~= gep_shapes(geps@).push(DeferredGepShape { path, elem: elem@ }));
    out
}

fn load_through_small_array_pointer_selection(
    b: &mut Builder,
    v: Value,
    ty: &LlvmType,
    align: Option<u32>,
    geps: &Vec<DeferredGep>,
) -> (r: Value)
    requires
        valid(old(b)@, v),
    ensures
        (final(b)@, r) == loaded_through(old(b)@, v, ty@, align, gep_shapes(geps@)),
        extends(old(b)@, final(b)@),
        valid(final(b)@, r),
    decreases rank(v),
{
    let ghost b0 = b@;
    match b.defining_op(v) {
        Some(Op::Select { condition, on_true, on_false, array_address }) => {
            if array_address && b.precedes(on_true, v) && b.precedes(on_false, v) {
                let x = load_through_small_array_pointer_selection(b, on_true, ty, align, geps);
                let ghost b1 = b@;
                proof {
                    lemma_extends_value(b0, b1, on_false);
                }
                let y = load_through_small_array_pointer_selection(b, on_false, ty, align, geps);
                let ghost b2 = b@;
                proof {
                    lemma_extends_transitive(b0, b1, b2);
                    lemma_extends_value(b1, b2, x);
                }
                let r = b.select(condition, x, y, false);
                proof {
                    lemma_extends_transitive(b0, b2, b@);
                }
                return r;
            }
        },
        Some(Op::GetElementPtr { base, path, inbounds: _ }) => {
            if b.precedes(base, v) && small_array_pointer_candidate_count(b, base).is_some() {
                if let Value::Inst(i) = v {
                    assert(b@.insts[i as int] == b.insts@[i as int]@);
                    let nested = extend_geps(geps, path, &b.insts[i].elem);
                    return load_through_small_array_pointer_selection(
                        b,
                        base,
                        ty,
                        align,
                        &nested,
                    );
                }
            }
        },
        _ => {},
    }
    assert(step_at(b0, v) is Plain);
    let ptr = repeat_geps(b, v, geps);
    let ghost b1 = b@;
    let r = b.load(ptr, ty.duplicate(), align);
    proof {
        lemma_extends_transitive(b0, b1, b@);
    }
    r
}

fn store_through_small_array_pointer_selection(
    b: &mut Builder,
    v: Value,
    value: Value,
    align: Option<u32>,
    geps: &Vec<DeferredGep>,
    enabled: Value,
    never: Value,
)
    requires
        valid(old(b)@, v),
        valid(old(b)@, value),
        valid(old(b)@, enabled),
        valid(old(b)@, never),
    ensures
        final(b)@ == stored_through(
            old(b)@,
            v,
            value,
            align,
            gep_shapes(geps@),
            enabled,
            never,
        ),
        extends(old(b)@, final(b)@),
    decreases rank(v),
{
    let ghost b0 = b@;
    match b.defining_op(v) {
        Some(Op::Select { condition, on_true, on_false, array_address }) => {
            if array_address && b.precedes(on_true, v) && b.precedes(on_false, v) {
                let if_true = b.select(condition, enabled, never, false);
                let ghost b1 = b@;
                proof {
                    lemma_extends_value(b0, b1, never);
                }
                let if_false = b.select(condition, never, enabled, false);
                let ghost b2 = b@;
                proof {
                    lemma_extends_transitive(b0, b1, b2);
                    lemma_extends_value(b0, b2, on_true);
                    lemma_extends_value(b0, b2, value);
                    lemma_extends_value(b1, b2, if_true);
                    lemma_extends_value(b0, b2, never);
                }
                store_through_small_array_pointer_selection(
                    b,
                    on_true,
                    value,
                    align,
                    geps,
                    if_true,
                    never,
                );
                let ghost b3 = b@;
                proof {
                    lemma_extends_transitive(b0, b2, b3);
                    lemma_extends_value(b0, b3, on_false);
                    lemma_extends_value(b0, b3, value);
                    lemma_extends_value(b2, b3, if_false);
                    lemma_extends_value(b0, b3, never);
                }
                store_through_small_array_pointer_selection(
                    b,
                    on_false,
                    value,
                    align,
                    geps,
                    if_false,
                    never,
                );
                proof {
                    lemma_extends_transitive(b0, b3, b@);
                }
                return ;
            }
        },
        Some(Op::GetElementPtr { base, path, inbounds: _ }) => {
            if b.precedes(base, v) && small_array_pointer_candidate_count(b, base).is_some() {
                if let Value::Inst(i) = v {
                    assert(b@.insts[i as int] == b.insts@[i as int]@);
                    let nested = extend_geps(geps, path, &b.insts[i].elem);
                    store_through_small_array_pointer_selection(
                        b,
                        base,
                        value,
                        align,
                        &nested,
                        enabled,
                        never,
                    );
                    return ;
                }
            }
        },
        _ => {},
    }
    assert(step_at(b0, v) is Plain);
    let ptr = repeat_geps(b, v, geps);
    let ghost b1 = b@;
    proof {
        lemma_extends_value(b0, b1, value);
    }
    let ty = b.value_type(value).duplicate();
    let before = b.load(ptr, ty, align);
    let ghost b2 = b@;
    proof {
        lemma_extends_transitive(b0, b1, b2);
        lemma_extends_value(b0, b2, value);
    }
    let selected = b.select(enabled, value, before, false);
    let ghost b3 = b@;
    b.store(selected, ptr, align);
    proof {
        lemma_extends_transitive(b0, b2, b3);
        lemma_extends_transitive(b0, b3, b@);
    }
}

// ---------------------------------------------------------------------------
// Loads and stores
// ---------------------------------------------------------------------------

/// Whether an access through `ptr` is split over the constant addresses of a
/// choice: it is not volatile, and there are at most 64 of them.
pub open spec fn is_split(b: Body, ptr: Value, is_volatile: bool) -> bool {
    !is_volatile && match candidate_count(b, ptr) {
        Some(n) => 1 <= n <= 64,
        None => false,
    }
}

fn splits(b: &Builder, ptr: Value, is_volatile: bool) -> (r: bool)
    ensures
        r == is_split(b@, ptr, is_volatile),
{
    if is_volatile {
        return false;
    }
    match small_array_pointer_candidate_count(b, ptr) {
        Some(n) => 1 <= n && n <= 64,
        None => false,
    }
}

/// Stores `value` through `ptr`; `align` is the alignment that the operation
/// itself records.
pub open spec fn stored(
    b: Body,
    ptr: Value,
    value: Value,
    history: Seq<MirType>,
    align: Option<u32>,
    is_volatile: bool,
) -> Body {
    if is_split(b, ptr, is_volatile) {
        let (b1, never) = with_constant(b, 1, 0);
        let (b2, always) = with_constant(b1, 1, 1);
        stored_through(b2, ptr, value, align, Seq::empty(), always, never)
    } else {
        with_op(
            b,
            Op::Store { value, ptr, align: value_align(history), is_volatile },
            LlvmShape::Void,
        ).0
    }
}

/// The lowering of a store with operands `[ptr, value]`.
pub open spec fn store_of(
    b: Body,
    operands: Seq<Value>,
    history: Seq<MirType>,
    align: Option<u32>,
    is_volatile: bool,
) -> (Body, Result<(), LowerError>) {
    if operands.len() != 2 {
        (b, Err(LowerError::MemoryOperands { operands: operands.len() as usize, needed: 2 }))
    } else {
        (stored(b, operands[0], operands[1], history, align, is_volatile), Ok(()))
    }
}

/// Lowers a store. `value_history` lists the types that the stored value had
/// before, and `op_align` is the alignment that the operation itself records.
pub fn convert_store(
    b: &mut Builder,
    operands: &Vec<Value>,
    value_history: &Vec<MirType>,
    op_align: Option<u32>,
    is_volatile: bool,
) -> (r: Result<(), LowerError>)
    requires
        forall|i: int| 0 <= i < operands@.len() ==> valid(old(b)@, #[trigger] operands@[i]),
    ensures
        (final(b)@, r) == store_of(
            old(b)@,
            operands@,
            value_history@,
            op_align,
            is_volatile,
        ),
        extends(old(b)@, final(b)@),
{
    if operands.len() != 2 {
        return Err(LowerError::MemoryOperands { operands: operands.len(), needed: 2 });
    }
    let ptr = operands[0];
    let value = operands[1];
    assert(valid(b@, operands@[0]) && valid(b@, operands@[1]));
    let ghost b0 = b@;
    if splits(b, ptr, is_volatile) {
        let never = b.constant(1, 0);
        let ghost b1 = b@;
        let always = b.constant(1, 1);
        let ghost b2 = b@;
        proof {
            lemma_extends_transitive(b0, b1, b2);
            lemma_extends_value(b0, b2, ptr);
            lemma_extends_value(b0, b2, value);
            lemma_extends_value(b1, b2, never);
        }
        let none: Vec<DeferredGep> = Vec::new();
        assert(gep_shapes(none@) =~= Seq::empty());
        store_through_small_array_pointer_selection(
            b,
            ptr,
            value,
            op_align,
            &none,
            always,
            never,
        );
        proof {
            lemma_extends_transitive(b0, b2, b@);
        }
        return Ok(());
    }
    let align = value_abi_align(value_history);
    let _ = b.emit_op(Op::Store { value, ptr, align, is_volatile }, LlvmType::Void);
    Ok(())
}

/// Loads a value of Rust-level type `t` from `ptr`.
pub open spec fn load_of(b: Body, ptr: Value, t: MirType, align: Option<u32>, is_volatile: bool) -> (
    Body,
    Result<Value, LowerError>,
) {
    match lowered(t) {
        Err(e) => (b, Err(e)),
        Ok(ty) => {
            let (c, r) = if is_split(b, ptr, is_volatile) {
                loaded_through(b, ptr, ty, align, Seq::empty())
            } else {
                with_op(b, Op::Load { ptr, align: type_align(t), is_volatile }, ty)
            };
            (c, Ok(r))
        },
    }
}

/// Lowers a load of a value of type `result_ty`.
pub fn convert_load(
    b: &mut Builder,
    ptr: Value,
    result_ty: &MirType,
    op_align: Option<u32>,
    is_volatile: bool,
) -> (r: Result<Value, LowerError>)
    requires
        valid(old(b)@, ptr),
    ensures
        (final(b)@, r) == load_of(old(b)@, ptr, *result_ty, op_align, is_volatile),
        extends(old(b)@, final(b)@),
        r is Ok ==> valid(final(b)@, r->Ok_0),
{
    let ty = match convert_type(result_ty) {
        Err(e) => {
            return Err(e);
        },
        Ok(ty) => ty,
    };
    if splits(b, ptr, is_volatile) {
        let none: Vec<DeferredGep> = Vec::new();
        assert(gep_shapes(none@) =~= Seq::empty());
        return Ok(load_through_small_array_pointer_selection(b, ptr, &ty, op_align, &none));
    }
    let align = exec_type_align(result_ty);
    Ok(b.emit_op(Op::Load { ptr, align, is_volatile }, ty))
}

/// A debug marker for `value`, which keeps its location and its variable.
pub open spec fn debug_value_of(
    b: Body,
    value: Value,
    location: Location,
    info: DebugInfo,
) -> Body {
    let (c, marker) = with_op(b, Op::DebugValue { value }, LlvmShape::Void);
    with_note(c, marker, location, info)
}

/// Lowers a debug marker for a value.
pub fn convert_dbg_value(b: &mut Builder, value: Value, location: Location, info: DebugInfo)
    ensures
        final(b)@ == debug_value_of(old(b)@, value, location, info),
        extends(old(b)@, final(b)@),
{
    let marker = b.emit_op(Op::DebugValue { value }, LlvmType::Void);
    b.note(marker, location, info);
}

// ---------------------------------------------------------------------------
// Stack slots and offsets
// ---------------------------------------------------------------------------

/// A stack slot for one value behind a pointer of type `t`, which keeps the
/// variable that it is for.
pub open spec fn alloca_of(b: Body, t: MirType, info: DebugInfo) -> (
    Body,
    Result<Value, LowerError>,
) {
    match t {
        MirType::Ptr(p) => match lowered(*p.pointee) {
            Err(e) => (b, Err(e)),
            Ok(ty) => {
                let (c, r) = with_stack_slot(b, ty, 32, type_align(*p.pointee));
                (with_note(c, r, Location::Unknown, info), Ok(r))
            },
        },
        _ => (b, Err(LowerError::UnexpectedType)),
    }
}

/// Lowers a stack slot; its type is what `result_ty` points to.
pub fn convert_alloca(b: &mut Builder, result_ty: &MirType, info: DebugInfo) -> (r: Result<
    Value,
    LowerError,
>)
    ensures
        (final(b)@, r) == alloca_of(old(b)@, *result_ty, info),
        extends(old(b)@, final(b)@),
        r is Ok ==> valid(final(b)@, r->Ok_0),
{
    match result_ty {
        MirType::Ptr(p) => match convert_type(&p.pointee) {
            Err(e) => Err(e),
            Ok(ty) => {
                let align = exec_type_align(&p.pointee);
                let slot = b.stack_slot(ty, 32, align);
                b.note(slot, Location::Unknown, info);
                Ok(slot)
            },
        },
        _ => Err(LowerError::UnexpectedType),
    }
}

/// The address of a fresh stack slot that holds `v`.
pub open spec fn reference_to(b: Body, v: Value, history: Seq<MirType>) -> (Body, Value) {
    let align = value_align(history);
    let (b1, slot) = with_stack_slot(b, value_type(b, v), 32, align);
    (with_store(b1, v, slot, align), slot)
}

/// Lowers a reference to a value: values have no address, so it is placed in
/// memory.
pub fn convert_ref(b: &mut Builder, operand: &Operand<'_>) -> (r: Value)
    requires
        valid(old(b)@, operand.value),
    ensures
        (final(b)@, r) == reference_to(old(b)@, operand.value, operand.history@),
        extends(old(b)@, final(b)@),
        valid(final(b)@, r),
{
    let ghost b0 = b@;
    let align = value_abi_align(operand.history);
    let ty = b.value_type(operand.value).duplicate();
    let slot = b.stack_slot(ty, 32, align);
    let ghost b1 = b@;
    b.store(operand.value, slot, align);
    proof {
        lemma_extends_transitive(b0, b1, b@);
        lemma_extends_value(b1, b@, slot);
    }
    slot
}

/// The address `operands[1]` elements behind `operands[0]`. The element is what
/// the pointer points to, or a byte where that is not known.
pub open spec fn offset_of(
    b: Body,
    operands: Seq<Value>,
    history: Seq<MirType>,
    inbounds: bool,
) -> (Body, Result<Value, LowerError>) {
    if operands.len() != 2 {
        (b, Err(LowerError::MemoryOperands { operands: operands.len() as usize, needed: 2 }))
    } else {
        let elem = match newest(history, TypeKind::Ptr) {
            None => Ok(LlvmShape::Integer(8)),
            Some(t) => lowered(*t->Ptr_0.pointee),
        };
        match elem {
            Err(e) => (b, Err(e)),
            Ok(ty) => {
                let (c, r) = with_inst(
                    b,
                    Op::GetElementPtr {
                        base: operands[0],
                        path: GepPath::One(GepIndex::Value(operands[1])),
                        inbounds,
                    },
                    value_type(b, operands[0]),
                    ty,
                );
                (c, Ok(r))
            },
        }
    }
}

/// Lowers a pointer offset. `pointer_history` lists the types that the pointer
/// had before.
pub fn convert_ptr_offset(
    b: &mut Builder,
    operands: &Vec<Value>,
    pointer_history: &Vec<MirType>,
    inbounds: bool,
) -> (r: Result<Value, LowerError>)
    requires
        forall|i: int| 0 <= i < operands@.len() ==> valid(old(b)@, #[trigger] operands@[i]),
    ensures
        (final(b)@, r) == offset_of(old(b)@, operands@, pointer_history@, inbounds),
        extends(old(b)@, final(b)@),
        r is Ok ==> valid(final(b)@, r->Ok_0),
{
    if operands.len() != 2 {
        return Err(LowerError::MemoryOperands { operands: operands.len(), needed: 2 });
    }
    let base = operands[0];
    assert(valid(b@, operands@[0]));
    let elem = match most_recent_of_kind(pointer_history, TypeKind::Ptr) {
        Some(MirType::Ptr(p)) => match convert_type(&p.pointee) {
            Err(e) => {
                return Err(e);
            },
            Ok(ty) => ty,
        },
        _ => LlvmType::Integer(8),
    };
    let ty = b.value_type(base).duplicate();
    Ok(
        b.emit(
            Op::GetElementPtr {
                base,
                path: GepPath::One(GepIndex::Value(operands[1])),
                inbounds,
            },
            ty,
            elem,
        ),
    )
}

// ---------------------------------------------------------------------------
// Block transfers
// ---------------------------------------------------------------------------

/// The address space of a pointer value; generic for other values.
pub open spec fn space_of(ty: LlvmShape) -> u32 {
    match ty {
        LlvmShape::Pointer(space) => space,
        _ => GENERIC,
    }
}

/// The width of an integer value; 64 for other values.
pub open spec fn width_of(ty: LlvmShape) -> u32 {
    match ty {
        LlvmShape::Integer(width) => width,
        _ => 64,
    }
}

/// `count` elements of `size` bytes each, in bytes.
pub open spec fn scaled_count(b: Body, count: Value, size: u64) -> (Body, Value) {
    if size == 1 {
        (b, count)
    } else {
        let (b1, factor) = with_constant(b, width_of(value_type(b, count)), size as u128);
        with_binary(b1, BinOp::Mul, count, factor)
    }
}

/// How many bytes one element takes in memory: the size that rustc stored for
/// its type, or else the size of its LLVM type.
pub open spec fn element_bytes(pointee: MirType, elem: LlvmShape) -> Result<u64, LowerError> {
    match stored_size(pointee) {
        Err(e) => Err(e),
        Ok(Some(size)) => Ok(size),
        Ok(None) => match size_align(elem) {
            None => Err(LowerError::SizeUnknown),
            Some((size, _)) => Ok(size),
        },
    }
}

fn element_size(pointee: &MirType, elem: &LlvmType) -> (r: Result<u64, LowerError>)
    ensures
        r == element_bytes(*pointee, elem@),
{
    match mir_stored_size(pointee) {
        Err(e) => Err(e),
        Ok(Some(size)) => Ok(size),
        Ok(None) => match llvm_type_size_align(elem) {
            None => Err(LowerError::SizeUnknown),
            Some((size, _)) => Ok(size),
        },
    }
}

/// A transfer of `operands[2]` elements from `operands[1]` to `operands[0]`.
/// LLVM counts bytes, so the count is scaled by the element's size.
pub open spec fn transfer_of(
    b: Body,
    operands: Seq<Value>,
    dst_history: Seq<MirType>,
    may_overlap: bool,
) -> (Body, Result<(), LowerError>) {
    if operands.len() != 3 {
        (b, Err(LowerError::MemoryOperands { operands: operands.len() as usize, needed: 3 }))
    } else {
        match newest(dst_history, TypeKind::Ptr) {
            None => (b, Err(LowerError::UnexpectedType)),
            Some(t) => match lowered(*t->Ptr_0.pointee) {
                Err(e) => (b, Err(e)),
                Ok(elem) => match element_bytes(*t->Ptr_0.pointee, elem) {
                    Err(e) => (b, Err(e)),
                    Ok(size) => {
                        let (b1, length) = scaled_count(b, operands[2], size);
                        let (b2, flag) = with_constant(b1, 1, 0);
                        let callee = Intrinsic::MemTransfer {
                            may_overlap,
                            dst_space: space_of(value_type(b, operands[0])),
                            src_space: space_of(value_type(b, operands[1])),
                            length_bits: width_of(value_type(b, operands[2])),
                        };
                        (
                            with_transfer_call(
                                b2,
                                callee,
                                operands[0],
                                operands[1],
                                length,
                                flag,
                            ),
                            Ok(()),
                        )
                    },
                },
            },
        }
    }
}

fn value_space(b: &Builder, v: Value) -> (r: u32)
    requires
        valid(b@, v),
    ensures
        r == space_of(value_type(b@, v)),
{
    match b.value_type(v) {
        LlvmType::Pointer(space) => *space,
        _ => GENERIC,
    }
}

fn value_width(b: &Builder, v: Value) -> (r: u32)
    requires
        valid(b@, v),
    ensures
        r == width_of(value_type(b@, v)),
{
    match b.value_type(v) {
        LlvmType::Integer(width) => *width,
        _ => 64,
    }
}

/// Lowers a block transfer. The overload that is called names the address
/// spaces and the length's width of the actual operands.
fn convert_mem_transfer(
    b: &mut Builder,
    operands: &Vec<Value>,
    dst_history: &Vec<MirType>,
    may_overlap: bool,
) -> (r: Result<(), LowerError>)
    requires
        forall|i: int| 0 <= i < operands@.len() ==> valid(old(b)@, #[trigger] operands@[i]),
    ensures
        (final(b)@, r) == transfer_of(old(b)@, operands@, dst_history@, may_overlap),
        extends(old(b)@, final(b)@),
{
    if operands.len() != 3 {
        return Err(LowerError::MemoryOperands { operands: operands.len(), needed: 3 });
    }
    let dst = operands[0];
    let src = operands[1];
    let count = operands[2];
    assert(valid(b@, operands@[0]) && valid(b@, operands@[1]) && valid(b@, operands@[2]));
    let pointee = match most_recent_of_kind(dst_history, TypeKind::Ptr) {
        Some(MirType::Ptr(p)) => &p.pointee,
        _ => {
            return Err(LowerError::UnexpectedType);
        },
    };
    let elem = match convert_type(pointee) {
        Err(e) => {
            return Err(e);
        },
        Ok(ty) => ty,
    };
    let size: u64 = match element_size(pointee, &elem) {
        Err(e) => {
            return Err(e);
        },
        Ok(size) => size,
    };
    let dst_space: u32 = value_space(b, dst);
    let src_space: u32 = value_space(b, src);
    let length_bits: u32 = value_width(b, count);
    let ghost b0 = b@;
    let length = if size == 1 {
        count
    } else {
        let factor = b.constant(length_bits, size as u128);
        let ghost c = b@;
        proof {
            lemma_extends_value(b0, c, count);
        }
        let l = b.binary(BinOp::Mul, count, factor);
        proof {
            lemma_extends_transitive(b0, c, b@);
        }
        l
    };
    let ghost b1 = b@;
    let flag = b.constant(1, 0);
    let ghost b2 = b@;
    let callee = Intrinsic::MemTransfer { may_overlap, dst_space, src_space, length_bits };
    proof {
        lemma_extends_transitive(b0, b1, b2);
        lemma_extends_value(b0, b2, dst);
        lemma_extends_value(b0, b2, src);
        lemma_extends_value(b1, b2, length);
    }
    b.call_transfer(callee, dst, src, length, flag);
    proof {
        lemma_extends_transitive(b0, b2, b@);
    }
    Ok(())
}

/// Lowers a copy between ranges that do not overlap.
pub fn convert_memcpy(b: &mut Builder, operands: &Vec<Value>, dst_history: &Vec<MirType>) -> (r:
    Result<(), LowerError>)
    requires
        forall|i: int| 0 <= i < operands@.len() ==> valid(old(b)@, #[trigger] operands@[i]),
    ensures
        (final(b)@, r) == transfer_of(old(b)@, operands@, dst_history@, false),
        extends(old(b)@, final(b)@),
{
    convert_mem_transfer(b, operands, dst_history, false)
}

/// Lowers a copy between ranges that may overlap.
pub fn convert_memmove(b: &mut Builder, operands: &Vec<Value>, dst_history: &Vec<MirType>) -> (r:
    Result<(), LowerError>)
    requires
        forall|i: int| 0 <= i < operands@.len() ==> valid(old(b)@, #[trigger] operands@[i]),
    ensures
        (final(b)@, r) == transfer_of(old(b)@, operands@, dst_history@, true),
        extends(old(b)@, final(b)@),
{
    convert_mem_transfer(b, operands, dst_history, true)
}

} // verus!
