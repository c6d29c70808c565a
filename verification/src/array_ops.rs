//! Array elements at an index that is only known at run time.
//!
//! LLVM's `extractvalue` takes constant indices only. Small arrays stay in
//! values: one constant read for each candidate, and a chain of comparisons
//! that selects among them. Larger ones go through memory.

use crate::error::LowerError;
use crate::ir::{
    defining_op, extends, lemma_extends_transitive, lemma_extends_value, rank, valid, value_rank,
    value_type, with_compare, with_constant, with_extract, with_gep, with_load, with_select,
    with_stack_slot, with_store, with_undef, BinOp, Body, Builder, GepIndex, GepPath, Op, Predicate,
    Value,
};
use crate::llvm::{LlvmShape, LlvmType};
use crate::mir::MirType;
use crate::operands::{most_recent_of_kind, newest, Operand, TypeKind};
use crate::types::{abi_align, lowered, convert_type, mir_type_abi_align};
use vstd::prelude::*;

verus! {

/// Largest array whose elements are selected as values.
pub const MAX_SSA_ARRAY_ELEMENTS: u64 = 16;

/// Most candidates that an index bounded by a remainder may have.
pub const MAX_SCALARIZED_CANDIDATES: u64 = 16;

// ---------------------------------------------------------------------------
// Reading an element of an array value
// ---------------------------------------------------------------------------

/// The number of values that an index can take because it is a remainder by a
/// constant, where that is small enough and within the array.
pub open spec fn bounded_by_remainder(b: Body, index: Value, size: u64) -> Option<u64> {
    match defining_op(b, index) {
        Some(Op::Binary { op, lhs, rhs }) => if op == BinOp::URem {
            match defining_op(b, rhs) {
                Some(Op::Constant { width, bits }) => if width <= 64 && 0 < bits <= size && bits
                    <= MAX_SCALARIZED_CANDIDATES {
                    Some(bits as u64)
                } else {
                    None
                },
                _ => None,
            }
        } else {
            None
        },
        _ => None,
    }
}

fn bounded_urem_candidate_count(b: &Builder, index: Value, size: u64) -> (r: Option<u64>)
    ensures
        r == bounded_by_remainder(b@, index, size),
        r is Some ==> 0 < r->Some_0 <= MAX_SCALARIZED_CANDIDATES,
{
    match b.defining_op(index) {
        Some(Op::Binary { op, lhs: _, rhs }) => {
            if op != BinOp::URem {
                return None;
            }
            match b.defining_op(rhs) {
                Some(Op::Constant { width, bits }) => {
                    if width <= 64 && bits > 0 && bits <= size as u128 && bits
                        <= MAX_SCALARIZED_CANDIDATES as u128 {
                        Some(bits as u64)
                    } else {
                        None
                    }
                },
                _ => None,
            }
        },
        _ => None,
    }
}

/// Reads the first `k` elements of an array.
pub open spec fn extracted_candidates(b: Body, array: Value, k: int) -> (
    Body,
    Result<Seq<Value>, LowerError>,
)
    decreases k,
{
    if k <= 0 {
        (b, Ok(Seq::empty()))
    } else {
        let (b1, before) = extracted_candidates(b, array, k - 1);
        match before {
            Err(e) => (b1, Err(e)),
            Ok(values) => {
                let (b2, extracted) = with_extract(b1, array, (k - 1) as u32);
                match extracted {
                    Err(e) => (b2, Err(e)),
                    Ok(x) => (b2, Ok(values.push(x))),
                }
            },
        }
    }
}

/// Compares `index` with the constant `candidate` and selects `on_match` where
/// they are equal.
pub open spec fn selected_on_match(
    b: Body,
    index: Value,
    candidate: int,
    on_match: Value,
    otherwise: Value,
    array_address: bool,
) -> (Body, Result<Value, LowerError>) {
    match value_type(b, index) {
        LlvmShape::Integer(width) => {
            let (b1, constant) = with_constant(b, width, candidate as u128);
            let (b2, condition) = with_compare(b1, Predicate::Eq, index, constant);
            let (b3, r) = with_select(b2, condition, on_match, otherwise, array_address);
            (b3, Ok(r))
        },
        _ => (b, Err(LowerError::IndexNotInteger)),
    }
}

/// Selects among the first `j` candidates, and `selected` where none matches.
pub open spec fn selected_candidate(
    b: Body,
    index: Value,
    candidates: Seq<Value>,
    selected: Value,
    j: int,
) -> (Body, Result<Value, LowerError>)
    decreases j,
{
    if j <= 0 {
        (b, Ok(selected))
    } else {
        let (b1, next) = selected_on_match(b, index, j - 1, candidates[j - 1], selected, false);
        match next {
            Err(e) => (b1, Err(e)),
            Ok(v) => selected_candidate(b1, index, candidates, v, j - 1),
        }
    }
}

/// Reads `count` candidates, then selects the one at `index`; the last is the
/// default.
pub open spec fn extracted_bounded(b: Body, array: Value, index: Value, count: int) -> (
    Body,
    Result<Value, LowerError>,
) {
    let (b1, extracted) = extracted_candidates(b, array, count);
    match extracted {
        Err(e) => (b1, Err(e)),
        Ok(candidates) => selected_candidate(
            b1,
            index,
            candidates,
            candidates[count - 1],
            count - 1,
        ),
    }
}

/// Reads and selects among the first `j` elements, one after the other, and
/// `selected` where none matches.
pub open spec fn selected_element(
    b: Body,
    array: Value,
    index: Value,
    selected: Value,
    j: int,
) -> (Body, Result<Value, LowerError>)
    decreases j,
{
    if j <= 0 {
        (b, Ok(selected))
    } else {
        let (b1, extracted) = with_extract(b, array, (j - 1) as u32);
        match extracted {
            Err(e) => (b1, Err(e)),
            Ok(element) => {
                let (b2, next) = selected_on_match(b1, index, j - 1, element, selected, false);
                match next {
                    Err(e) => (b2, Err(e)),
                    Ok(v) => selected_element(b2, array, index, v, j - 1),
                }
            },
        }
    }
}

/// Reads the element at `index` of a small array; the last is the default.
/// An array without elements gives an undefined value: its bounds check makes
/// the read unreachable.
pub open spec fn extracted_small(
    b: Body,
    array: Value,
    index: Value,
    elem: LlvmShape,
    size: u64,
) -> (Body, Result<Value, LowerError>) {
    if size == 0 {
        let (c, r) = with_undef(b, elem);
        (c, Ok(r))
    } else if !(value_type(b, index) is Integer) {
        (b, Err(LowerError::IndexNotInteger))
    } else {
        let (b1, last) = with_extract(b, array, (size - 1) as u32);
        match last {
            Err(e) => (b1, Err(e)),
            Ok(v) => selected_element(b1, array, index, v, size - 1),
        }
    }
}

/// The alignment of memory operations on elements of type `elem`.
pub open spec fn element_align(elem: MirType) -> Option<u32> {
    match abi_align(elem) {
        None => None,
        Some(align) => Some(align as u32),
    }
}

/// Reads the element at `index` of an array through memory.
pub open spec fn extracted_through_memory(
    b: Body,
    array: Value,
    index: Value,
    elem: LlvmShape,
    size: u64,
    align: Option<u32>,
) -> (Body, Value) {
    let array_ty = LlvmShape::Array(Box::new(elem), size);
    let (b1, slot) = with_stack_slot(b, array_ty, 64, align);
    let b2 = with_store(b1, array, slot, align);
    let (b3, ptr) = with_gep(
        b2,
        slot,
        GepPath::Two(GepIndex::Constant(0), GepIndex::Value(index)),
        array_ty,
    );
    with_load(b3, ptr, elem, align)
}

/// Reads the element at `index` of an array value.
pub open spec fn extracted_element(
    b: Body,
    array: Value,
    history: Seq<MirType>,
    index: Value,
) -> (Body, Result<Value, LowerError>) {
    match newest(history, TypeKind::Array) {
        None => (b, Err(LowerError::UnexpectedType)),
        Some(t) => {
            let elem = *t->Array_0;
            let size = t->Array_1;
            match bounded_by_remainder(b, index, size) {
                Some(count) => extracted_bounded(b, array, index, count as int),
                None => match lowered(elem) {
                    Err(e) => (b, Err(e)),
                    Ok(ty) => if size <= MAX_SSA_ARRAY_ELEMENTS {
                        extracted_small(b, array, index, ty, size)
                    } else {
                        let (c, r) = extracted_through_memory(
                            b,
                            array,
                            index,
                            ty,
                            size,
                            element_align(elem),
                        );
                        (c, Ok(r))
                    },
                },
            }
        },
    }
}

fn select_on_match(
    b: &mut Builder,
    index: Value,
    candidate: u64,
    on_match: Value,
    otherwise: Value,
    array_address: bool,
) -> (r: Result<Value, LowerError>)
    requires
        valid(old(b)@, index),
        valid(old(b)@, on_match),
    ensures
        (final(b)@, r) == selected_on_match(
            old(b)@,
            index,
            candidate as int,
            on_match,
            otherwise,
            array_address,
        ),
        extends(old(b)@, final(b)@),
        r is Ok ==> valid(final(b)@, r->Ok_0) && value_type(final(b)@, r->Ok_0) == value_type(
            old(b)@,
            on_match,
        ),
{
    let width: u32 = match b.value_type(index) {
        LlvmType::Integer(width) => *width,
        _ => {
            return Err(LowerError::IndexNotInteger);
        },
    };
    let ghost b0 = b@;
    let constant = b.constant(width, candidate as u128);
    let ghost b1 = b@;
    let condition = b.compare(Predicate::Eq, index, constant);
    let ghost b2 = b@;
    proof {
        lemma_extends_transitive(b0, b1, b2);
        lemma_extends_value(b0, b2, on_match);
    }
    let r = b.select(condition, on_match, otherwise, array_address);
    proof {
        lemma_extends_transitive(b0, b2, b@);
    }
    Ok(r)
}

proof fn lemma_candidates_error(b: Body, array: Value, k: int, n: int)
    requires
        0 <= k <= n,
        extracted_candidates(b, array, k).1 is Err,
    ensures
        extracted_candidates(b, array, n) == extracted_candidates(b, array, k),
    decreases n - k,
{
    if k < n {
        lemma_candidates_error(b, array, k + 1, n);
    }
}

fn extract_bounded(b: &mut Builder, array: Value, index: Value, count: u64) -> (r: Result<
    Value,
    LowerError,
>)
    requires
        valid(old(b)@, array),
        valid(old(b)@, index),
        0 < count <= MAX_SCALARIZED_CANDIDATES,
    ensures
        (final(b)@, r) == extracted_bounded(old(b)@, array, index, count as int),
        extends(old(b)@, final(b)@),
        r is Ok ==> valid(final(b)@, r->Ok_0),
{
    let ghost first = b@;
    let mut candidates: Vec<Value> = Vec::new();
    assert(candidates@ =~= Seq::empty());
    for k in 0..count
        invariant
            first == old(b)@,
            count <= MAX_SCALARIZED_CANDIDATES,
            valid(first, array),
            extends(first, b@),
            candidates@.len() == k,
            forall|i: int| 0 <= i < k ==> valid(b@, #[trigger] candidates@[i]),
            (b@, Ok::<Seq<Value>, LowerError>(candidates@)) == extracted_candidates(
                first,
                array,
                k as int,
            ),
    {
        let ghost c = b@;
        proof {
            lemma_extends_value(first, c, array);
            if extracted_candidates(first, array, k + 1).1 is Err {
                lemma_candidates_error(first, array, k + 1, count as int);
            }
        }
        match b.extract(array, k as u32) {
            Err(e) => {
                proof {
                    lemma_extends_transitive(first, c, b@);
                }
                return Err(e);
            },
            Ok(x) => {
                proof {
                    lemma_extends_transitive(first, c, b@);
                    assert forall|i: int| 0 <= i < k implies valid(
                        b@,
                        #[trigger] candidates@[i],
                    ) by {
                        lemma_extends_value(c, b@, candidates@[i]);
                    }
                }
                candidates.push(x);
            },
        }
    }
    let ghost second = b@;
    let mut selected = candidates[(count - 1) as usize];
    let mut j: u64 = count - 1;
    let ghost wanted = extracted_bounded(first, array, index, count as int);
    while j > 0
        invariant
            j < count,
            count <= MAX_SCALARIZED_CANDIDATES,
            candidates@.len() == count,
            valid(first, index),
            extends(first, second),
            extends(second, b@),
            valid(b@, selected),
            forall|i: int| 0 <= i < count ==> valid(second, #[trigger] candidates@[i]),
            wanted == selected_candidate(b@, index, candidates@, selected, j as int),
            wanted == extracted_bounded(old(b)@, array, index, count as int),
            first == old(b)@,
        decreases j,
    {
        let ghost c = b@;
        proof {
            lemma_extends_transitive(first, second, c);
            lemma_extends_value(first, c, index);
            lemma_extends_value(second, c, candidates@[j - 1]);
        }
        match select_on_match(b, index, j - 1, candidates[(j - 1) as usize], selected, false) {
            Err(e) => {
                proof {
                    lemma_extends_transitive(first, c, b@);
                }
                return Err(e);
            },
            Ok(v) => {
                selected = v;
            },
        }
        proof {
            lemma_extends_transitive(second, c, b@);
        }
        j = j - 1;
    }
    proof {
        lemma_extends_transitive(first, second, b@);
    }
    Ok(selected)
}

/// Reads the element of a small array at a run-time index, without memory.
pub fn convert_small_array_extract(
    b: &mut Builder,
    array: Value,
    index: Value,
    elem: LlvmType,
    size: u64,
) -> (r: Result<Value, LowerError>)
    requires
        valid(old(b)@, array),
        valid(old(b)@, index),
        size <= MAX_SSA_ARRAY_ELEMENTS,
    ensures
        (final(b)@, r) == extracted_small(old(b)@, array, index, elem@, size),
        extends(old(b)@, final(b)@),
        r is Ok ==> valid(final(b)@, r->Ok_0),
{
    if size == 0 {
        return Ok(b.undef(elem));
    }
    let is_int: bool = match b.value_type(index) {
        LlvmType::Integer(_) => true,
        _ => false,
    };
    if !is_int {
        return Err(LowerError::IndexNotInteger);
    }
    let ghost first = b@;
    let mut selected = match b.extract(array, (size - 1) as u32) {
        Err(e) => {
            return Err(e);
        },
        Ok(v) => v,
    };
    let ghost wanted = extracted_small(first, array, index, elem@, size);
    let mut j: u64 = size - 1;
    while j > 0
        invariant
            j < size <= MAX_SSA_ARRAY_ELEMENTS,
            first == old(b)@,
            valid(first, array),
            valid(first, index),
            extends(first, b@),
            valid(b@, selected),
            wanted == selected_element(b@, array, index, selected, j as int),
            wanted == extracted_small(old(b)@, array, index, elem@, size),
        decreases j,
    {
        let ghost c = b@;
        proof {
            lemma_extends_value(first, c, array);
        }
        let element = match b.extract(array, (j - 1) as u32) {
            Err(e) => {
                return Err(e);
            },
            Ok(x) => x,
        };
        let ghost d = b@;
        proof {
            lemma_extends_transitive(first, c, d);
            lemma_extends_value(first, d, index);
        }
        match select_on_match(b, index, j - 1, element, selected, false) {
            Err(e) => {
                proof {
                    lemma_extends_transitive(first, d, b@);
                }
                return Err(e);
            },
            Ok(v) => {
                selected = v;
            },
        }
        proof {
            lemma_extends_transitive(first, d, b@);
        }
        j = j - 1;
    }
    Ok(selected)
}

fn extract_through_memory(
    b: &mut Builder,
    array: Value,
    index: Value,
    elem: LlvmType,
    size: u64,
    align: Option<u32>,
) -> (r: Value)
    ensures
        (final(b)@, r) == extracted_through_memory(
            old(b)@,
            array,
            index,
            elem@,
            size,
            align,
        ),
        extends(old(b)@, final(b)@),
        valid(final(b)@, r),
{
    let ghost b0 = b@;
    let slot = b.stack_slot(LlvmType::array(elem.duplicate(), size), 64, align);
    let ghost b1 = b@;
    b.store(array, slot, align);
    let ghost b2 = b@;
    proof {
        lemma_extends_transitive(b0, b1, b2);
        lemma_extends_value(b1, b2, slot);
    }
    let ptr = b.gep(
        slot,
        GepPath::Two(GepIndex::Constant(0), GepIndex::Value(index)),
        LlvmType::array(elem.duplicate(), size),
    );
    let ghost b3 = b@;
    proof {
        lemma_extends_transitive(b0, b2, b3);
    }
    let r = b.load(ptr, elem, align);
    proof {
        lemma_extends_transitive(b0, b3, b@);
    }
    r
}

/// The alignment of memory operations on elements of a type.
fn exec_element_align(elem: &MirType) -> (r: Option<u32>)
    ensures
        r == element_align(*elem),
{
    match mir_type_abi_align(elem) {
        None => None,
        Some(align) => Some(align as u32),
    }
}

/// Lowers a read of the element of an array value at a run-time index.
pub fn convert_extract_array_element(b: &mut Builder, array: &Operand<'_>, index: Value) -> (r:
    Result<Value, LowerError>)
    requires
        valid(old(b)@, array.value),
        valid(old(b)@, index),
    ensures
        (final(b)@, r) == extracted_element(old(b)@, array.value, array.history@, index),
        extends(old(b)@, final(b)@),
        r is Ok ==> valid(final(b)@, r->Ok_0),
{
    match most_recent_of_kind(array.history, TypeKind::Array) {
        Some(MirType::Array(elem, size)) => {
            match bounded_urem_candidate_count(b, index, *size) {
                Some(count) => {
                    return extract_bounded(b, array.value, index, count);
                },
                None => {},
            }
            let ty = match convert_type(elem) {
                Err(e) => {
                    return Err(e);
                },
                Ok(ty) => ty,
            };
            if *size <= MAX_SSA_ARRAY_ELEMENTS {
                return convert_small_array_extract(b, array.value, index, ty, *size);
            }
            let align = exec_element_align(elem);
            Ok(extract_through_memory(b, array.value, index, ty, *size, align))
        },
        _ => Err(LowerError::UnexpectedType),
    }
}

// ---------------------------------------------------------------------------
// The address of an element
// ---------------------------------------------------------------------------

/// Whether an address is inside a stack slot of this code: a stack slot, an
/// address computed from one, or a marked choice between such addresses.
pub open spec fn is_local_address(b: Body, v: Value) -> bool
    decreases rank(v),
{
    match defining_op(b, v) {
        Some(Op::Alloca { count, align }) => true,
        Some(Op::Select { condition, on_true, on_false, array_address }) => {
            &&& array_address
            &&& rank(on_true) < rank(v)
            &&& rank(on_false) < rank(v)
            &&& is_local_address(b, on_true)
            &&& is_local_address(b, on_false)
        },
        Some(Op::GetElementPtr { base, path, inbounds }) => {
            &&& rank(base) < rank(v)
            &&& is_local_address(b, base)
        },
        _ => false,
    }
}

/// Whether a value is a marked choice between addresses of one small array.
pub fn is_small_array_address_select(b: &Builder, v: Value) -> (r: bool)
    ensures
        r == match defining_op(b@, v) {
            Some(Op::Select { condition, on_true, on_false, array_address }) => array_address,
            _ => false,
        },
{
    match b.defining_op(v) {
        Some(Op::Select { condition: _, on_true: _, on_false: _, array_address }) => array_address,
        _ => false,
    }
}

/// Whether an address is inside a stack slot of this code.
pub fn is_local_array_address(b: &Builder, v: Value) -> (r: bool)
    ensures
        r == is_local_address(b@, v),
    decreases rank(v),
{
    match b.defining_op(v) {
        Some(Op::Alloca { count: _, align: _ }) => true,
        Some(Op::Select { condition: _, on_true, on_false, array_address }) => {
            array_address && value_rank(on_true) < value_rank(v) && value_rank(on_false)
                < value_rank(v) && is_local_array_address(b, on_true) && is_local_array_address(
                b,
                on_false,
            )
        },
        Some(Op::GetElementPtr { base, path: _, inbounds: _ }) => {
            value_rank(base) < value_rank(v) && is_local_array_address(b, base)
        },
        _ => false,
    }
}

/// Whether an address is that of a field of a struct, through a pointer that
/// does not allow writes.
pub open spec fn is_readonly_field_address(b: Body, v: Value, mutable: bool) -> bool {
    &&& !mutable
    &&& v is Inst
    &&& v->Inst_0 < b.insts.len()
    &&& b.insts[v->Inst_0 as int].op is GetElementPtr
    &&& b.insts[v->Inst_0 as int].elem is Struct
}

/// Whether an address is a read-only array field of an aggregate.
///
/// Every element behind a shared reference is initialized and not mutated
/// meanwhile, so all candidates may be read.
pub fn is_readonly_aggregate_array_address(b: &Builder, v: Value, pointer_is_mutable: bool) -> (r:
    bool)
    ensures
        r == is_readonly_field_address(b@, v, pointer_is_mutable),
{
    if pointer_is_mutable {
        return false;
    }
    match v {
        Value::Arg(_) => false,
        Value::Inst(i) => {
            if i >= b.insts.len() {
                return false;
            }
            assert(b@.insts[i as int] == b.insts@[i as int]@);
            let is_gep: bool = match b.insts[i].op {
                Op::GetElementPtr { base: _, path: _, inbounds: _ } => true,
                _ => false,
            };
            let of_struct: bool = match &b.insts[i].elem {
                LlvmType::Struct(_) => true,
                _ => false,
            };
            is_gep && of_struct
        },
    }
}

/// The address of element `index` of the array at `ptr`.
pub open spec fn element_address(b: Body, ptr: Value, array_ty: LlvmShape, index: int) -> (
    Body,
    Value,
) {
    with_gep(
        b,
        ptr,
        GepPath::Two(GepIndex::Constant(0), GepIndex::Constant(index as u32)),
        array_ty,
    )
}

/// Computes and selects among the addresses of the first `j` elements, and
/// `selected` where none matches.
pub open spec fn selected_address(
    b: Body,
    ptr: Value,
    index: Value,
    array_ty: LlvmShape,
    selected: Value,
    j: int,
) -> (Body, Result<Value, LowerError>)
    decreases j,
{
    if j <= 0 {
        (b, Ok(selected))
    } else {
        let (b1, address) = element_address(b, ptr, array_ty, j - 1);
        let (b2, next) = selected_on_match(b1, index, j - 1, address, selected, true);
        match next {
            Err(e) => (b2, Err(e)),
            Ok(v) => selected_address(b2, ptr, index, array_ty, v, j - 1),
        }
    }
}

/// The address of the element at `index` of a small array, selected among
/// constant addresses; the last is the default.
pub open spec fn small_element_address(
    b: Body,
    ptr: Value,
    index: Value,
    array_ty: LlvmShape,
    size: u64,
) -> (Body, Result<Value, LowerError>) {
    if !(value_type(b, index) is Integer) {
        (b, Err(LowerError::IndexNotInteger))
    } else {
        let (b1, last) = element_address(b, ptr, array_ty, size - 1);
        selected_address(b1, ptr, index, array_ty, last, size - 1)
    }
}

/// The address of the element at `index` of the array behind a pointer.
pub open spec fn array_element_address(
    b: Body,
    ptr: Value,
    history: Seq<MirType>,
    index: Value,
) -> (Body, Result<Value, LowerError>) {
    match newest(history, TypeKind::Ptr) {
        None => (b, Err(LowerError::UnexpectedType)),
        Some(t) => {
            let pointer = t->Ptr_0;
            match *pointer.pointee {
                MirType::Array(elem, size) => match lowered(*pointer.pointee) {
                    Err(e) => (b, Err(e)),
                    Ok(array_ty) => if 1 <= size <= MAX_SSA_ARRAY_ELEMENTS && (is_local_address(
                        b,
                        ptr,
                    ) || is_readonly_field_address(b, ptr, pointer.mutable)) {
                        small_element_address(b, ptr, index, array_ty, size)
                    } else {
                        let (c, r) = with_gep(
                            b,
                            ptr,
                            GepPath::Two(GepIndex::Constant(0), GepIndex::Value(index)),
                            array_ty,
                        );
                        (c, Ok(r))
                    },
                },
                _ => (b, Err(LowerError::UnexpectedType)),
            }
        },
    }
}

/// Selects the address of an element of a small array among constant addresses.
pub fn convert_small_array_element_addr(
    b: &mut Builder,
    ptr: Value,
    index: Value,
    array_ty: &LlvmType,
    size: u64,
) -> (r: Result<Value, LowerError>)
    requires
        valid(old(b)@, ptr),
        valid(old(b)@, index),
        1 <= size <= MAX_SSA_ARRAY_ELEMENTS,
    ensures
        (final(b)@, r) == small_element_address(old(b)@, ptr, index, array_ty@, size),
        extends(old(b)@, final(b)@),
        r is Ok ==> valid(final(b)@, r->Ok_0),
{
    let is_int: bool = match b.value_type(index) {
        LlvmType::Integer(_) => true,
        _ => false,
    };
    if !is_int {
        return Err(LowerError::IndexNotInteger);
    }
    let ghost first = b@;
    let mut selected = b.gep(
        ptr,
        GepPath::Two(GepIndex::Constant(0), GepIndex::Constant((size - 1) as u32)),
        array_ty.duplicate(),
    );
    let ghost wanted = small_element_address(first, ptr, index, array_ty@, size);
    let mut j: u64 = size - 1;
    while j > 0
        invariant
            j < size <= MAX_SSA_ARRAY_ELEMENTS,
            first == old(b)@,
            valid(first, ptr),
            valid(first, index),
            extends(first, b@),
            valid(b@, selected),
            wanted == selected_address(b@, ptr, index, array_ty@, selected, j as int),
            wanted == small_element_address(old(b)@, ptr, index, array_ty@, size),
        decreases j,
    {
        let ghost c = b@;
        proof {
            lemma_extends_value(first, c, ptr);
        }
        let address = b.gep(
            ptr,
            GepPath::Two(GepIndex::Constant(0), GepIndex::Constant((j - 1) as u32)),
            array_ty.duplicate(),
        );
        let ghost d = b@;
        proof {
            lemma_extends_transitive(first, c, d);
            lemma_extends_value(first, d, index);
        }
        match select_on_match(b, index, j - 1, address, selected, true) {
            Err(e) => {
                proof {
                    lemma_extends_transitive(first, d, b@);
                }
                return Err(e);
            },
            Ok(v) => {
                selected = v;
            },
        }
        proof {
            lemma_extends_transitive(first, d, b@);
        }
        j = j - 1;
    }
    Ok(selected)
}

/// Lowers the address of the element at a run-time index of the array behind a
/// pointer.
pub fn convert_array_element_addr(b: &mut Builder, pointer: &Operand<'_>, index: Value) -> (r:
    Result<Value, LowerError>)
    requires
        valid(old(b)@, pointer.value),
        valid(old(b)@, index),
    ensures
        (final(b)@, r) == array_element_address(
            old(b)@,
            pointer.value,
            pointer.history@,
            index,
        ),
        extends(old(b)@, final(b)@),
        r is Ok ==> valid(final(b)@, r->Ok_0),
{
    match most_recent_of_kind(pointer.history, TypeKind::Ptr) {
        Some(MirType::Ptr(p)) => {
            let size: u64 = match &*p.pointee {
                MirType::Array(_, size) => *size,
                _ => {
                    return Err(LowerError::UnexpectedType);
                },
            };
            let array_ty = match convert_type(&p.pointee) {
                Err(e) => {
                    return Err(e);
                },
                Ok(ty) => ty,
            };
            if 1 <= size && size <= MAX_SSA_ARRAY_ELEMENTS && (is_local_array_address(
                b,
                pointer.value,
            ) || is_readonly_aggregate_array_address(b, pointer.value, p.mutable)) {
                return convert_small_array_element_addr(
                    b,
                    pointer.value,
                    index,
                    &array_ty,
                    size,
                );
            }
            Ok(
                b.gep(
                    pointer.value,
                    GepPath::Two(GepIndex::Constant(0), GepIndex::Value(index)),
                    array_ty,
                ),
            )
        },
        _ => Err(LowerError::UnexpectedType),
    }
}

} // verus!
