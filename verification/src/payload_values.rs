//! Enum payload values at the boundary between their own type and their
//! storage type.

use crate::error::LowerError;
use crate::ir::{
    extends, lemma_extends_transitive, lemma_extends_value, valid, value_type, with_cast,
    with_extract, with_insert, with_undef, Body, Builder, CastOp, Value,
};
use crate::llvm::{shapes, LlvmShape, LlvmType};
use crate::storage::{contains_bool, llvm_byte_faithful_twin, llvm_type_contains_i1, twin};
use vstd::prelude::*;

verus! {

// ---------------------------------------------------------------------------
// Canonical bool bytes
// ---------------------------------------------------------------------------

/// Widens every `i1` leaf of value `v`, of type `ty`, to its canonical byte.
pub open spec fn canonical(b: Body, v: Value, ty: LlvmShape) -> (Body, Result<Value, LowerError>)
    decreases ty, 0int,
{
    if !contains_bool(ty) {
        (b, Ok(v))
    } else {
        match ty {
            LlvmShape::Integer(_) => {
                let (c, r) = with_cast(b, CastOp::ZExt, v, LlvmShape::Integer(8));
                (c, Ok(r))
            },
            LlvmShape::Struct(fields) => match twin(ty) {
                None => (b, Err(LowerError::BoolCanonicalization)),
                Some(t) => if fields.len() > u32::MAX {
                    (b, Err(LowerError::BoolCanonicalization))
                } else {
                    let (c, start) = with_undef(b, t);
                    canonical_fields(c, v, start, fields, fields.len() as int)
                },
            },
            LlvmShape::Array(elem, n) => match twin(ty) {
                None => (b, Err(LowerError::BoolCanonicalization)),
                Some(t) => if n > u32::MAX {
                    (b, Err(LowerError::BoolCanonicalization))
                } else {
                    let (c, start) = with_undef(b, t);
                    canonical_elements(c, v, start, *elem, n as int)
                },
            },
            _ => (b, Err(LowerError::BoolCanonicalization)),
        }
    }
}

/// Copies the first `k` fields of `v` into `start`, each made canonical.
pub open spec fn canonical_fields(
    b: Body,
    v: Value,
    start: Value,
    fields: Seq<LlvmShape>,
    k: int,
) -> (Body, Result<Value, LowerError>)
    decreases fields, k,
{
    if k <= 0 || k > fields.len() {
        (b, Ok(start))
    } else {
        let (b1, before) = canonical_fields(b, v, start, fields, k - 1);
        match before {
            Err(e) => (b1, Err(e)),
            Ok(current) => {
                let (b2, extracted) = with_extract(b1, v, (k - 1) as u32);
                match extracted {
                    Err(e) => (b2, Err(e)),
                    Ok(x) => {
                        let (b3, converted) = canonical(b2, x, fields[k - 1]);
                        match converted {
                            Err(e) => (b3, Err(e)),
                            Ok(y) => {
                                let (b4, z) = with_insert(b3, current, y, (k - 1) as u32);
                                (b4, Ok(z))
                            },
                        }
                    },
                }
            },
        }
    }
}

/// Copies the first `k` elements of `v` into `start`, each made canonical.
pub open spec fn canonical_elements(
    b: Body,
    v: Value,
    start: Value,
    elem: LlvmShape,
    k: int,
) -> (Body, Result<Value, LowerError>)
    decreases elem, k,
{
    if k <= 0 {
        (b, Ok(start))
    } else {
        let (b1, before) = canonical_elements(b, v, start, elem, k - 1);
        match before {
            Err(e) => (b1, Err(e)),
            Ok(current) => {
                let (b2, extracted) = with_extract(b1, v, (k - 1) as u32);
                match extracted {
                    Err(e) => (b2, Err(e)),
                    Ok(x) => {
                        let (b3, converted) = canonical(b2, x, elem);
                        match converted {
                            Err(e) => (b3, Err(e)),
                            Ok(y) => {
                                let (b4, z) = with_insert(b3, current, y, (k - 1) as u32);
                                (b4, Ok(z))
                            },
                        }
                    },
                }
            },
        }
    }
}

proof fn lemma_canonical_fields_error(
    b: Body,
    v: Value,
    start: Value,
    fields: Seq<LlvmShape>,
    k: int,
    n: int,
)
    requires
        0 <= k <= n <= fields.len(),
        canonical_fields(b, v, start, fields, k).1 is Err,
    ensures
        canonical_fields(b, v, start, fields, n) == canonical_fields(b, v, start, fields, k),
    decreases n - k,
{
    if k < n {
        lemma_canonical_fields_error(b, v, start, fields, k + 1, n);
    }
}

proof fn lemma_canonical_elements_error(
    b: Body,
    v: Value,
    start: Value,
    elem: LlvmShape,
    k: int,
    n: int,
)
    requires
        0 <= k <= n,
        canonical_elements(b, v, start, elem, k).1 is Err,
    ensures
        canonical_elements(b, v, start, elem, n) == canonical_elements(b, v, start, elem, k),
    decreases n - k,
{
    if k < n {
        lemma_canonical_elements_error(b, v, start, elem, k + 1, n);
    }
}

/// Widens every `i1` leaf of a value to its canonical memory byte, through
/// structs and arrays.
pub fn canonicalize_bool_value_bytes(b: &mut Builder, value: Value) -> (r: Result<
    Value,
    LowerError,
>)
    requires
        valid(old(b)@, value),
    ensures
        (final(b)@, r) == canonical(old(b)@, value, value_type(old(b)@, value)),
        extends(old(b)@, final(b)@),
        r is Ok ==> valid(final(b)@, r->Ok_0),
{
    let ty = b.value_type(value).duplicate();
    canonicalize(b, value, &ty)
}

fn canonicalize(b: &mut Builder, value: Value, ty: &LlvmType) -> (r: Result<Value, LowerError>)
    requires
        valid(old(b)@, value),
        value_type(old(b)@, value) == ty@,
    ensures
        (final(b)@, r) == canonical(old(b)@, value, ty@),
        extends(old(b)@, final(b)@),
        r is Ok ==> valid(final(b)@, r->Ok_0),
    decreases ty, 0int,
{
    if !llvm_type_contains_i1(ty) {
        return Ok(value);
    }
    match ty {
        LlvmType::Integer(_) => Ok(b.cast(CastOp::ZExt, value, LlvmType::Integer(8))),
        LlvmType::Struct(fields) => {
            proof {
                LlvmType::lemma_struct_view(*fields);
            }
            let t = match llvm_byte_faithful_twin(ty) {
                None => {
                    return Err(LowerError::BoolCanonicalization);
                },
                Some(t) => t,
            };
            if fields.len() as u64 > u32::MAX as u64 {
                return Err(LowerError::BoolCanonicalization);
            }
            let ghost before = b@;
            let start = b.undef(t);
            let ghost middle = b@;
            let r = canonicalize_fields(b, value, start, fields);
            proof {
                lemma_extends_transitive(before, middle, b@);
            }
            r
        },
        LlvmType::Array(elem, n) => {
            let t = match llvm_byte_faithful_twin(ty) {
                None => {
                    return Err(LowerError::BoolCanonicalization);
                },
                Some(t) => t,
            };
            if *n > u32::MAX as u64 {
                return Err(LowerError::BoolCanonicalization);
            }
            let ghost before = b@;
            let start = b.undef(t);
            let ghost middle = b@;
            let r = canonicalize_elements(b, value, start, elem, *n as u32);
            proof {
                lemma_extends_transitive(before, middle, b@);
            }
            r
        },
        _ => Err(LowerError::BoolCanonicalization),
    }
}

fn canonicalize_fields(
    b: &mut Builder,
    value: Value,
    start: Value,
    fields: &Vec<LlvmType>,
) -> (r: Result<Value, LowerError>)
    requires
        valid(old(b)@, value),
        valid(old(b)@, start),
        fields@.len() <= u32::MAX,
        value_type(old(b)@, value) == LlvmShape::Struct(shapes(fields@)),
    ensures
        (final(b)@, r) == canonical_fields(
            old(b)@,
            value,
            start,
            shapes(fields@),
            fields@.len() as int,
        ),
        extends(old(b)@, final(b)@),
        r is Ok ==> valid(final(b)@, r->Ok_0),
    decreases fields, 1int,
{
    let ghost fs = shapes(fields@);
    let ghost first = b@;
    let mut current = start;
    for i in 0..fields.len()
        invariant
            fs == shapes(fields@),
            first == old(b)@,
            fields@.len() <= u32::MAX,
            valid(first, value),
            value_type(first, value) == LlvmShape::Struct(fs),
            extends(first, b@),
            valid(b@, current),
            (b@, Ok::<Value, LowerError>(current)) == canonical_fields(
                first,
                value,
                start,
                fs,
                i as int,
            ),
    {
        let index: u32 = i as u32;
        let ghost b1 = b@;
        proof {
            lemma_extends_value(first, b1, value);
            assert(fs[i as int] == fields@[i as int]@);
            if canonical_fields(first, value, start, fs, i + 1).1 is Err {
                lemma_canonical_fields_error(first, value, start, fs, i + 1, fs.len() as int);
            }
        }
        let x = match b.extract(value, index) {
            Err(e) => {
                return Err(e);
            },
            Ok(x) => x,
        };
        let ghost b2 = b@;
        proof {
            lemma_extends_transitive(first, b1, b2);
            lemma_extends_value(b1, b2, current);
        }
        match canonicalize(b, x, &fields[i]) {
            Err(e) => {
                proof {
                    lemma_extends_transitive(first, b2, b@);
                }
                return Err(e);
            },
            Ok(y) => {
                let ghost b3 = b@;
                proof {
                    lemma_extends_transitive(first, b2, b3);
                    lemma_extends_value(b2, b3, current);
                }
                current = b.insert(current, y, index);
                proof {
                    lemma_extends_transitive(first, b3, b@);
                }
            },
        }
    }
    Ok(current)
}

fn canonicalize_elements(
    b: &mut Builder,
    value: Value,
    start: Value,
    elem: &LlvmType,
    n: u32,
) -> (r: Result<Value, LowerError>)
    requires
        valid(old(b)@, value),
        valid(old(b)@, start),
        value_type(old(b)@, value) == LlvmShape::Array(Box::new(elem@), n as u64),
    ensures
        (final(b)@, r) == canonical_elements(old(b)@, value, start, elem@, n as int),
        extends(old(b)@, final(b)@),
        r is Ok ==> valid(final(b)@, r->Ok_0),
    decreases elem, 1int,
{
    let ghost first = b@;
    let mut current = start;
    for index in 0..n
        invariant
            first == old(b)@,
            valid(first, value),
            value_type(first, value) == LlvmShape::Array(Box::new(elem@), n as u64),
            extends(first, b@),
            valid(b@, current),
            (b@, Ok::<Value, LowerError>(current)) == canonical_elements(
                first,
                value,
                start,
                elem@,
                index as int,
            ),
    {
        let ghost b1 = b@;
        proof {
            lemma_extends_value(first, b1, value);
            if canonical_elements(first, value, start, elem@, index + 1).1 is Err {
                lemma_canonical_elements_error(
                    first,
                    value,
                    start,
                    elem@,
                    index + 1,
                    n as int,
                );
            }
        }
        let x = match b.extract(value, index) {
            Err(e) => {
                return Err(e);
            },
            Ok(x) => x,
        };
        let ghost b2 = b@;
        proof {
            lemma_extends_transitive(first, b1, b2);
            lemma_extends_value(b1, b2, current);
        }
        match canonicalize(b, x, elem) {
            Err(e) => {
                proof {
                    lemma_extends_transitive(first, b2, b@);
                }
                return Err(e);
            },
            Ok(y) => {
                let ghost b3 = b@;
                proof {
                    lemma_extends_transitive(first, b2, b3);
                    lemma_extends_value(b2, b3, current);
                }
                current = b.insert(current, y, index);
                proof {
                    lemma_extends_transitive(first, b3, b@);
                }
            },
        }
    }
    Ok(current)
}

// ---------------------------------------------------------------------------
// Between a payload's own type and its storage type
// ---------------------------------------------------------------------------

/// Adapts value `v` of type `from` to type `to`: pointers change address
/// space, a `bool` and its byte are exchanged, and aggregates are rebuilt leaf
/// by leaf.
pub open spec fn coerced(b: Body, v: Value, from: LlvmShape, to: LlvmShape) -> (
    Body,
    Result<Value, LowerError>,
)
    decreases from, 0int,
{
    if from == to {
        (b, Ok(v))
    } else {
        match (from, to) {
            (LlvmShape::Integer(w), LlvmShape::Integer(x)) => if w == 1 && x == 8 {
                let (c, r) = with_cast(b, CastOp::ZExt, v, to);
                (c, Ok(r))
            } else if w == 8 && x == 1 {
                let (c, r) = with_cast(b, CastOp::Trunc, v, to);
                (c, Ok(r))
            } else {
                (b, Err(LowerError::PayloadCoercion))
            },
            (LlvmShape::Pointer(_), LlvmShape::Pointer(_)) => {
                let (c, r) = with_cast(b, CastOp::AddrSpaceCast, v, to);
                (c, Ok(r))
            },
            (LlvmShape::Struct(fs), LlvmShape::Struct(gs)) => if fs.len() != gs.len() || fs.len()
                > u32::MAX {
                (b, Err(LowerError::PayloadCoercion))
            } else {
                let (c, start) = with_undef(b, to);
                coerced_fields(c, v, start, fs, gs, fs.len() as int)
            },
            (LlvmShape::Array(e, n), LlvmShape::Array(f, m)) => if n != m || n > u32::MAX {
                (b, Err(LowerError::PayloadCoercion))
            } else {
                let (c, start) = with_undef(b, to);
                coerced_elements(c, v, start, *e, *f, n as int)
            },
            _ => (b, Err(LowerError::PayloadCoercion)),
        }
    }
}

/// Copies the first `k` fields of `v` into `start`, each adapted.
pub open spec fn coerced_fields(
    b: Body,
    v: Value,
    start: Value,
    from: Seq<LlvmShape>,
    to: Seq<LlvmShape>,
    k: int,
) -> (Body, Result<Value, LowerError>)
    decreases from, k,
{
    if k <= 0 || k > from.len() {
        (b, Ok(start))
    } else {
        let (b1, before) = coerced_fields(b, v, start, from, to, k - 1);
        match before {
            Err(e) => (b1, Err(e)),
            Ok(current) => {
                let (b2, extracted) = with_extract(b1, v, (k - 1) as u32);
                match extracted {
                    Err(e) => (b2, Err(e)),
                    Ok(x) => {
                        let (b3, converted) = coerced(b2, x, from[k - 1], to[k - 1]);
                        match converted {
                            Err(e) => (b3, Err(e)),
                            Ok(y) => {
                                let (b4, z) = with_insert(b3, current, y, (k - 1) as u32);
                                (b4, Ok(z))
                            },
                        }
                    },
                }
            },
        }
    }
}

/// Copies the first `k` elements of `v` into `start`, each adapted.
pub open spec fn coerced_elements(
    b: Body,
    v: Value,
    start: Value,
    from: LlvmShape,
    to: LlvmShape,
    k: int,
) -> (Body, Result<Value, LowerError>)
    decreases from, k,
{
    if k <= 0 {
        (b, Ok(start))
    } else {
        let (b1, before) = coerced_elements(b, v, start, from, to, k - 1);
        match before {
            Err(e) => (b1, Err(e)),
            Ok(current) => {
                let (b2, extracted) = with_extract(b1, v, (k - 1) as u32);
                match extracted {
                    Err(e) => (b2, Err(e)),
                    Ok(x) => {
                        let (b3, converted) = coerced(b2, x, from, to);
                        match converted {
                            Err(e) => (b3, Err(e)),
                            Ok(y) => {
                                let (b4, z) = with_insert(b3, current, y, (k - 1) as u32);
                                (b4, Ok(z))
                            },
                        }
                    },
                }
            },
        }
    }
}

proof fn lemma_coerced_fields_error(
    b: Body,
    v: Value,
    start: Value,
    from: Seq<LlvmShape>,
    to: Seq<LlvmShape>,
    k: int,
    n: int,
)
    requires
        0 <= k <= n <= from.len(),
        coerced_fields(b, v, start, from, to, k).1 is Err,
    ensures
        coerced_fields(b, v, start, from, to, n) == coerced_fields(b, v, start, from, to, k),
    decreases n - k,
{
    if k < n {
        lemma_coerced_fields_error(b, v, start, from, to, k + 1, n);
    }
}

proof fn lemma_coerced_elements_error(
    b: Body,
    v: Value,
    start: Value,
    from: LlvmShape,
    to: LlvmShape,
    k: int,
    n: int,
)
    requires
        0 <= k <= n,
        coerced_elements(b, v, start, from, to, k).1 is Err,
    ensures
        coerced_elements(b, v, start, from, to, n) == coerced_elements(b, v, start, from, to, k),
    decreases n - k,
{
    if k < n {
        lemma_coerced_elements_error(b, v, start, from, to, k + 1, n);
    }
}

/// Adapts an enum payload value to or from its storage type.
///
/// Shared-memory pointer leaves pass through the generic address space, and
/// `bool` leaves are exchanged with their bytes.
pub fn coerce_enum_payload_value(b: &mut Builder, value: Value, target: &LlvmType) -> (r: Result<
    Value,
    LowerError,
>)
    requires
        valid(old(b)@, value),
    ensures
        (final(b)@, r) == coerced(old(b)@, value, value_type(old(b)@, value), target@),
        extends(old(b)@, final(b)@),
        r is Ok ==> valid(final(b)@, r->Ok_0) && value_type(final(b)@, r->Ok_0) == target@,
{
    let ty = b.value_type(value).duplicate();
    coerce(b, value, &ty, target)
}

fn coerce(b: &mut Builder, value: Value, from: &LlvmType, to: &LlvmType) -> (r: Result<
    Value,
    LowerError,
>)
    requires
        valid(old(b)@, value),
        value_type(old(b)@, value) == from@,
    ensures
        (final(b)@, r) == coerced(old(b)@, value, from@, to@),
        extends(old(b)@, final(b)@),
        r is Ok ==> valid(final(b)@, r->Ok_0) && value_type(final(b)@, r->Ok_0) == to@,
    decreases from, 0int,
{
    if from.same_type(to) {
        return Ok(value);
    }
    match (from, to) {
        (LlvmType::Integer(w), LlvmType::Integer(x)) => {
            if *w == 1 && *x == 8 {
                Ok(b.cast(CastOp::ZExt, value, LlvmType::Integer(8)))
            } else if *w == 8 && *x == 1 {
                Ok(b.cast(CastOp::Trunc, value, LlvmType::Integer(1)))
            } else {
                Err(LowerError::PayloadCoercion)
            }
        },
        (LlvmType::Pointer(_), LlvmType::Pointer(space)) => Ok(
            b.cast(CastOp::AddrSpaceCast, value, LlvmType::Pointer(*space)),
        ),
        (LlvmType::Struct(fs), LlvmType::Struct(gs)) => {
            proof {
                LlvmType::lemma_struct_view(*fs);
                LlvmType::lemma_struct_view(*gs);
            }
            if fs.len() != gs.len() || fs.len() as u64 > u32::MAX as u64 {
                return Err(LowerError::PayloadCoercion);
            }
            let ghost before = b@;
            let start = b.undef(to.duplicate());
            let ghost middle = b@;
            proof {
                lemma_extends_value(before, middle, value);
            }
            let r = coerce_fields(b, value, start, fs, gs);
            proof {
                lemma_extends_transitive(before, middle, b@);
            }
            r
        },
        (LlvmType::Array(e, n), LlvmType::Array(f, m)) => {
            if *n != *m || *n > u32::MAX as u64 {
                return Err(LowerError::PayloadCoercion);
            }
            let ghost before = b@;
            let start = b.undef(to.duplicate());
            let ghost middle = b@;
            proof {
                lemma_extends_value(before, middle, value);
            }
            let r = coerce_elements(b, value, start, e, f, *n as u32);
            proof {
                lemma_extends_transitive(before, middle, b@);
            }
            r
        },
        _ => Err(LowerError::PayloadCoercion),
    }
}

fn coerce_fields(
    b: &mut Builder,
    value: Value,
    start: Value,
    from: &Vec<LlvmType>,
    to: &Vec<LlvmType>,
) -> (r: Result<Value, LowerError>)
    requires
        valid(old(b)@, value),
        valid(old(b)@, start),
        from@.len() == to@.len(),
        from@.len() <= u32::MAX,
        value_type(old(b)@, value) == LlvmShape::Struct(shapes(from@)),
    ensures
        (final(b)@, r) == coerced_fields(
            old(b)@,
            value,
            start,
            shapes(from@),
            shapes(to@),
            from@.len() as int,
        ),
        extends(old(b)@, final(b)@),
        r is Ok ==> valid(final(b)@, r->Ok_0) && value_type(final(b)@, r->Ok_0) == value_type(
            old(b)@,
            start,
        ),
    decreases from, 1int,
{
    let ghost fs = shapes(from@);
    let ghost gs = shapes(to@);
    let ghost first = b@;
    let mut current = start;
    for i in 0..from.len()
        invariant
            fs == shapes(from@),
            gs == shapes(to@),
            first == old(b)@,
            from@.len() == to@.len(),
            from@.len() <= u32::MAX,
            valid(first, value),
            value_type(first, value) == LlvmShape::Struct(fs),
            extends(first, b@),
            valid(b@, current),
            value_type(b@, current) == value_type(first, start),
            (b@, Ok::<Value, LowerError>(current)) == coerced_fields(
                first,
                value,
                start,
                fs,
                gs,
                i as int,
            ),
    {
        let index: u32 = i as u32;
        let ghost b1 = b@;
        proof {
            lemma_extends_value(first, b1, value);
            assert(fs[i as int] == from@[i as int]@);
            assert(gs[i as int] == to@[i as int]@);
            if coerced_fields(first, value, start, fs, gs, i + 1).1 is Err {
                lemma_coerced_fields_error(first, value, start, fs, gs, i + 1, fs.len() as int);
            }
        }
        let x = match b.extract(value, index) {
            Err(e) => {
                return Err(e);
            },
            Ok(x) => x,
        };
        let ghost b2 = b@;
        proof {
            lemma_extends_transitive(first, b1, b2);
            lemma_extends_value(b1, b2, current);
        }
        match coerce(b, x, &from[i], &to[i]) {
            Err(e) => {
                proof {
                    lemma_extends_transitive(first, b2, b@);
                }
                return Err(e);
            },
            Ok(y) => {
                let ghost b3 = b@;
                proof {
                    lemma_extends_transitive(first, b2, b3);
                    lemma_extends_value(b2, b3, current);
                }
                current = b.insert(current, y, index);
                proof {
                    lemma_extends_transitive(first, b3, b@);
                }
            },
        }
    }
    Ok(current)
}

fn coerce_elements(
    b: &mut Builder,
    value: Value,
    start: Value,
    from: &LlvmType,
    to: &LlvmType,
    n: u32,
) -> (r: Result<Value, LowerError>)
    requires
        valid(old(b)@, value),
        valid(old(b)@, start),
        value_type(old(b)@, value) == LlvmShape::Array(Box::new(from@), n as u64),
    ensures
        (final(b)@, r) == coerced_elements(old(b)@, value, start, from@, to@, n as int),
        extends(old(b)@, final(b)@),
        r is Ok ==> valid(final(b)@, r->Ok_0) && value_type(final(b)@, r->Ok_0) == value_type(
            old(b)@,
            start,
        ),
    decreases from, 1int,
{
    let ghost first = b@;
    let mut current = start;
    for index in 0..n
        invariant
            first == old(b)@,
            valid(first, value),
            value_type(first, value) == LlvmShape::Array(Box::new(from@), n as u64),
            extends(first, b@),
            valid(b@, current),
            value_type(b@, current) == value_type(first, start),
            (b@, Ok::<Value, LowerError>(current)) == coerced_elements(
                first,
                value,
                start,
                from@,
                to@,
                index as int,
            ),
    {
        let ghost b1 = b@;
        proof {
            lemma_extends_value(first, b1, value);
            if coerced_elements(first, value, start, from@, to@, index + 1).1 is Err {
                lemma_coerced_elements_error(
                    first,
                    value,
                    start,
                    from@,
                    to@,
                    index + 1,
                    n as int,
                );
            }
        }
        let x = match b.extract(value, index) {
            Err(e) => {
                return Err(e);
            },
            Ok(x) => x,
        };
        let ghost b2 = b@;
        proof {
            lemma_extends_transitive(first, b1, b2);
            lemma_extends_value(b1, b2, current);
        }
        match coerce(b, x, from, to) {
            Err(e) => {
                proof {
                    lemma_extends_transitive(first, b2, b@);
                }
                return Err(e);
            },
            Ok(y) => {
                let ghost b3 = b@;
                proof {
                    lemma_extends_transitive(first, b2, b3);
                    lemma_extends_value(b2, b3, current);
                }
                current = b.insert(current, y, index);
                proof {
                    lemma_extends_transitive(first, b3, b@);
                }
            },
        }
    }
    Ok(current)
}

/// Adapting a value only adds code.
pub proof fn lemma_coerced_grows(b: Body, v: Value, from: LlvmShape, to: LlvmShape)
    ensures
        extends(b, coerced(b, v, from, to).0),
    decreases from, 0int,
{
    if from != to {
        match (from, to) {
            (LlvmShape::Struct(fs), LlvmShape::Struct(gs)) => {
                if fs.len() == gs.len() && fs.len() <= u32::MAX {
                    let (c, start) = with_undef(b, to);
                    lemma_coerced_fields_grow(c, v, start, fs, gs, fs.len() as int);
                    lemma_extends_transitive(b, c, coerced(b, v, from, to).0);
                }
            },
            (LlvmShape::Array(e, n), LlvmShape::Array(f, m)) => {
                if n == m && n <= u32::MAX {
                    let (c, start) = with_undef(b, to);
                    lemma_coerced_elements_grow(c, v, start, *e, *f, n as int);
                    lemma_extends_transitive(b, c, coerced(b, v, from, to).0);
                }
            },
            _ => {},
        }
    }
}

pub proof fn lemma_coerced_fields_grow(
    b: Body,
    v: Value,
    start: Value,
    from: Seq<LlvmShape>,
    to: Seq<LlvmShape>,
    k: int,
)
    ensures
        extends(b, coerced_fields(b, v, start, from, to, k).0),
    decreases from, k,
{
    if 0 < k <= from.len() {
        lemma_coerced_fields_grow(b, v, start, from, to, k - 1);
        let (b1, before) = coerced_fields(b, v, start, from, to, k - 1);
        if before is Ok {
            let (b2, extracted) = with_extract(b1, v, (k - 1) as u32);
            lemma_extends_transitive(b, b1, b2);
            if extracted is Ok {
                lemma_coerced_grows(b2, extracted->Ok_0, from[k - 1], to[k - 1]);
                let (b3, converted) = coerced(b2, extracted->Ok_0, from[k - 1], to[k - 1]);
                lemma_extends_transitive(b, b2, b3);
                if converted is Ok {
                    let (b4, z) = with_insert(
                        b3,
                        before->Ok_0,
                        converted->Ok_0,
                        (k - 1) as u32,
                    );
                    assert(extends(b3, b4));
                    lemma_extends_transitive(b, b3, b4);
                }
            }
        }
    }
}

pub proof fn lemma_coerced_elements_grow(
    b: Body,
    v: Value,
    start: Value,
    from: LlvmShape,
    to: LlvmShape,
    k: int,
)
    ensures
        extends(b, coerced_elements(b, v, start, from, to, k).0),
    decreases from, k,
{
    if k > 0 {
        lemma_coerced_elements_grow(b, v, start, from, to, k - 1);
        let (b1, before) = coerced_elements(b, v, start, from, to, k - 1);
        if before is Ok {
            let (b2, extracted) = with_extract(b1, v, (k - 1) as u32);
            lemma_extends_transitive(b, b1, b2);
            if extracted is Ok {
                lemma_coerced_grows(b2, extracted->Ok_0, from, to);
                let (b3, converted) = coerced(b2, extracted->Ok_0, from, to);
                lemma_extends_transitive(b, b2, b3);
                if converted is Ok {
                    let (b4, z) = with_insert(
                        b3,
                        before->Ok_0,
                        converted->Ok_0,
                        (k - 1) as u32,
                    );
                    assert(extends(b3, b4));
                    lemma_extends_transitive(b, b3, b4);
                }
            }
        }
    }
}

/// An adapted value is a value of the code that adapts it.
pub proof fn lemma_coerced_valid(b: Body, v: Value, from: LlvmShape, to: LlvmShape)
    requires
        valid(b, v),
        coerced(b, v, from, to).1 is Ok,
        coerced(b, v, from, to).0.insts.len() <= usize::MAX,
    ensures
        valid(coerced(b, v, from, to).0, coerced(b, v, from, to).1->Ok_0),
{
    if from != to {
        match (from, to) {
            (LlvmShape::Struct(fs), LlvmShape::Struct(gs)) => {
                let (c, start) = with_undef(b, to);
                lemma_coerced_fields_grow(c, v, start, fs, gs, fs.len() as int);
            },
            (LlvmShape::Array(e, n), LlvmShape::Array(f, m)) => {
                let (c, start) = with_undef(b, to);
                lemma_coerced_elements_grow(c, v, start, *e, *f, n as int);
            },
            _ => {},
        }
    }
}

} // verus!
