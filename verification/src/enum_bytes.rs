//! Rebuilding an enum payload from the bytes of the enum's storage, without
//! memory.

use crate::error::LowerError;
use crate::ir::{
    extends, lemma_extends_transitive, lemma_extends_value, valid, with_binary, with_cast,
    with_constant, with_extract, with_insert, with_undef, BinOp, Body, Builder, CastOp, Value,
};
use crate::layout::{
    fits, llvm_type_size_align, natural_offset, natural_offsets, prefix_extent, size_align,
    size_aligns,
};
use crate::llvm::{shapes, LlvmShape, LlvmType};
use vstd::prelude::*;

verus! {

/// Length of a byte array that holds exactly the bits of an integer type.
pub open spec fn bytes_of_integer(storage: LlvmShape, integer: LlvmShape) -> Option<u64> {
    match (storage, integer) {
        (LlvmShape::Array(elem, n), LlvmShape::Integer(width)) => if *elem == LlvmShape::Integer(8)
            && n * 8 == width {
            Some(n)
        } else {
            None
        },
        _ => None,
    }
}

/// Byte `index` of `bytes`, shifted to its place in an integer of `width` bits.
pub open spec fn placed_byte(b: Body, bytes: Value, width: u32, index: u32) -> (
    Body,
    Result<Value, LowerError>,
) {
    let (b1, extracted) = with_extract(b, bytes, index);
    match extracted {
        Err(e) => (b1, Err(e)),
        Ok(octet) => {
            let (b2, wide) = with_cast(b1, CastOp::ZExt, octet, LlvmShape::Integer(width));
            if index == 0 {
                (b2, Ok(wide))
            } else {
                let (b3, amount) = with_constant(b2, width, (index * 8) as u128);
                let (b4, shifted) = with_binary(b3, BinOp::Shl, wide, amount);
                (b4, Ok(shifted))
            }
        },
    }
}

/// The first `k` bytes of `bytes` joined in one integer, least significant
/// first.
pub open spec fn joined_bytes(b: Body, bytes: Value, width: u32, k: int) -> (
    Body,
    Result<Option<Value>, LowerError>,
)
    decreases k,
{
    if k <= 0 {
        (b, Ok(None))
    } else {
        let (b1, before) = joined_bytes(b, bytes, width, k - 1);
        match before {
            Err(e) => (b1, Err(e)),
            Ok(joined) => {
                let (b2, placed) = placed_byte(b1, bytes, width, (k - 1) as u32);
                match placed {
                    Err(e) => (b2, Err(e)),
                    Ok(x) => match joined {
                        None => (b2, Ok(Some(x))),
                        Some(previous) => {
                            let (b3, both) = with_binary(b2, BinOp::Or, previous, x);
                            (b3, Ok(Some(both)))
                        },
                    },
                }
            },
        }
    }
}

/// The integer whose bytes are slot `slot` of `aggregate`.
pub open spec fn integer_from_bytes(
    b: Body,
    aggregate: Value,
    slot: u32,
    storage: LlvmShape,
    integer: LlvmShape,
) -> (Body, Option<Value>) {
    match bytes_of_integer(storage, integer) {
        None => (b, None),
        Some(n) => {
            let (b1, extracted) = with_extract(b, aggregate, slot);
            match extracted {
                Err(_) => (b1, None),
                Ok(bytes) => {
                    let (b2, joined) = joined_bytes(b1, bytes, integer->Integer_0, n as int);
                    match joined {
                        Err(_) => (b2, None),
                        Ok(r) => (b2, r),
                    }
                },
            }
        },
    }
}

proof fn lemma_joined_error(b: Body, bytes: Value, width: u32, k: int, n: int)
    requires
        0 <= k <= n,
        joined_bytes(b, bytes, width, k).1 is Err,
    ensures
        joined_bytes(b, bytes, width, n) == joined_bytes(b, bytes, width, k),
    decreases n - k,
{
    if k < n {
        lemma_joined_error(b, bytes, width, k + 1, n);
    }
}

fn place_byte(b: &mut Builder, bytes: Value, width: u32, index: u32) -> (r: Result<
    Value,
    LowerError,
>)
    requires
        valid(old(b)@, bytes),
        index * 8 <= u32::MAX,
    ensures
        (final(b)@, r) == placed_byte(old(b)@, bytes, width, index),
        extends(old(b)@, final(b)@),
        r is Ok ==> valid(final(b)@, r->Ok_0),
{
    let ghost b0 = b@;
    let octet = match b.extract(bytes, index) {
        Err(e) => {
            return Err(e);
        },
        Ok(x) => x,
    };
    let ghost b1 = b@;
    let wide = b.cast(CastOp::ZExt, octet, LlvmType::Integer(width));
    let ghost b2 = b@;
    proof {
        lemma_extends_transitive(b0, b1, b2);
    }
    if index == 0 {
        return Ok(wide);
    }
    let amount = b.constant(width, (index * 8) as u128);
    let ghost b3 = b@;
    proof {
        lemma_extends_transitive(b0, b2, b3);
        lemma_extends_value(b2, b3, wide);
    }
    let shifted = b.binary(BinOp::Shl, wide, amount);
    proof {
        lemma_extends_transitive(b0, b3, b@);
    }
    Ok(shifted)
}

fn join_bytes(b: &mut Builder, bytes: Value, width: u32, n: u32) -> (r: Result<
    Option<Value>,
    LowerError,
>)
    requires
        valid(old(b)@, bytes),
        n * 8 == width,
    ensures
        (final(b)@, r) == joined_bytes(old(b)@, bytes, width, n as int),
        extends(old(b)@, final(b)@),
        r is Ok && r->Ok_0 is Some ==> valid(final(b)@, r->Ok_0->Some_0),
{
    let ghost first = b@;
    let mut joined: Option<Value> = None;
    for index in 0..n
        invariant
            first == old(b)@,
            valid(first, bytes),
            n * 8 == width,
            extends(first, b@),
            joined is Some ==> valid(b@, joined->Some_0),
            (b@, Ok::<Option<Value>, LowerError>(joined)) == joined_bytes(
                first,
                bytes,
                width,
                index as int,
            ),
    {
        let ghost b1 = b@;
        proof {
            lemma_extends_value(first, b1, bytes);
            if joined_bytes(first, bytes, width, index + 1).1 is Err {
                lemma_joined_error(first, bytes, width, index + 1, n as int);
            }
        }
        match place_byte(b, bytes, width, index) {
            Err(e) => {
                proof {
                    lemma_extends_transitive(first, b1, b@);
                }
                return Err(e);
            },
            Ok(x) => {
                let ghost b2 = b@;
                proof {
                    lemma_extends_transitive(first, b1, b2);
                }
                match joined {
                    None => {
                        joined = Some(x);
                    },
                    Some(previous) => {
                        proof {
                            lemma_extends_value(b1, b2, previous);
                        }
                        joined = Some(b.binary(BinOp::Or, previous, x));
                        proof {
                            lemma_extends_transitive(first, b2, b@);
                        }
                    },
                }
            },
        }
    }
    Ok(joined)
}

fn extract_integer_from_byte_array(
    b: &mut Builder,
    aggregate: Value,
    slot: u32,
    storage: &LlvmType,
    integer: &LlvmType,
) -> (r: Option<Value>)
    requires
        valid(old(b)@, aggregate),
    ensures
        (final(b)@, r) == integer_from_bytes(old(b)@, aggregate, slot, storage@, integer@),
        extends(old(b)@, final(b)@),
        r is Some ==> valid(final(b)@, r->Some_0),
{
    let (n, width): (u64, u32) = match (storage, integer) {
        (LlvmType::Array(elem, n), LlvmType::Integer(width)) => {
            assert(storage@ == LlvmShape::Array(Box::new(elem@), *n));
            let of_bytes: bool = match &**elem {
                LlvmType::Integer(w) => *w == 8,
                _ => false,
            };
            if !of_bytes {
                return None;
            }
            match n.checked_mul(8) {
                None => {
                    return None;
                },
                Some(bits) => {
                    if bits != *width as u64 {
                        return None;
                    }
                },
            }
            (*n, *width)
        },
        _ => {
            return None;
        },
    };
    let ghost b0 = b@;
    let bytes = match b.extract(aggregate, slot) {
        Err(_) => {
            return None;
        },
        Ok(x) => x,
    };
    let ghost b1 = b@;
    let joined = join_bytes(b, bytes, width, n as u32);
    proof {
        lemma_extends_transitive(b0, b1, b@);
    }
    match joined {
        Err(_) => None,
        Ok(r) => r,
    }
}

/// Whether a struct over `fields` has a natural layout for each field.
pub open spec fn has_offsets(fields: Seq<LlvmShape>) -> bool {
    prefix_extent(size_aligns(fields), fields.len() as int) is Some
}

/// The first field of a struct over `fields` from `from` on that sits at byte
/// `offset` and has `size` bytes.
pub open spec fn field_with_bytes(
    fields: Seq<LlvmShape>,
    offset: u64,
    size: u64,
    from: int,
) -> Option<int>
    decreases fields.len() - from,
{
    if from < 0 || from >= fields.len() {
        None
    } else if natural_offset(fields, from) == offset && size_align(fields[from])->Some_0.0
        == size {
        Some(from)
    } else {
        field_with_bytes(fields, offset, size, from + 1)
    }
}

/// `payload` with field `k` read from the storage field that holds its bytes.
pub open spec fn copied_field(
    b: Body,
    v: Value,
    storage: Seq<LlvmShape>,
    fields: Seq<LlvmShape>,
    base: u64,
    payload: Value,
    k: int,
) -> (Body, Option<Value>) {
    match fits(base + natural_offset(fields, k)) {
        None => (b, None),
        Some(offset) => match field_with_bytes(
            storage,
            offset,
            size_align(fields[k])->Some_0.0,
            0,
        ) {
            None => (b, None),
            Some(s) => {
                let (b1, field) = if storage[s] == fields[k] {
                    match with_extract(b, v, s as u32) {
                        (c, Ok(x)) => (c, Some(x)),
                        (c, Err(_)) => (c, None),
                    }
                } else {
                    integer_from_bytes(b, v, s as u32, storage[s], fields[k])
                };
                match field {
                    None => (b1, None),
                    Some(x) => {
                        let (b2, r) = with_insert(b1, payload, x, k as u32);
                        (b2, Some(r))
                    },
                }
            },
        },
    }
}

/// `start` with its first `k` fields read from the storage fields that hold
/// their bytes.
pub open spec fn copied_fields(
    b: Body,
    v: Value,
    storage: Seq<LlvmShape>,
    fields: Seq<LlvmShape>,
    base: u64,
    start: Value,
    k: int,
) -> (Body, Option<Value>)
    decreases k,
{
    if k <= 0 {
        (b, Some(start))
    } else {
        let (b1, before) = copied_fields(b, v, storage, fields, base, start, k - 1);
        match before {
            None => (b1, None),
            Some(payload) => copied_field(b1, v, storage, fields, base, payload, k - 1),
        }
    }
}

/// Whether a field is itself a pointer.
pub open spec fn any_pointer_field(fields: Seq<LlvmShape>) -> bool {
    exists|i: int| 0 <= i < fields.len() && (#[trigger] fields[i]) is Pointer
}

/// Rebuilds a payload that has no slot from the enum's storage, where every
/// field of it has one exact carrier there. Payloads of integers only are left
/// to memory unless `allow_integer_only`.
pub open spec fn rebuilt_payload(
    b: Body,
    v: Value,
    storage: LlvmShape,
    payload: LlvmShape,
    base: u64,
    allow_integer_only: bool,
) -> (Body, Option<Value>) {
    match (storage, payload) {
        (LlvmShape::Struct(sf), LlvmShape::Struct(pf)) => if !has_offsets(sf) || !has_offsets(pf)
            || (!allow_integer_only && !any_pointer_field(pf)) {
            (b, None)
        } else {
            let (b1, start) = with_undef(b, payload);
            copied_fields(b1, v, sf, pf, base, start, pf.len() as int)
        },
        _ => (b, None),
    }
}

/// The fields of a struct type with their natural byte offsets.
pub fn llvm_struct_fields_at_offsets(ty: &LlvmType) -> (r: Option<(&Vec<LlvmType>, Vec<u64>)>)
    ensures
        match r {
            None => !(ty@ is Struct) || !has_offsets(ty@->Struct_0),
            Some((fields, offsets)) => {
                &&& ty@ == LlvmShape::Struct(shapes(fields@))
                &&& has_offsets(shapes(fields@))
                &&& offsets@.len() == fields@.len()
                &&& forall|k: int|
                    0 <= k < fields@.len() ==> #[trigger] offsets@[k] == natural_offset(
                        shapes(fields@),
                        k,
                    )
            },
        },
{
    match ty {
        LlvmType::Struct(fields) => {
            proof {
                LlvmType::lemma_struct_view(*fields);
            }
            match natural_offsets(fields) {
                None => None,
                Some(offsets) => Some((fields, offsets)),
            }
        },
        _ => None,
    }
}

/// Whether one of the fields is itself a pointer.
pub fn has_top_level_pointer_field(fields: &Vec<LlvmType>) -> (r: bool)
    ensures
        r == any_pointer_field(shapes(fields@)),
{
    let ghost fs = shapes(fields@);
    for i in 0..fields.len()
        invariant
            fs == shapes(fields@),
            forall|j: int| 0 <= j < i ==> !((#[trigger] fs[j]) is Pointer),
    {
        assert(fs[i as int] == fields@[i as int]@);
        if let LlvmType::Pointer(_) = &fields[i] {
            assert(fs[i as int] is Pointer);
            return true;
        }
    }
    false
}

fn find_field_with_bytes(fields: &Vec<LlvmType>, offsets: &Vec<u64>, offset: u64, size: u64) -> (r:
    Option<usize>)
    requires
        has_offsets(shapes(fields@)),
        offsets@.len() == fields@.len(),
        forall|k: int|
            0 <= k < fields@.len() ==> #[trigger] offsets@[k] == natural_offset(
                shapes(fields@),
                k,
            ),
    ensures
        match r {
            None => field_with_bytes(shapes(fields@), offset, size, 0) is None,
            Some(i) => field_with_bytes(shapes(fields@), offset, size, 0) == Some(i as int) && i
                < fields@.len(),
        },
{
    let ghost fs = shapes(fields@);
    for i in 0..fields.len()
        invariant
            fs == shapes(fields@),
            has_offsets(fs),
            offsets@.len() == fields@.len(),
            forall|k: int|
                0 <= k < fields@.len() ==> #[trigger] offsets@[k] == natural_offset(fs, k),
            field_with_bytes(fs, offset, size, 0) == field_with_bytes(
                fs,
                offset,
                size,
                i as int,
            ),
    {
        assert(fs[i as int] == fields@[i as int]@);
        proof {
            lemma_offsets_have_sizes(fs, i as int);
        }
        if offsets[i] == offset {
            match llvm_type_size_align(&fields[i]) {
                Some((field_size, _)) => {
                    if field_size == size {
                        return Some(i);
                    }
                },
                None => {},
            }
        }
    }
    None
}

/// Every field of a struct with a natural layout has a size.
proof fn lemma_offsets_have_sizes(fields: Seq<LlvmShape>, k: int)
    requires
        has_offsets(fields),
        0 <= k < fields.len(),
    ensures
        size_align(fields[k]) is Some,
{
    crate::pointers::lemma_prefix_align_bounds(size_aligns(fields), fields.len() as int, k);
    assert(size_aligns(fields)[k] == size_align(fields[k]));
}

proof fn lemma_copied_none(
    b: Body,
    v: Value,
    storage: Seq<LlvmShape>,
    fields: Seq<LlvmShape>,
    base: u64,
    start: Value,
    k: int,
    n: int,
)
    requires
        0 <= k <= n,
        copied_fields(b, v, storage, fields, base, start, k).1 is None,
    ensures
        copied_fields(b, v, storage, fields, base, start, n) == copied_fields(
            b,
            v,
            storage,
            fields,
            base,
            start,
            k,
        ),
    decreases n - k,
{
    if k < n {
        lemma_copied_none(b, v, storage, fields, base, start, k + 1, n);
    }
}

/// Rebuilds a payload that has no slot from the enum's storage.
///
/// A niche enum may keep an integer field of its payload as bytes beside the
/// pointer that carries the niche. Going through memory only to read those
/// bytes would hide them from later optimization.
pub fn try_extract_byte_faithful_enum_payload(
    b: &mut Builder,
    value: Value,
    storage: &LlvmType,
    payload: &LlvmType,
    base: u64,
    allow_integer_only: bool,
) -> (r: Option<Value>)
    requires
        valid(old(b)@, value),
    ensures
        (final(b)@, r) == rebuilt_payload(
            old(b)@,
            value,
            storage@,
            payload@,
            base,
            allow_integer_only,
        ),
        extends(old(b)@, final(b)@),
        r is Some ==> valid(final(b)@, r->Some_0),
{
    let (sf, soff) = match llvm_struct_fields_at_offsets(storage) {
        None => {
            return None;
        },
        Some(x) => x,
    };
    let (pf, poff) = match llvm_struct_fields_at_offsets(payload) {
        None => {
            return None;
        },
        Some(x) => x,
    };
    if !allow_integer_only && !has_top_level_pointer_field(pf) {
        return None;
    }
    let ghost ss = shapes(sf@);
    let ghost ps = shapes(pf@);
    let ghost b0 = b@;
    let start = b.undef(payload.duplicate());
    let ghost b1 = b@;
    let mut current = start;
    for k in 0..pf.len()
        invariant
            b0 == old(b)@,
            valid(b0, value),
            ss == shapes(sf@),
            ps == shapes(pf@),
            storage@ == LlvmShape::Struct(ss),
            payload@ == LlvmShape::Struct(ps),
            has_offsets(ss),
            has_offsets(ps),
            allow_integer_only || any_pointer_field(ps),
            soff@.len() == sf@.len(),
            poff@.len() == pf@.len(),
            forall|i: int|
                0 <= i < sf@.len() ==> #[trigger] soff@[i] == natural_offset(ss, i),
            forall|i: int|
                0 <= i < pf@.len() ==> #[trigger] poff@[i] == natural_offset(ps, i),
            (b1, start) == with_undef(b0, payload@),
            extends(b0, b1),
            extends(b1, b@),
            valid(b@, current),
            (b@, Some(current)) == copied_fields(b1, value, ss, ps, base, start, k as int),
    {
        let ghost c = b@;
        proof {
            lemma_extends_transitive(b0, b1, c);
            lemma_extends_value(b0, c, value);
            assert(ps[k as int] == pf@[k as int]@);
            lemma_offsets_have_sizes(ps, k as int);
            if copied_fields(b1, value, ss, ps, base, start, k + 1).1 is None {
                lemma_copied_none(b1, value, ss, ps, base, start, k + 1, ps.len() as int);
            }
        }
        let offset: u64 = match base.checked_add(poff[k]) {
            None => {
                return None;
            },
            Some(offset) => offset,
        };
        let size: u64 = match llvm_type_size_align(&pf[k]) {
            None => {
                return None;
            },
            Some((size, _)) => size,
        };
        let s: usize = match find_field_with_bytes(sf, &soff, offset, size) {
            None => {
                return None;
            },
            Some(s) => s,
        };
        assert(ss[s as int] == sf@[s as int]@);
        let field: Option<Value> = if sf[s].same_type(&pf[k]) {
            match b.extract(value, s as u32) {
                Err(_) => None,
                Ok(x) => Some(x),
            }
        } else {
            extract_integer_from_byte_array(b, value, s as u32, &sf[s], &pf[k])
        };
        let ghost d = b@;
        proof {
            lemma_extends_transitive(b0, c, d);
            lemma_extends_transitive(b1, c, d);
        }
        match field {
            None => {
                return None;
            },
            Some(x) => {
                proof {
                    lemma_extends_value(c, d, current);
                }
                current = b.insert(current, x, k as u32);
                proof {
                    lemma_extends_transitive(b1, d, b@);
                }
            },
        }
    }
    proof {
        lemma_extends_transitive(b0, b1, b@);
    }
    Some(current)
}

} // verus!
