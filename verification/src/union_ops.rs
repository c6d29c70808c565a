//! Reading and writing one typed view of a union's shared bytes.

use crate::error::LowerError;
use crate::ir::{
    extends, lemma_extends_transitive, lemma_extends_value, valid, value_type, with_binary,
    with_cast, with_constant, with_extract, with_insert, with_load, with_stack_slot, with_store,
    with_undef, BinOp, Body, Builder, CastOp, Value,
};
use crate::llvm::{shapes, LlvmShape, LlvmType};
use crate::mir::MirUnionType;
use crate::storage::{is_zero_sized_type, zero_sized};
use crate::types::{build_union_storage_type, lowered, convert_type, union_type_storage};
use vstd::prelude::*;

verus! {

/// The alignment that memory operations carry; nothing for the zero that
/// stands for "unknown".
pub open spec fn memory_align(align: u64) -> Option<u32> {
    if align > 0 {
        Some(align as u32)
    } else {
        None
    }
}

/// Copies a value into a fresh stack slot and gives its address.
pub open spec fn spilled(b: Body, v: Value, ty: LlvmShape, align: u64) -> (Body, Value) {
    let (b1, slot) = with_stack_slot(b, ty, 64, memory_align(align));
    (with_store(b1, v, slot, memory_align(align)), slot)
}

/// Copies a value into a fresh stack slot and returns its address.
///
/// Once a value sits in memory, a byte-precise pointer can reach any part of
/// it. The slot carries rustc's alignment, which the type alone may not show.
pub fn spill_enum_value(b: &mut Builder, value: Value, ty: LlvmType, abi_align: u64) -> (r: Value)
    ensures
        (final(b)@, r) == spilled(old(b)@, value, ty@, abi_align),
        extends(old(b)@, final(b)@),
        valid(final(b)@, r),
        value_type(final(b)@, r) is Pointer,
{
    let align: Option<u32> = if abi_align > 0 {
        Some(abi_align as u32)
    } else {
        None
    };
    let ghost first = b@;
    let slot = b.stack_slot(ty, 64, align);
    let ghost second = b@;
    b.store(value, slot, align);
    proof {
        lemma_extends_transitive(first, second, b@);
        lemma_extends_value(second, b@, slot);
    }
    slot
}

/// Length and element bits of an array of `float` or `double`.
pub open spec fn float_array(ty: LlvmShape) -> Option<(u64, u32)> {
    match ty {
        LlvmShape::Array(elem, n) => match *elem {
            LlvmShape::Float => Some((n, 32)),
            LlvmShape::Double => Some((n, 64)),
            _ => None,
        },
        _ => None,
    }
}

fn float_array_shape(ty: &LlvmType) -> (r: Option<(u64, u32)>)
    ensures
        r == float_array(ty@),
{
    match ty {
        LlvmType::Array(elem, n) => {
            assert(ty@ == LlvmShape::Array(Box::new(elem@), *n));
            match &**elem {
                LlvmType::Float => Some((*n, 32)),
                LlvmType::Double => Some((*n, 64)),
                _ => None,
            }
        },
        _ => None,
    }
}

/// Slot and width of the first integer field from `from` on that covers the
/// whole union.
pub open spec fn integer_carrier(fields: Seq<LlvmShape>, size: u64, from: int) -> Option<
    (u32, u32),
>
    decreases fields.len() - from,
{
    if from < 0 || from >= fields.len() {
        None
    } else {
        match fields[from] {
            LlvmShape::Integer(width) => if (width + 7) / 8 == size {
                Some((from as u32, width))
            } else {
                integer_carrier(fields, size, from + 1)
            },
            _ => integer_carrier(fields, size, from + 1),
        }
    }
}

/// The integer slot of a union's storage that covers the whole union.
pub open spec fn storage_carrier(storage: LlvmShape, size: u64) -> Option<(u32, u32)> {
    match storage {
        LlvmShape::Struct(fields) => integer_carrier(fields, size, 0),
        _ => None,
    }
}

fn union_integer_carrier(storage: &LlvmType, size: u64) -> (r: Option<(u32, u32)>)
    ensures
        r == storage_carrier(storage@, size),
{
    match storage {
        LlvmType::Struct(fields) => {
            proof {
                LlvmType::lemma_struct_view(*fields);
            }
            let ghost fs = shapes(fields@);
            for i in 0..fields.len()
                invariant
                    fs == shapes(fields@),
                    storage@ == LlvmShape::Struct(fs),
                    integer_carrier(fs, size, 0) == integer_carrier(fs, size, i as int),
            {
                assert(fs[i as int] == fields@[i as int]@);
                match &fields[i] {
                    LlvmType::Integer(width) => {
                        if (*width as u64 + 7) / 8 == size {
                            return Some((i as u32, *width));
                        }
                    },
                    _ => {},
                }
            }
            None
        },
        _ => None,
    }
}

/// How a float array of a union is kept in its integer slot: length, element
/// bits, slot and slot bits. Nothing where the two do not have the same bits.
pub open spec fn float_packing(field: LlvmShape, storage: LlvmShape, size: u64) -> Option<
    (u64, u32, u32, u32),
> {
    match (float_array(field), storage_carrier(storage, size)) {
        (Some((length, bits)), Some((slot, width))) => if length * bits == width {
            Some((length, bits, slot, width))
        } else {
            None
        },
        _ => None,
    }
}

fn find_float_packing(field: &LlvmType, storage: &LlvmType, size: u64) -> (r: Option<
    (u64, u32, u32, u32),
>)
    ensures
        r == float_packing(field@, storage@, size),
        r is Some ==> r->Some_0.0 <= u32::MAX && r->Some_0.0 * r->Some_0.1 == r->Some_0.3,
{
    match (float_array_shape(field), union_integer_carrier(storage, size)) {
        (Some((length, bits)), Some((slot, width))) => {
            match length.checked_mul(bits as u64) {
                None => None,
                Some(total) => if total == width as u64 {
                    assert(length <= length * bits) by (nonlinear_arith)
                        requires
                            bits >= 1,
                    ;
                    Some((length, bits, slot, width))
                } else {
                    None
                },
            }
        },
        _ => None,
    }
}

/// One element of `v`, as `width` bits shifted to its place.
pub open spec fn packed_element(b: Body, v: Value, bits: u32, width: u32, index: u32) -> (
    Body,
    Result<Value, LowerError>,
) {
    let (b1, extracted) = with_extract(b, v, index);
    match extracted {
        Err(e) => (b1, Err(e)),
        Ok(x) => {
            let (b2, raw) = with_cast(b1, CastOp::Bitcast, x, LlvmShape::Integer(bits));
            let (b3, wide) = if bits == width {
                (b2, raw)
            } else {
                with_cast(b2, CastOp::ZExt, raw, LlvmShape::Integer(width))
            };
            if index == 0 {
                (b3, Ok(wide))
            } else {
                let (b4, amount) = with_constant(b3, width, (index * bits) as u128);
                let (b5, shifted) = with_binary(b4, BinOp::Shl, wide, amount);
                (b5, Ok(shifted))
            }
        },
    }
}

/// The first `k` elements of `v`, joined in one integer.
pub open spec fn packed_elements(b: Body, v: Value, bits: u32, width: u32, k: int) -> (
    Body,
    Result<Option<Value>, LowerError>,
)
    decreases k,
{
    if k <= 0 {
        (b, Ok(None))
    } else {
        let (b1, before) = packed_elements(b, v, bits, width, k - 1);
        match before {
            Err(e) => (b1, Err(e)),
            Ok(joined) => {
                let (b2, element) = packed_element(b1, v, bits, width, (k - 1) as u32);
                match element {
                    Err(e) => (b2, Err(e)),
                    Ok(x) => match joined {
                        None => (b2, Ok(Some(x))),
                        Some(previous) => {
                            let (b3, both) = with_binary(b2, BinOp::Or, previous, x);
                            (b3, Ok(Some(both)))
                        },
                    },
                }
            },
        }
    }
}

/// Writes a float array into a union's integer slot without memory, where that
/// is possible.
pub open spec fn packed_union(
    b: Body,
    v: Value,
    field: LlvmShape,
    storage: LlvmShape,
    size: u64,
) -> (Body, Option<Value>) {
    match float_packing(field, storage, size) {
        None => (b, None),
        Some((length, bits, slot, width)) => {
            let (b1, joined) = packed_elements(b, v, bits, width, length as int);
            match joined {
                Err(_) => (b1, None),
                Ok(word) => {
                    let (b2, undef) = with_undef(b1, storage);
                    match word {
                        None => (b2, None),
                        Some(x) => {
                            let (b3, r) = with_insert(b2, undef, x, slot);
                            (b3, Some(r))
                        },
                    }
                },
            }
        },
    }
}

proof fn lemma_packed_error(b: Body, v: Value, bits: u32, width: u32, k: int, n: int)
    requires
        0 <= k <= n,
        packed_elements(b, v, bits, width, k).1 is Err,
    ensures
        packed_elements(b, v, bits, width, n) == packed_elements(b, v, bits, width, k),
    decreases n - k,
{
    if k < n {
        lemma_packed_error(b, v, bits, width, k + 1, n);
    }
}

fn pack_element(b: &mut Builder, v: Value, bits: u32, width: u32, index: u32) -> (r: Result<
    Value,
    LowerError,
>)
    requires
        valid(old(b)@, v),
        index * bits <= u32::MAX,
    ensures
        (final(b)@, r) == packed_element(old(b)@, v, bits, width, index),
        extends(old(b)@, final(b)@),
        r is Ok ==> valid(final(b)@, r->Ok_0),
{
    let ghost b0 = b@;
    let x = match b.extract(v, index) {
        Err(e) => {
            return Err(e);
        },
        Ok(x) => x,
    };
    let ghost b1 = b@;
    let raw = b.cast(CastOp::Bitcast, x, LlvmType::Integer(bits));
    let ghost b2 = b@;
    proof {
        lemma_extends_transitive(b0, b1, b2);
    }
    let wide = if bits == width {
        raw
    } else {
        b.cast(CastOp::ZExt, raw, LlvmType::Integer(width))
    };
    let ghost b3 = b@;
    proof {
        lemma_extends_transitive(b0, b2, b3);
    }
    if index == 0 {
        Ok(wide)
    } else {
        let amount = b.constant(width, (index * bits) as u128);
        let ghost b4 = b@;
        proof {
            lemma_extends_transitive(b0, b3, b4);
            lemma_extends_value(b3, b4, wide);
        }
        let shifted = b.binary(BinOp::Shl, wide, amount);
        proof {
            lemma_extends_transitive(b0, b4, b@);
        }
        Ok(shifted)
    }
}

fn pack_elements(b: &mut Builder, v: Value, bits: u32, width: u32, length: u32) -> (r: Result<
    Option<Value>,
    LowerError,
>)
    requires
        valid(old(b)@, v),
        length * bits == width,
    ensures
        (final(b)@, r) == packed_elements(old(b)@, v, bits, width, length as int),
        extends(old(b)@, final(b)@),
        r is Ok && r->Ok_0 is Some ==> valid(final(b)@, r->Ok_0->Some_0),
{
    let ghost first = b@;
    let mut joined: Option<Value> = None;
    for index in 0..length
        invariant
            first == old(b)@,
            valid(first, v),
            length * bits == width,
            extends(first, b@),
            joined is Some ==> valid(b@, joined->Some_0),
            (b@, Ok::<Option<Value>, LowerError>(joined)) == packed_elements(
                first,
                v,
                bits,
                width,
                index as int,
            ),
    {
        let ghost b1 = b@;
        proof {
            lemma_extends_value(first, b1, v);
            if packed_elements(first, v, bits, width, index + 1).1 is Err {
                lemma_packed_error(first, v, bits, width, index + 1, length as int);
            }
            assert(index * bits <= length * bits) by (nonlinear_arith)
                requires
                    index <= length,
            ;
        }
        match pack_element(b, v, bits, width, index) {
            Err(e) => {
                proof {
                    lemma_extends_transitive(first, b1, b@);
                }
                return Err(e);
            },
            Ok(x) => {
                let ghost b2 = b@;
                proof {
                    lemma_extends_transitive(first, b1, b2);
                }
                match joined {
                    None => {
                        joined = Some(x);
                    },
                    Some(previous) => {
                        proof {
                            lemma_extends_value(b1, b2, previous);
                        }
                        joined = Some(b.binary(BinOp::Or, previous, x));
                        proof {
                            lemma_extends_transitive(first, b2, b@);
                        }
                    },
                }
            },
        }
    }
    Ok(joined)
}

/// Writes a float array into a union's integer slot without memory, where that is
/// possible.
pub fn try_pack_float_array_union(
    b: &mut Builder,
    value: Value,
    field: &LlvmType,
    storage: &LlvmType,
    size: u64,
) -> (r: Option<Value>)
    requires
        valid(old(b)@, value),
    ensures
        (final(b)@, r) == packed_union(old(b)@, value, field@, storage@, size),
        extends(old(b)@, final(b)@),
        r is Some ==> valid(final(b)@, r->Some_0),
{
    let (length, bits, slot, width): (u64, u32, u32, u32) = match find_float_packing(
        field,
        storage,
        size,
    ) {
        None => {
            return None;
        },
        Some(packing) => packing,
    };
    let ghost b0 = b@;
    match pack_elements(b, value, bits, width, length as u32) {
        Err(_) => None,
        Ok(word) => {
            let ghost b1 = b@;
            let undef = b.undef(storage.duplicate());
            let ghost b2 = b@;
            proof {
                lemma_extends_transitive(b0, b1, b2);
            }
            match word {
                None => None,
                Some(x) => {
                    let r = b.insert(undef, x, slot);
                    proof {
                        lemma_extends_transitive(b0, b2, b@);
                    }
                    Some(r)
                },
            }
        },
    }
}

/// `array` with element `index` taken from its bits in `word`.
pub open spec fn unpacked_element(
    b: Body,
    word: Value,
    array: Value,
    elem: LlvmShape,
    bits: u32,
    width: u32,
    index: u32,
) -> (Body, Value) {
    let (b1, shifted) = if index == 0 {
        (b, word)
    } else {
        let (c, amount) = with_constant(b, width, (index * bits) as u128);
        with_binary(c, BinOp::LShr, word, amount)
    };
    let (b2, narrow) = if bits == width {
        (b1, shifted)
    } else {
        with_cast(b1, CastOp::Trunc, shifted, LlvmShape::Integer(bits))
    };
    let (b3, x) = with_cast(b2, CastOp::Bitcast, narrow, elem);
    with_insert(b3, array, x, index)
}

/// `array` with its first `k` elements taken from `word`.
pub open spec fn unpacked_elements(
    b: Body,
    word: Value,
    array: Value,
    elem: LlvmShape,
    bits: u32,
    width: u32,
    k: int,
) -> (Body, Value)
    decreases k,
{
    if k <= 0 {
        (b, array)
    } else {
        let (b1, current) = unpacked_elements(b, word, array, elem, bits, width, k - 1);
        unpacked_element(b1, word, current, elem, bits, width, (k - 1) as u32)
    }
}

/// Reads a float array out of a union's integer slot without memory, where
/// that is possible.
pub open spec fn unpacked_union(
    b: Body,
    v: Value,
    field: LlvmShape,
    storage: LlvmShape,
    size: u64,
) -> (Body, Option<Value>) {
    match float_packing(field, storage, size) {
        None => (b, None),
        Some((length, bits, slot, width)) => {
            let (b1, extracted) = with_extract(b, v, slot);
            match extracted {
                Err(_) => (b1, None),
                Ok(word) => {
                    let (b2, array) = with_undef(b1, field);
                    let elem = *field->Array_0;
                    let (b3, r) = unpacked_elements(
                        b2,
                        word,
                        array,
                        elem,
                        bits,
                        width,
                        length as int,
                    );
                    (b3, Some(r))
                },
            }
        },
    }
}

fn unpack_element(
    b: &mut Builder,
    word: Value,
    array: Value,
    elem: LlvmType,
    bits: u32,
    width: u32,
    index: u32,
) -> (r: Value)
    requires
        valid(old(b)@, word),
        valid(old(b)@, array),
        index * bits <= u32::MAX,
    ensures
        (final(b)@, r) == unpacked_element(old(b)@, word, array, elem@, bits, width, index),
        extends(old(b)@, final(b)@),
        valid(final(b)@, r),
{
    let ghost b0 = b@;
    let shifted = if index == 0 {
        word
    } else {
        let amount = b.constant(width, (index * bits) as u128);
        let ghost c = b@;
        proof {
            lemma_extends_value(b0, c, word);
        }
        let s = b.binary(BinOp::LShr, word, amount);
        proof {
            lemma_extends_transitive(b0, c, b@);
        }
        s
    };
    let ghost b1 = b@;
    let narrow = if bits == width {
        shifted
    } else {
        b.cast(CastOp::Trunc, shifted, LlvmType::Integer(bits))
    };
    let ghost b2 = b@;
    proof {
        lemma_extends_transitive(b0, b1, b2);
    }
    let x = b.cast(CastOp::Bitcast, narrow, elem);
    let ghost b3 = b@;
    proof {
        lemma_extends_transitive(b0, b2, b3);
        lemma_extends_value(b0, b3, array);
    }
    let r = b.insert(array, x, index);
    proof {
        lemma_extends_transitive(b0, b3, b@);
    }
    r
}

/// Reads a float array out of a union's integer slot without memory, where that is
/// possible.
pub fn try_unpack_float_array_union(
    b: &mut Builder,
    value: Value,
    field: &LlvmType,
    storage: &LlvmType,
    size: u64,
) -> (r: Option<Value>)
    requires
        valid(old(b)@, value),
    ensures
        (final(b)@, r) == unpacked_union(old(b)@, value, field@, storage@, size),
        extends(old(b)@, final(b)@),
        r is Some ==> valid(final(b)@, r->Some_0),
{
    let (length, bits, slot, width): (u64, u32, u32, u32) = match find_float_packing(
        field,
        storage,
        size,
    ) {
        None => {
            return None;
        },
        Some(packing) => packing,
    };
    let elem = match field {
        LlvmType::Array(elem, _) => elem.duplicate(),
        _ => {
            return None;
        },
    };
    assert(elem@ == *field@->Array_0);
    let ghost b0 = b@;
    let word = match b.extract(value, slot) {
        Err(_) => {
            return None;
        },
        Ok(word) => word,
    };
    let ghost b1 = b@;
    let mut array = b.undef(field.duplicate());
    let ghost b2 = b@;
    let ghost start = array;
    proof {
        lemma_extends_transitive(b0, b1, b2);
        lemma_extends_value(b1, b2, word);
    }
    for index in 0..length as u32
        invariant
            length <= u32::MAX,
            length * bits == width,
            extends(b0, b2),
            extends(b2, b@),
            valid(b2, word),
            valid(b@, array),
            (b@, array) == unpacked_elements(
                b2,
                word,
                start,
                elem@,
                bits,
                width,
                index as int,
            ),
    {
        let ghost c = b@;
        proof {
            lemma_extends_value(b2, c, word);
            assert(index * bits <= length * bits) by (nonlinear_arith)
                requires
                    index <= length,
            ;
        }
        array = unpack_element(b, word, array, elem.duplicate(), bits, width, index);
        proof {
            lemma_extends_transitive(b2, c, b@);
        }
    }
    proof {
        lemma_extends_transitive(b0, b2, b@);
    }
    Some(array)
}

/// Reads field `index` of union value `v`.
pub open spec fn extracted_union_field(b: Body, v: Value, u: MirUnionType, index: u32) -> (
    Body,
    Result<Value, LowerError>,
) {
    if index >= u.field_types@.len() {
        (b, Err(LowerError::UnionFieldIndex { member: index }))
    } else {
        match lowered(u.field_types@[index as int]) {
            Err(e) => (b, Err(e)),
            Ok(field) => if zero_sized(field) {
                let (c, r) = with_undef(b, field);
                (c, Ok(r))
            } else {
                match union_type_storage(u) {
                    Err(e) => (b, Err(e)),
                    Ok(storage) => {
                        let (b1, direct) = unpacked_union(b, v, field, storage, u.total_size);
                        match direct {
                            Some(r) => (b1, Ok(r)),
                            None => {
                                let (b2, slot) = spilled(b1, v, storage, u.abi_align);
                                let (b3, r) = with_load(
                                    b2,
                                    slot,
                                    field,
                                    Some(u.abi_align as u32),
                                );
                                (b3, Ok(r))
                            },
                        }
                    },
                }
            },
        }
    }
}

/// Writes `new` to field `index` of union value `v`, keeping its other bytes.
pub open spec fn inserted_union_field(
    b: Body,
    v: Value,
    new: Value,
    u: MirUnionType,
    index: u32,
) -> (Body, Result<Value, LowerError>) {
    if index >= u.field_types@.len() {
        (b, Err(LowerError::UnionFieldIndex { member: index }))
    } else {
        match lowered(u.field_types@[index as int]) {
            Err(e) => (b, Err(e)),
            Ok(field) => if zero_sized(field) {
                (b, Ok(v))
            } else {
                match union_type_storage(u) {
                    Err(e) => (b, Err(e)),
                    Ok(storage) => {
                        let (b1, direct) = packed_union(b, new, field, storage, u.total_size);
                        match direct {
                            Some(r) => (b1, Ok(r)),
                            None => {
                                let (b2, slot) = spilled(b1, v, storage, u.abi_align);
                                let b3 = with_store(b2, new, slot, Some(u.abi_align as u32));
                                let (b4, r) = with_load(
                                    b3,
                                    slot,
                                    storage,
                                    Some(u.abi_align as u32),
                                );
                                (b4, Ok(r))
                            },
                        }
                    },
                }
            },
        }
    }
}

/// Reads one typed view of a union's shared bytes.
pub fn convert_extract_union_field(
    b: &mut Builder,
    value: Value,
    union_ty: &MirUnionType,
    field_index: u32,
) -> (r: Result<Value, LowerError>)
    requires
        valid(old(b)@, value),
    ensures
        (final(b)@, r) == extracted_union_field(old(b)@, value, *union_ty, field_index),
        extends(old(b)@, final(b)@),
        r is Ok ==> valid(final(b)@, r->Ok_0),
{
    if field_index as usize >= union_ty.field_types.len() {
        return Err(LowerError::UnionFieldIndex { member: field_index });
    }
    let field = match convert_type(&union_ty.field_types[field_index as usize]) {
        Err(e) => {
            return Err(e);
        },
        Ok(field) => field,
    };
    if is_zero_sized_type(&field) {
        return Ok(b.undef(field));
    }
    let storage = match build_union_storage_type(union_ty) {
        Err(e) => {
            return Err(e);
        },
        Ok(storage) => storage,
    };
    let ghost b0 = b@;
    if let Some(r) = try_unpack_float_array_union(
        b,
        value,
        &field,
        &storage,
        union_ty.total_size,
    ) {
        return Ok(r);
    }
    let ghost b1 = b@;
    let slot = spill_enum_value(b, value, storage, union_ty.abi_align);
    let ghost b2 = b@;
    proof {
        lemma_extends_transitive(b0, b1, b2);
    }
    let r = b.load(slot, field, Some(union_ty.abi_align as u32));
    proof {
        lemma_extends_transitive(b0, b2, b@);
    }
    Ok(r)
}

/// Writes one typed view at byte zero of a union and keeps its other bytes.
pub fn convert_insert_union_field(
    b: &mut Builder,
    value: Value,
    new_value: Value,
    union_ty: &MirUnionType,
    field_index: u32,
) -> (r: Result<Value, LowerError>)
    requires
        valid(old(b)@, value),
        valid(old(b)@, new_value),
    ensures
        (final(b)@, r) == inserted_union_field(
            old(b)@,
            value,
            new_value,
            *union_ty,
            field_index,
        ),
        extends(old(b)@, final(b)@),
        r is Ok ==> valid(final(b)@, r->Ok_0),
{
    if field_index as usize >= union_ty.field_types.len() {
        return Err(LowerError::UnionFieldIndex { member: field_index });
    }
    let field = match convert_type(&union_ty.field_types[field_index as usize]) {
        Err(e) => {
            return Err(e);
        },
        Ok(field) => field,
    };
    if is_zero_sized_type(&field) {
        return Ok(value);
    }
    let storage = match build_union_storage_type(union_ty) {
        Err(e) => {
            return Err(e);
        },
        Ok(storage) => storage,
    };
    let ghost b0 = b@;
    if let Some(r) = try_pack_float_array_union(
        b,
        new_value,
        &field,
        &storage,
        union_ty.total_size,
    ) {
        return Ok(r);
    }
    let ghost b1 = b@;
    let slot = spill_enum_value(b, value, storage.duplicate(), union_ty.abi_align);
    let ghost b2 = b@;
    proof {
        lemma_extends_transitive(b0, b1, b2);
    }
    b.store(new_value, slot, Some(union_ty.abi_align as u32));
    let ghost b3 = b@;
    proof {
        lemma_extends_transitive(b0, b2, b3);
    }
    let r = b.load(slot, storage, Some(union_ty.abi_align as u32));
    proof {
        lemma_extends_transitive(b0, b3, b@);
    }
    Ok(r)
}

} // verus!
