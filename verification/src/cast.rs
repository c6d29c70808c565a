//! Casts between scalars, pointers and aggregates.
//!
//! The kind of a cast comes from Rust and is not guessed from its types.
//! Integer widening needs the source's sign, which LLVM integers do not carry:
//! it is read from the type that the value had before.

use crate::error::LowerError;
use crate::ir::{
    element_type, extends, lemma_extends_transitive, lemma_extends_value, valid, value_type,
    with_cast, with_constant, with_extract, with_insert, with_load, with_stack_slot,
    with_store, with_unary_call, with_undef, Body, Builder, CastOp, Intrinsic, Op, Value,
};
use crate::layout::{llvm_type_size_align, size_align};
use crate::llvm::{shapes, LlvmShape, LlvmType, GENERIC, SHARED};
use crate::mir::{expand_memory_order, memory_order, MirType, Signedness};
use crate::storage::{
    byte_faithful, contains_leaf, llvm_type_contains_pointer_in_address_space,
    llvm_type_is_byte_faithful, LeafKind,
};
use crate::types::{convert_type, lowered};
use vstd::prelude::*;

verus! {

/// What a Rust cast does.
#[derive(Clone, Copy, Debug, PartialEq, Eq, Structural)]
pub enum CastKind {
    Transmute,
    IntToInt,
    IntToFloat,
    FloatToInt,
    FloatToFloat,
    PointerCoercionUnsize,
    PtrToPtr,
    FnPtrToPtr,
    PointerCoercionMutToConst,
    PointerCoercionReifyFnPointer,
    PointerCoercionUnsafeFnPointer,
    PointerCoercionClosureFnPointer,
    PointerCoercionArrayToPointer,
    Subtype,
    PointerExposeAddress,
    PointerWithExposedProvenance,
}

// ---------------------------------------------------------------------------
// Integers and floats
// ---------------------------------------------------------------------------

/// Whether an integer operand is signed: by the newest type it had before, or
/// unsigned where only its LLVM type is known. Nothing for other operands.
pub open spec fn source_signed(history: Seq<MirType>, ty: LlvmShape) -> Option<bool> {
    if history.len() > 0 {
        match history[history.len() - 1] {
            MirType::Integer(_, sign) => Some(sign == Signedness::Signed),
            _ => None,
        }
    } else if ty is Integer {
        Some(false)
    } else {
        None
    }
}

fn is_source_signed(history: &Vec<MirType>, ty: &LlvmType) -> (r: Option<bool>)
    ensures
        r == source_signed(history@, ty@),
{
    if history.len() > 0 {
        match &history[history.len() - 1] {
            MirType::Integer(_, sign) => Some(*sign == Signedness::Signed),
            _ => None,
        }
    } else {
        match ty {
            LlvmType::Integer(_) => Some(false),
            _ => None,
        }
    }
}

/// Integer to integer: extension, truncation, or the same bits.
pub open spec fn int_to_int(b: Body, v: Value, history: Seq<MirType>, to: LlvmShape) -> (
    Body,
    Result<Value, LowerError>,
) {
    match (value_type(b, v), to) {
        (LlvmShape::Integer(from_width), LlvmShape::Integer(to_width)) => if to_width
            > from_width {
            match source_signed(history, value_type(b, v)) {
                None => (b, Err(LowerError::CastSourceNotInteger)),
                Some(signed) => {
                    let (c, r) = with_cast(
                        b,
                        if signed {
                            CastOp::SExt
                        } else {
                            CastOp::ZExt
                        },
                        v,
                        to,
                    );
                    (c, Ok(r))
                },
            }
        } else if to_width < from_width {
            let (c, r) = with_cast(b, CastOp::Trunc, v, to);
            (c, Ok(r))
        } else {
            let (c, r) = with_cast(b, CastOp::Bitcast, v, to);
            (c, Ok(r))
        },
        (LlvmShape::Integer(_), _) => (b, Err(LowerError::CastTargetNotInteger)),
        _ => (b, Err(LowerError::CastSourceNotInteger)),
    }
}

fn convert_int_to_int(b: &mut Builder, v: Value, history: &Vec<MirType>, to: LlvmType) -> (r:
    Result<Value, LowerError>)
    requires
        valid(old(b)@, v),
    ensures
        (final(b)@, r) == int_to_int(old(b)@, v, history@, to@),
        extends(old(b)@, final(b)@),
        r is Ok ==> valid(final(b)@, r->Ok_0),
{
    let from_width: u32 = match b.value_type(v) {
        LlvmType::Integer(width) => *width,
        _ => {
            return Err(LowerError::CastSourceNotInteger);
        },
    };
    let to_width: u32 = match &to {
        LlvmType::Integer(width) => *width,
        _ => {
            return Err(LowerError::CastTargetNotInteger);
        },
    };
    if to_width > from_width {
        match is_source_signed(history, b.value_type(v)) {
            None => Err(LowerError::CastSourceNotInteger),
            Some(true) => Ok(b.cast(CastOp::SExt, v, to)),
            Some(false) => Ok(b.cast(CastOp::ZExt, v, to)),
        }
    } else if to_width < from_width {
        Ok(b.cast(CastOp::Trunc, v, to))
    } else {
        Ok(b.cast(CastOp::Bitcast, v, to))
    }
}

/// Integer to float, by the source's sign.
pub open spec fn int_to_float(b: Body, v: Value, history: Seq<MirType>, to: LlvmShape) -> (
    Body,
    Result<Value, LowerError>,
) {
    match source_signed(history, value_type(b, v)) {
        None => (b, Err(LowerError::CastSourceNotInteger)),
        Some(signed) => {
            let (c, r) = with_cast(
                b,
                if signed {
                    CastOp::SIToFP
                } else {
                    CastOp::UIToFP
                },
                v,
                to,
            );
            (c, Ok(r))
        },
    }
}

fn convert_int_to_float(b: &mut Builder, v: Value, history: &Vec<MirType>, to: LlvmType) -> (r:
    Result<Value, LowerError>)
    requires
        valid(old(b)@, v),
    ensures
        (final(b)@, r) == int_to_float(old(b)@, v, history@, to@),
        extends(old(b)@, final(b)@),
        r is Ok ==> valid(final(b)@, r->Ok_0),
{
    match is_source_signed(history, b.value_type(v)) {
        None => Err(LowerError::CastSourceNotInteger),
        Some(true) => Ok(b.cast(CastOp::SIToFP, v, to)),
        Some(false) => Ok(b.cast(CastOp::UIToFP, v, to)),
    }
}

/// Bits of a floating-point type.
pub open spec fn float_bits(ty: LlvmShape) -> Option<u32> {
    match ty {
        LlvmShape::Half => Some(16),
        LlvmShape::Float => Some(32),
        LlvmShape::Double => Some(64),
        _ => None,
    }
}

fn float_bit_width(ty: &LlvmType) -> (r: Option<u32>)
    ensures
        r == float_bits(ty@),
{
    match ty {
        LlvmType::Half => Some(16),
        LlvmType::Float => Some(32),
        LlvmType::Double => Some(64),
        _ => None,
    }
}

/// Float to integer, saturating as in Rust: out-of-range values become the
/// nearest integer and NaN becomes zero. The sign is that of the Rust type.
pub open spec fn float_to_int(b: Body, v: Value, result: MirType, to: LlvmShape) -> (
    Body,
    Result<Value, LowerError>,
) {
    match (result, to) {
        (MirType::Integer(_, sign), LlvmShape::Integer(int_width)) => match float_bits(
            value_type(b, v),
        ) {
            None => (b, Err(LowerError::CastNotFloat)),
            Some(float_width) => {
                let callee = Intrinsic::FloatToIntSat {
                    signed: sign == Signedness::Signed,
                    int_width,
                    float_width,
                };
                let (c, r) = with_unary_call(b, callee, v, to);
                (c, Ok(r))
            },
        },
        _ => (b, Err(LowerError::CastTargetNotInteger)),
    }
}

fn convert_float_to_int(b: &mut Builder, v: Value, result: &MirType, to: LlvmType) -> (r: Result<
    Value,
    LowerError,
>)
    requires
        valid(old(b)@, v),
    ensures
        (final(b)@, r) == float_to_int(old(b)@, v, *result, to@),
        extends(old(b)@, final(b)@),
        r is Ok ==> valid(final(b)@, r->Ok_0),
{
    let signed: bool = match result {
        MirType::Integer(_, sign) => *sign == Signedness::Signed,
        _ => {
            return Err(LowerError::CastTargetNotInteger);
        },
    };
    let int_width: u32 = match &to {
        LlvmType::Integer(width) => *width,
        _ => {
            return Err(LowerError::CastTargetNotInteger);
        },
    };
    match float_bit_width(b.value_type(v)) {
        None => Err(LowerError::CastNotFloat),
        Some(float_width) => {
            let callee = Intrinsic::FloatToIntSat { signed, int_width, float_width };
            Ok(b.call_unary(callee, v, to))
        },
    }
}

/// Float to float: extension, truncation, or the same bits.
pub open spec fn float_to_float(b: Body, v: Value, to: LlvmShape) -> (
    Body,
    Result<Value, LowerError>,
) {
    match (float_bits(value_type(b, v)), float_bits(to)) {
        (Some(from_width), Some(to_width)) => {
            let (c, r) = with_cast(
                b,
                if from_width < to_width {
                    CastOp::FPExt
                } else if from_width > to_width {
                    CastOp::FPTrunc
                } else {
                    CastOp::Bitcast
                },
                v,
                to,
            );
            (c, Ok(r))
        },
        _ => (b, Err(LowerError::CastNotFloat)),
    }
}

fn convert_float_to_float(b: &mut Builder, v: Value, to: LlvmType) -> (r: Result<
    Value,
    LowerError,
>)
    requires
        valid(old(b)@, v),
    ensures
        (final(b)@, r) == float_to_float(old(b)@, v, to@),
        extends(old(b)@, final(b)@),
        r is Ok ==> valid(final(b)@, r->Ok_0),
{
    match (float_bit_width(b.value_type(v)), float_bit_width(&to)) {
        (Some(from_width), Some(to_width)) => {
            let kind = if from_width < to_width {
                CastOp::FPExt
            } else if from_width > to_width {
                CastOp::FPTrunc
            } else {
                CastOp::Bitcast
            };
            Ok(b.cast(kind, v, to))
        },
        _ => Err(LowerError::CastNotFloat),
    }
}

// ---------------------------------------------------------------------------
// Pointers and integers
// ---------------------------------------------------------------------------

/// The generic address of a pointer as an integer. A pointer in a named address
/// space is made generic first: its local offset may be zero.
pub open spec fn ptr_to_int(b: Body, v: Value, to: LlvmShape) -> (Body, Value) {
    let (b1, generic) = match value_type(b, v) {
        LlvmShape::Pointer(space) => if space == GENERIC {
            (b, v)
        } else {
            with_cast(b, CastOp::AddrSpaceCast, v, LlvmShape::Pointer(GENERIC))
        },
        _ => (b, v),
    };
    with_cast(b1, CastOp::PtrToInt, generic, to)
}

/// Exposes a pointer's generic address as an integer.
pub fn emit_ptr_to_int(b: &mut Builder, v: Value, to: LlvmType) -> (r: Value)
    requires
        valid(old(b)@, v),
    ensures
        (final(b)@, r) == ptr_to_int(old(b)@, v, to@),
        extends(old(b)@, final(b)@),
        valid(final(b)@, r),
{
    let space: u32 = match b.value_type(v) {
        LlvmType::Pointer(space) => *space,
        _ => {
            return b.cast(CastOp::PtrToInt, v, to);
        },
    };
    if space == GENERIC {
        return b.cast(CastOp::PtrToInt, v, to);
    }
    let ghost b0 = b@;
    let generic = b.cast(CastOp::AddrSpaceCast, v, LlvmType::Pointer(GENERIC));
    let ghost b1 = b@;
    let r = b.cast(CastOp::PtrToInt, generic, to);
    proof {
        lemma_extends_transitive(b0, b1, b@);
    }
    r
}

/// A pointer from a generic address. A named address space is entered through
/// the generic one.
pub open spec fn int_to_ptr(b: Body, v: Value, to: LlvmShape) -> (Body, Value) {
    match to {
        LlvmShape::Pointer(space) => if space == GENERIC {
            with_cast(b, CastOp::IntToPtr, v, to)
        } else {
            let (b1, generic) = with_cast(b, CastOp::IntToPtr, v, LlvmShape::Pointer(GENERIC));
            with_cast(b1, CastOp::AddrSpaceCast, generic, to)
        },
        _ => with_cast(b, CastOp::IntToPtr, v, to),
    }
}

/// Makes a pointer of an integer; named address spaces are entered through the
/// generic one.
pub fn emit_int_to_ptr(b: &mut Builder, v: Value, to: LlvmType) -> (r: Value)
    ensures
        (final(b)@, r) == int_to_ptr(old(b)@, v, to@),
        extends(old(b)@, final(b)@),
        valid(final(b)@, r),
{
    let named: bool = match &to {
        LlvmType::Pointer(space) => *space != GENERIC,
        _ => false,
    };
    if !named {
        return b.cast(CastOp::IntToPtr, v, to);
    }
    let ghost b0 = b@;
    let generic = b.cast(CastOp::IntToPtr, v, LlvmType::Pointer(GENERIC));
    let ghost b1 = b@;
    let r = b.cast(CastOp::AddrSpaceCast, generic, to);
    proof {
        lemma_extends_transitive(b0, b1, b@);
    }
    r
}

/// Only a generic pointer is turned into an integer: one in a named address space is
/// made generic first, and a generic one takes one conversion.
pub proof fn law_exposed_addresses_are_generic(b: Body, v: Value, space: u32, word: LlvmShape)
    requires
        b.insts.len() + 2 <= usize::MAX,
        valid(b, v),
        value_type(b, v) == LlvmShape::Pointer(space),
    ensures
        ({
            let (c, r) = ptr_to_int(b, v, word);
            let n = b.insts.len() as int;
            let last = c.insts[c.insts.len() - 1];
            &&& r == Value::Inst((c.insts.len() - 1) as usize)
            &&& last.ty == word
            &&& last.op is Cast
            &&& last.op->Cast_kind == CastOp::PtrToInt
            &&& value_type(c, last.op->Cast_value) == LlvmShape::Pointer(GENERIC)
            &&& space == GENERIC ==> c.insts.len() == n + 1 && last.op->Cast_value == v
            &&& space != GENERIC ==> {
                &&& c.insts.len() == n + 2
                &&& last.op->Cast_value == Value::Inst(n as usize)
                &&& c.insts[n].op == (Op::Cast { kind: CastOp::AddrSpaceCast, value: v })
            }
        }),
{
}

/// An integer is turned into a generic pointer only: into the generic space by that
/// one conversion, and into a named space by one more, from the generic space.
pub proof fn law_integers_become_generic_pointers(b: Body, v: Value, space: u32)
    requires
        b.insts.len() + 2 <= usize::MAX,
    ensures
        ({
            let (c, r) = int_to_ptr(b, v, LlvmShape::Pointer(space));
            let n = b.insts.len() as int;
            &&& r == Value::Inst((c.insts.len() - 1) as usize)
            &&& value_type(c, r) == LlvmShape::Pointer(space)
            &&& c.insts[n].op == (Op::Cast { kind: CastOp::IntToPtr, value: v })
            &&& c.insts[n].ty == LlvmShape::Pointer(GENERIC)
            &&& space == GENERIC ==> c.insts.len() == n + 1
            &&& space != GENERIC ==> {
                &&& c.insts.len() == n + 2
                &&& c.insts[n + 1].op == (Op::Cast {
                    kind: CastOp::AddrSpaceCast,
                    value: Value::Inst(n as usize),
                })
            }
        }),
{
}

// ---------------------------------------------------------------------------
// Through memory
// ---------------------------------------------------------------------------

/// Whether a type is a struct or an array.
pub open spec fn is_aggregate(ty: LlvmShape) -> bool {
    ty is Struct || ty is Array
}

fn type_is_aggregate(ty: &LlvmType) -> (r: bool)
    ensures
        r == is_aggregate(ty@),
{
    match ty {
        LlvmType::Struct(_) => true,
        LlvmType::Array(_, _) => true,
        _ => false,
    }
}

fn type_is_bool(ty: &LlvmType) -> (r: bool)
    ensures
        r == (ty@ == LlvmShape::Integer(1)),
{
    match ty {
        LlvmType::Integer(width) => *width == 1,
        _ => false,
    }
}

/// Why the bytes of a `from` value cannot be read back as a `to` value, if so.
pub open spec fn memory_transmute_defect(from: LlvmShape, to: LlvmShape) -> Option<LowerError> {
    match (size_align(from), size_align(to)) {
        (Some((source, _)), Some((target, _))) => if source != target {
            Some(LowerError::TransmuteSize { source, target })
        } else if is_aggregate(from) && from != to && !byte_faithful(from) {
            Some(LowerError::TransmuteNotByteFaithful)
        } else {
            None
        },
        _ => Some(LowerError::TransmuteLayout),
    }
}

/// Stores a value and loads its bytes back as type `to`. The slot has the wider
/// of the two alignments, and a `bool` crosses memory as its byte.
pub open spec fn transmuted_in_memory(b: Body, v: Value, to: LlvmShape) -> (
    Body,
    Result<Value, LowerError>,
) {
    let from = value_type(b, v);
    let byte = LlvmShape::Integer(8);
    match memory_transmute_defect(from, to) {
        Some(e) => (b, Err(e)),
        None => {
            let from_align = size_align(from)->Some_0.1;
            let to_align = size_align(to)->Some_0.1;
            let align = Some(
                (if from_align >= to_align {
                    from_align
                } else {
                    to_align
                }) as u32,
            );
            let from_bool = from == LlvmShape::Integer(1);
            let to_bool = to == LlvmShape::Integer(1);
            let (b1, stored) = if from_bool {
                with_cast(b, CastOp::ZExt, v, byte)
            } else {
                (b, v)
            };
            let (b2, slot) = with_stack_slot(
                b1,
                if from_bool {
                    byte
                } else {
                    from
                },
                64,
                align,
            );
            let b3 = with_store(b2, stored, slot, align);
            let (b4, loaded) = with_load(
                b3,
                slot,
                if to_bool {
                    byte
                } else {
                    to
                },
                align,
            );
            if to_bool {
                let (b5, r) = with_cast(b4, CastOp::Trunc, loaded, to);
                (b5, Ok(r))
            } else {
                (b4, Ok(loaded))
            }
        },
    }
}

/// Reinterprets a value of equal size through an aligned stack slot.
///
/// LLVM's `bitcast` is not defined for aggregates. A size mismatch is an error,
/// and so is a source whose undefined bytes the destination would read.
fn emit_transmute_via_memory(b: &mut Builder, v: Value, to: LlvmType) -> (r: Result<
    Value,
    LowerError,
>)
    requires
        valid(old(b)@, v),
    ensures
        (final(b)@, r) == transmuted_in_memory(old(b)@, v, to@),
        extends(old(b)@, final(b)@),
        r is Ok ==> valid(final(b)@, r->Ok_0),
{
    let from = b.value_type(v).duplicate();
    let (source, from_align): (u64, u64) = match llvm_type_size_align(&from) {
        None => {
            return Err(LowerError::TransmuteLayout);
        },
        Some(sa) => sa,
    };
    let (target, to_align): (u64, u64) = match llvm_type_size_align(&to) {
        None => {
            return Err(LowerError::TransmuteLayout);
        },
        Some(sa) => sa,
    };
    if source != target {
        return Err(LowerError::TransmuteSize { source, target });
    }
    if type_is_aggregate(&from) && !from.same_type(&to) && !llvm_type_is_byte_faithful(&from) {
        return Err(LowerError::TransmuteNotByteFaithful);
    }
    let widest: u64 = if from_align >= to_align {
        from_align
    } else {
        to_align
    };
    let align: Option<u32> = Some(widest as u32);
    let from_bool: bool = type_is_bool(&from);
    let to_bool: bool = type_is_bool(&to);
    let ghost b0 = b@;
    let stored = if from_bool {
        b.cast(CastOp::ZExt, v, LlvmType::Integer(8))
    } else {
        v
    };
    let ghost b1 = b@;
    let slot = b.stack_slot(
        if from_bool {
            LlvmType::Integer(8)
        } else {
            from
        },
        64,
        align,
    );
    let ghost b2 = b@;
    b.store(stored, slot, align);
    let ghost b3 = b@;
    proof {
        lemma_extends_transitive(b0, b1, b2);
        lemma_extends_transitive(b0, b2, b3);
    }
    if to_bool {
        let loaded = b.load(slot, LlvmType::Integer(8), align);
        let ghost b4 = b@;
        let r = b.cast(CastOp::Trunc, loaded, to);
        proof {
            lemma_extends_transitive(b0, b3, b4);
            lemma_extends_transitive(b0, b4, b@);
        }
        Ok(r)
    } else {
        let loaded = b.load(slot, to, align);
        proof {
            lemma_extends_transitive(b0, b3, b@);
        }
        Ok(loaded)
    }
}

// ---------------------------------------------------------------------------
// Transmute
// ---------------------------------------------------------------------------

/// Bits of a scalar type.
pub open spec fn scalar_bits(ty: LlvmShape) -> Option<u32> {
    match ty {
        LlvmShape::Integer(width) => Some(width),
        LlvmShape::Half => Some(16),
        LlvmShape::Float => Some(32),
        LlvmShape::Double => Some(64),
        LlvmShape::Pointer(_) => Some(64),
        _ => match size_align(ty) {
            None => None,
            Some((bytes, _)) => if bytes * 8 <= u32::MAX {
                Some((bytes * 8) as u32)
            } else {
                None
            },
        },
    }
}

fn scalar_bit_width(ty: &LlvmType) -> (r: Option<u32>)
    ensures
        r == scalar_bits(ty@),
{
    match ty {
        LlvmType::Integer(width) => Some(*width),
        LlvmType::Half => Some(16),
        LlvmType::Float => Some(32),
        LlvmType::Double => Some(64),
        LlvmType::Pointer(_) => Some(64),
        _ => match llvm_type_size_align(ty) {
            None => None,
            Some((bytes, _)) => {
                if bytes <= (u32::MAX / 8) as u64 {
                    Some((bytes * 8) as u32)
                } else {
                    None
                }
            },
        },
    }
}

/// Reinterprets scalar `v`, both sides having the same bits.
pub open spec fn transmuted_scalar(b: Body, v: Value, to: LlvmShape, bits: u32) -> (Body, Value) {
    match (value_type(b, v), to) {
        (LlvmShape::Pointer(s), LlvmShape::Pointer(d)) => with_cast(
            b,
            if s != d {
                CastOp::AddrSpaceCast
            } else {
                CastOp::Bitcast
            },
            v,
            to,
        ),
        (LlvmShape::Integer(_), LlvmShape::Pointer(_)) => int_to_ptr(b, v, to),
        (LlvmShape::Pointer(_), _) => {
            let (b1, word) = with_cast(b, CastOp::PtrToInt, v, LlvmShape::Integer(bits));
            with_cast(b1, CastOp::Bitcast, word, to)
        },
        (_, LlvmShape::Pointer(_)) => {
            let (b1, word) = with_cast(b, CastOp::Bitcast, v, LlvmShape::Integer(bits));
            int_to_ptr(b1, word, to)
        },
        _ => with_cast(b, CastOp::Bitcast, v, to),
    }
}

/// Bytes of a pointer.
pub const POINTER_BYTES: u64 = 8;

/// Reinterprets a value as type `to`, without giving meaning to the fields of
/// aggregates.
///
/// Both types have the same size. The address of a pointer is its generic
/// address. Shared-memory pointers have no target-independent bytes and are
/// refused elsewhere.
pub open spec fn transmuted(b: Body, v: Value, to: LlvmShape) -> (Body, Result<Value, LowerError>) {
    let from = value_type(b, v);
    let target = size_align(to)->Some_0.0;
    if from is Pointer && to is Integer {
        if target == POINTER_BYTES {
            let (c, r) = ptr_to_int(b, v, to);
            (c, Ok(r))
        } else {
            (b, Err(LowerError::TransmuteSize { source: POINTER_BYTES, target }))
        }
    } else if contains_leaf(from, LeafKind::PointerIn(SHARED)) || contains_leaf(
        to,
        LeafKind::PointerIn(SHARED),
    ) {
        (b, Err(LowerError::TransmuteShared))
    } else {
        match (size_align(from), size_align(to)) {
            (Some((source, _)), Some(_)) => if source != target {
                (b, Err(LowerError::TransmuteSize { source, target }))
            } else if is_aggregate(from) || is_aggregate(to) {
                transmuted_in_memory(b, v, to)
            } else {
                match (scalar_bits(from), scalar_bits(to)) {
                    (Some(m), Some(n)) => if m == n {
                        let (c, r) = transmuted_scalar(b, v, to, m);
                        (c, Ok(r))
                    } else if from == LlvmShape::Integer(1) && to == LlvmShape::Integer(8) {
                        let (c, r) = with_cast(b, CastOp::ZExt, v, to);
                        (c, Ok(r))
                    } else if from == LlvmShape::Integer(8) && to == LlvmShape::Integer(1) {
                        let (c, r) = with_cast(b, CastOp::Trunc, v, to);
                        (c, Ok(r))
                    } else {
                        transmuted_in_memory(b, v, to)
                    },
                    _ => (b, Err(LowerError::TransmuteScalar)),
                }
            },
            _ => (b, Err(LowerError::TransmuteLayout)),
        }
    }
}

fn emit_transmute_scalar(b: &mut Builder, v: Value, to: LlvmType, bits: u32) -> (r: Value)
    requires
        valid(old(b)@, v),
    ensures
        (final(b)@, r) == transmuted_scalar(old(b)@, v, to@, bits),
        extends(old(b)@, final(b)@),
        valid(final(b)@, r),
{
    let ghost b0 = b@;
    let from_space: Option<u32> = match b.value_type(v) {
        LlvmType::Pointer(space) => Some(*space),
        _ => None,
    };
    let from_int: bool = match b.value_type(v) {
        LlvmType::Integer(_) => true,
        _ => false,
    };
    let to_space: Option<u32> = match &to {
        LlvmType::Pointer(space) => Some(*space),
        _ => None,
    };
    match (from_space, to_space) {
        (Some(s), Some(d)) => {
            if s != d {
                b.cast(CastOp::AddrSpaceCast, v, to)
            } else {
                b.cast(CastOp::Bitcast, v, to)
            }
        },
        (Some(_), None) => {
            let word = b.cast(CastOp::PtrToInt, v, LlvmType::Integer(bits));
            let ghost b1 = b@;
            let r = b.cast(CastOp::Bitcast, word, to);
            proof {
                lemma_extends_transitive(b0, b1, b@);
            }
            r
        },
        (None, Some(_)) => {
            if from_int {
                return emit_int_to_ptr(b, v, to);
            }
            let word = b.cast(CastOp::Bitcast, v, LlvmType::Integer(bits));
            let ghost b1 = b@;
            let r = emit_int_to_ptr(b, word, to);
            proof {
                lemma_extends_transitive(b0, b1, b@);
            }
            r
        },
        (None, None) => b.cast(CastOp::Bitcast, v, to),
    }
}

/// Lowers a `transmute`.
fn emit_transmute(b: &mut Builder, v: Value, to: LlvmType) -> (r: Result<Value, LowerError>)
    requires
        valid(old(b)@, v),
    ensures
        (final(b)@, r) == transmuted(old(b)@, v, to@),
        extends(old(b)@, final(b)@),
        r is Ok ==> valid(final(b)@, r->Ok_0),
{
    let from = b.value_type(v).duplicate();
    let from_ptr: bool = match &from {
        LlvmType::Pointer(_) => true,
        _ => false,
    };
    if let LlvmType::Integer(width) = &to {
        if from_ptr {
            let target: u64 = (*width as u64 + 7) / 8;
            if target != POINTER_BYTES {
                return Err(LowerError::TransmuteSize { source: POINTER_BYTES, target });
            }
            return Ok(emit_ptr_to_int(b, v, to));
        }
    }
    if llvm_type_contains_pointer_in_address_space(&from, SHARED)
        || llvm_type_contains_pointer_in_address_space(&to, SHARED) {
        return Err(LowerError::TransmuteShared);
    }
    let source: u64 = match llvm_type_size_align(&from) {
        None => {
            return Err(LowerError::TransmuteLayout);
        },
        Some((size, _)) => size,
    };
    let target: u64 = match llvm_type_size_align(&to) {
        None => {
            return Err(LowerError::TransmuteLayout);
        },
        Some((size, _)) => size,
    };
    if source != target {
        return Err(LowerError::TransmuteSize { source, target });
    }
    if type_is_aggregate(&from) || type_is_aggregate(&to) {
        return emit_transmute_via_memory(b, v, to);
    }
    match (scalar_bit_width(&from), scalar_bit_width(&to)) {
        (Some(m), Some(n)) => {
            if m == n {
                return Ok(emit_transmute_scalar(b, v, to, m));
            }
            match (&from, &to) {
                (LlvmType::Integer(x), LlvmType::Integer(y)) => {
                    if *x == 1 && *y == 8 {
                        return Ok(b.cast(CastOp::ZExt, v, to));
                    }
                    if *x == 8 && *y == 1 {
                        return Ok(b.cast(CastOp::Trunc, v, to));
                    }
                },
                _ => {},
            }
            emit_transmute_via_memory(b, v, to)
        },
        _ => Err(LowerError::TransmuteScalar),
    }
}

/// A transmute succeeds only between types of equal size.
pub proof fn law_transmute_keeps_size(b: Body, v: Value, to: LlvmShape)
    requires
        transmuted(b, v, to).1 is Ok,
    ensures
        size_align(value_type(b, v)) is Some,
        size_align(to) is Some,
        size_align(value_type(b, v))->Some_0.0 == size_align(to)->Some_0.0,
{
}

// ---------------------------------------------------------------------------
// Pointer casts
// ---------------------------------------------------------------------------

/// Casts between pointers, fat pointers and what stands for them: a fat pointer
/// becomes thin by its first field, and a thin one becomes the first field of a
/// fat one.
pub open spec fn pointer_cast(b: Body, v: Value, to: LlvmShape) -> (Body, Result<Value, LowerError>) {
    let from = value_type(b, v);
    if from is Struct && to is Pointer {
        with_extract(b, v, 0)
    } else if from is Pointer && to is Struct {
        let (b1, start) = with_undef(b, to);
        let (b2, r) = with_insert(b1, start, v, 0);
        (b2, Ok(r))
    } else if from is Pointer && to is Integer {
        let (c, r) = ptr_to_int(b, v, to);
        (c, Ok(r))
    } else if from is Integer && to is Pointer {
        let (c, r) = int_to_ptr(b, v, to);
        (c, Ok(r))
    } else if from is Struct && to is Struct {
        transmuted_in_memory(b, v, to)
    } else if from is Pointer && to is Pointer {
        let (c, r) = with_cast(
            b,
            if from != to {
                CastOp::AddrSpaceCast
            } else {
                CastOp::Bitcast
            },
            v,
            to,
        );
        (c, Ok(r))
    } else if (from is Integer && to is Struct) || (from is Struct && to is Integer)
        || from is Array || to is Array {
        transmuted_in_memory(b, v, to)
    } else {
        let (c, r) = with_cast(b, CastOp::Bitcast, v, to);
        (c, Ok(r))
    }
}

/// Whether a type is, in this order, a struct, a pointer, an integer, an array.
fn type_class(ty: &LlvmType) -> (r: (bool, bool, bool, bool))
    ensures
        r == (ty@ is Struct, ty@ is Pointer, ty@ is Integer, ty@ is Array),
{
    match ty {
        LlvmType::Struct(_) => (true, false, false, false),
        LlvmType::Pointer(_) => (false, true, false, false),
        LlvmType::Integer(_) => (false, false, true, false),
        LlvmType::Array(_, _) => (false, false, false, true),
        _ => (false, false, false, false),
    }
}

fn emit_pointer_cast(b: &mut Builder, v: Value, to: LlvmType) -> (r: Result<Value, LowerError>)
    requires
        valid(old(b)@, v),
    ensures
        (final(b)@, r) == pointer_cast(old(b)@, v, to@),
        extends(old(b)@, final(b)@),
        r is Ok ==> valid(final(b)@, r->Ok_0),
{
    let from = b.value_type(v).duplicate();
    let (from_struct, from_ptr, from_int, from_array): (bool, bool, bool, bool) = type_class(
        &from,
    );
    let (to_struct, to_ptr, to_int, to_array): (bool, bool, bool, bool) = type_class(&to);
    if from_struct && to_ptr {
        b.extract(v, 0)
    } else if from_ptr && to_struct {
        let ghost b0 = b@;
        let start = b.undef(to);
        let ghost b1 = b@;
        let r = b.insert(start, v, 0);
        proof {
            lemma_extends_transitive(b0, b1, b@);
        }
        Ok(r)
    } else if from_ptr && to_int {
        Ok(emit_ptr_to_int(b, v, to))
    } else if from_int && to_ptr {
        Ok(emit_int_to_ptr(b, v, to))
    } else if from_struct && to_struct {
        emit_transmute_via_memory(b, v, to)
    } else if from_ptr && to_ptr {
        if !from.same_type(&to) {
            Ok(b.cast(CastOp::AddrSpaceCast, v, to))
        } else {
            Ok(b.cast(CastOp::Bitcast, v, to))
        }
    } else if (from_int && to_struct) || (from_struct && to_int) || from_array || to_array {
        emit_transmute_via_memory(b, v, to)
    } else {
        Ok(b.cast(CastOp::Bitcast, v, to))
    }
}

/// The element count that unsizing a pointer of type `t` records: that of the
/// array it points to, or of the array that is the last field in memory of the
/// struct it points to.
pub open spec fn unsized_length(t: MirType) -> Option<u64> {
    match t {
        MirType::Ptr(p) => match *p.pointee {
            MirType::Array(_, n) => Some(n),
            MirType::Struct(s) => {
                let n = s.field_types@.len();
                let order = memory_order(s.mem_to_decl@, n);
                if order.len() > 0 && order[order.len() - 1] < n {
                    match s.field_types@[order[order.len() - 1] as int] {
                        MirType::Array(_, size) => Some(size),
                        _ => None,
                    }
                } else {
                    None
                }
            },
            _ => None,
        },
        _ => None,
    }
}

fn unsized_array_length(t: &MirType) -> (r: Option<u64>)
    ensures
        r == unsized_length(*t),
{
    match t {
        MirType::Ptr(p) => match &*p.pointee {
            MirType::Array(_, n) => Some(*n),
            MirType::Struct(s) => {
                let n: usize = s.field_types.len();
                let order = expand_memory_order(&s.mem_to_decl, n);
                if order.len() == 0 {
                    return None;
                }
                let last: usize = order[order.len() - 1];
                if last >= n {
                    return None;
                }
                match &s.field_types[last] {
                    MirType::Array(_, size) => Some(*size),
                    _ => None,
                }
            },
            _ => None,
        },
        _ => None,
    }
}

/// The newest type that a value had before gives the length to unsize with.
pub open spec fn recorded_length(history: Seq<MirType>) -> Option<u64> {
    if history.len() > 0 {
        unsized_length(history[history.len() - 1])
    } else {
        None
    }
}

/// Unsizes a pointer to an array: a fat pointer of it and the array's length.
/// Other coercions are pointer casts.
pub open spec fn unsize_cast(b: Body, v: Value, history: Seq<MirType>, to: LlvmShape) -> (
    Body,
    Result<Value, LowerError>,
) {
    if recorded_length(history) is Some && to is Struct {
        let field_space = match element_type(to, 0) {
            Some(LlvmShape::Pointer(space)) => Some(space),
            _ => None,
        };
        let (b1, data) = match (value_type(b, v), field_space) {
            (LlvmShape::Pointer(s), Some(d)) => if s != d {
                with_cast(b, CastOp::AddrSpaceCast, v, LlvmShape::Pointer(d))
            } else {
                (b, v)
            },
            _ => (b, v),
        };
        let (b2, start) = with_undef(b1, to);
        let (b3, with_data) = with_insert(b2, start, data, 0);
        let (b4, len) = with_constant(b3, 64, recorded_length(history)->Some_0 as u128);
        let (b5, r) = with_insert(b4, with_data, len, 1);
        (b5, Ok(r))
    } else {
        pointer_cast(b, v, to)
    }
}

fn emit_unsize_cast(b: &mut Builder, v: Value, history: &Vec<MirType>, to: LlvmType) -> (r: Result<
    Value,
    LowerError,
>)
    requires
        valid(old(b)@, v),
    ensures
        (final(b)@, r) == unsize_cast(old(b)@, v, history@, to@),
        extends(old(b)@, final(b)@),
        r is Ok ==> valid(final(b)@, r->Ok_0),
{
    let length: Option<u64> = if history.len() > 0 {
        unsized_array_length(&history[history.len() - 1])
    } else {
        None
    };
    let (len, field_space): (u64, Option<u32>) = match (length, &to) {
        (Some(len), LlvmType::Struct(fields)) => {
            proof {
                LlvmType::lemma_struct_view(*fields);
            }
            if fields.len() > 0 {
                assert(shapes(fields@)[0] == fields@[0]@);
                match &fields[0] {
                    LlvmType::Pointer(space) => (len, Some(*space)),
                    _ => (len, None),
                }
            } else {
                (len, None)
            }
        },
        _ => {
            return emit_pointer_cast(b, v, to);
        },
    };
    let value_space: Option<u32> = match b.value_type(v) {
        LlvmType::Pointer(space) => Some(*space),
        _ => None,
    };
    let ghost b0 = b@;
    let data = match (value_space, field_space) {
        (Some(s), Some(d)) => {
            if s != d {
                b.cast(CastOp::AddrSpaceCast, v, LlvmType::Pointer(d))
            } else {
                v
            }
        },
        _ => v,
    };
    let ghost b1 = b@;
    let start = b.undef(to);
    let ghost b2 = b@;
    let with_data = b.insert(start, data, 0);
    let ghost b3 = b@;
    let count = b.constant(64, len as u128);
    let ghost b4 = b@;
    proof {
        lemma_extends_transitive(b0, b1, b2);
        lemma_extends_transitive(b0, b2, b3);
        lemma_extends_transitive(b0, b3, b4);
        lemma_extends_value(b3, b4, with_data);
    }
    let r = b.insert(with_data, count, 1);
    proof {
        lemma_extends_transitive(b0, b4, b@);
    }
    Ok(r)
}

// ---------------------------------------------------------------------------
// Dispatch
// ---------------------------------------------------------------------------

/// The cast of `v` to the LLVM type `to` of the Rust-level type `result`.
pub open spec fn cast_to(
    b: Body,
    v: Value,
    history: Seq<MirType>,
    kind: CastKind,
    result: MirType,
    to: LlvmShape,
) -> (Body, Result<Value, LowerError>) {
    match kind {
        CastKind::Transmute => transmuted(b, v, to),
        CastKind::IntToInt => int_to_int(b, v, history, to),
        CastKind::IntToFloat => int_to_float(b, v, history, to),
        CastKind::FloatToInt => float_to_int(b, v, result, to),
        CastKind::FloatToFloat => float_to_float(b, v, to),
        CastKind::PointerCoercionUnsize => unsize_cast(b, v, history, to),
        CastKind::PointerExposeAddress => {
            let (c, r) = ptr_to_int(b, v, to);
            (c, Ok(r))
        },
        CastKind::PointerWithExposedProvenance => {
            let (c, r) = int_to_ptr(b, v, to);
            (c, Ok(r))
        },
        _ => pointer_cast(b, v, to),
    }
}

/// The lowering of a cast operation.
pub open spec fn cast(
    b: Body,
    operands: Seq<Value>,
    history: Seq<MirType>,
    kind: Option<CastKind>,
    result: MirType,
) -> (Body, Result<Value, LowerError>) {
    if operands.len() != 1 {
        (b, Err(LowerError::CastOperands { operands: operands.len() as usize }))
    } else {
        match kind {
            None => (b, Err(LowerError::CastKindMissing)),
            Some(k) => match lowered(result) {
                Err(e) => (b, Err(e)),
                Ok(to) => cast_to(b, operands[0], history, k, result, to),
            },
        }
    }
}

/// Lowers a cast operation. `history` lists the types that the operand had
/// before, newest last.
pub fn convert(
    b: &mut Builder,
    operands: &Vec<Value>,
    history: &Vec<MirType>,
    kind: Option<CastKind>,
    result_ty: &MirType,
) -> (r: Result<Value, LowerError>)
    requires
        forall|i: int| 0 <= i < operands@.len() ==> valid(old(b)@, #[trigger] operands@[i]),
    ensures
        (final(b)@, r) == cast(old(b)@, operands@, history@, kind, *result_ty),
        extends(old(b)@, final(b)@),
        r is Ok ==> valid(final(b)@, r->Ok_0),
{
    if operands.len() != 1 {
        return Err(LowerError::CastOperands { operands: operands.len() });
    }
    let v = operands[0];
    assert(valid(b@, operands@[0]));
    let k: CastKind = match kind {
        None => {
            return Err(LowerError::CastKindMissing);
        },
        Some(k) => k,
    };
    let to = match convert_type(result_ty) {
        Err(e) => {
            return Err(e);
        },
        Ok(to) => to,
    };
    match k {
        CastKind::Transmute => emit_transmute(b, v, to),
        CastKind::IntToInt => convert_int_to_int(b, v, history, to),
        CastKind::IntToFloat => convert_int_to_float(b, v, history, to),
        CastKind::FloatToInt => convert_float_to_int(b, v, result_ty, to),
        CastKind::FloatToFloat => convert_float_to_float(b, v, to),
        CastKind::PointerCoercionUnsize => emit_unsize_cast(b, v, history, to),
        CastKind::PointerExposeAddress => Ok(emit_ptr_to_int(b, v, to)),
        CastKind::PointerWithExposedProvenance => Ok(emit_int_to_ptr(b, v, to)),
        _ => emit_pointer_cast(b, v, to),
    }
}

} // verus!
