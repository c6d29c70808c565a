//! What types are lowered to, and how much memory they take.

use crate::address_laws::declared_slots;
use crate::collect::{all_ok, lemma_all_ok_succeeds, lemma_all_ok_values};
use crate::error::LowerError;
use crate::layout::{
    align_up, field_at, field_bytes, is_align, lemma_align_up, lemma_is_align, lemma_prefix_align,
    lemma_struct_size_align, natural_offset, prefix_extent, size_align, size_aligns, sum_bytes,
    type_bytes,
};
use crate::llvm::{LlvmShape, GENERIC};
use crate::mir::{memory_order, MirStructType, MirTupleType, MirType, Signedness};
use crate::signature_laws::stands_at;
use crate::storage::{byte_faithful, starts_at_end, zero_sized};
use crate::struct_slots::{
    explicit_layout, is_field_permutation, law_struct_slots_keep_offsets, naturally_placed,
    place_fields, stored_size, struct_slots,
};
use crate::types::{lowered, lowered_all};
use crate::values::{byte_size, lemma_field_place};
use vstd::prelude::*;

verus! {

// ---------------------------------------------------------------------------
// Lowering
// ---------------------------------------------------------------------------

/// Numbers keep their width, pointers their address space, and arrays and vectors their
/// length. A slice is a generic pointer and a count of 64 bits. What has no LLVM equivalent
/// is refused, and so are arrays and vectors of it.
pub proof fn law_scalars_are_lowered_as_they_are(
    t: MirType,
    width: u32,
    sign: Signedness,
    elem: MirType,
    n: u64,
    count: u32,
    scalable: bool,
)
    ensures
        lowered(MirType::Integer(width, sign)) == Ok::<LlvmShape, LowerError>(
            LlvmShape::Integer(width),
        ),
        lowered(MirType::Fp16) == Ok::<LlvmShape, LowerError>(LlvmShape::Half),
        lowered(MirType::Fp32) == Ok::<LlvmShape, LowerError>(LlvmShape::Float),
        lowered(MirType::Fp64) == Ok::<LlvmShape, LowerError>(LlvmShape::Double),
        t matches MirType::Ptr(p) ==> lowered(t) == Ok::<LlvmShape, LowerError>(
            LlvmShape::Pointer(p.address_space),
        ),
        lowered(MirType::Slice(Box::new(elem))) == Ok::<LlvmShape, LowerError>(
            LlvmShape::Struct(seq![LlvmShape::Pointer(GENERIC), LlvmShape::Integer(64)]),
        ),
        lowered(MirType::Array(Box::new(elem), n)) is Ok <==> lowered(elem) is Ok,
        lowered(elem) is Ok ==> lowered(MirType::Array(Box::new(elem), n))->Ok_0
            == LlvmShape::Array(Box::new(lowered(elem)->Ok_0), n),
        lowered(MirType::Vector(Box::new(elem), count, scalable)) is Ok <==> lowered(elem) is Ok,
        lowered(elem) is Ok ==> lowered(MirType::Vector(Box::new(elem), count, scalable))->Ok_0
            == LlvmShape::Vector(Box::new(lowered(elem)->Ok_0), count, scalable),
        t is Opaque || t is Enclosing ==> lowered(t) is Err,
{
}

/// A slice of uniquely owned elements is a generic pointer, a count of 64 bits and what its
/// index space holds.
pub proof fn law_disjoint_slices_carry_their_space(
    d: crate::mir::MirDisjointSliceType,
    spaces: Seq<LlvmShape>,
)
    requires
        spaces.len() == d.space_tys@.len(),
        forall|i: int|
            0 <= i < spaces.len() ==> stands_at(d.space_tys@, i, #[trigger] spaces[i]),
    ensures
        lowered(MirType::DisjointSlice(d)) == Ok::<LlvmShape, LowerError>(
            LlvmShape::Struct(
                seq![LlvmShape::Pointer(GENERIC), LlvmShape::Integer(64)] + spaces,
            ),
        ),
{
    lemma_all_lowered(d.space_tys@, spaces);
}

pub proof fn lemma_all_lowered(fields: Seq<MirType>, types: Seq<LlvmShape>)
    requires
        types.len() == fields.len(),
        forall|i: int| 0 <= i < types.len() ==> stands_at(fields, i, #[trigger] types[i]),
    ensures
        all_ok(lowered_all(fields)) == Ok::<Seq<LlvmShape>, LowerError>(types),
{
    let found = lowered_all(fields);
    assert forall|i: int| 0 <= i < found.len() implies #[trigger] found[i] is Ok by {
        assert(stands_at(fields, i, types[i]));
        assert(found[i] == lowered(fields[i]));
    }
    lemma_all_ok_succeeds(found, found.len() as int);
    lemma_all_ok_values(found, found.len() as int);
    let values = all_ok(found)->Ok_0;
    assert forall|i: int| 0 <= i < types.len() implies #[trigger] values[i] == types[i] by {
        assert(stands_at(fields, i, types[i]));
        assert(found[i] is Ok);
        assert(found[i] == lowered(fields[i]));
    }
    assert(values =~= types);
}

/// The types of the fields of a struct in memory order.
pub open spec fn in_order(types: Seq<LlvmShape>, order: Seq<usize>) -> Seq<LlvmShape> {
    Seq::new(order.len(), |i: int| types[order[i] as int])
}

proof fn lemma_plain_places(
    fields: Seq<MirType>,
    types: Seq<LlvmShape>,
    order: Seq<usize>,
    offsets: Seq<u64>,
    total_size: u64,
    k: int,
)
    requires
        0 <= k <= order.len(),
        !explicit_layout(offsets, total_size),
    ensures
        ({
            let r = place_fields(fields, types, order, offsets, total_size, k);
            &&& r is Ok
            &&& r->Ok_0.fields == in_order(types, order).take(k).filter(
                |t: LlvmShape| !zero_sized(t),
            )
            &&& r->Ok_0.fields.len() <= k
        }),
    decreases k,
{
    reveal(Seq::filter);
    let all = in_order(types, order);
    if k > 0 {
        lemma_plain_places(fields, types, order, offsets, total_size, k - 1);
        assert(all.take(k).drop_last() =~= all.take(k - 1));
        assert(all.take(k).last() == types[order[k - 1] as int]);
    } else {
        assert(all.take(0) =~= Seq::empty());
    }
}

/// A struct or tuple whose bytes rustc did not give is a struct of its fields in memory
/// order, without those that take no bytes.
pub proof fn law_plain_structs_keep_their_fields(s: MirStructType, types: Seq<LlvmShape>)
    requires
        !explicit_layout(s.field_offsets@, s.total_size),
        types.len() == s.field_types@.len() <= u32::MAX,
        forall|i: int|
            0 <= i < types.len() ==> stands_at(s.field_types@, i, #[trigger] types[i]),
        is_field_permutation(
            memory_order(s.mem_to_decl@, s.field_types@.len()),
            s.field_types@.len(),
        ),
    ensures
        lowered(MirType::Struct(s)) == Ok::<LlvmShape, LowerError>(
            LlvmShape::Struct(
                in_order(types, memory_order(s.mem_to_decl@, s.field_types@.len())).filter(
                    |t: LlvmShape| !zero_sized(t),
                ),
            ),
        ),
{
    let order = memory_order(s.mem_to_decl@, s.field_types@.len());
    lemma_all_lowered(s.field_types@, types);
    lemma_plain_places(
        s.field_types@,
        types,
        order,
        s.field_offsets@,
        s.total_size,
        order.len() as int,
    );
    assert(in_order(types, order).take(order.len() as int) =~= in_order(types, order));
}

/// The same of a tuple.
pub proof fn law_plain_tuples_keep_their_fields(s: MirTupleType, types: Seq<LlvmShape>)
    requires
        !explicit_layout(s.field_offsets@, s.total_size),
        types.len() == s.types@.len() <= u32::MAX,
        forall|i: int| 0 <= i < types.len() ==> stands_at(s.types@, i, #[trigger] types[i]),
        is_field_permutation(memory_order(s.mem_to_decl@, s.types@.len()), s.types@.len()),
    ensures
        lowered(MirType::Tuple(s)) == Ok::<LlvmShape, LowerError>(
            LlvmShape::Struct(
                in_order(types, memory_order(s.mem_to_decl@, s.types@.len())).filter(
                    |t: LlvmShape| !zero_sized(t),
                ),
            ),
        ),
{
    let order = memory_order(s.mem_to_decl@, s.types@.len());
    lemma_all_lowered(s.types@, types);
    lemma_plain_places(
        s.types@,
        types,
        order,
        s.field_offsets@,
        s.total_size,
        order.len() as int,
    );
    assert(in_order(types, order).take(order.len() as int) =~= in_order(types, order));
}

/// Placing fields where rustc did succeeds where LLVM can place them there.
proof fn lemma_natural_places(
    fields: Seq<MirType>,
    types: Seq<LlvmShape>,
    order: Seq<usize>,
    offsets: Seq<u64>,
    total_size: u64,
    k: int,
)
    requires
        0 <= k <= order.len(),
        explicit_layout(offsets, total_size),
        naturally_placed(fields, types, order, offsets, total_size),
        is_field_permutation(order, types.len()),
    ensures
        ({
            let r = place_fields(fields, types, order, offsets, total_size, k);
            &&& r is Ok
            &&& r->Ok_0.fields.len() <= 2 * k
            &&& 0 <= r->Ok_0.offset <= total_size
            &&& forall|q: int|
                k <= q < order.len() && !zero_sized(types[#[trigger] order[q] as int])
                    ==> r->Ok_0.offset <= offsets[order[q] as int]
        }),
    decreases k,
{
    if k > 0 {
        lemma_natural_places(fields, types, order, offsets, total_size, k - 1);
        let p = place_fields(fields, types, order, offsets, total_size, k - 1)->Ok_0;
        let d = order[k - 1] as int;
        assert(order[k - 1] < types.len());
        if !zero_sized(types[d]) {
            assert(p.offset <= offsets[d]);
            let r = place_fields(fields, types, order, offsets, total_size, k);
            assert forall|q: int|
                k <= q < order.len() && !zero_sized(types[#[trigger] order[q] as int]) implies
                r->Ok_0.offset <= offsets[order[q] as int] by {
                assert(offsets[order[k - 1] as int] + size_align(
                    types[order[k - 1] as int],
                )->Some_0.0 <= offsets[order[q] as int]);
            }
        }
    }
}

/// A struct or tuple whose bytes rustc gave has slots where LLVM can place its fields
/// there: each field that takes bytes stands at its byte, and the whole ends at rustc's
/// size.
pub proof fn law_placed_fields_have_slots(t: MirType, types: Seq<LlvmShape>)
    requires
        ({
            let (fields, order, offsets, size) = match t {
                MirType::Struct(s) => (
                    s.field_types@,
                    memory_order(s.mem_to_decl@, s.field_types@.len()),
                    s.field_offsets@,
                    s.total_size,
                ),
                MirType::Tuple(s) => (
                    s.types@,
                    memory_order(s.mem_to_decl@, s.types@.len()),
                    s.field_offsets@,
                    s.total_size,
                ),
                _ => (Seq::empty(), Seq::empty(), Seq::empty(), 0),
            };
            &&& t is Struct || t is Tuple
            &&& types.len() == fields.len() < 0x4000_0000
            &&& forall|i: int|
                0 <= i < types.len() ==> stands_at(fields, i, #[trigger] types[i])
            &&& is_field_permutation(order, fields.len())
            &&& explicit_layout(offsets, size)
            &&& offsets.len() == fields.len()
            &&& naturally_placed(fields, types, order, offsets, size)
        }),
    ensures
        ({
            let (offsets, size) = match t {
                MirType::Struct(s) => (s.field_offsets@, s.total_size),
                MirType::Tuple(s) => (s.field_offsets@, s.total_size),
                _ => (Seq::empty(), 0),
            };
            let slots = declared_slots(t)->Ok_0;
            let extent = prefix_extent(size_aligns(slots.fields), slots.fields.len() as int);
            &&& declared_slots(t) is Ok
            &&& lowered(t) == Ok::<LlvmShape, LowerError>(LlvmShape::Struct(slots.fields))
            &&& extent is Some
            &&& extent->Some_0.0 == size
            &&& forall|d: int|
                0 <= d < types.len() && !zero_sized(#[trigger] types[d]) ==> {
                    &&& slots.decl_to_llvm[d] is Some
                    &&& field_at(
                        slots.fields,
                        slots.decl_to_llvm[d]->Some_0 as int,
                        types[d],
                        offsets[d] as int,
                    )
                }
        }),
{
    let (fields, order, offsets, size) = match t {
        MirType::Struct(s) => (
            s.field_types@,
            memory_order(s.mem_to_decl@, s.field_types@.len()),
            s.field_offsets@,
            s.total_size,
        ),
        MirType::Tuple(s) => (
            s.types@,
            memory_order(s.mem_to_decl@, s.types@.len()),
            s.field_offsets@,
            s.total_size,
        ),
        _ => (Seq::empty(), Seq::empty(), Seq::empty(), 0),
    };
    lemma_all_lowered(fields, types);
    lemma_natural_places(fields, types, order, offsets, size, order.len() as int);
    assert(struct_slots(fields, types, order, offsets, size) is Ok);
    law_struct_slots_keep_offsets(fields, types, order, offsets, size);
}

/// A struct or tuple is refused where the facts on its layout contradict each other: its
/// memory order does not name each field once, or there are offsets for more or fewer
/// fields. It is refused where a field is.
pub proof fn law_contradictory_structs_are_refused(s: MirStructType)
    requires
        ({
            let order = memory_order(s.mem_to_decl@, s.field_types@.len());
            ||| !is_field_permutation(order, s.field_types@.len())
            ||| explicit_layout(s.field_offsets@, s.total_size) && s.field_offsets@.len()
                != s.field_types@.len()
            ||| exists|i: int|
                0 <= i < s.field_types@.len() && lowered(#[trigger] s.field_types@[i]) is Err
        }),
    ensures
        lowered(MirType::Struct(s)) is Err,
{
    assert(s.field_types@.len() == s.field_types.len());
    let found = lowered_all(s.field_types@);
    if all_ok(found) is Ok {
        lemma_all_ok_values(found, found.len() as int);
        assert forall|i: int| 0 <= i < s.field_types@.len() implies lowered(
            #[trigger] s.field_types@[i],
        ) is Ok by {
            assert(found[i] is Ok);
        }
    }
}

// ---------------------------------------------------------------------------
// Sizes
// ---------------------------------------------------------------------------

/// An integer takes as many bytes as its bits need and is aligned to the next power of two,
/// up to 16. Floats and pointers have their own size and alignment. An array takes its
/// elements' bytes and is aligned as they are.
pub proof fn law_scalars_take_their_bits(t: LlvmShape, width: u32, elem: LlvmShape, n: u64)
    ensures
        ({
            let integer = LlvmShape::Integer(width);
            let align = size_align(integer)->Some_0.1;
            &&& size_align(integer) is Some
            &&& width <= 8 * byte_size(integer) < width + 8
            &&& is_align(align)
            &&& byte_size(integer) <= align || align == 16
            &&& align == 1 || align < 2 * byte_size(integer)
        }),
        size_align(LlvmShape::Half) == Some((2u64, 2u64)),
        size_align(LlvmShape::Float) == Some((4u64, 4u64)),
        size_align(LlvmShape::Double) == Some((8u64, 8u64)),
        t is Pointer ==> size_align(t) == Some((8u64, 8u64)),
        size_align(LlvmShape::Void) is None,
        ({
            let array = LlvmShape::Array(Box::new(elem), n);
            &&& size_align(array) is Some <==> size_align(elem) is Some && byte_size(elem) * n
                <= u64::MAX
            &&& size_align(array) is Some ==> byte_size(array) == byte_size(elem) * n && size_align(
                array,
            )->Some_0.1 == size_align(elem)->Some_0.1
        }),
{
    if size_align(elem) is Some {
        assert(byte_size(elem) * n >= 0) by (nonlinear_arith)
            requires
                byte_size(elem) >= 0,
        ;
    }
}

/// Only vectors of 16, 32, 64 or 128 bits of numbers or pointers have a layout, and they
/// are aligned to their size.
pub proof fn law_vectors_are_aligned_to_their_size(elem: LlvmShape, count: u32, bits: int)
    requires
        bits == match elem {
            LlvmShape::Integer(width) => width as int,
            LlvmShape::Half => 16,
            LlvmShape::Float => 32,
            LlvmShape::Double => 64,
            LlvmShape::Pointer(_) => 64,
            _ => 0,
        },
        bits > 0,
    ensures
        ({
            let t = LlvmShape::Vector(Box::new(elem), count, false);
            let total = bits * count;
            &&& size_align(t) is Some <==> total == 16 || total == 32 || total == 64 || total == 128
            &&& size_align(t) is Some ==> 8 * byte_size(t) == total && size_align(t)->Some_0.1
                == byte_size(t)
        }),
        size_align(LlvmShape::Vector(Box::new(elem), count, true)) is None,
{
}

/// The fields of a struct stand in order, each at the first byte behind the one before it
/// that its alignment allows; the struct ends behind the last of them, rounded up to the
/// widest alignment among them.
pub proof fn law_fields_follow_each_other(fields: Seq<LlvmShape>, i: int)
    requires
        size_align(LlvmShape::Struct(fields)) is Some,
        0 <= i < fields.len(),
    ensures
        ({
            let (size, align) = size_align(fields[i])->Some_0;
            let at = natural_offset(fields, i);
            let whole = size_align(LlvmShape::Struct(fields))->Some_0;
            let before = if i > 0 {
                natural_offset(fields, i - 1) + byte_size(fields[i - 1])
            } else {
                0
            };
            let end = natural_offset(fields, fields.len() - 1) + byte_size(fields.last());
            &&& size_align(fields[i]) is Some
            &&& before <= at < before + align
            &&& at % align as int == 0
            &&& at + size <= whole.0
            &&& align <= whole.1
            &&& whole.0 as int % whole.1 as int == 0
            &&& end <= whole.0 < end + whole.1
        }),
{
    let parts = size_aligns(fields);
    let n = fields.len() as int;
    lemma_struct_size_align(fields);
    lemma_field_place(fields, i);
    lemma_prefix_parts(fields, i);
    lemma_prefix_parts(fields, n - 1);
    if i > 0 {
        lemma_prefix_parts(fields, i - 1);
        lemma_field_place(fields, i - 1);
    }
    lemma_field_place(fields, n - 1);
    lemma_is_align(fields[i]);
    lemma_is_align(LlvmShape::Struct(fields));
    lemma_align_up(prefix_extent(parts, i)->Some_0.0 as int, size_align(fields[i])->Some_0.1 as int);
    lemma_align_up(
        prefix_extent(parts, n)->Some_0.0 as int,
        size_align(LlvmShape::Struct(fields))->Some_0.1 as int,
    );
    lemma_widest(parts, i, n);
}

proof fn lemma_prefix_parts(fields: Seq<LlvmShape>, i: int)
    requires
        0 <= i < fields.len(),
        prefix_extent(size_aligns(fields), fields.len() as int) is Some,
    ensures
        ({
            let parts = size_aligns(fields);
            &&& prefix_extent(parts, i) is Some
            &&& parts[i] is Some
            &&& prefix_extent(parts, i + 1) is Some
            &&& prefix_extent(parts, i + 1)->Some_0.0 == natural_offset(fields, i) + byte_size(
                fields[i],
            )
        }),
{
    let parts = size_aligns(fields);
    lemma_prefix_some(parts, i + 1, fields.len() as int);
}

proof fn lemma_prefix_some(parts: Seq<Option<(u64, u64)>>, k: int, n: int)
    requires
        0 <= k <= n <= parts.len(),
        prefix_extent(parts, n) is Some,
    ensures
        prefix_extent(parts, k) is Some,
    decreases n - k,
{
    if k < n {
        lemma_prefix_some(parts, k, n - 1);
    }
}

proof fn lemma_widest(parts: Seq<Option<(u64, u64)>>, i: int, k: int)
    requires
        0 <= i < k <= parts.len(),
        prefix_extent(parts, k) is Some,
    ensures
        parts[i] is Some,
        parts[i]->Some_0.1 <= prefix_extent(parts, k)->Some_0.1,
    decreases k,
{
    if i < k - 1 {
        lemma_widest(parts, i, k - 1);
    }
}

/// An empty struct takes no bytes.
pub proof fn law_empty_structs_take_nothing()
    ensures
        size_align(LlvmShape::Struct(Seq::empty())) == Some((0u64, 1u64)),
{
    let none = Seq::<LlvmShape>::empty();
    lemma_struct_size_align(none);
    assert(size_aligns(none) =~= Seq::empty());
    lemma_align_up(0, 1);
}

/// Whether every integer in a type has a width.
pub open spec fn integers_have_width(t: LlvmShape) -> bool
    decreases t,
{
    match t {
        LlvmShape::Integer(width) => width > 0,
        LlvmShape::Array(elem, _) => integers_have_width(*elem),
        LlvmShape::Struct(fields) => forall|i: int|
            0 <= i < fields.len() ==> integers_have_width(#[trigger] fields[i]),
        _ => true,
    }
}

/// A type takes no bytes exactly where it is zero-sized.
pub proof fn law_other_types_take_bytes(t: LlvmShape)
    requires
        size_align(t) is Some,
        integers_have_width(t),
    ensures
        zero_sized(t) <==> byte_size(t) == 0,
    decreases t,
{
    match t {
        LlvmShape::Array(elem, n) => {
            law_other_types_take_bytes(*elem);
            let size = byte_size(*elem);
            assert(size * n == 0 <==> size == 0 || n == 0) by (nonlinear_arith)
                requires
                    size >= 0,
            ;
        },
        LlvmShape::Struct(fields) => {
            if zero_sized(t) {
                crate::storage::law_zero_sized_types_occupy_no_bytes(t);
            } else {
                let i = choose|i: int| 0 <= i < fields.len() && !zero_sized(#[trigger] fields[i]);
                lemma_field_place(fields, i);
                assert(t->Struct_0[i] == fields[i]);
                assert(integers_have_width(fields[i]));
                law_other_types_take_bytes(fields[i]);
            }
        },
        _ => {},
    }
}

// ---------------------------------------------------------------------------
// Bytes without a gap
// ---------------------------------------------------------------------------

/// How many bytes the first `k` of `fields` take on their own.
pub open spec fn bytes_of_first(fields: Seq<LlvmShape>, k: int) -> int
    decreases k,
{
    if k <= 0 {
        0
    } else {
        bytes_of_first(fields, k - 1) + byte_size(fields[k - 1])
    }
}

/// A type keeps every byte where each of its bytes belongs to a number of whole bytes or to a
/// pointer: an array does where its elements do, and a struct does where its fields do and
/// take, together, as many bytes as the struct.
pub proof fn law_unpadded_types_keep_every_byte(
    t: LlvmShape,
    width: u32,
    elem: LlvmShape,
    n: u64,
    fields: Seq<LlvmShape>,
)
    ensures
        t is Half || t is Float || t is Double || t is Pointer ==> byte_faithful(t),
        t is Vector || t is Void ==> !byte_faithful(t),
        byte_faithful(LlvmShape::Integer(width)) <==> 8 * byte_size(LlvmShape::Integer(width))
            == width,
        byte_faithful(LlvmShape::Array(Box::new(elem), n)) == byte_faithful(elem),
        byte_faithful(LlvmShape::Struct(fields)) <==> {
            &&& size_align(LlvmShape::Struct(fields)) is Some
            &&& forall|i: int| 0 <= i < fields.len() ==> byte_faithful(#[trigger] fields[i])
            &&& bytes_of_first(fields, fields.len() as int) == byte_size(LlvmShape::Struct(fields))
        },
{
    let whole = LlvmShape::Struct(fields);
    let parts = size_aligns(fields);
    let count = fields.len() as int;
    lemma_struct_size_align(fields);
    if size_align(whole) is Some {
        assert forall|i: int| 0 <= i < count && parts[i] is Some implies is_align(
            #[trigger] parts[i]->Some_0.1,
        ) by {
            lemma_is_align(fields[i]);
        }
        lemma_prefix_align(parts, count);
        lemma_gaps(fields, count);
        let (end, align) = prefix_extent(parts, count)->Some_0;
        lemma_align_up(end as int, align as int);
    }
}

proof fn lemma_gaps(fields: Seq<LlvmShape>, k: int)
    requires
        0 <= k <= fields.len(),
        prefix_extent(size_aligns(fields), k) is Some,
    ensures
        prefix_extent(size_aligns(fields), k)->Some_0.0 >= bytes_of_first(fields, k),
        prefix_extent(size_aligns(fields), k)->Some_0.0 == bytes_of_first(fields, k) <==> forall|
            i: int,
        |
            0 <= i < k ==> #[trigger] starts_at_end(size_aligns(fields), i),
    decreases k,
{
    if k > 0 {
        let parts = size_aligns(fields);
        lemma_gaps(fields, k - 1);
        assert(parts[k - 1] == size_align(fields[k - 1]));
        lemma_is_align(fields[k - 1]);
        let end = prefix_extent(parts, k - 1)->Some_0.0 as int;
        lemma_align_up(end, parts[k - 1]->Some_0.1 as int);
        assert(starts_at_end(parts, k - 1) <==> align_up(end, parts[k - 1]->Some_0.1 as int) == end);
        if prefix_extent(parts, k)->Some_0.0 == bytes_of_first(fields, k) {
            assert forall|i: int| 0 <= i < k implies #[trigger] starts_at_end(parts, i) by {}
        } else if forall|i: int| 0 <= i < k ==> #[trigger] starts_at_end(parts, i) {
            assert(starts_at_end(parts, k - 1));
            assert(false);
        }
    }
}

/// Whether each number, pointer and vector that a type is made of takes a byte.
pub open spec fn leaves_take_bytes(t: LlvmShape) -> bool
    decreases t,
{
    match t {
        LlvmShape::Array(elem, _) => leaves_take_bytes(*elem),
        LlvmShape::Struct(fields) => forall|i: int|
            0 <= i < fields.len() ==> leaves_take_bytes(#[trigger] fields[i]),
        _ => byte_size(t) > 0,
    }
}

/// A type that takes no bytes is zero-sized, unless something without bytes is not an array
/// or a struct.
pub proof fn law_types_without_bytes_are_zero_sized(t: LlvmShape)
    requires
        size_align(t) is Some,
        byte_size(t) == 0,
        leaves_take_bytes(t),
    ensures
        zero_sized(t),
    decreases t,
{
    match t {
        LlvmShape::Array(elem, n) => {
            let size = byte_size(*elem);
            if n != 0 {
                assert(size == 0) by (nonlinear_arith)
                    requires
                        size >= 0,
                        n > 0,
                        size * n == 0,
                ;
                law_types_without_bytes_are_zero_sized(*elem);
            }
        },
        LlvmShape::Struct(fields) => {
            let parts = size_aligns(fields);
            lemma_struct_size_align(fields);
            let count = fields.len() as int;
            assert forall|i: int| 0 <= i < count && parts[i] is Some implies is_align(
                #[trigger] parts[i]->Some_0.1,
            ) by {
                lemma_is_align(fields[i]);
            }
            lemma_prefix_align(parts, count);
            let (end, align) = prefix_extent(parts, count)->Some_0;
            lemma_align_up(end as int, align as int);
            assert forall|i: int| 0 <= i < count implies zero_sized(#[trigger] fields[i]) by {
                lemma_part_within(fields, i, count);
                law_types_without_bytes_are_zero_sized(fields[i]);
            }
        },
        _ => {},
    }
}

proof fn lemma_part_within(fields: Seq<LlvmShape>, i: int, k: int)
    requires
        0 <= i < k <= fields.len(),
        prefix_extent(size_aligns(fields), k) is Some,
    ensures
        size_align(fields[i]) is Some,
        byte_size(fields[i]) <= prefix_extent(size_aligns(fields), k)->Some_0.0,
    decreases k,
{
    let parts = size_aligns(fields);
    assert(parts[k - 1] == size_align(fields[k - 1]));
    lemma_is_align(fields[k - 1]);
    lemma_align_up(prefix_extent(parts, k - 1)->Some_0.0 as int, parts[k - 1]->Some_0.1 as int);
    if i < k - 1 {
        lemma_part_within(fields, i, k - 1);
    }
}

/// Structs, enums and unions have the size that is recorded for them, where one is; an array
/// has that of its elements, times their number. No other type has a recorded size.
pub proof fn law_sizes_are_those_recorded(t: MirType, elem: MirType, n: u64, size: u64)
    ensures
        t is Struct && t->Struct_0.total_size > 0 ==> stored_size(t) == Ok::<_, LowerError>(
            Some(t->Struct_0.total_size),
        ),
        t is Struct && t->Struct_0.total_size == 0 ==> stored_size(t) == Ok::<_, LowerError>(
            None::<u64>,
        ),
        t is Enum && t->Enum_0.encoding.total_size > 0 ==> stored_size(t) == Ok::<_, LowerError>(
            Some(t->Enum_0.encoding.total_size),
        ),
        t is Enum && t->Enum_0.encoding.total_size == 0 ==> stored_size(t) == Ok::<_, LowerError>(
            None::<u64>,
        ),
        t is Union ==> stored_size(t) == Ok::<_, LowerError>(Some(t->Union_0.total_size)),
        !(t is Struct) && !(t is Enum) && !(t is Union) && !(t is Array) ==> stored_size(t)
            == Ok::<_, LowerError>(None::<u64>),
        stored_size(elem) == Ok::<_, LowerError>(Some(size)) ==> {
            &&& stored_size(MirType::Array(Box::new(elem), n)) is Ok <==> size * n <= u64::MAX
            &&& size * n <= u64::MAX ==> {
                let total = stored_size(MirType::Array(Box::new(elem), n))->Ok_0;
                total is Some && total->Some_0 == size * n
            }
        },
        !(stored_size(elem) matches Ok(Some(_))) ==> stored_size(
            MirType::Array(Box::new(elem), n),
        ) == stored_size(elem),
{
    assert(size * n >= 0) by (nonlinear_arith);
}

/// Without the gaps in it, a type takes no more bytes than with them, and as many where it
/// keeps every byte. What has no value counts as a pointer.
pub proof fn law_bytes_are_counted_without_gaps(t: LlvmShape)
    ensures
        size_align(t) is Some ==> type_bytes(t) is Some && type_bytes(t)->Some_0 <= byte_size(t),
        size_align(t) is Some && byte_faithful(t) ==> type_bytes(t)->Some_0 == byte_size(t),
        size_align(t) is Some && !(t is Struct) && !(t is Array) ==> type_bytes(t)->Some_0
            == byte_size(t),
        t is Void ==> type_bytes(t) == type_bytes(LlvmShape::Pointer(GENERIC)),
    decreases t,
{
    match t {
        LlvmShape::Array(elem, n) => {
            law_bytes_are_counted_without_gaps(*elem);
            if size_align(t) is Some {
                let some = type_bytes(*elem)->Some_0;
                let all = byte_size(*elem);
                assert(0 <= some * n <= all * n) by (nonlinear_arith)
                    requires
                        0 <= some <= all,
                        n >= 0,
                ;
            }
        },
        LlvmShape::Struct(fields) => {
            if size_align(t) is Some {
                let count = fields.len() as int;
                lemma_struct_size_align(fields);
                assert forall|i: int| 0 <= i < count && size_align(fields[i]) is Some implies {
                    &&& type_bytes(#[trigger] fields[i]) is Some
                    &&& type_bytes(fields[i])->Some_0 <= byte_size(fields[i])
                    &&& byte_faithful(fields[i]) ==> type_bytes(fields[i])->Some_0 == byte_size(
                        fields[i],
                    )
                } by {
                    law_bytes_are_counted_without_gaps(fields[i]);
                }
                lemma_counted(fields, count);
                lemma_gaps(fields, count);
                let parts = size_aligns(fields);
                assert forall|i: int| 0 <= i < count && parts[i] is Some implies is_align(
                    #[trigger] parts[i]->Some_0.1,
                ) by {
                    lemma_is_align(fields[i]);
                }
                lemma_prefix_align(parts, count);
                let (end, align) = prefix_extent(parts, count)->Some_0;
                lemma_align_up(end as int, align as int);
                law_unpadded_types_keep_every_byte(t, 8, t, 0, fields);
            }
        },
        _ => {},
    }
}

proof fn lemma_counted(fields: Seq<LlvmShape>, k: int)
    requires
        0 <= k <= fields.len(),
        prefix_extent(size_aligns(fields), k) is Some,
        forall|i: int|
            0 <= i < fields.len() && size_align(fields[i]) is Some ==> {
                &&& type_bytes(#[trigger] fields[i]) is Some
                &&& type_bytes(fields[i])->Some_0 <= byte_size(fields[i])
                &&& byte_faithful(fields[i]) ==> type_bytes(fields[i])->Some_0 == byte_size(
                    fields[i],
                )
            },
    ensures
        ({
            let sum = sum_bytes(field_bytes(fields), k);
            &&& sum is Some
            &&& sum->Some_0 <= bytes_of_first(fields, k) <= prefix_extent(
                size_aligns(fields),
                k,
            )->Some_0.0
            &&& (forall|i: int| 0 <= i < k ==> byte_faithful(#[trigger] fields[i])) ==> sum->Some_0
                == bytes_of_first(fields, k)
        }),
    decreases k,
{
    lemma_gaps(fields, k);
    if k > 0 {
        let parts = size_aligns(fields);
        assert(parts[k - 1] == size_align(fields[k - 1]));
        lemma_counted(fields, k - 1);
        assert(field_bytes(fields)[k - 1] == type_bytes(fields[k - 1]));
        assert(type_bytes(fields[k - 1]) is Some);
        if forall|i: int| 0 <= i < k ==> byte_faithful(#[trigger] fields[i]) {
            assert(byte_faithful(fields[k - 1]));
        }
    }
}

} // verus!
