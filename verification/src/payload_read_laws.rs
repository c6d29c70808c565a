//! Payloads that are read without memory.

use crate::enum_access::{
    contiguous_upper_bound, is_bounded_fieldless, is_bounded_niche_payload, payload_of,
    read_payload,
};
use crate::enum_bytes::{
    any_pointer_field, bytes_of_integer, copied_field, copied_fields, field_with_bytes,
    integer_from_bytes, joined_bytes, placed_byte, rebuilt_payload,
};
use crate::enum_ops::{byte_address, fields_before};
use crate::enum_slots::EnumSlots;
use crate::error::LowerError;
use crate::ir::{
    extends, lemma_extends_transitive, lemma_extends_value, valid, value_type, with_binary,
    with_extract, with_insert, with_load, with_undef, BinOp, Body, Op, Value,
};
use crate::layout::{fits, lemma_struct_size_align, natural_offset, size_align};
use crate::llvm::LlvmShape;
use crate::mir::{EnumCarrierKind, EnumLayoutKind, MirEnumType, MirType};
use crate::operands::{newest, TypeKind};
use crate::payload_values::coerced;
use crate::quiet::{lemma_coerced_quiet, lemma_quiet_transitive, quiet};
use crate::rebuild_laws::{lemma_copied_field_grows, lemma_field_with_bytes};
use crate::storage::{payload_storage, zero_sized};
use crate::types::enum_type_slots;
use crate::union_ops::{memory_align, spilled};
use crate::values::byte_size;
use vstd::arithmetic::div_mod::lemma_small_mod;
use vstd::arithmetic::power2::{lemma2_to64, pow2};
use vstd::prelude::*;

verus! {

// ---------------------------------------------------------------------------
// Payloads with a place of their own
// ---------------------------------------------------------------------------

/// Whether field `j` of a struct over `storage` takes the bytes that field `k` of a struct
/// over `fields` takes at byte `base`.
pub open spec fn same_bytes(
    storage: Seq<LlvmShape>,
    fields: Seq<LlvmShape>,
    base: u64,
    j: int,
    k: int,
) -> bool {
    &&& natural_offset(storage, j) == base + natural_offset(fields, k)
    &&& byte_size(storage[j]) == byte_size(fields[k])
}

/// Whether `bytes` is an array of the bytes of the integer type `t`.
pub open spec fn bytes_of(bytes: LlvmShape, t: LlvmShape) -> bool {
    &&& t is Integer
    &&& t->Integer_0 > 0
    &&& bytes is Array
    &&& *bytes->Array_0 == LlvmShape::Integer(8)
    &&& 8 * bytes->Array_1 == t->Integer_0
}

/// Whether field `k` of the payload over `fields` at byte `base` is in the storage: some
/// storage field takes its bytes, and each that does has its type or is its bytes.
pub open spec fn kept_whole(
    storage: Seq<LlvmShape>,
    fields: Seq<LlvmShape>,
    base: u64,
    k: int,
) -> bool {
    &&& 0 <= base + natural_offset(fields, k) <= u64::MAX
    &&& exists|j: int| 0 <= j < storage.len() && #[trigger] same_bytes(storage, fields, base, j, k)
    &&& forall|j: int|
        0 <= j < storage.len() && #[trigger] same_bytes(storage, fields, base, j, k) ==> storage[j]
            == fields[k] || bytes_of(storage[j], fields[k])
}

proof fn lemma_joined_some(b: Body, bytes: Value, width: u32, n: u64, k: int)
    requires
        valid(b, bytes),
        value_type(b, bytes) == LlvmShape::Array(Box::new(LlvmShape::Integer(8)), n),
        0 <= k <= n <= u32::MAX,
    ensures
        joined_bytes(b, bytes, width, k).1 is Ok,
        k > 0 ==> joined_bytes(b, bytes, width, k).1->Ok_0 is Some,
        quiet(b, joined_bytes(b, bytes, width, k).0),
    decreases k,
{
    if k > 0 {
        lemma_joined_some(b, bytes, width, n, k - 1);
        let (b1, before) = joined_bytes(b, bytes, width, k - 1);
        lemma_extends_value(b, b1, bytes);
        let (b2, placed) = placed_byte(b1, bytes, width, (k - 1) as u32);
        assert(placed is Ok);
        assert(quiet(b1, b2));
        lemma_quiet_transitive(b, b1, b2);
        if let Some(previous) = before->Ok_0 {
            let (b3, both) = with_binary(b2, BinOp::Or, previous, placed->Ok_0);
            assert(quiet(b2, b3));
            lemma_quiet_transitive(b, b2, b3);
        }
    }
}

proof fn lemma_integer_some(b: Body, v: Value, slot: u32, storage: LlvmShape, integer: LlvmShape)
    requires
        bytes_of(storage, integer),
        valid(b, v),
        element(value_type(b, v), slot) == Some(storage),
        b.insts.len() < usize::MAX,
    ensures
        integer_from_bytes(b, v, slot, storage, integer).1 is Some,
        quiet(b, integer_from_bytes(b, v, slot, storage, integer).0),
{
    let n = storage->Array_1;
    assert(bytes_of_integer(storage, integer) == Some(n));
    let (b1, extracted) = with_extract(b, v, slot);
    assert(extracted is Ok);
    assert(quiet(b, b1));
    assert(storage == LlvmShape::Array(Box::new(LlvmShape::Integer(8)), n));
    lemma_joined_some(b1, extracted->Ok_0, integer->Integer_0, n, n as int);
    let width = integer->Integer_0;
    lemma_quiet_transitive(b, b1, joined_bytes(b1, extracted->Ok_0, width, n as int).0);
}

/// The type of slot `slot` of a struct type, if it has one.
spec fn element(t: LlvmShape, slot: u32) -> Option<LlvmShape> {
    if t is Struct && slot < t->Struct_0.len() {
        Some(t->Struct_0[slot as int])
    } else {
        None
    }
}

proof fn lemma_field_found(fields: Seq<LlvmShape>, offset: u64, size: u64, from: int, j: int)
    requires
        0 <= from <= j < fields.len(),
        natural_offset(fields, j) == offset,
        size_align(fields[j])->Some_0.0 == size,
    ensures
        field_with_bytes(fields, offset, size, from) is Some,
    decreases fields.len() - from,
{
    if from < j {
        lemma_field_found(fields, offset, size, from + 1, j);
    }
}

proof fn lemma_copied_some(
    b: Body,
    v: Value,
    storage: Seq<LlvmShape>,
    fields: Seq<LlvmShape>,
    base: u64,
    start: Value,
    k: int,
)
    requires
        valid(b, v),
        value_type(b, v) == LlvmShape::Struct(storage),
        storage.len() <= u32::MAX,
        0 <= k <= fields.len(),
        forall|i: int| 0 <= i < k ==> #[trigger] kept_whole(storage, fields, base, i),
        copied_fields(b, v, storage, fields, base, start, k).0.insts.len() < usize::MAX,
    ensures
        copied_fields(b, v, storage, fields, base, start, k).1 is Some,
        quiet(b, copied_fields(b, v, storage, fields, base, start, k).0),
    decreases k,
{
    if k > 0 {
        let (b1, before) = copied_fields(b, v, storage, fields, base, start, k - 1);
        if before is Some {
            lemma_copied_field_grows(b1, v, storage, fields, base, before->Some_0, k - 1);
        }
        lemma_copied_some(b, v, storage, fields, base, start, k - 1);
        lemma_extends_value(b, b1, v);
        assert(kept_whole(storage, fields, base, k - 1));
        let offset = (base + natural_offset(fields, k - 1)) as u64;
        let size = size_align(fields[k - 1])->Some_0.0;
        let at = field_with_bytes(storage, offset, size, 0);
        let j = choose|j: int|
            0 <= j < storage.len() && #[trigger] same_bytes(storage, fields, base, j, k - 1);
        lemma_field_found(storage, offset, size, 0, j);
        lemma_field_with_bytes(storage, offset, size, 0);
        let s = at->Some_0;
        assert(same_bytes(storage, fields, base, s, k - 1));
        let (b2, field) = if storage[s] == fields[k - 1] {
            match with_extract(b1, v, s as u32) {
                (c, Ok(x)) => (c, Some(x)),
                (c, Err(_)) => (c, None),
            }
        } else {
            integer_from_bytes(b1, v, s as u32, storage[s], fields[k - 1])
        };
        if storage[s] != fields[k - 1] {
            lemma_integer_some(b1, v, s as u32, storage[s], fields[k - 1]);
        }
        assert(field is Some);
        assert(quiet(b1, b2));
        let b3 = with_insert(b2, before->Some_0, field->Some_0, (k - 1) as u32).0;
        assert(quiet(b2, b3));
        lemma_quiet_transitive(b, b1, b2);
        lemma_quiet_transitive(b, b2, b3);
    }
}

/// A payload of several fields, one of them a pointer, is read without memory where each of
/// its fields is in the storage.
pub proof fn law_whole_payloads_need_no_memory(
    b: Body,
    v: Value,
    history: Seq<MirType>,
    variant: u32,
    field: u32,
    e: MirEnumType,
    s: EnumSlots,
    fields: Seq<LlvmShape>,
    pointer: int,
)
    requires
        newest(history, TypeKind::Enum) == Some(MirType::Enum(e)),
        enum_type_slots(e) == Ok::<EnumSlots, LowerError>(s),
        valid(b, v),
        value_type(b, v) == LlvmShape::Struct(s.fields),
        s.fields.len() <= u32::MAX,
        size_align(LlvmShape::Struct(s.fields)) is Some,
        size_align(LlvmShape::Struct(fields)) is Some,
        ({
            let flat = fields_before(e.variant_field_counts@, variant as int) + field;
            &&& rebuilt_payload(
                b,
                v,
                LlvmShape::Struct(s.fields),
                LlvmShape::Struct(fields),
                s.field_offsets[flat],
                true,
            ).0.insts.len() < usize::MAX
            &&& 0 <= flat < s.field_slots.len()
            &&& s.field_slots[flat] is None
            &&& s.field_types[flat] == LlvmShape::Struct(fields)
            &&& forall|k: int|
                0 <= k < fields.len() ==> #[trigger] kept_whole(
                    s.fields,
                    fields,
                    s.field_offsets[flat],
                    k,
                )
        }),
        0 <= pointer < fields.len() && fields[pointer] is Pointer || is_bounded_niche_payload(
            e,
            variant,
            field,
        ),
    ensures
        payload_of(b, v, history, variant, field).1 is Ok,
        quiet(b, payload_of(b, v, history, variant, field).0),
{
    let flat = fields_before(e.variant_field_counts@, variant as int) + field;
    let ty = LlvmShape::Struct(fields);
    let base = s.field_offsets[flat];
    lemma_struct_size_align(s.fields);
    lemma_struct_size_align(fields);
    if 0 <= pointer < fields.len() && fields[pointer] is Pointer {
        assert(any_pointer_field(fields));
    }
    let (b1, start) = with_undef(b, ty);
    assert(quiet(b, b1));
    lemma_extends_value(b, b1, v);
    if !zero_sized(ty) {
        let n = fields.len() as int;
        lemma_copied_some(b1, v, s.fields, fields, base, start, n);
        lemma_quiet_transitive(b, b1, copied_fields(b1, v, s.fields, fields, base, start, n).0);
    }
}

// ---------------------------------------------------------------------------
// Payloads that are a small number
// ---------------------------------------------------------------------------

/// A payload enum stands for a small number exactly where its tag is an integer, its variants
/// have no fields, and its discriminant is assumed to be below a bound of at most 16.
pub proof fn law_small_enums_are_bounded(e: MirEnumType)
    ensures
        is_bounded_fieldless(e) <==> {
            &&& e.encoding.carrier_kind == EnumCarrierKind::Integer
            &&& contiguous_upper_bound(e, 32) is Some
            &&& contiguous_upper_bound(e, 32)->Some_0 <= 16
            &&& e.variant_field_counts@.len() == e.spec_variant_count()
            &&& forall|i: int|
                0 <= i < e.variant_field_counts@.len() ==> #[trigger] e.variant_field_counts@[i]
                    == 0
        },
{
    lemma2_to64();
    let n = e.variant_discriminants@.len();
    assert(n == e.variant_discriminants.len());
    if is_bounded_fieldless(e) {
        lemma_small_mod(n, pow2(32));
    }
}

/// A payload is a small number exactly where it is an enum that stands for one, and the whole
/// is that enum or nothing: two variants, both of which can exist, told apart by an integer
/// niche, with the payload as the only field of the untagged one.
pub proof fn law_small_payloads_are_options(outer: MirEnumType, variant: u32, field: u32)
    ensures
        is_bounded_niche_payload(outer, variant, field) <==> {
            let c = outer.encoding;
            &&& c.layout_kind == EnumLayoutKind::Niche
            &&& c.carrier_kind == EnumCarrierKind::Integer
            &&& outer.spec_variant_count() == 2
            &&& c.variant_inhabited@.len() == 2
            &&& outer.inhabited(0)
            &&& outer.inhabited(1)
            &&& c.untagged_variant == variant
            &&& field == 0
            &&& outer.variant_field_counts@ == (if variant == 0 {
                seq![1u32, 0u32]
            } else {
                seq![0u32, 1u32]
            })
            &&& variant <= 1
            &&& outer.all_field_types@.len() == 1
            &&& outer.all_field_types@[0] is Enum
            &&& is_bounded_fieldless(outer.all_field_types@[0]->Enum_0)
        },
{
    let counts = outer.variant_field_counts@;
    if is_bounded_niche_payload(outer, variant, field) {
        assert(outer.encoding.variant_inhabited@[0] != 0);
        assert(outer.encoding.variant_inhabited@[1] != 0);
        if variant == 0 {
            assert(counts =~= seq![1u32, 0u32]);
        } else {
            assert(counts =~= seq![0u32, 1u32]);
        }
    }
}

// ---------------------------------------------------------------------------
// Payloads that are read through memory
// ---------------------------------------------------------------------------

proof fn lemma_joined_quiet(b: Body, bytes: Value, width: u32, k: int)
    ensures
        quiet(b, joined_bytes(b, bytes, width, k).0),
    decreases k,
{
    if k > 0 {
        lemma_joined_quiet(b, bytes, width, k - 1);
        let (b1, before) = joined_bytes(b, bytes, width, k - 1);
        if let Ok(joined) = before {
            let (b2, placed) = placed_byte(b1, bytes, width, (k - 1) as u32);
            assert(quiet(b1, b2));
            lemma_quiet_transitive(b, b1, b2);
            if let Ok(x) = placed {
                if let Some(previous) = joined {
                    let (b3, both) = with_binary(b2, BinOp::Or, previous, x);
                    assert(quiet(b2, b3));
                    lemma_quiet_transitive(b, b2, b3);
                }
            }
        }
    }
}

proof fn lemma_integer_quiet(b: Body, v: Value, slot: u32, storage: LlvmShape, integer: LlvmShape)
    ensures
        quiet(b, integer_from_bytes(b, v, slot, storage, integer).0),
{
    if let Some(n) = bytes_of_integer(storage, integer) {
        let (b1, extracted) = with_extract(b, v, slot);
        assert(quiet(b, b1));
        if let Ok(bytes) = extracted {
            let width = integer->Integer_0;
            lemma_joined_quiet(b1, bytes, width, n as int);
            lemma_quiet_transitive(b, b1, joined_bytes(b1, bytes, width, n as int).0);
        }
    }
}

proof fn lemma_copied_quiet(
    b: Body,
    v: Value,
    storage: Seq<LlvmShape>,
    fields: Seq<LlvmShape>,
    base: u64,
    start: Value,
    k: int,
)
    ensures
        quiet(b, copied_fields(b, v, storage, fields, base, start, k).0),
    decreases k,
{
    if k > 0 {
        lemma_copied_quiet(b, v, storage, fields, base, start, k - 1);
        let (b1, before) = copied_fields(b, v, storage, fields, base, start, k - 1);
        if let Some(payload) = before {
            lemma_copied_one_quiet(b1, v, storage, fields, base, payload, k - 1);
            let c = copied_field(b1, v, storage, fields, base, payload, k - 1).0;
            lemma_quiet_transitive(b, b1, c);
        }
    }
}

proof fn lemma_copied_one_quiet(
    b: Body,
    v: Value,
    storage: Seq<LlvmShape>,
    fields: Seq<LlvmShape>,
    base: u64,
    payload: Value,
    k: int,
)
    ensures
        quiet(b, copied_field(b, v, storage, fields, base, payload, k).0),
{
    if let Some(offset) = fits(base + natural_offset(fields, k)) {
        let found = field_with_bytes(storage, offset, size_align(fields[k])->Some_0.0, 0);
        if let Some(at) = found {
            let (b1, field) = if storage[at] == fields[k] {
                match with_extract(b, v, at as u32) {
                    (c, Ok(x)) => (c, Some(x)),
                    (c, Err(_)) => (c, None),
                }
            } else {
                integer_from_bytes(b, v, at as u32, storage[at], fields[k])
            };
            lemma_integer_quiet(b, v, at as u32, storage[at], fields[k]);
            assert(quiet(b, b1));
            if let Some(x) = field {
                let (b2, r) = with_insert(b1, payload, x, k as u32);
                assert(quiet(b1, b2));
                lemma_quiet_transitive(b, b1, b2);
            }
        }
    }
}

/// Whether `c` stores to memory beyond `b` only with the alignment `align`.
pub open spec fn stores_aligned(b: Body, c: Body, align: Option<u32>) -> bool {
    &&& extends(b, c)
    &&& forall|i: int|
        b.insts.len() <= i < c.insts.len() ==> match (#[trigger] c.insts[i]).op {
            Op::Store { value, ptr, align: a, is_volatile } => a == align && !is_volatile,
            _ => true,
        }
}

proof fn lemma_stores_transitive(a: Body, b: Body, c: Body, align: Option<u32>)
    requires
        stores_aligned(a, b, align),
        stores_aligned(b, c, align),
    ensures
        stores_aligned(a, c, align),
{
    lemma_extends_transitive(a, b, c);
    assert forall|i: int| a.insts.len() <= i < b.insts.len() implies #[trigger] c.insts[i]
        == b.insts[i] by {}
}

/// Reading a payload stores nothing but the whole enum value, with the alignment that rustc
/// gave the enum, where it gave one.
pub proof fn law_whole_enums_are_copied_aligned(
    b: Body,
    v: Value,
    history: Seq<MirType>,
    variant: u32,
    field: u32,
    e: MirEnumType,
)
    requires
        newest(history, TypeKind::Enum) == Some(MirType::Enum(e)),
    ensures
        stores_aligned(
            b,
            payload_of(b, v, history, variant, field).0,
            if e.encoding.abi_align > 0 {
                Some(e.encoding.abi_align as u32)
            } else {
                None
            },
        ),
{
    let align = if e.encoding.abi_align > 0 {
        Some(e.encoding.abi_align as u32)
    } else {
        None
    };
    let flat = fields_before(e.variant_field_counts@, variant as int) + field;
    if let Ok(s) = enum_type_slots(e) {
        if flat < s.field_slots.len() {
            let allowed = is_bounded_niche_payload(e, variant, field);
            lemma_payload_stores(b, v, e, s, flat, allowed, align);
        }
    }
}

proof fn lemma_payload_stores(
    b: Body,
    v: Value,
    e: MirEnumType,
    s: EnumSlots,
    flat: int,
    allowed: bool,
    align: Option<u32>,
)
    requires
        align == memory_align(e.encoding.abi_align),
    ensures
        stores_aligned(b, read_payload(b, v, e, s, flat, allowed).0, align),
{
    let ty = s.field_types[flat];
    let offset = s.field_offsets[flat];
    match s.field_slots[flat] {
        Some(slot) => {
            let (b1, extracted) = with_extract(b, v, slot);
            assert(stores_aligned(b, b1, align));
            if let Ok(x) = extracted {
                lemma_coerced_quiet(b1, x, value_type(b1, x), ty);
                let c = coerced(b1, x, value_type(b1, x), ty).0;
                assert(stores_aligned(b1, c, align));
                lemma_stores_transitive(b, b1, c, align);
            }
        },
        None => {
            if !zero_sized(ty) {
                let storage = LlvmShape::Struct(s.fields);
                let (b1, direct) = rebuilt_payload(b, v, storage, ty, offset, allowed);
                lemma_rebuilt_quiet(b, v, s.fields, ty, offset, allowed);
                assert(stores_aligned(b, b1, align));
                if direct is None {
                    let (b2, slot) = spilled(b1, v, storage, e.encoding.abi_align);
                    assert(stores_aligned(b1, b2, align));
                    lemma_stores_transitive(b, b1, b2, align);
                    let (b3, ptr) = byte_address(b2, slot, offset);
                    assert(stores_aligned(b2, b3, align));
                    lemma_stores_transitive(b, b2, b3, align);
                    if let Ok(stored) = payload_storage(ty) {
                        let (b4, x) = with_load(b3, ptr, stored, None);
                        assert(stores_aligned(b3, b4, align));
                        lemma_stores_transitive(b, b3, b4, align);
                        lemma_coerced_quiet(b4, x, stored, ty);
                        let c = coerced(b4, x, stored, ty).0;
                        assert(stores_aligned(b4, c, align));
                        lemma_stores_transitive(b, b4, c, align);
                    }
                }
            }
        },
    }
}

proof fn lemma_rebuilt_quiet(
    b: Body,
    v: Value,
    storage: Seq<LlvmShape>,
    payload: LlvmShape,
    base: u64,
    allowed: bool,
)
    ensures
        quiet(b, rebuilt_payload(b, v, LlvmShape::Struct(storage), payload, base, allowed).0),
{
    if let LlvmShape::Struct(fields) = payload {
        let (b1, start) = with_undef(b, payload);
        assert(quiet(b, b1));
        let n = fields.len() as int;
        lemma_copied_quiet(b1, v, storage, fields, base, start, n);
        lemma_quiet_transitive(b, b1, copied_fields(b1, v, storage, fields, base, start, n).0);
    }
}

} // verus!
