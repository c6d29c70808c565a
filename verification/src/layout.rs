//! Natural LLVM layout for nvptx64: sizes, alignments and byte offsets.
//!
//! Scalars align to their size, arrays to their element and unpacked structs
//! to their widest field. A layout whose byte counts do not fit in 64 bits has
//! no size.

use crate::llvm::{shapes, LlvmShape, LlvmType};
use vstd::arithmetic::div_mod::*;
use vstd::arithmetic::mul::*;
use vstd::arithmetic::power2::is_pow2;
use vstd::prelude::*;

verus! {

/// `n` as a byte count, where it fits in 64 bits.
pub open spec fn fits(n: int) -> Option<u64> {
    if 0 <= n <= u64::MAX {
        Some(n as u64)
    } else {
        None
    }
}

/// The least multiple of `a` that is not below `n`.
pub open spec fn align_up(n: int, a: int) -> int {
    if n % a == 0 {
        n
    } else {
        n + (a - n % a)
    }
}

/// The larger of two byte counts.
pub open spec fn larger(a: u64, b: u64) -> u64 {
    if a >= b {
        a
    } else {
        b
    }
}

/// Alignment of an integer that occupies `size` bytes: the next power of two,
/// at most sixteen.
pub open spec fn integer_align(size: u64) -> u64 {
    if size <= 1 {
        1
    } else if size <= 2 {
        2
    } else if size <= 4 {
        4
    } else if size <= 8 {
        8
    } else {
        16
    }
}

/// Bits of one vector element, for the element types that have a vector layout.
pub open spec fn vector_element_bits(elem: LlvmShape) -> Option<u64> {
    match elem {
        LlvmShape::Integer(width) => Some(width as u64),
        LlvmShape::Half => Some(16),
        LlvmShape::Float => Some(32),
        LlvmShape::Double => Some(64),
        LlvmShape::Pointer(_) => Some(64),
        _ => None,
    }
}

/// Size and alignment of a fixed vector. Only totals of 16, 32, 64 and 128
/// bits have an alignment of their own in the data layout.
pub open spec fn vector_size_align(bits: int) -> Option<(u64, u64)> {
    if bits == 16 {
        Some((2, 2))
    } else if bits == 32 {
        Some((4, 4))
    } else if bits == 64 {
        Some((8, 8))
    } else if bits == 128 {
        Some((16, 16))
    } else {
        None
    }
}

/// Size and alignment of a type in bytes, where it has a layout.
pub open spec fn size_align(t: LlvmShape) -> Option<(u64, u64)>
    decreases t,
{
    match t {
        LlvmShape::Integer(width) => {
            let size = ((width + 7) / 8) as u64;
            Some((size, integer_align(size)))
        },
        LlvmShape::Half => Some((2, 2)),
        LlvmShape::Float => Some((4, 4)),
        LlvmShape::Double => Some((8, 8)),
        LlvmShape::Pointer(_) => Some((8, 8)),
        LlvmShape::Array(elem, n) => match size_align(*elem) {
            None => None,
            Some((size, align)) => match fits(size * n) {
                None => None,
                Some(total) => Some((total, align)),
            },
        },
        LlvmShape::Vector(elem, count, scalable) => if scalable {
            None
        } else {
            match vector_element_bits(*elem) {
                None => None,
                Some(bits) => vector_size_align(bits * count),
            }
        },
        LlvmShape::Struct(fields) => match struct_extent(size_aligns(fields)) {
            None => None,
            Some((_, size, align)) => Some((size, align)),
        },
        LlvmShape::Void => None,
    }
}

/// Sizes and alignments of a list of types.
pub open spec fn size_aligns(fields: Seq<LlvmShape>) -> Seq<Option<(u64, u64)>>
    decreases fields,
{
    Seq::new(
        fields.len(),
        |i: int|
            if 0 <= i < fields.len() {
                size_align(fields[i])
            } else {
                None
            },
    )
}

/// Where the first `k` fields of a struct end, and their widest alignment.
pub open spec fn prefix_extent(parts: Seq<Option<(u64, u64)>>, k: int) -> Option<(u64, u64)>
    decreases k,
{
    if k <= 0 {
        Some((0, 1))
    } else {
        match (prefix_extent(parts, k - 1), parts[k - 1]) {
            (Some((end, align)), Some((field_size, field_align))) => match fits(
                align_up(end as int, field_align as int) + field_size,
            ) {
                None => None,
                Some(next) => Some((next, larger(align, field_align))),
            },
            _ => None,
        }
    }
}

/// End, size and alignment of a struct: its size is its end rounded up to its
/// alignment.
pub open spec fn struct_extent(parts: Seq<Option<(u64, u64)>>) -> Option<(u64, u64, u64)> {
    match prefix_extent(parts, parts.len() as int) {
        None => None,
        Some((end, align)) => match fits(align_up(end as int, align as int)) {
            None => None,
            Some(size) => Some((end, size, align)),
        },
    }
}

/// Natural layout of a struct over `fields`: end, size and alignment.
pub open spec fn natural_layout(fields: Seq<LlvmShape>) -> Option<(u64, u64, u64)> {
    struct_extent(size_aligns(fields))
}

/// Byte offset of field `k` in the natural layout of a struct over `fields`.
pub open spec fn natural_offset(fields: Seq<LlvmShape>, k: int) -> int {
    align_up(
        prefix_extent(size_aligns(fields), k)->Some_0.0 as int,
        size_align(fields[k])->Some_0.1 as int,
    )
}

/// Rounding up stays within one step and reaches a multiple.
pub proof fn lemma_align_up(n: int, a: int)
    requires
        a > 0,
    ensures
        n <= align_up(n, a) < n + a,
        align_up(n, a) % a == 0,
{
    lemma_fundamental_div_mod(n, a);
    lemma_mod_bound(n, a);
    if n % a != 0 {
        assert(n + (a - n % a) == (n / a + 1) * a) by (nonlinear_arith)
            requires
                n == a * (n / a) + n % a,
        ;
        lemma_mod_multiples_basic(n / a + 1, a);
    }
}

/// The sum of two multiples is a multiple.
pub proof fn lemma_multiples_add(m: int, n: int, a: int)
    requires
        a > 0,
        m % a == 0,
        n % a == 0,
    ensures
        (m + n) % a == 0,
{
    lemma_mod_adds(m, n, a);
    lemma_add_mod_noop(m, n, a);
    lemma_small_mod(0, a as nat);
}

/// A multiple of a wider alignment is a multiple of a narrower one.
pub proof fn lemma_align_divides(n: int, a: u64, b: u64)
    requires
        is_align(a),
        is_align(b),
        b <= a,
        n % a as int == 0,
    ensures
        n % b as int == 0,
{
    assert(n % 16 == 0 ==> n % 8 == 0);
    assert(n % 8 == 0 ==> n % 4 == 0);
    assert(n % 4 == 0 ==> n % 2 == 0);
    assert(n % 1 == 0);
}

/// A struct has the natural layout of its fields.
pub proof fn lemma_struct_size_align(fields: Seq<LlvmShape>)
    ensures
        size_align(LlvmShape::Struct(fields)) == match natural_layout(fields) {
            None => None,
            Some((_, size, align)) => Some((size, align)),
        },
{
}

/// Every alignment is a power of two up to sixteen.
pub open spec fn is_align(a: u64) -> bool {
    a == 1 || a == 2 || a == 4 || a == 8 || a == 16
}

pub proof fn lemma_prefix_align(parts: Seq<Option<(u64, u64)>>, k: int)
    requires
        k <= parts.len(),
        forall|i: int| 0 <= i < k && parts[i] is Some ==> is_align(#[trigger] parts[i]->Some_0.1),
        prefix_extent(parts, k) is Some,
    ensures
        is_align(prefix_extent(parts, k)->Some_0.1),
    decreases k,
{
    if k > 0 {
        lemma_prefix_align(parts, k - 1);
        assert(parts[k - 1] is Some);
    }
}

/// Every type with a layout aligns to 1, 2, 4, 8 or 16 bytes.
pub proof fn lemma_is_align(t: LlvmShape)
    requires
        size_align(t) is Some,
    ensures
        is_align(size_align(t)->Some_0.1),
    decreases t,
{
    match t {
        LlvmShape::Array(elem, _) => lemma_is_align(*elem),
        LlvmShape::Struct(fields) => {
            lemma_struct_size_align(fields);
            let parts = size_aligns(fields);
            assert forall|i: int| 0 <= i < parts.len() && parts[i] is Some implies is_align(
                #[trigger] parts[i]->Some_0.1,
            ) by {
                lemma_is_align(fields[i]);
            }
            lemma_prefix_align(parts, parts.len() as int);
        },
        _ => {},
    }
}

/// Rounds `n` up to a multiple of `a`, unless that overflows.
pub fn checked_align_up(n: u64, a: u64) -> (r: Option<u64>)
    requires
        a > 0,
    ensures
        r == fits(align_up(n as int, a as int)),
{
    let rest: u64 = n % a;
    if rest == 0 {
        Some(n)
    } else {
        n.checked_add(a - rest)
    }
}

/// Size and alignment in bytes of an LLVM type, where the data layout fixes them.
///
/// Pointers count eight bytes in every address space.
pub fn llvm_type_size_align(ty: &LlvmType) -> (r: Option<(u64, u64)>)
    ensures
        r == size_align(ty@),
    decreases ty, 0int,
{
    match ty {
        LlvmType::Integer(width) => {
            let size: u64 = (*width as u64 + 7) / 8;
            let align: u64 = if size <= 1 {
                1
            } else if size <= 2 {
                2
            } else if size <= 4 {
                4
            } else if size <= 8 {
                8
            } else {
                16
            };
            Some((size, align))
        },
        LlvmType::Half => Some((2, 2)),
        LlvmType::Float => Some((4, 4)),
        LlvmType::Double => Some((8, 8)),
        LlvmType::Pointer(_) => Some((8, 8)),
        LlvmType::Array(elem, n) => {
            match llvm_type_size_align(elem) {
                None => None,
                Some((size, align)) => {
                    proof {
                        lemma_mul_nonnegative(size as int, *n as int);
                    }
                    match size.checked_mul(*n) {
                        None => None,
                        Some(total) => Some((total, align)),
                    }
                },
            }
        },
        LlvmType::Vector(elem, count, scalable) => {
            if *scalable {
                return None;
            }
            assert(ty@ == LlvmShape::Vector(Box::new(elem@), *count, *scalable));
            let bits: u64 = match &**elem {
                LlvmType::Integer(width) => *width as u64,
                LlvmType::Half => 16,
                LlvmType::Float => 32,
                LlvmType::Double => 64,
                LlvmType::Pointer(_) => 64,
                _ => {
                    return None;
                },
            };
            match bits.checked_mul(*count as u64) {
                Some(16) => Some((2, 2)),
                Some(32) => Some((4, 4)),
                Some(64) => Some((8, 8)),
                Some(128) => Some((16, 16)),
                _ => None,
            }
        },
        LlvmType::Struct(fields) => {
            proof {
                LlvmType::lemma_struct_view(*fields);
                lemma_struct_size_align(shapes(fields@));
            }
            match natural_struct_layout(fields) {
                None => None,
                Some((_end, size, align)) => Some((size, align)),
            }
        },
        LlvmType::Void => None,
    }
}

/// Natural layout of an unpacked struct: the offset just past its last field,
/// its size, and its alignment.
pub fn natural_struct_layout(fields: &Vec<LlvmType>) -> (r: Option<(u64, u64, u64)>)
    ensures
        r == natural_layout(shapes(fields@)),
    decreases fields, 1int,
{
    let ghost parts = size_aligns(shapes(fields@));
    let mut end: u64 = 0;
    let mut align: u64 = 1;
    for i in 0..fields.len()
        invariant
            parts == size_aligns(shapes(fields@)),
            prefix_extent(parts, i as int) == Some((end, align)),
            is_align(align),
        decreases fields.len() - i,
    {
        proof {
            assert(parts[i as int] == size_align(fields@[i as int]@));
            lemma_prefix_none(parts, i + 1, parts.len() as int);
        }
        match llvm_type_size_align(&fields[i]) {
            None => {
                return None;
            },
            Some((field_size, field_align)) => {
                proof {
                    lemma_is_align(fields@[i as int]@);
                }
                match checked_align_up(end, field_align) {
                    None => {
                        return None;
                    },
                    Some(start) => match start.checked_add(field_size) {
                        None => {
                            return None;
                        },
                        Some(next) => {
                            end = next;
                            if field_align > align {
                                align = field_align;
                            }
                        },
                    },
                }
            },
        }
    }
    match checked_align_up(end, align) {
        None => None,
        Some(size) => Some((end, size, align)),
    }
}

/// A prefix without a layout leaves every longer one without a layout.
pub proof fn lemma_prefix_none(parts: Seq<Option<(u64, u64)>>, k: int, n: int)
    requires
        0 <= k <= n <= parts.len(),
    ensures
        prefix_extent(parts, k) is None ==> prefix_extent(parts, n) is None,
    decreases n - k,
{
    if k < n {
        lemma_prefix_none(parts, k + 1, n);
    }
}

/// Bytes of a type counted field by field, without alignment gaps. A vector
/// counts its packed bits and needs a layout; other types with no size of their
/// own count eight bytes.
pub open spec fn type_bytes(t: LlvmShape) -> Option<u64>
    decreases t,
{
    match t {
        LlvmShape::Integer(width) => Some(((width + 7) / 8) as u64),
        LlvmShape::Half => Some(2),
        LlvmShape::Float => Some(4),
        LlvmShape::Double => Some(8),
        LlvmShape::Pointer(_) => Some(8),
        LlvmShape::Array(elem, n) => match type_bytes(*elem) {
            None => None,
            Some(size) => fits(size * n),
        },
        LlvmShape::Vector(_, _, _) => match size_align(t) {
            None => None,
            Some((size, _)) => Some(size),
        },
        LlvmShape::Struct(fields) => sum_bytes(field_bytes(fields), fields.len() as int),
        LlvmShape::Void => Some(8),
    }
}

/// Bytes of each of a list of types.
pub open spec fn field_bytes(fields: Seq<LlvmShape>) -> Seq<Option<u64>>
    decreases fields,
{
    Seq::new(
        fields.len(),
        |i: int|
            if 0 <= i < fields.len() {
                type_bytes(fields[i])
            } else {
                None
            },
    )
}

/// Sum of the first `k` byte counts.
pub open spec fn sum_bytes(parts: Seq<Option<u64>>, k: int) -> Option<u64>
    decreases k,
{
    if k <= 0 {
        Some(0)
    } else {
        match (sum_bytes(parts, k - 1), parts[k - 1]) {
            (Some(sum), Some(part)) => fits(sum + part),
            _ => None,
        }
    }
}

proof fn lemma_sum_none(parts: Seq<Option<u64>>, k: int, n: int)
    requires
        0 <= k <= n <= parts.len(),
        sum_bytes(parts, k) is None,
    ensures
        sum_bytes(parts, n) is None,
    decreases n - k,
{
    if k < n {
        lemma_sum_none(parts, k + 1, n);
    }
}

/// Bytes of an LLVM type, with structs counted as the sum of their fields.
///
/// That is exact for structs whose padding is explicit. Nothing where a vector
/// has no layout or the count does not fit in 64 bits.
pub fn get_type_size(ty: &LlvmType) -> (r: Option<u64>)
    ensures
        r == type_bytes(ty@),
    decreases ty, 0int,
{
    match ty {
        LlvmType::Integer(width) => Some((*width as u64 + 7) / 8),
        LlvmType::Half => Some(2),
        LlvmType::Float => Some(4),
        LlvmType::Double => Some(8),
        LlvmType::Pointer(_) => Some(8),
        LlvmType::Array(elem, n) => match get_type_size(elem) {
            None => None,
            Some(size) => {
                proof {
                    lemma_mul_nonnegative(size as int, *n as int);
                }
                size.checked_mul(*n)
            },
        },
        LlvmType::Struct(fields) => {
            proof {
                LlvmType::lemma_struct_view(*fields);
            }
            get_fields_size(fields)
        },
        LlvmType::Vector(_, _, _) => match llvm_type_size_align(ty) {
            None => None,
            Some((size, _)) => Some(size),
        },
        LlvmType::Void => Some(8),
    }
}

fn get_fields_size(fields: &Vec<LlvmType>) -> (r: Option<u64>)
    ensures
        r == sum_bytes(field_bytes(shapes(fields@)), fields@.len() as int),
    decreases fields, 1int,
{
    let ghost parts = field_bytes(shapes(fields@));
    let mut sum: u64 = 0;
    for i in 0..fields.len()
        invariant
            parts == field_bytes(shapes(fields@)),
            sum_bytes(parts, i as int) == Some(sum),
    {
        proof {
            assert(parts[i as int] == type_bytes(fields@[i as int]@));
            if sum_bytes(parts, i + 1) is None {
                lemma_sum_none(parts, i + 1, parts.len() as int);
            }
        }
        match get_type_size(&fields[i]) {
            None => {
                return None;
            },
            Some(size) => match sum.checked_add(size) {
                None => {
                    return None;
                },
                Some(next) => {
                    sum = next;
                },
            },
        }
    }
    Some(sum)
}

/// Appending a field leaves the layout of the fields before it unchanged.
pub proof fn lemma_push_keeps_prefix(fields: Seq<LlvmShape>, t: LlvmShape, k: int)
    requires
        0 <= k <= fields.len(),
    ensures
        prefix_extent(size_aligns(fields.push(t)), k) == prefix_extent(size_aligns(fields), k),
        k < fields.len() ==> natural_offset(fields.push(t), k) == natural_offset(fields, k),
    decreases k,
{
    if k > 0 {
        lemma_push_keeps_prefix(fields, t, k - 1);
        assert(size_aligns(fields.push(t))[k - 1] == size_aligns(fields)[k - 1]);
    }
}

/// A field appended where its alignment allows starts right at the end.
pub proof fn lemma_push_at_end(fields: Seq<LlvmShape>, t: LlvmShape, end: u64)
    requires
        prefix_extent(size_aligns(fields), fields.len() as int) is Some,
        prefix_extent(size_aligns(fields), fields.len() as int)->Some_0.0 == end,
        size_align(t) is Some,
        end as int % size_align(t)->Some_0.1 as int == 0,
        end + size_align(t)->Some_0.0 <= u64::MAX,
    ensures
        natural_offset(fields.push(t), fields.len() as int) == end,
        prefix_extent(size_aligns(fields.push(t)), fields.len() as int + 1) == Some(
            (
                (end + size_align(t)->Some_0.0) as u64,
                larger(
                    prefix_extent(size_aligns(fields), fields.len() as int)->Some_0.1,
                    size_align(t)->Some_0.1,
                ),
            ),
        ),
{
    let n = fields.len() as int;
    lemma_push_keeps_prefix(fields, t, n);
    assert(fields.push(t)[n] == t);
    assert(size_aligns(fields.push(t))[n] == size_align(t));
}

/// Whether field `slot` of a struct over `fields` has type `ty` and sits at byte
/// `offset`.
pub open spec fn field_at(fields: Seq<LlvmShape>, slot: int, ty: LlvmShape, offset: int) -> bool {
    &&& 0 <= slot < fields.len()
    &&& fields[slot] == ty
    &&& natural_offset(fields, slot) == offset
}

/// Appending a field moves no field.
pub proof fn lemma_push_keeps_field(
    fields: Seq<LlvmShape>,
    t: LlvmShape,
    slot: int,
    ty: LlvmShape,
    offset: int,
)
    requires
        field_at(fields, slot, ty, offset),
    ensures
        field_at(fields.push(t), slot, ty, offset),
{
    lemma_push_keeps_prefix(fields, t, slot);
}

/// Whether `n` is a power of two.
pub fn is_power_of_two(n: u64) -> (r: bool)
    ensures
        r == is_pow2(n as int),
{
    let mut m: u64 = n;
    proof {
        reveal(is_pow2);
    }
    if m == 0 {
        return false;
    }
    while m % 2 == 0
        invariant
            m > 0,
            is_pow2(m as int) == is_pow2(n as int),
        decreases m,
    {
        proof {
            reveal(is_pow2);
        }
        m = m / 2;
    }
    m == 1
}

/// Byte offset of each field in a struct's natural layout.
pub fn natural_offsets(fields: &Vec<LlvmType>) -> (r: Option<Vec<u64>>)
    ensures
        r is Some <==> prefix_extent(size_aligns(shapes(fields@)), fields@.len() as int) is Some,
        r is Some ==> r->Some_0@.len() == fields@.len() && forall|k: int|
            0 <= k < fields@.len() ==> #[trigger] r->Some_0@[k] == natural_offset(
                shapes(fields@),
                k,
            ),
{
    let ghost fs = shapes(fields@);
    let ghost parts = size_aligns(fs);
    let mut out: Vec<u64> = Vec::new();
    let mut end: u64 = 0;
    for i in 0..fields.len()
        invariant
            fs == shapes(fields@),
            parts == size_aligns(fs),
            prefix_extent(parts, i as int) is Some,
            prefix_extent(parts, i as int)->Some_0.0 == end,
            out@.len() == i,
            forall|k: int| 0 <= k < i ==> #[trigger] out@[k] == natural_offset(fs, k),
    {
        proof {
            assert(parts[i as int] == size_align(fields@[i as int]@));
            assert(fs[i as int] == fields@[i as int]@);
            lemma_prefix_none(parts, i + 1, parts.len() as int);
        }
        match llvm_type_size_align(&fields[i]) {
            None => {
                return None;
            },
            Some((field_size, field_align)) => {
                proof {
                    lemma_is_align(fields@[i as int]@);
                }
                match checked_align_up(end, field_align) {
                    None => {
                        return None;
                    },
                    Some(start) => match start.checked_add(field_size) {
                        None => {
                            return None;
                        },
                        Some(next) => {
                            out.push(start);
                            end = next;
                        },
                    },
                }
            },
        }
    }
    Some(out)
}

} // verus!
