//! Pointer leaves at their physical byte positions.

use crate::layout::{
    checked_align_up, fits, is_align, lemma_align_divides, lemma_align_up, lemma_is_align,
    lemma_multiples_add, lemma_struct_size_align, llvm_type_size_align, natural_offset,
    prefix_extent, size_align, size_aligns,
};
use crate::llvm::{shapes, LlvmShape, LlvmType};
use crate::storage::{contains_leaf, contains_pointer, llvm_type_contains_pointer, LeafKind};
use vstd::prelude::*;

verus! {

/// One pointer-valued leaf in the physical storage of an aggregate.
///
/// The address space is part of its identity: two pointers of different spaces
/// at the same bytes are different storage.
#[derive(Clone, Copy, Debug, PartialEq, Eq, PartialOrd, Ord, Structural)]
pub struct LlvmPointerStorage {
    pub offset: u64,
    pub size: u64,
    pub address_space: u32,
}

/// The pointer leaves of `t` placed at byte `base`, in byte order.
///
/// Arrays and vectors that hold pointers have no such list, nor has a type
/// without a layout.
pub open spec fn pointer_leaves(t: LlvmShape, base: u64) -> Option<Seq<LlvmPointerStorage>>
    decreases t, 0int,
{
    match t {
        LlvmShape::Pointer(space) => Some(
            seq![LlvmPointerStorage { offset: base, size: 8, address_space: space }],
        ),
        LlvmShape::Array(elem, _) => if contains_pointer(*elem) {
            None
        } else {
            Some(Seq::empty())
        },
        LlvmShape::Vector(elem, _, _) => if contains_pointer(*elem) {
            None
        } else {
            Some(Seq::empty())
        },
        LlvmShape::Struct(fields) => field_leaves(fields, base, fields.len() as int),
        _ => Some(Seq::empty()),
    }
}

/// The pointer leaves of the first `k` fields of a struct placed at byte `base`.
pub open spec fn field_leaves(fields: Seq<LlvmShape>, base: u64, k: int) -> Option<
    Seq<LlvmPointerStorage>,
>
    decreases fields, k,
{
    if k <= 0 || k > fields.len() {
        Some(Seq::empty())
    } else {
        match field_leaves(fields, base, k - 1) {
            None => None,
            Some(leaves) => match prefix_extent(size_aligns(fields), k) {
                None => None,
                Some(_) => match fits(base + natural_offset(fields, k - 1)) {
                    None => None,
                    Some(offset) => match pointer_leaves(fields[k - 1], offset) {
                        None => None,
                        Some(more) => Some(leaves + more),
                    },
                },
            },
        }
    }
}

/// A struct whose first `k` fields have no list of leaves has none itself.
proof fn lemma_field_leaves_none(fields: Seq<LlvmShape>, base: u64, k: int, n: int)
    requires
        0 <= k <= n <= fields.len(),
        field_leaves(fields, base, k) is None,
    ensures
        field_leaves(fields, base, n) is None,
    decreases n - k,
{
    if k < n {
        lemma_field_leaves_none(fields, base, k + 1, n);
    }
}

/// Records every pointer leaf of `ty` at its natural byte offset from
/// `base_offset`.
///
/// Arrays and vectors of pointers give nothing: one record per element could
/// be without bound.
pub fn collect_llvm_pointer_storage(ty: &LlvmType, base_offset: u64) -> (r: Option<
    Vec<LlvmPointerStorage>,
>)
    ensures
        match r {
            None => pointer_leaves(ty@, base_offset) is None,
            Some(leaves) => pointer_leaves(ty@, base_offset) == Some(leaves@),
        },
    decreases ty, 0int,
{
    match ty {
        LlvmType::Pointer(space) => {
            let mut out: Vec<LlvmPointerStorage> = Vec::new();
            out.push(
                LlvmPointerStorage { offset: base_offset, size: 8, address_space: *space },
            );
            assert(out@ =~= pointer_leaves(ty@, base_offset)->Some_0);
            Some(out)
        },
        LlvmType::Array(elem, _) => {
            if llvm_type_contains_pointer(elem) {
                None
            } else {
                Some(Vec::new())
            }
        },
        LlvmType::Vector(elem, _, _) => {
            if llvm_type_contains_pointer(elem) {
                None
            } else {
                Some(Vec::new())
            }
        },
        LlvmType::Struct(fields) => {
            proof {
                LlvmType::lemma_struct_view(*fields);
            }
            collect_field_pointer_storage(fields, base_offset)
        },
        _ => Some(Vec::new()),
    }
}

fn collect_field_pointer_storage(fields: &Vec<LlvmType>, base_offset: u64) -> (r: Option<
    Vec<LlvmPointerStorage>,
>)
    ensures
        match r {
            None => field_leaves(shapes(fields@), base_offset, fields@.len() as int) is None,
            Some(leaves) => field_leaves(shapes(fields@), base_offset, fields@.len() as int)
                == Some(leaves@),
        },
    decreases fields, 1int,
{
    let ghost fs = shapes(fields@);
    let ghost parts = size_aligns(fs);
    let mut out: Vec<LlvmPointerStorage> = Vec::new();
    let mut end: u64 = 0;
    assert(out@ =~= Seq::<LlvmPointerStorage>::empty());
    for i in 0..fields.len()
        invariant
            fs == shapes(fields@),
            parts == size_aligns(fs),
            prefix_extent(parts, i as int) is Some,
            prefix_extent(parts, i as int)->Some_0.0 == end,
            field_leaves(fs, base_offset, i as int) == Some(out@),
    {
        proof {
            assert(parts[i as int] == size_align(fields@[i as int]@));
            assert(fs[i as int] == fields@[i as int]@);
            if field_leaves(fs, base_offset, i + 1) is None {
                lemma_field_leaves_none(fs, base_offset, i + 1, fs.len() as int);
            }
        }
        match llvm_type_size_align(&fields[i]) {
            None => {
                return None;
            },
            Some((field_size, field_align)) => {
                proof {
                    lemma_is_align(fields@[i as int]@);
                }
                let start: u64 = match checked_align_up(end, field_align) {
                    None => {
                        return None;
                    },
                    Some(start) => start,
                };
                let next: u64 = match start.checked_add(field_size) {
                    None => {
                        return None;
                    },
                    Some(next) => next,
                };
                assert(natural_offset(fs, i as int) == start);
                let base: u64 = match base_offset.checked_add(start) {
                    None => {
                        return None;
                    },
                    Some(base) => base,
                };
                match collect_llvm_pointer_storage(&fields[i], base) {
                    None => {
                        return None;
                    },
                    Some(mut more) => {
                        out.append(&mut more);
                    },
                }
                end = next;
            },
        }
    }
    Some(out)
}

/// Pointer leaves are eight bytes each, lie inside the type's own bytes at
/// multiples of eight, and follow each other in byte order without overlap.
pub open spec fn leaves_placed(
    t: LlvmShape,
    leaves: Seq<LlvmPointerStorage>,
    start: int,
    end: int,
) -> bool {
    &&& forall|i: int|
        0 <= i < leaves.len() ==> {
            &&& (#[trigger] leaves[i]).size == 8
            &&& start <= leaves[i].offset
            &&& leaves[i].offset + 8 <= end
            &&& leaves[i].offset % 8 == 0
            &&& contains_leaf(t, LeafKind::PointerIn(leaves[i].address_space))
        }
    &&& forall|i: int, j: int|
        0 <= i < j < leaves.len() ==> (#[trigger] leaves[i]).offset + 8 <= (
        #[trigger] leaves[j]).offset
}

/// The alignment of a prefix is at least that of each of its fields.
pub proof fn lemma_prefix_align_bounds(parts: Seq<Option<(u64, u64)>>, k: int, i: int)
    requires
        0 <= i < k <= parts.len(),
        prefix_extent(parts, k) is Some,
    ensures
        parts[i] is Some,
        parts[i]->Some_0.1 <= prefix_extent(parts, k)->Some_0.1,
    decreases k,
{
    if i < k - 1 {
        lemma_prefix_align_bounds(parts, k - 1, i);
    }
}

/// Pointer leaves of a type placed at a multiple of its alignment are placed
/// inside it.
pub proof fn lemma_pointer_leaves_placed(t: LlvmShape, base: u64)
    requires
        pointer_leaves(t, base) is Some,
        size_align(t) is Some,
        base as int % size_align(t)->Some_0.1 as int == 0,
    ensures
        leaves_placed(
            t,
            pointer_leaves(t, base)->Some_0,
            base as int,
            base + size_align(t)->Some_0.0,
        ),
    decreases t, 0int,
{
    match t {
        LlvmShape::Struct(fields) => {
            lemma_struct_size_align(fields);
            let parts = size_aligns(fields);
            let n = fields.len() as int;
            assert forall|i: int| 0 <= i < n implies #[trigger] parts[i] is Some && parts[i]->Some_0.1
                <= size_align(t)->Some_0.1 && is_align(parts[i]->Some_0.1) by {
                lemma_prefix_align_bounds(parts, n, i);
                lemma_is_align(fields[i]);
            }
            lemma_is_align(t);
            lemma_field_leaves_placed(fields, base, n, size_align(t)->Some_0.1);
        },
        _ => {},
    }
}

proof fn lemma_field_leaves_placed(fields: Seq<LlvmShape>, base: u64, k: int, align: u64)
    requires
        0 <= k <= fields.len(),
        field_leaves(fields, base, k) is Some,
        prefix_extent(size_aligns(fields), k) is Some,
        is_align(align),
        base as int % align as int == 0,
        forall|i: int|
            0 <= i < fields.len() ==> (#[trigger] size_aligns(fields)[i]) is Some && size_aligns(
                fields,
            )[i]->Some_0.1 <= align && is_align(size_aligns(fields)[i]->Some_0.1),
    ensures
        leaves_placed(
            LlvmShape::Struct(fields),
            field_leaves(fields, base, k)->Some_0,
            base as int,
            base + prefix_extent(size_aligns(fields), k)->Some_0.0,
        ),
    decreases fields, k,
{
    if k > 0 {
        let parts = size_aligns(fields);
        lemma_field_leaves_placed(fields, base, k - 1, align);
        let before = field_leaves(fields, base, k - 1)->Some_0;
        let t = fields[k - 1];
        assert(parts[k - 1] == size_align(t));
        let field_align = size_align(t)->Some_0.1;
        let offset = (base + natural_offset(fields, k - 1)) as u64;
        let more = pointer_leaves(t, offset)->Some_0;
        lemma_align_divides(base as int, align, field_align);
        lemma_align_up(prefix_extent(parts, k - 1)->Some_0.0 as int, field_align as int);
        lemma_multiples_add(base as int, natural_offset(fields, k - 1), field_align as int);
        assert(offset as int % field_align as int == 0);
        lemma_pointer_leaves_placed(t, offset);
        let all = before + more;
        let whole = LlvmShape::Struct(fields);
        assert(whole->Struct_0 == fields);
        assert forall|i: int| 0 <= i < all.len() implies {
            &&& (#[trigger] all[i]).size == 8
            &&& base <= all[i].offset
            &&& all[i].offset + 8 <= base + prefix_extent(parts, k)->Some_0.0
            &&& all[i].offset % 8 == 0
            &&& contains_leaf(whole, LeafKind::PointerIn(all[i].address_space))
        } by {
            if i < before.len() {
                assert(all[i] == before[i]);
            } else {
                assert(all[i] == more[i - before.len()]);
                assert(contains_leaf(
                    whole->Struct_0[k - 1],
                    LeafKind::PointerIn(all[i].address_space),
                ));
            }
        }
        assert forall|i: int, j: int| 0 <= i < j < all.len() implies (#[trigger] all[i]).offset + 8
            <= (#[trigger] all[j]).offset by {
            if j < before.len() {
                assert(all[i] == before[i] && all[j] == before[j]);
            } else if i < before.len() {
                assert(all[i] == before[i] && all[j] == more[j - before.len()]);
            } else {
                assert(all[i] == more[i - before.len()] && all[j] == more[j - before.len()]);
            }
        }
    }
}

} // verus!
