//! Where each field of a struct or tuple lands in its LLVM struct.

use crate::error::LowerError;
use crate::layout::{
    field_at, fits, get_type_size, lemma_push_at_end, lemma_push_keeps_field, prefix_extent,
    size_align, size_aligns, type_bytes,
};
use crate::llvm::{shapes, LlvmShape, LlvmType};
use crate::mir::MirType;
use crate::storage::{is_zero_sized_type, zero_sized};
use vstd::arithmetic::mul::lemma_mul_nonnegative;
use vstd::prelude::*;

verus! {

/// `[n x i8]`.
pub open spec fn padding(n: int) -> LlvmShape {
    LlvmShape::Array(Box::new(LlvmShape::Integer(8)), n as u64)
}

/// `size` bytes of padding.
pub fn make_padding_type(size: u64) -> (r: LlvmType)
    ensures
        r@ == padding(size as int),
{
    LlvmType::array(LlvmType::integer(8), size)
}

/// The size that rustc stored for a type, where it stored one.
///
/// Structs and enums store zero for "unknown". An array multiplies the stored
/// size of its element.
pub open spec fn stored_size(t: MirType) -> Result<Option<u64>, LowerError>
    decreases t,
{
    match t {
        MirType::Struct(s) => if s.total_size > 0 {
            Ok(Some(s.total_size))
        } else {
            Ok(None)
        },
        MirType::Enum(e) => if e.encoding.total_size > 0 {
            Ok(Some(e.encoding.total_size))
        } else {
            Ok(None)
        },
        MirType::Union(u) => Ok(Some(u.total_size)),
        MirType::Array(elem, n) => match stored_size(*elem) {
            Err(e) => Err(e),
            Ok(None) => Ok(None),
            Ok(Some(size)) => match fits(size * n) {
                None => Err(LowerError::LayoutOverflow),
                Some(total) => Ok(Some(total)),
            },
        },
        _ => Ok(None),
    }
}

/// The size that rustc stored for a type, where it stored one.
pub fn mir_stored_size(ty: &MirType) -> (r: Result<Option<u64>, LowerError>)
    ensures
        r == stored_size(*ty),
    decreases ty,
{
    match ty {
        MirType::Struct(s) => if s.total_size > 0 {
            Ok(Some(s.total_size))
        } else {
            Ok(None)
        },
        MirType::Enum(e) => if e.encoding.total_size > 0 {
            Ok(Some(e.encoding.total_size))
        } else {
            Ok(None)
        },
        MirType::Union(u) => Ok(Some(u.total_size)),
        MirType::Array(elem, n) => match mir_stored_size(elem) {
            Err(e) => Err(e),
            Ok(None) => Ok(None),
            Ok(Some(size)) => {
                proof {
                    lemma_mul_nonnegative(size as int, *n as int);
                }
                match size.checked_mul(*n) {
                    None => Err(LowerError::LayoutOverflow),
                    Some(total) => Ok(Some(total)),
                }
            },
        },
        _ => Ok(None),
    }
}

/// How many bytes a field takes: its stored size, or else the bytes of its
/// converted type.
pub open spec fn field_advance(field: MirType, converted: LlvmShape) -> Result<u64, LowerError> {
    match stored_size(field) {
        Err(e) => Err(e),
        Ok(Some(size)) => Ok(size),
        Ok(None) => match type_bytes(converted) {
            None => Err(LowerError::SizeUnknown),
            Some(size) => Ok(size),
        },
    }
}

fn advance_of(field: &MirType, converted: &LlvmType) -> (r: Result<u64, LowerError>)
    ensures
        r == field_advance(*field, converted@),
{
    match mir_stored_size(field) {
        Err(e) => Err(e),
        Ok(Some(size)) => Ok(size),
        Ok(None) => match get_type_size(converted) {
            None => Err(LowerError::SizeUnknown),
            Some(size) => Ok(size),
        },
    }
}

/// Whether `order` names each of `n` fields exactly once.
pub open spec fn is_field_permutation(order: Seq<usize>, n: nat) -> bool {
    &&& order.len() == n
    &&& forall|i: int| 0 <= i < n ==> #[trigger] order[i] < n
    &&& forall|i: int, j: int| 0 <= i < j < n ==> #[trigger] order[i] != #[trigger] order[j]
}

/// Whether rustc's field offsets and size are known.
pub open spec fn explicit_layout(offsets: Seq<u64>, total_size: u64) -> bool {
    offsets.len() > 0 && total_size > 0
}

/// Why the layout facts of a struct with `n` fields contradict each other, if
/// they do.
pub open spec fn layout_defect(
    n: usize,
    order: Seq<usize>,
    offsets: Seq<u64>,
    total_size: u64,
) -> Option<LowerError> {
    if order.len() != n {
        Some(LowerError::MemoryOrderLength { entries: order.len() as usize, fields: n })
    } else if !is_field_permutation(order, n as nat) {
        Some(LowerError::MemoryOrderNotPermutation)
    } else if explicit_layout(offsets, total_size) && offsets.len() != n {
        Some(LowerError::FieldOffsetCount { offsets: offsets.len() as usize, fields: n })
    } else {
        None
    }
}

/// The fields placed so far.
pub ghost struct Placement {
    /// Fields of the LLVM struct, padding among them.
    pub fields: Seq<LlvmShape>,
    /// LLVM slot of each declared field.
    pub slots: Seq<Option<u32>>,
    /// Bytes covered, where the layout is explicit.
    pub offset: int,
}

/// Placement of one field of type `ty`, declared at index `decl`: at `target`
/// with padding before it, where the layout is explicit. A zero-sized field is
/// left out.
pub open spec fn place_field(
    p: Placement,
    decl: int,
    field: MirType,
    ty: LlvmShape,
    target: Option<u64>,
) -> Result<Placement, LowerError> {
    if zero_sized(ty) {
        Ok(p)
    } else {
        let gap = target is Some && p.offset < target->Some_0;
        let before = if gap {
            p.fields.push(padding(target->Some_0 - p.offset))
        } else {
            p.fields
        };
        let start = if gap {
            target->Some_0 as int
        } else {
            p.offset
        };
        let placed = Placement {
            fields: before.push(ty),
            slots: p.slots.update(decl, Some(before.len() as u32)),
            offset: start,
        };
        if target is None {
            Ok(placed)
        } else {
            match field_advance(field, ty) {
                Err(e) => Err(e),
                Ok(size) => if start + size > u64::MAX {
                    Err(LowerError::LayoutOverflow)
                } else {
                    Ok(Placement { offset: start + size, ..placed })
                },
            }
        }
    }
}

/// Placement of the first `k` fields in memory order.
pub open spec fn place_fields(
    fields: Seq<MirType>,
    types: Seq<LlvmShape>,
    order: Seq<usize>,
    offsets: Seq<u64>,
    total_size: u64,
    k: int,
) -> Result<Placement, LowerError>
    decreases k,
{
    if k <= 0 {
        Ok(
            Placement {
                fields: Seq::empty(),
                slots: Seq::new(types.len(), |i: int| None),
                offset: 0,
            },
        )
    } else {
        match place_fields(fields, types, order, offsets, total_size, k - 1) {
            Err(e) => Err(e),
            Ok(p) => {
                let decl = order[k - 1] as int;
                let target = if explicit_layout(offsets, total_size) {
                    Some(offsets[decl])
                } else {
                    None
                };
                place_field(p, decl, fields[decl], types[decl], target)
            },
        }
    }
}

/// The model of a [`StructSlotMap`].
pub ghost struct StructSlots {
    pub fields: Seq<LlvmShape>,
    pub decl_to_llvm: Seq<Option<u32>>,
    pub field_types: Seq<LlvmShape>,
}

/// The slots of a struct whose fields convert to `types`: its fields in memory
/// order, then padding up to its size.
pub open spec fn struct_slots(
    fields: Seq<MirType>,
    types: Seq<LlvmShape>,
    order: Seq<usize>,
    offsets: Seq<u64>,
    total_size: u64,
) -> Result<StructSlots, LowerError> {
    match place_fields(fields, types, order, offsets, total_size, order.len() as int) {
        Err(e) => Err(e),
        Ok(p) => {
            let padded = if explicit_layout(offsets, total_size) && p.offset < total_size {
                p.fields.push(padding(total_size - p.offset))
            } else {
                p.fields
            };
            if padded.len() > u32::MAX {
                Err(LowerError::SlotCount { fields: padded.len() as usize })
            } else {
                Ok(StructSlots { fields: padded, decl_to_llvm: p.slots, field_types: types })
            }
        },
    }
}

/// An LLVM struct and where each declared field landed in it.
pub struct StructSlotMap {
    /// The LLVM struct type, `[N x i8]` padding included.
    pub llvm_struct_ty: LlvmType,
    /// LLVM slot of each field in declaration order; nothing for a zero-sized
    /// field, which has no slot.
    pub decl_to_llvm: Vec<Option<u32>>,
    /// Converted type of each field in declaration order.
    pub field_llvm_types: Vec<LlvmType>,
}

impl StructSlotMap {
    /// Whether this map is the one that `slots` describes.
    pub open spec fn models(self, slots: StructSlots) -> bool {
        &&& self.llvm_struct_ty@ == LlvmShape::Struct(slots.fields)
        &&& self.decl_to_llvm@ == slots.decl_to_llvm
        &&& shapes(self.field_llvm_types@) == slots.field_types
    }
}

/// Checks that the layout facts of a struct with `n` fields agree.
pub fn check_struct_layout(
    n: usize,
    order: &Vec<usize>,
    offsets: &Vec<u64>,
    total_size: u64,
) -> (r: Option<LowerError>)
    ensures
        r == layout_defect(n, order@, offsets@, total_size),
{
    if order.len() != n {
        return Some(LowerError::MemoryOrderLength { entries: order.len(), fields: n });
    }
    let mut seen: Vec<bool> = Vec::new();
    for i in 0..n
        invariant
            seen@.len() == i,
            forall|d: int| 0 <= d < i ==> !seen@[d],
    {
        seen.push(false);
    }
    for i in 0..n
        invariant
            order@.len() == n,
            seen@.len() == n,
            forall|j: int| 0 <= j < i ==> #[trigger] order@[j] < n && seen@[order@[j] as int],
            forall|d: int|
                0 <= d < n && #[trigger] seen@[d] ==> exists|j: int|
                    0 <= j < i && #[trigger] order@[j] == d,
            forall|j: int, l: int|
                0 <= j < l < i ==> #[trigger] order@[j] != #[trigger] order@[l],
    {
        let decl: usize = order[i];
        if decl >= n || seen[decl] {
            if decl < n {
                let ghost j = choose|j: int| 0 <= j < i && #[trigger] order@[j] == decl;
                assert(order@[j] == order@[i as int]);
            }
            assert(!is_field_permutation(order@, n as nat));
            return Some(LowerError::MemoryOrderNotPermutation);
        }
        let ghost before = seen@;
        seen.set(decl, true);
        assert forall|d: int| 0 <= d < n && #[trigger] seen@[d] implies exists|j: int|
            0 <= j < i + 1 && #[trigger] order@[j] == d by {
            if d != decl {
                assert(before[d]);
            } else {
                assert(order@[i as int] == d);
            }
        }
    }
    if offsets.len() != 0 && total_size > 0 && offsets.len() != n {
        return Some(LowerError::FieldOffsetCount { offsets: offsets.len(), fields: n });
    }
    None
}

/// Once a field fails to be placed, so does the struct.
pub proof fn lemma_place_error(
    fields: Seq<MirType>,
    types: Seq<LlvmShape>,
    order: Seq<usize>,
    offsets: Seq<u64>,
    total_size: u64,
    k: int,
    n: int,
)
    requires
        0 <= k <= n,
        place_fields(fields, types, order, offsets, total_size, k) is Err,
    ensures
        place_fields(fields, types, order, offsets, total_size, n) == place_fields(
            fields,
            types,
            order,
            offsets,
            total_size,
            k,
        ),
    decreases n - k,
{
    if k < n {
        lemma_place_error(fields, types, order, offsets, total_size, k + 1, n);
    }
}

/// Lays the fields of a struct out in memory order.
///
/// Where rustc's layout is known, `[N x i8]` padding brings each field to its
/// byte offset and the struct to its size, so that the bytes do not depend on
/// LLVM's own layout rules.
pub fn place_struct_fields(
    fields: &Vec<MirType>,
    types: Vec<LlvmType>,
    order: &Vec<usize>,
    offsets: &Vec<u64>,
    total_size: u64,
) -> (r: Result<StructSlotMap, LowerError>)
    requires
        fields@.len() == types@.len(),
        layout_defect(fields@.len() as usize, order@, offsets@, total_size) is None,
    ensures
        match r {
            Ok(map) => {
                &&& struct_slots(fields@, shapes(types@), order@, offsets@, total_size) is Ok
                &&& map.models(
                    struct_slots(fields@, shapes(types@), order@, offsets@, total_size)->Ok_0,
                )
            },
            Err(e) => struct_slots(fields@, shapes(types@), order@, offsets@, total_size) == Err::<
                StructSlots,
                LowerError,
            >(e),
        },
{
    let ghost tys = shapes(types@);
    let n: usize = fields.len();
    let explicit: bool = offsets.len() > 0 && total_size > 0;
    let mut out: Vec<LlvmType> = Vec::new();
    let mut slots: Vec<Option<u32>> = Vec::new();
    for i in 0..n
        invariant
            slots@ =~= Seq::new(i as nat, |j: int| None),
    {
        slots.push(None);
    }
    let mut offset: u64 = 0;
    let ghost start = place_fields(fields@, tys, order@, offsets@, total_size, 0);
    assert(shapes(out@) =~= Seq::empty());
    assert(slots@ =~= start->Ok_0.slots);
    for i in 0..n
        invariant
            n == fields@.len(),
            n == types@.len(),
            n == tys.len(),
            tys == shapes(types@),
            explicit == explicit_layout(offsets@, total_size),
            layout_defect(n, order@, offsets@, total_size) is None,
            slots@.len() == n,
            place_fields(fields@, tys, order@, offsets@, total_size, i as int) == Ok::<
                Placement,
                LowerError,
            >(Placement { fields: shapes(out@), slots: slots@, offset: offset as int }),
    {
        let ghost p = Placement { fields: shapes(out@), slots: slots@, offset: offset as int };
        let decl: usize = order[i];
        assert(tys[decl as int] == types@[decl as int]@);
        let ghost next = place_fields(fields@, tys, order@, offsets@, total_size, i + 1);
        proof {
            if next is Err {
                lemma_place_error(
                    fields@,
                    tys,
                    order@,
                    offsets@,
                    total_size,
                    i + 1,
                    order@.len() as int,
                );
            }
        }
        if !is_zero_sized_type(&types[decl]) {
            if explicit {
                let target: u64 = offsets[decl];
                if offset < target {
                    let pad = make_padding_type(target - offset);
                    let ghost before = out@;
                    out.push(pad);
                    assert(shapes(out@) =~= shapes(before).push(pad@));
                    offset = target;
                }
            }
            let slot: u32 = out.len() as u32;
            slots.set(decl, Some(slot));
            let ty = types[decl].duplicate();
            let ghost before = out@;
            out.push(ty);
            assert(shapes(out@) =~= shapes(before).push(ty@));
            if explicit {
                let size: u64 = match advance_of(&fields[decl], &types[decl]) {
                    Err(e) => {
                        return Err(e);
                    },
                    Ok(size) => size,
                };
                offset =
                match offset.checked_add(size) {
                    None => {
                        return Err(LowerError::LayoutOverflow);
                    },
                    Some(next) => next,
                };
            }
        }
    }
    if explicit && offset < total_size {
        let pad = make_padding_type(total_size - offset);
        let ghost before = out@;
        out.push(pad);
        assert(shapes(out@) =~= shapes(before).push(pad@));
    }
    assert(shapes(out@).len() == out@.len());
    if out.len() as u64 > u32::MAX as u64 {
        return Err(LowerError::SlotCount { fields: out.len() });
    }
    Ok(
        StructSlotMap {
            llvm_struct_ty: LlvmType::structure(out),
            decl_to_llvm: slots,
            field_llvm_types: types,
        },
    )
}

proof fn lemma_placed_slots_in_range(
    fields: Seq<MirType>,
    types: Seq<LlvmShape>,
    order: Seq<usize>,
    offsets: Seq<u64>,
    total_size: u64,
    k: int,
)
    requires
        is_field_permutation(order, types.len()),
        0 <= k <= order.len(),
        place_fields(fields, types, order, offsets, total_size, k) is Ok,
    ensures
        ({
            let p = place_fields(fields, types, order, offsets, total_size, k)->Ok_0;
            &&& p.slots.len() == types.len()
            &&& forall|d: int|
                0 <= d < p.slots.len() && #[trigger] p.slots[d] is Some ==> p.slots[d]->Some_0
                    < p.fields.len()
        }),
    decreases k,
{
    if k > 0 {
        lemma_placed_slots_in_range(fields, types, order, offsets, total_size, k - 1);
    }
}

/// Every slot of a slot map is a field of its struct.
pub proof fn lemma_slots_in_range(
    fields: Seq<MirType>,
    types: Seq<LlvmShape>,
    order: Seq<usize>,
    offsets: Seq<u64>,
    total_size: u64,
)
    requires
        is_field_permutation(order, types.len()),
        struct_slots(fields, types, order, offsets, total_size) is Ok,
    ensures
        ({
            let s = struct_slots(fields, types, order, offsets, total_size)->Ok_0;
            &&& s.decl_to_llvm.len() == types.len()
            &&& forall|d: int|
                0 <= d < s.decl_to_llvm.len() && #[trigger] s.decl_to_llvm[d] is Some
                    ==> s.decl_to_llvm[d]->Some_0 < s.fields.len()
        }),
{
    lemma_placed_slots_in_range(
        fields,
        types,
        order,
        offsets,
        total_size,
        order.len() as int,
    );
}

/// Whether declared field `d` has no slot exactly if it is zero-sized, and else
/// a slot that holds its type.
spec fn slot_matches(p: Placement, types: Seq<LlvmShape>, d: int) -> bool {
    &&& p.slots[d] is Some <==> !zero_sized(types[d])
    &&& p.slots[d] is Some ==> p.slots[d]->Some_0 < p.fields.len()
        && p.fields[p.slots[d]->Some_0 as int] == types[d]
}

proof fn lemma_placed_slots(
    fields: Seq<MirType>,
    types: Seq<LlvmShape>,
    order: Seq<usize>,
    offsets: Seq<u64>,
    total_size: u64,
    k: int,
)
    requires
        is_field_permutation(order, types.len()),
        0 <= k <= order.len(),
        place_fields(fields, types, order, offsets, total_size, k) is Ok,
        place_fields(fields, types, order, offsets, total_size, k)->Ok_0.fields.len() <= u32::MAX,
    ensures
        ({
            let p = place_fields(fields, types, order, offsets, total_size, k)->Ok_0;
            &&& p.slots.len() == types.len()
            &&& forall|q: int| 0 <= q < k ==> slot_matches(p, types, #[trigger] order[q] as int)
            &&& forall|q: int|
                k <= q < order.len() ==> p.slots[#[trigger] order[q] as int] is None
            &&& forall|q: int, r: int|
                0 <= q < r < k && p.slots[#[trigger] order[q] as int] is Some
                    && p.slots[#[trigger] order[r] as int] is Some ==> p.slots[order[q] as int]
                    != p.slots[order[r] as int]
        }),
    decreases k,
{
    if k > 0 {
        lemma_place_prefix(fields, types, order, offsets, total_size, k - 1, k);
        lemma_placed_slots(fields, types, order, offsets, total_size, k - 1);
        let past = place_fields(fields, types, order, offsets, total_size, k - 1)->Ok_0;
        let p = place_fields(fields, types, order, offsets, total_size, k)->Ok_0;
        let d = order[k - 1] as int;
        assert forall|q: int| 0 <= q < k implies slot_matches(
            p,
            types,
            #[trigger] order[q] as int,
        ) by {
            if q < k - 1 {
                assert(slot_matches(past, types, order[q] as int));
                assert(order[q] != order[k - 1]);
            }
        }
    }
}

/// Every field that takes bytes has a slot of its own, which holds its type;
/// zero-sized fields have none.
pub proof fn law_struct_slots_hold_fields(
    fields: Seq<MirType>,
    types: Seq<LlvmShape>,
    order: Seq<usize>,
    offsets: Seq<u64>,
    total_size: u64,
)
    requires
        is_field_permutation(order, types.len()),
        struct_slots(fields, types, order, offsets, total_size) is Ok,
    ensures
        ({
            let s = struct_slots(fields, types, order, offsets, total_size)->Ok_0;
            &&& s.decl_to_llvm.len() == types.len()
            &&& forall|d: int|
                0 <= d < types.len() ==> (#[trigger] s.decl_to_llvm[d] is None <==> zero_sized(
                    types[d],
                ))
            &&& forall|d: int|
                0 <= d < types.len() && #[trigger] s.decl_to_llvm[d] is Some ==> {
                    &&& s.decl_to_llvm[d]->Some_0 < s.fields.len()
                    &&& s.fields[s.decl_to_llvm[d]->Some_0 as int] == types[d]
                }
            &&& forall|c: int, d: int|
                0 <= c < d < types.len() && #[trigger] s.decl_to_llvm[c] is Some
                    && #[trigger] s.decl_to_llvm[d] is Some ==> s.decl_to_llvm[c]
                    != s.decl_to_llvm[d]
        }),
{
    let n = order.len() as int;
    lemma_placed_slots(fields, types, order, offsets, total_size, n);
    let p = place_fields(fields, types, order, offsets, total_size, n)->Ok_0;
    let s = struct_slots(fields, types, order, offsets, total_size)->Ok_0;
    assert forall|d: int| 0 <= d < types.len() implies slot_matches(p, types, d) && (
    #[trigger] s.decl_to_llvm[d] is None <==> zero_sized(types[d])) by {
        lemma_permutation_reaches(order, types.len(), d);
        let q = choose|q: int| 0 <= q < n && #[trigger] order[q] == d;
        assert(slot_matches(p, types, order[q] as int));
    }
    assert forall|c: int, d: int|
        0 <= c < d < types.len() && #[trigger] s.decl_to_llvm[c] is Some
            && #[trigger] s.decl_to_llvm[d] is Some implies s.decl_to_llvm[c]
        != s.decl_to_llvm[d] by {
        lemma_permutation_reaches(order, types.len(), c);
        lemma_permutation_reaches(order, types.len(), d);
        let q = choose|q: int| 0 <= q < n && #[trigger] order[q] == c;
        let r = choose|r: int| 0 <= r < n && #[trigger] order[r] == d;
        if q < r {
            assert(p.slots[order[q] as int] != p.slots[order[r] as int]);
        } else {
            assert(p.slots[order[r] as int] != p.slots[order[q] as int]);
        }
    }
}

/// A permutation reaches every field.
pub proof fn lemma_permutation_reaches(order: Seq<usize>, n: nat, d: int)
    requires
        is_field_permutation(order, n),
        0 <= d < n,
    ensures
        exists|q: int| 0 <= q < n && #[trigger] order[q] == d,
{
    if forall|q: int| 0 <= q < n ==> #[trigger] order[q] != d {
        let all = Set::<int>::range(0, n as int);
        let image = Set::new(|x: int| exists|q: int| 0 <= q < n && #[trigger] order[q] == x);
        let ints = order.map_values(|x: usize| x as int);
        ints.unique_seq_to_set();
        assert(ints.to_set() =~= image) by {
            assert forall|x: int| image.contains(x) implies ints.to_set().contains(x) by {
                let q = choose|q: int| 0 <= q < n && #[trigger] order[q] == x;
                assert(ints[q] == x);
            }
        }
        assert(ints.to_set().subset_of(all.remove(d)));
        vstd::set_lib::lemma_int_range(0, n as int);
        vstd::set_lib::lemma_len_subset(ints.to_set(), all.remove(d));
    }
}

/// Whether rustc's layout places fields as LLVM can: every field that takes
/// bytes is aligned and has its natural size, and in memory order each starts
/// after the end of those before it.
pub open spec fn naturally_placed(
    fields: Seq<MirType>,
    types: Seq<LlvmShape>,
    order: Seq<usize>,
    offsets: Seq<u64>,
    total_size: u64,
) -> bool {
    &&& forall|d: int|
        0 <= d < types.len() && !zero_sized(#[trigger] types[d]) ==> {
            let (size, align) = size_align(types[d])->Some_0;
            &&& size_align(types[d]) is Some
            &&& field_advance(fields[d], types[d]) == Ok::<u64, LowerError>(size)
            &&& offsets[d] as int % align as int == 0
            &&& offsets[d] + size <= total_size
        }
    &&& forall|p: int, q: int|
        0 <= p < q < order.len() && !zero_sized(types[#[trigger] order[p] as int]) && !zero_sized(
            types[#[trigger] order[q] as int],
        ) ==> offsets[order[p] as int] + size_align(types[order[p] as int])->Some_0.0
            <= offsets[order[q] as int]
}

pub proof fn lemma_padding_layout(n: int)
    requires
        0 <= n <= u64::MAX,
    ensures
        size_align(padding(n)) == Some((n as u64, 1u64)),
{
    assert(size_align(LlvmShape::Integer(8)) == Some((1u64, 1u64)));
    assert(1 * (n as u64) == n);
}

/// Placing further fields keeps the fields placed so far.
proof fn lemma_place_prefix(
    fields: Seq<MirType>,
    types: Seq<LlvmShape>,
    order: Seq<usize>,
    offsets: Seq<u64>,
    total_size: u64,
    k: int,
    n: int,
)
    requires
        0 <= k <= n,
        place_fields(fields, types, order, offsets, total_size, n) is Ok,
    ensures
        place_fields(fields, types, order, offsets, total_size, k) is Ok,
        place_fields(fields, types, order, offsets, total_size, k)->Ok_0.fields.len()
            <= place_fields(fields, types, order, offsets, total_size, n)->Ok_0.fields.len(),
    decreases n - k,
{
    if k < n {
        lemma_place_prefix(fields, types, order, offsets, total_size, k + 1, n);
    }
}

proof fn lemma_placed_at_offsets(
    fields: Seq<MirType>,
    types: Seq<LlvmShape>,
    order: Seq<usize>,
    offsets: Seq<u64>,
    total_size: u64,
    k: int,
)
    requires
        is_field_permutation(order, types.len()),
        explicit_layout(offsets, total_size),
        offsets.len() == types.len(),
        naturally_placed(fields, types, order, offsets, total_size),
        0 <= k <= order.len(),
        place_fields(fields, types, order, offsets, total_size, k) is Ok,
        place_fields(fields, types, order, offsets, total_size, k)->Ok_0.fields.len() <= u32::MAX,
    ensures
        ({
            let p = place_fields(fields, types, order, offsets, total_size, k)->Ok_0;
            let extent = prefix_extent(size_aligns(p.fields), p.fields.len() as int);
            &&& p.slots.len() == types.len()
            &&& 0 <= p.offset <= total_size
            &&& extent is Some
            &&& extent->Some_0.0 == p.offset
            &&& forall|q: int|
                k <= q < order.len() && !zero_sized(types[#[trigger] order[q] as int]) ==> p.offset
                    <= offsets[order[q] as int]
            &&& forall|q: int|
                0 <= q < k && !zero_sized(types[#[trigger] order[q] as int]) ==> {
                    &&& p.slots[order[q] as int] is Some
                    &&& field_at(
                        p.fields,
                        p.slots[order[q] as int]->Some_0 as int,
                        types[order[q] as int],
                        offsets[order[q] as int] as int,
                    )
                }
        }),
    decreases k,
{
    if k > 0 {
        lemma_place_prefix(fields, types, order, offsets, total_size, k - 1, k);
        lemma_placed_at_offsets(fields, types, order, offsets, total_size, k - 1);
        let past = place_fields(fields, types, order, offsets, total_size, k - 1)->Ok_0;
        let p = place_fields(fields, types, order, offsets, total_size, k)->Ok_0;
        let d = order[k - 1] as int;
        let ty = types[d];
        if !zero_sized(ty) {
            let (size, align) = size_align(ty)->Some_0;
            let target = offsets[d];
            let gap = past.offset < target;
            let pad = padding(target - past.offset);
            let before = if gap {
                past.fields.push(pad)
            } else {
                past.fields
            };
            assert(past.offset <= target);
            if gap {
                lemma_padding_layout(target - past.offset);
                assert(past.offset % 1 == 0);
                lemma_push_at_end(past.fields, pad, past.offset as u64);
            }
            lemma_push_at_end(before, ty, target);
            assert(p.fields == before.push(ty));
            assert(p.slots[d] == Some(before.len() as u32));
            assert forall|q: int| 0 <= q < k && !zero_sized(
                types[#[trigger] order[q] as int],
            ) implies {
                &&& p.slots[order[q] as int] is Some
                &&& field_at(
                    p.fields,
                    p.slots[order[q] as int]->Some_0 as int,
                    types[order[q] as int],
                    offsets[order[q] as int] as int,
                )
            } by {
                if q < k - 1 {
                    assert(order[q] != order[k - 1]);
                    let c = order[q] as int;
                    let slot = past.slots[c]->Some_0 as int;
                    assert(field_at(past.fields, slot, types[c], offsets[c] as int));
                    if gap {
                        lemma_push_keeps_field(
                            past.fields,
                            pad,
                            slot,
                            types[c],
                            offsets[c] as int,
                        );
                    }
                    lemma_push_keeps_field(before, ty, slot, types[c], offsets[c] as int);
                }
            }
        }
    }
}

/// Where rustc's layout is known and places fields naturally, the LLVM struct
/// places every field at rustc's byte offset and ends at rustc's size.
pub proof fn law_struct_slots_keep_offsets(
    fields: Seq<MirType>,
    types: Seq<LlvmShape>,
    order: Seq<usize>,
    offsets: Seq<u64>,
    total_size: u64,
)
    requires
        is_field_permutation(order, types.len()),
        explicit_layout(offsets, total_size),
        offsets.len() == types.len(),
        naturally_placed(fields, types, order, offsets, total_size),
        struct_slots(fields, types, order, offsets, total_size) is Ok,
    ensures
        ({
            let s = struct_slots(fields, types, order, offsets, total_size)->Ok_0;
            let extent = prefix_extent(size_aligns(s.fields), s.fields.len() as int);
            &&& extent is Some
            &&& extent->Some_0.0 == total_size
            &&& forall|d: int|
                0 <= d < types.len() && !zero_sized(#[trigger] types[d]) ==> {
                    &&& s.decl_to_llvm[d] is Some
                    &&& field_at(
                        s.fields,
                        s.decl_to_llvm[d]->Some_0 as int,
                        types[d],
                        offsets[d] as int,
                    )
                }
        }),
{
    let n = order.len() as int;
    lemma_placed_at_offsets(fields, types, order, offsets, total_size, n);
    let p = place_fields(fields, types, order, offsets, total_size, n)->Ok_0;
    let s = struct_slots(fields, types, order, offsets, total_size)->Ok_0;
    let pad = padding(total_size - p.offset);
    if p.offset < total_size {
        lemma_padding_layout(total_size - p.offset);
        assert(p.offset % 1 == 0);
        lemma_push_at_end(p.fields, pad, p.offset as u64);
    }
    assert forall|d: int| 0 <= d < types.len() && !zero_sized(#[trigger] types[d]) implies {
        &&& s.decl_to_llvm[d] is Some
        &&& field_at(
            s.fields,
            s.decl_to_llvm[d]->Some_0 as int,
            types[d],
            offsets[d] as int,
        )
    } by {
        lemma_permutation_reaches(order, types.len(), d);
        let q = choose|q: int| 0 <= q < n && #[trigger] order[q] == d;
        let slot = p.slots[order[q] as int]->Some_0 as int;
        assert(field_at(p.fields, slot, types[d], offsets[d] as int));
        if p.offset < total_size {
            lemma_push_keeps_field(p.fields, pad, slot, types[d], offsets[d] as int);
        }
    }
}

} // verus!
