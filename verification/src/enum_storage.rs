//! The LLVM struct that holds the claimed bytes of an enum.

use crate::enum_claims::{claim_shapes, claim_sound, claims_sound, Claim, ClaimShape};
use crate::error::LowerError;
use crate::layout::{
    field_at, is_align, larger, lemma_is_align, lemma_prefix_none, lemma_push_at_end,
    lemma_align_divides, lemma_prefix_align, lemma_push_keeps_field, lemma_struct_size_align,
    natural_layout, natural_offset, natural_struct_layout, prefix_extent, size_align, size_aligns,
};
use crate::llvm::{shapes, LlvmShape, LlvmType};
use crate::sort::{comes_first, lemma_sorted_positions, sort_positions, sorted_positions};
use crate::storage::{byte_faithful, contains_leaf, LeafKind};
use crate::struct_slots::{make_padding_type, padding};
use vstd::prelude::*;
use vstd::set_lib::{lemma_int_range, lemma_len_subset, set_int_range};

verus! {

/// Storage for `size` bytes at `offset` that no slot claims: one integer where
/// that moves nothing, otherwise bytes.
pub open spec fn filler(offset: int, size: int, abi_align: u64) -> LlvmShape {
    if (size == 2 || size == 4 || size == 8) && offset % size == 0 && size <= larger(abi_align, 1) {
        LlvmShape::Integer((size * 8) as u32)
    } else {
        padding(size)
    }
}

/// Storage for unclaimed enum bytes.
///
/// One integer is the same bytes as `[N x i8]` in a single leaf. It is used
/// where its width is two, four or eight bytes, it starts at a multiple of that
/// width, and it does not align wider than the enum.
pub fn make_enum_filler_type(offset: u64, size: u64, abi_align: u64) -> (r: LlvmType)
    ensures
        r@ == filler(offset as int, size as int, abi_align),
{
    let widest: u64 = if abi_align >= 1 {
        abi_align
    } else {
        1
    };
    if (size == 2 || size == 4 || size == 8) && offset % size == 0 && size <= widest {
        LlvmType::integer((size * 8) as u32)
    } else {
        make_padding_type(size)
    }
}

/// The slots laid down so far.
pub ghost struct Emission {
    pub fields: Seq<LlvmShape>,
    /// Slot of each claim.
    pub slots: Seq<usize>,
    /// Bytes covered.
    pub offset: int,
}

/// The slots of the first `k` claims of `order`, with fillers before them.
pub open spec fn emit_claims(
    claims: Seq<ClaimShape>,
    order: Seq<usize>,
    abi_align: u64,
    k: int,
) -> Emission
    decreases k,
{
    if k <= 0 {
        Emission {
            fields: Seq::empty(),
            slots: Seq::new(claims.len(), |i: int| 0usize),
            offset: 0,
        }
    } else {
        let past = emit_claims(claims, order, abi_align, k - 1);
        let claim = claims[order[k - 1] as int];
        let gap = past.offset < claim.offset;
        let before = if gap {
            past.fields.push(filler(past.offset, claim.offset - past.offset, abi_align))
        } else {
            past.fields
        };
        let start = if gap {
            claim.offset as int
        } else {
            past.offset
        };
        Emission {
            fields: before.push(claim.ty),
            slots: past.slots.update(order[k - 1] as int, before.len() as usize),
            offset: start + claim.size,
        }
    }
}

/// The sort keys of claims: their byte offsets.
pub open spec fn claim_keys(claims: Seq<ClaimShape>) -> Seq<(u64, bool)> {
    Seq::new(claims.len(), |i: int| (claims[i].offset, false))
}

/// All claims laid down in byte order, up to the enum's size.
pub open spec fn emission(claims: Seq<ClaimShape>, total_size: u64, abi_align: u64) -> Emission {
    let order = sorted_positions(claim_keys(claims));
    let all = emit_claims(claims, order, abi_align, claims.len() as int);
    if all.offset < total_size {
        Emission {
            fields: all.fields.push(filler(all.offset, total_size - all.offset, abi_align)),
            ..all
        }
    } else {
        all
    }
}

/// `[0 x iN]` over `align` bytes, which raises a struct's alignment and takes
/// no bytes.
pub open spec fn enum_anchor(align: u64) -> LlvmShape {
    LlvmShape::Array(Box::new(LlvmShape::Integer((align * 8) as u32)), 0)
}

/// The storage struct of an enum and the slot of each of its claims.
pub ghost struct EnumStorageShape {
    pub fields: Seq<LlvmShape>,
    pub slots: Seq<u32>,
}

/// The storage struct over `claims`: it has exactly the enum's size, and an
/// anchor in front where the claims alone align too narrowly.
pub open spec fn enum_storage(claims: Seq<ClaimShape>, total_size: u64, abi_align: u64) -> Result<
    EnumStorageShape,
    LowerError,
> {
    let e = emission(claims, total_size, abi_align);
    let required = larger(abi_align, 1);
    match natural_layout(e.fields) {
        None => Err(LowerError::EnumStorageLayout),
        Some((_, size, align)) => if size != total_size {
            Err(LowerError::EnumStorageSize { lowered: size, expected: total_size })
        } else if align > required {
            Err(LowerError::EnumStorageAlign { lowered: align, expected: abi_align })
        } else if align < required {
            if required * 8 > u64::MAX {
                Err(LowerError::LayoutOverflow)
            } else if e.fields.len() + 1 > u32::MAX {
                Err(LowerError::SlotCount { fields: (e.fields.len() + 1) as usize })
            } else {
                Ok(
                    EnumStorageShape {
                        fields: seq![enum_anchor(required)] + e.fields,
                        slots: Seq::new(e.slots.len(), |i: int| (e.slots[i] + 1) as u32),
                    },
                )
            }
        } else if e.fields.len() > u32::MAX {
            Err(LowerError::SlotCount { fields: e.fields.len() as usize })
        } else {
            Ok(
                EnumStorageShape {
                    fields: e.fields,
                    slots: Seq::new(e.slots.len(), |i: int| e.slots[i] as u32),
                },
            )
        },
    }
}

/// A storage struct under construction.
pub struct EnumStorage {
    pub fields: Vec<LlvmType>,
    pub slots: Vec<u32>,
}

/// Whether no claim still to come starts before `offset`, but for empty ones.
spec fn clear_of_rest(claims: Seq<ClaimShape>, order: Seq<usize>, offset: int, k: int) -> bool {
    forall|p: int|
        k <= p < order.len() && claims[#[trigger] order[p] as int].size > 0 ==> offset
            <= claims[order[p] as int].offset
}

proof fn lemma_clear_of_rest(claims: Seq<ClaimShape>, k: int, offset: int, total_size: u64)
    requires
        claims.len() <= usize::MAX,
        claims_sound(claims, total_size),
        0 <= k < claims.len(),
        offset <= total_size,
        clear_of_rest(claims, sorted_positions(claim_keys(claims)), offset, k),
    ensures
        ({
            let claim = claims[sorted_positions(claim_keys(claims))[k] as int];
            let start = if offset < claim.offset {
                claim.offset as int
            } else {
                offset
            };
            &&& start + claim.size <= total_size
            &&& clear_of_rest(
                claims,
                sorted_positions(claim_keys(claims)),
                start + claim.size,
                k + 1,
            )
        }),
{
    let keys = claim_keys(claims);
    let order = sorted_positions(keys);
    lemma_sorted_positions(keys);
    let claim = claims[order[k] as int];
    assert(claim_sound(claim, total_size));
    let start = if offset < claim.offset {
        claim.offset as int
    } else {
        offset
    };
    assert forall|p: int|
        k + 1 <= p < order.len() && claims[#[trigger] order[p] as int].size > 0 implies start
        + claim.size <= claims[order[p] as int].offset by {
        assert(comes_first(keys, order[k], order[p]));
        assert(order[k] != order[p]);
        let a = order[k] as int;
        let b = order[p] as int;
        assert(keys[a] == (claims[a].offset, false));
        assert(keys[b] == (claims[b].offset, false));
        if a < b {
            assert(claims[a].offset + claims[a].size <= claims[b].offset || claims[b].offset
                + claims[b].size <= claims[a].offset);
        } else {
            assert(claims[b].offset + claims[b].size <= claims[a].offset || claims[a].offset
                + claims[a].size <= claims[b].offset);
        }
    }
}

/// Whether no claim still to come starts before `offset`.
spec fn before_rest(claims: Seq<ClaimShape>, order: Seq<usize>, offset: int, k: int) -> bool {
    forall|p: int|
        k <= p < order.len() ==> offset <= claims[#[trigger] order[p] as int].offset
}

/// Where only the first claim can be empty, none of the claims still to come starts
/// before the end of the one laid down.
proof fn lemma_before_rest(claims: Seq<ClaimShape>, k: int, total_size: u64)
    requires
        claims.len() <= usize::MAX,
        claims_sound(claims, total_size),
        forall|i: int| 0 < i < claims.len() ==> (#[trigger] claims[i]).size > 0,
        0 <= k < claims.len(),
    ensures
        ({
            let order = sorted_positions(claim_keys(claims));
            let claim = claims[order[k] as int];
            before_rest(claims, order, claim.offset + claim.size, k + 1)
        }),
{
    let keys = claim_keys(claims);
    let order = sorted_positions(keys);
    lemma_sorted_positions(keys);
    let claim = claims[order[k] as int];
    assert forall|p: int| k + 1 <= p < order.len() implies claim.offset + claim.size
        <= claims[#[trigger] order[p] as int].offset by {
        assert(comes_first(keys, order[k], order[p]));
        assert(order[k] != order[p]);
        let a = order[k] as int;
        let b = order[p] as int;
        assert(keys[a] == (claims[a].offset, false));
        assert(keys[b] == (claims[b].offset, false));
        if a < b {
            assert(claims[a].offset + claims[a].size <= claims[b].offset || claims[b].offset
                + claims[b].size <= claims[a].offset);
        } else {
            assert(claims[b].offset + claims[b].size <= claims[a].offset || claims[a].offset
                + claims[a].size <= claims[b].offset);
        }
    }
}

/// Lays claims down in byte order and fills every gap, so that the struct has
/// exactly the enum's size.
pub fn build_enum_storage(claims: &Vec<Claim>, total_size: u64, abi_align: u64) -> (r: Result<
    EnumStorage,
    LowerError,
>)
    requires
        claims_sound(claim_shapes(claims@), total_size),
    ensures
        match r {
            Ok(s) => enum_storage(claim_shapes(claims@), total_size, abi_align) == Ok::<
                EnumStorageShape,
                LowerError,
            >(EnumStorageShape { fields: shapes(s.fields@), slots: s.slots@ }),
            Err(e) => enum_storage(claim_shapes(claims@), total_size, abi_align) == Err::<
                EnumStorageShape,
                LowerError,
            >(e),
        },
{
    let ghost cs = claim_shapes(claims@);
    let ghost keys_model = claim_keys(cs);
    let n: usize = claims.len();
    let mut keys: Vec<(u64, bool)> = Vec::new();
    let mut slots: Vec<usize> = Vec::new();
    for i in 0..n
        invariant
            n == claims@.len(),
            cs == claim_shapes(claims@),
            keys@.len() == i,
            slots@.len() == i,
            forall|j: int| 0 <= j < i ==> #[trigger] keys@[j] == (cs[j].offset, false),
            forall|j: int| 0 <= j < i ==> #[trigger] slots@[j] == 0,
    {
        keys.push((claims[i].offset, false));
        slots.push(0);
    }
    assert(keys@ =~= keys_model);
    let order = sort_positions(&keys);
    proof {
        lemma_sorted_positions(keys_model);
    }
    let mut fields: Vec<LlvmType> = Vec::new();
    let mut offset: u64 = 0;
    assert(shapes(fields@) =~= Seq::empty());
    assert(slots@ =~= emit_claims(cs, order@, abi_align, 0).slots);
    for i in 0..n
        invariant
            n == claims@.len(),
            n == slots@.len(),
            n == order@.len(),
            cs == claim_shapes(claims@),
            cs.len() == n,
            claims_sound(cs, total_size),
            order@ == sorted_positions(claim_keys(cs)),
            forall|p: int| 0 <= p < n ==> #[trigger] order@[p] < n,
            offset <= total_size,
            clear_of_rest(cs, order@, offset as int, i as int),
            emit_claims(cs, order@, abi_align, i as int) == (Emission {
                fields: shapes(fields@),
                slots: slots@,
                offset: offset as int,
            }),
    {
        proof {
            lemma_clear_of_rest(cs, i as int, offset as int, total_size);
        }
        let ci: usize = order[i];
        assert(cs[ci as int] == claims@[ci as int]@);
        let claim = &claims[ci];
        if offset < claim.offset {
            let fill = make_enum_filler_type(offset, claim.offset - offset, abi_align);
            let ghost before = fields@;
            fields.push(fill);
            assert(shapes(fields@) =~= shapes(before).push(fill@));
            offset = claim.offset;
        }
        let slot: usize = fields.len();
        slots.set(ci, slot);
        let ty = claim.ty.duplicate();
        let ghost before = fields@;
        fields.push(ty);
        assert(shapes(fields@) =~= shapes(before).push(ty@));
        offset = offset + claim.size;
    }
    if offset < total_size {
        let fill = make_enum_filler_type(offset, total_size - offset, abi_align);
        let ghost before = fields@;
        fields.push(fill);
        assert(shapes(fields@) =~= shapes(before).push(fill@));
    }
    let ghost e = emission(cs, total_size, abi_align);
    assert(e.fields == shapes(fields@));
    assert(e.slots == slots@);
    let required: u64 = if abi_align >= 1 {
        abi_align
    } else {
        1
    };
    match natural_struct_layout(&fields) {
        None => Err(LowerError::EnumStorageLayout),
        Some((_end, size, align)) => {
            if size != total_size {
                return Err(LowerError::EnumStorageSize { lowered: size, expected: total_size });
            }
            if align > required {
                return Err(LowerError::EnumStorageAlign { lowered: align, expected: abi_align });
            }
            if align < required {
                if required > u64::MAX / 8 {
                    return Err(LowerError::LayoutOverflow);
                }
                let anchor = LlvmType::array(LlvmType::integer((required * 8) as u32), 0);
                let ghost before = fields@;
                fields.insert(0, anchor);
                assert(shapes(fields@) =~= seq![anchor@] + shapes(before));
                assert(fields@.len() == e.fields.len() + 1);
                if fields.len() as u64 > u32::MAX as u64 {
                    return Err(LowerError::SlotCount { fields: fields.len() });
                }
                let shifted = to_slots(&slots, true);
                assert(shifted@ =~= Seq::new(e.slots.len(), |i: int| (e.slots[i] + 1) as u32));
                return Ok(EnumStorage { fields, slots: shifted });
            }
            assert(fields@.len() == e.fields.len());
            if fields.len() as u64 > u32::MAX as u64 {
                return Err(LowerError::SlotCount { fields: fields.len() });
            }
            let plain = to_slots(&slots, false);
            assert(plain@ =~= Seq::new(e.slots.len(), |i: int| e.slots[i] as u32));
            Ok(EnumStorage { fields, slots: plain })
        },
    }
}

/// Slot indices, one further where an anchor stands in front.
fn to_slots(slots: &Vec<usize>, anchored: bool) -> (r: Vec<u32>)
    ensures
        r@.len() == slots@.len(),
        forall|i: int|
            0 <= i < slots@.len() ==> #[trigger] r@[i] == (slots@[i] + if anchored {
                1int
            } else {
                0int
            }) as u32,
{
    let mut out: Vec<u32> = Vec::new();
    for i in 0..slots.len()
        invariant
            out@.len() == i,
            forall|j: int|
                0 <= j < i ==> #[trigger] out@[j] == (slots@[j] + if anchored {
                    1int
                } else {
                    0int
                }) as u32,
    {
        let wide: u64 = slots[i] as u64;
        if anchored {
            out.push((wide as u128 + 1) as u32);
        } else {
            out.push(wide as u32);
        }
    }
    out
}

proof fn lemma_emitted_slot_count(
    claims: Seq<ClaimShape>,
    order: Seq<usize>,
    abi_align: u64,
    k: int,
)
    requires
        k <= order.len(),
        forall|p: int| 0 <= p < order.len() ==> #[trigger] order[p] < claims.len(),
    ensures
        emit_claims(claims, order, abi_align, k).slots.len() == claims.len(),
    decreases k,
{
    if k > 0 {
        lemma_emitted_slot_count(claims, order, abi_align, k - 1);
    }
}

/// Every claim adds a field.
proof fn lemma_emitted_field_count(
    claims: Seq<ClaimShape>,
    order: Seq<usize>,
    abi_align: u64,
    k: int,
    n: int,
)
    requires
        0 <= k <= n,
    ensures
        k <= emit_claims(claims, order, abi_align, k).fields.len(),
        emit_claims(claims, order, abi_align, k).fields.len() + (n - k) <= emit_claims(
            claims,
            order,
            abi_align,
            n,
        ).fields.len(),
    decreases n,
{
    if k < n {
        lemma_emitted_field_count(claims, order, abi_align, k, n - 1);
    } else if k > 0 {
        lemma_emitted_field_count(claims, order, abi_align, k - 1, n - 1);
    }
}

/// Storage has no fewer fields than claims, and a number for each.
pub proof fn lemma_storage_claim_count(claims: Seq<ClaimShape>, total_size: u64, abi_align: u64)
    requires
        enum_storage(claims, total_size, abi_align) is Ok,
    ensures
        claims.len() <= emission(claims, total_size, abi_align).fields.len() <= u32::MAX,
        enum_storage(claims, total_size, abi_align)->Ok_0.fields.len() <= u32::MAX,
{
    let order = sorted_positions(claim_keys(claims));
    lemma_emitted_field_count(
        claims,
        order,
        abi_align,
        claims.len() as int,
        claims.len() as int,
    );
}

/// Every claim has a slot.
pub proof fn lemma_storage_slot_count(claims: Seq<ClaimShape>, total_size: u64, abi_align: u64)
    requires
        claims.len() <= usize::MAX,
        enum_storage(claims, total_size, abi_align) is Ok,
    ensures
        enum_storage(claims, total_size, abi_align)->Ok_0.slots.len() == claims.len(),
{
    let order = sorted_positions(claim_keys(claims));
    lemma_sorted_positions(claim_keys(claims));
    lemma_emitted_slot_count(claims, order, abi_align, claims.len() as int);
}

proof fn lemma_filler_layout(offset: int, size: int, abi_align: u64)
    requires
        0 <= offset,
        0 < size <= u64::MAX,
    ensures
        size_align(filler(offset, size, abi_align)) is Some,
        size_align(filler(offset, size, abi_align))->Some_0.0 == size,
        offset % size_align(filler(offset, size, abi_align))->Some_0.1 as int == 0,
{
    let t = filler(offset, size, abi_align);
    if t is Integer {
        assert(size_align(t) == Some((size as u64, size as u64)));
    } else {
        assert(size_align(LlvmShape::Integer(8)) == Some((1u64, 1u64)));
        assert(1 * (size as u64) == size);
        assert(size_align(t) == Some((size as u64, 1u64)));
        assert(offset % 1 == 0);
    }
}

/// Whether slot `slot` of a struct over `fields` is `claim`, at its bytes.
pub open spec fn slot_holds(fields: Seq<LlvmShape>, slot: int, claim: ClaimShape) -> bool {
    field_at(fields, slot, claim.ty, claim.offset as int)
}

proof fn lemma_emitted_positions(
    claims: Seq<ClaimShape>,
    total_size: u64,
    abi_align: u64,
    k: int,
)
    requires
        claims.len() <= usize::MAX,
        claims_sound(claims, total_size),
        forall|i: int| 0 < i < claims.len() ==> (#[trigger] claims[i]).size > 0,
        0 <= k <= claims.len(),
        emit_claims(
            claims,
            sorted_positions(claim_keys(claims)),
            abi_align,
            k,
        ).fields.len() <= u32::MAX,
    ensures
        ({
            let order = sorted_positions(claim_keys(claims));
            let e = emit_claims(claims, order, abi_align, k);
            let extent = prefix_extent(size_aligns(e.fields), e.fields.len() as int);
            &&& 0 <= e.offset <= total_size
            &&& before_rest(claims, order, e.offset, k)
            &&& extent is Some
            &&& extent->Some_0.0 == e.offset
            &&& e.slots.len() == claims.len()
            &&& forall|q: int|
                0 <= q < k ==> slot_holds(
                    e.fields,
                    e.slots[#[trigger] order[q] as int] as int,
                    claims[order[q] as int],
                )
        }),
    decreases k,
{
    let keys = claim_keys(claims);
    let order = sorted_positions(keys);
    lemma_sorted_positions(keys);
    if k > 0 {
        lemma_emitted_field_count(claims, order, abi_align, k - 1, k);
        lemma_emitted_positions(claims, total_size, abi_align, k - 1);
        let past = emit_claims(claims, order, abi_align, k - 1);
        lemma_before_rest(claims, k - 1, total_size);
        let ci = order[k - 1] as int;
        let claim = claims[ci];
        assert(claim_sound(claim, total_size));
        let gap = past.offset < claim.offset;
        let before = if gap {
            past.fields.push(filler(past.offset, claim.offset - past.offset, abi_align))
        } else {
            past.fields
        };
        if gap {
            let fill = filler(past.offset, claim.offset - past.offset, abi_align);
            lemma_filler_layout(past.offset, claim.offset - past.offset, abi_align);
            lemma_push_at_end(past.fields, fill, past.offset as u64);
        }
        assert(past.offset <= claim.offset);
        let e = emit_claims(claims, order, abi_align, k);
        lemma_push_at_end(before, claim.ty, claim.offset);
        assert(e.slots[ci] == before.len());
        assert(slot_holds(e.fields, before.len() as int, claim));
        assert forall|q: int| 0 <= q < k implies slot_holds(
            e.fields,
            e.slots[#[trigger] order[q] as int] as int,
            claims[order[q] as int],
        ) by {
            if q < k - 1 {
                assert(order[q] != order[k - 1]);
                let slot = past.slots[order[q] as int] as int;
                assert(e.slots[order[q] as int] == slot);
                let c = claims[order[q] as int];
                assert(slot_holds(past.fields, slot, c));
                if gap {
                    lemma_push_keeps_field(
                        past.fields,
                        filler(past.offset, claim.offset - past.offset, abi_align),
                        slot,
                        c.ty,
                        c.offset as int,
                    );
                }
                lemma_push_keeps_field(before, claim.ty, slot, c.ty, c.offset as int);
            }
        }
    }
}

/// Laying down all claims puts each at its own bytes and covers exactly the
/// enum.
proof fn lemma_emission_positions(claims: Seq<ClaimShape>, total_size: u64, abi_align: u64)
    requires
        claims.len() <= usize::MAX,
        claims_sound(claims, total_size),
        forall|i: int| 0 < i < claims.len() ==> (#[trigger] claims[i]).size > 0,
        emission(claims, total_size, abi_align).fields.len() <= u32::MAX,
    ensures
        ({
            let e = emission(claims, total_size, abi_align);
            let extent = prefix_extent(size_aligns(e.fields), e.fields.len() as int);
            &&& extent is Some
            &&& extent->Some_0.0 == total_size
            &&& e.slots.len() == claims.len()
            &&& forall|c: int|
                0 <= c < claims.len() ==> slot_holds(
                    e.fields,
                    #[trigger] e.slots[c] as int,
                    claims[c],
                )
        }),
{
    let keys = claim_keys(claims);
    let order = sorted_positions(keys);
    lemma_sorted_positions(keys);
    let n = claims.len() as int;
    lemma_emitted_positions(claims, total_size, abi_align, n);
    let all = emit_claims(claims, order, abi_align, n);
    let e = emission(claims, total_size, abi_align);
    let fill = filler(all.offset, total_size - all.offset, abi_align);
    if all.offset < total_size {
        lemma_filler_layout(all.offset, total_size - all.offset, abi_align);
        lemma_push_at_end(all.fields, fill, all.offset as u64);
    }
    assert forall|c: int| 0 <= c < claims.len() implies slot_holds(
        e.fields,
        #[trigger] e.slots[c] as int,
        claims[c],
    ) by {
        assert(order.contains(c as usize));
        let q = choose|q: int| 0 <= q < order.len() && order[q] == c as usize;
        assert(slot_holds(all.fields, all.slots[order[q] as int] as int, claims[c]));
        if all.offset < total_size {
            lemma_push_keeps_field(
                all.fields,
                fill,
                all.slots[c] as int,
                claims[c].ty,
                claims[c].offset as int,
            );
        }
    }
}

/// A field that takes no bytes in front of a struct moves no field.
proof fn lemma_anchor_moves_nothing(fields: Seq<LlvmShape>, anchor: LlvmShape, k: int)
    requires
        0 <= k <= fields.len(),
        size_align(anchor) is Some,
        size_align(anchor)->Some_0.0 == 0,
        prefix_extent(size_aligns(fields), k) is Some,
    ensures
        prefix_extent(size_aligns(seq![anchor] + fields), k + 1) == Some(
            (
                prefix_extent(size_aligns(fields), k)->Some_0.0,
                larger(
                    size_align(anchor)->Some_0.1,
                    prefix_extent(size_aligns(fields), k)->Some_0.1,
                ),
            ),
        ),
        k < fields.len() ==> natural_offset(seq![anchor] + fields, k + 1) == natural_offset(
            fields,
            k,
        ),
    decreases k,
{
    let all = seq![anchor] + fields;
    let parts = size_aligns(all);
    lemma_is_align(anchor);
    assert(parts[0] == size_align(anchor));
    if k < fields.len() {
        assert(all[k + 1] == fields[k]);
    }
    if k > 0 {
        lemma_anchor_moves_nothing(fields, anchor, k - 1);
        assert(all[k] == fields[k - 1]);
        assert(parts[k] == size_aligns(fields)[k - 1]);
    } else {
        let align = size_align(anchor)->Some_0.1 as int;
        assert(0int % align == 0);
        assert(prefix_extent(parts, 0) == Some((0u64, 1u64)));
        assert(prefix_extent(parts, 1) == Some((0u64, larger(1, align as u64))));
    }
}

/// Enum storage keeps every claim in its slot at its own bytes.
///
/// The slots are those that the storage struct's natural layout places at the
/// claimed offsets, so host and device agree on where each byte is.
pub proof fn law_enum_storage_places_claims(
    claims: Seq<ClaimShape>,
    total_size: u64,
    abi_align: u64,
)
    requires
        claims_sound(claims, total_size),
        forall|i: int| 0 < i < claims.len() ==> (#[trigger] claims[i]).size > 0,
        enum_storage(claims, total_size, abi_align) is Ok,
    ensures
        ({
            let s = enum_storage(claims, total_size, abi_align)->Ok_0;
            &&& s.slots.len() == claims.len()
            &&& forall|c: int|
                0 <= c < claims.len() ==> slot_holds(
                    s.fields,
                    #[trigger] s.slots[c] as int,
                    claims[c],
                )
        }),
{
    lemma_storage_claim_count(claims, total_size, abi_align);
    lemma_emission_positions(claims, total_size, abi_align);
    let e = emission(claims, total_size, abi_align);
    let s = enum_storage(claims, total_size, abi_align)->Ok_0;
    let required = larger(abi_align, 1);
    let (end, size, align) = natural_layout(e.fields)->Some_0;
    if align < required {
        let anchor = enum_anchor(required);
        lemma_anchor_layout(required);
        assert forall|c: int| 0 <= c < claims.len() implies slot_holds(
            s.fields,
            #[trigger] s.slots[c] as int,
            claims[c],
        ) by {
            let slot = e.slots[c] as int;
            assert(slot_holds(e.fields, slot, claims[c]));
            lemma_prefix_of_layout(e.fields, slot);
            lemma_anchor_moves_nothing(e.fields, anchor, slot);
            assert(s.slots[c] == slot + 1);
        }
    } else {
        assert forall|c: int| 0 <= c < claims.len() implies slot_holds(
            s.fields,
            #[trigger] s.slots[c] as int,
            claims[c],
        ) by {
            assert(slot_holds(e.fields, e.slots[c] as int, claims[c]));
        }
    }
}

proof fn lemma_anchor_layout(align: u64)
    requires
        align * 8 <= u64::MAX,
    ensures
        size_align(enum_anchor(align)) is Some,
        size_align(enum_anchor(align))->Some_0.0 == 0,
        is_align(align) ==> size_align(enum_anchor(align))->Some_0.1 == align,
{
    let int_ty = LlvmShape::Integer((align * 8) as u32);
    let (size, a) = size_align(int_ty)->Some_0;
    assert(size * 0 == 0);
    assert(size_align(enum_anchor(align)) == Some((0u64, a)));
}

/// Every prefix of a struct with a layout has one.
proof fn lemma_prefix_of_layout(fields: Seq<LlvmShape>, k: int)
    requires
        0 <= k <= fields.len(),
        prefix_extent(size_aligns(fields), fields.len() as int) is Some,
    ensures
        prefix_extent(size_aligns(fields), k) is Some,
{
    lemma_prefix_none(size_aligns(fields), k, fields.len() as int);
}

/// Enum storage has exactly the size and alignment that rustc gave the enum.
///
/// Alignments beyond sixteen bytes cannot be expressed by a type, and rustc's
/// sizes are multiples of its alignments.
pub proof fn law_enum_storage_has_enum_layout(
    claims: Seq<ClaimShape>,
    total_size: u64,
    abi_align: u64,
)
    requires
        claims_sound(claims, total_size),
        forall|i: int| 0 < i < claims.len() ==> (#[trigger] claims[i]).size > 0,
        is_align(larger(abi_align, 1)),
        total_size as int % larger(abi_align, 1) as int == 0,
        enum_storage(claims, total_size, abi_align) is Ok,
    ensures
        size_align(
            LlvmShape::Struct(enum_storage(claims, total_size, abi_align)->Ok_0.fields),
        ) == Some((total_size, larger(abi_align, 1))),
{
    lemma_storage_claim_count(claims, total_size, abi_align);
    lemma_emission_positions(claims, total_size, abi_align);
    let e = emission(claims, total_size, abi_align);
    let s = enum_storage(claims, total_size, abi_align)->Ok_0;
    let required = larger(abi_align, 1);
    let (end, size, align) = natural_layout(e.fields)->Some_0;
    lemma_struct_size_align(s.fields);
    if align < required {
        let anchor = enum_anchor(required);
        lemma_anchor_layout(required);
        lemma_anchor_moves_nothing(e.fields, anchor, e.fields.len() as int);
        assert(s.fields.len() == e.fields.len() + 1);
        assert(size_aligns(s.fields).len() == s.fields.len());
    }
}

proof fn lemma_emitted_leaves(
    claims: Seq<ClaimShape>,
    order: Seq<usize>,
    abi_align: u64,
    k: int,
    kind: LeafKind,
)
    requires
        k <= order.len(),
        forall|p: int| 0 <= p < order.len() ==> #[trigger] order[p] < claims.len(),
        forall|c: int| 0 <= c < claims.len() ==> !contains_leaf((#[trigger] claims[c]).ty, kind),
    ensures
        forall|i: int|
            0 <= i < emit_claims(claims, order, abi_align, k).fields.len() ==> !contains_leaf(
                #[trigger] emit_claims(claims, order, abi_align, k).fields[i],
                kind,
            ),
    decreases k,
{
    if k > 0 {
        lemma_emitted_leaves(claims, order, abi_align, k - 1, kind);
        let past = emit_claims(claims, order, abi_align, k - 1);
        let e = emit_claims(claims, order, abi_align, k);
        let claim = claims[order[k - 1] as int];
        lemma_filler_leaves(past.offset, claim.offset - past.offset, abi_align, kind);
        assert forall|i: int| 0 <= i < e.fields.len() implies !contains_leaf(
            #[trigger] e.fields[i],
            kind,
        ) by {
            if i < past.fields.len() {
                assert(e.fields[i] == past.fields[i]);
            }
        }
    }
}

proof fn lemma_filler_leaves(offset: int, size: int, abi_align: u64, kind: LeafKind)
    ensures
        !contains_leaf(filler(offset, size, abi_align), kind),
{
    assert(!contains_leaf(LlvmShape::Integer(8), kind));
}

/// Enum storage holds a leaf of some kind only where a claim does.
pub proof fn lemma_storage_leaves(
    claims: Seq<ClaimShape>,
    total_size: u64,
    abi_align: u64,
    kind: LeafKind,
)
    requires
        claims.len() <= usize::MAX,
        enum_storage(claims, total_size, abi_align) is Ok,
        forall|c: int| 0 <= c < claims.len() ==> !contains_leaf((#[trigger] claims[c]).ty, kind),
    ensures
        !contains_leaf(
            LlvmShape::Struct(enum_storage(claims, total_size, abi_align)->Ok_0.fields),
            kind,
        ),
{
    let order = sorted_positions(claim_keys(claims));
    lemma_sorted_positions(claim_keys(claims));
    lemma_emitted_leaves(claims, order, abi_align, claims.len() as int, kind);
    let all = emit_claims(claims, order, abi_align, claims.len() as int);
    let e = emission(claims, total_size, abi_align);
    lemma_filler_leaves(all.offset, total_size - all.offset, abi_align, kind);
    let s = enum_storage(claims, total_size, abi_align)->Ok_0;
    let required = larger(abi_align, 1);
    assert((required * 8) as u32 != 1) by (bit_vector);
    assert(!contains_leaf(LlvmShape::Integer((required * 8) as u32), kind));
    assert(!contains_leaf(enum_anchor(required), kind));
    assert forall|i: int| 0 <= i < e.fields.len() implies !contains_leaf(
        #[trigger] e.fields[i],
        kind,
    ) by {
        if i < all.fields.len() {
            assert(e.fields[i] == all.fields[i]);
        }
    }
    assert forall|i: int| 0 <= i < s.fields.len() implies !contains_leaf(
        #[trigger] s.fields[i],
        kind,
    ) by {
        if s.fields != e.fields && i > 0 {
            assert(s.fields[i] == e.fields[i - 1]);
        }
    }
    let whole = LlvmShape::Struct(s.fields);
    assert(whole->Struct_0 == s.fields);
}

/// Whether field `i` of a struct over `fields` holds byte `o`, and is a claim's or
/// byte-faithful.
pub open spec fn covers(fields: Seq<LlvmShape>, claims: Seq<ClaimShape>, i: int, o: int) -> bool {
    &&& 0 <= i < fields.len()
    &&& size_align(fields[i]) is Some
    &&& natural_offset(fields, i) <= o < natural_offset(fields, i) + size_align(
        fields[i],
    )->Some_0.0
    &&& byte_faithful(fields[i]) || exists|c: int|
        0 <= c < claims.len() && (#[trigger] claims[c]).ty == fields[i] && claims[c].offset
            == natural_offset(fields, i)
}

/// Fillers are byte-faithful.
proof fn lemma_filler_faithful(offset: int, size: int, abi_align: u64)
    ensures
        byte_faithful(filler(offset, size, abi_align)),
{
    assert(byte_faithful(LlvmShape::Integer(8)));
}

/// An appended field covers no less.
proof fn lemma_push_covers(
    fields: Seq<LlvmShape>,
    t: LlvmShape,
    claims: Seq<ClaimShape>,
    i: int,
    o: int,
)
    requires
        covers(fields, claims, i, o),
    ensures
        covers(fields.push(t), claims, i, o),
{
    lemma_push_keeps_field(fields, t, i, fields[i], natural_offset(fields, i));
}

/// The slots laid down so far cover their bytes.
proof fn lemma_emitted_covers(
    claims: Seq<ClaimShape>,
    total_size: u64,
    abi_align: u64,
    k: int,
    o: int,
) -> (i: int)
    requires
        claims.len() <= usize::MAX,
        claims_sound(claims, total_size),
        forall|i: int| 0 < i < claims.len() ==> (#[trigger] claims[i]).size > 0,
        0 <= k <= claims.len(),
        emit_claims(
            claims,
            sorted_positions(claim_keys(claims)),
            abi_align,
            k,
        ).fields.len() <= u32::MAX,
        0 <= o < emit_claims(claims, sorted_positions(claim_keys(claims)), abi_align, k).offset,
    ensures
        covers(
            emit_claims(claims, sorted_positions(claim_keys(claims)), abi_align, k).fields,
            claims,
            i,
            o,
        ),
    decreases k,
{
    let order = sorted_positions(claim_keys(claims));
    lemma_sorted_positions(claim_keys(claims));
    lemma_emitted_field_count(claims, order, abi_align, k - 1, k);
    lemma_emitted_positions(claims, total_size, abi_align, k - 1);
    let past = emit_claims(claims, order, abi_align, k - 1);
    let claim = claims[order[k - 1] as int];
    assert(claim_sound(claim, total_size));
    let gap = past.offset < claim.offset;
    let fill = filler(past.offset, claim.offset - past.offset, abi_align);
    let before = if gap {
        past.fields.push(fill)
    } else {
        past.fields
    };
    if gap {
        lemma_filler_layout(past.offset, claim.offset - past.offset, abi_align);
        lemma_filler_faithful(past.offset, claim.offset - past.offset, abi_align);
        lemma_push_at_end(past.fields, fill, past.offset as u64);
    }
    lemma_push_at_end(before, claim.ty, claim.offset);
    if o < past.offset {
        let i = lemma_emitted_covers(claims, total_size, abi_align, k - 1, o);
        if gap {
            lemma_push_covers(past.fields, fill, claims, i, o);
        }
        lemma_push_covers(before, claim.ty, claims, i, o);
        i
    } else if o < claim.offset {
        let i = past.fields.len() as int;
        assert(covers(before, claims, i, o));
        lemma_push_covers(before, claim.ty, claims, i, o);
        i
    } else {
        assert(claims[order[k - 1] as int] == claim);
        before.len() as int
    }
}

/// Each byte of an enum is a claim's or lies in a byte-faithful field of the
/// storage.
pub proof fn lemma_storage_covers(
    claims: Seq<ClaimShape>,
    total_size: u64,
    abi_align: u64,
    o: int,
) -> (i: int)
    requires
        claims_sound(claims, total_size),
        forall|i: int| 0 < i < claims.len() ==> (#[trigger] claims[i]).size > 0,
        enum_storage(claims, total_size, abi_align) is Ok,
        0 <= o < total_size,
    ensures
        covers(enum_storage(claims, total_size, abi_align)->Ok_0.fields, claims, i, o),
{
    lemma_storage_claim_count(claims, total_size, abi_align);
    lemma_emission_positions(claims, total_size, abi_align);
    let n = claims.len() as int;
    let order = sorted_positions(claim_keys(claims));
    lemma_emitted_positions(claims, total_size, abi_align, n);
    let all = emit_claims(claims, order, abi_align, n);
    let e = emission(claims, total_size, abi_align);
    let s = enum_storage(claims, total_size, abi_align)->Ok_0;
    let fill = filler(all.offset, total_size - all.offset, abi_align);
    if all.offset < total_size {
        lemma_filler_layout(all.offset, total_size - all.offset, abi_align);
        lemma_filler_faithful(all.offset, total_size - all.offset, abi_align);
        lemma_push_at_end(all.fields, fill, all.offset as u64);
    }
    let i = if o < all.offset {
        let i = lemma_emitted_covers(claims, total_size, abi_align, n, o);
        if all.offset < total_size {
            lemma_push_covers(all.fields, fill, claims, i, o);
        }
        i
    } else {
        all.fields.len() as int
    };
    assert(covers(e.fields, claims, i, o));
    let required = larger(abi_align, 1);
    let (end, size, align) = natural_layout(e.fields)->Some_0;
    if align < required {
        lemma_anchor_layout(required);
        lemma_prefix_of_layout(e.fields, i);
        lemma_anchor_moves_nothing(e.fields, enum_anchor(required), i);
        assert(s.fields[i + 1] == e.fields[i]);
        i + 1
    } else {
        i
    }
}

/// The fields laid down for claims are aligned no wider than they and the enum are.
proof fn lemma_emitted_align(
    claims: Seq<ClaimShape>,
    order: Seq<usize>,
    abi_align: u64,
    k: int,
    required: u64,
)
    requires
        0 <= k <= order.len(),
        required == larger(abi_align, 1),
        forall|p: int| 0 <= p < order.len() ==> #[trigger] order[p] < claims.len(),
        forall|i: int|
            0 <= i < claims.len() ==> size_align((#[trigger] claims[i]).ty) is Some && size_align(
                claims[i].ty,
            )->Some_0.1 <= required,
    ensures
        ({
            let e = emit_claims(claims, order, abi_align, k);
            &&& e.fields.len() <= 2 * k
            &&& forall|i: int|
                0 <= i < e.fields.len() ==> aligned_within(#[trigger] e.fields[i], required)
        }),
    decreases k,
{
    if k > 0 {
        lemma_emitted_align(claims, order, abi_align, k - 1, required);
        let past = emit_claims(claims, order, abi_align, k - 1);
        let claim = claims[order[k - 1] as int];
        assert(order[k - 1] < claims.len());
        let e = emit_claims(claims, order, abi_align, k);
        let fill = filler(past.offset, claim.offset - past.offset, abi_align);
        lemma_filler_align(past.offset, claim.offset - past.offset, abi_align);
        assert forall|i: int| 0 <= i < e.fields.len() implies aligned_within(
            #[trigger] e.fields[i],
            required,
        ) by {
            if i < past.fields.len() {
                assert(e.fields[i] == past.fields[i]);
                assert(aligned_within(past.fields[i], required));
            } else if i == e.fields.len() - 1 {
                assert(e.fields[i] == claim.ty);
            } else {
                assert(e.fields[i] == fill);
            }
        }
    }
}

/// Whether a type has an alignment that is no wider than `align`, where it has a layout.
spec fn aligned_within(t: LlvmShape, align: u64) -> bool {
    size_align(t) matches Some((_, a)) ==> a <= align
}

proof fn lemma_filler_align(offset: int, size: int, abi_align: u64)
    ensures
        aligned_within(filler(offset, size, abi_align), larger(abi_align, 1)),
{
    let t = filler(offset, size, abi_align);
    if t is Integer {
        assert(size_align(t) == Some((size as u64, size as u64)));
    } else {
        assert(size_align(LlvmShape::Integer(8)) == Some((1u64, 1u64)));
    }
}

proof fn lemma_prefix_within(fields: Seq<LlvmShape>, align: u64, k: int)
    requires
        0 <= k <= fields.len(),
        align >= 1,
        forall|i: int| 0 <= i < fields.len() ==> aligned_within(#[trigger] fields[i], align),
        prefix_extent(size_aligns(fields), k) is Some,
    ensures
        prefix_extent(size_aligns(fields), k)->Some_0.1 <= align,
    decreases k,
{
    if k > 0 {
        lemma_prefix_within(fields, align, k - 1);
        assert(size_aligns(fields)[k - 1] == size_align(fields[k - 1]));
        assert(aligned_within(fields[k - 1], align));
    }
}

/// There are no more claims than bytes, but for an empty one in front.
pub proof fn lemma_claims_are_few(claims: Seq<ClaimShape>, total_size: u64)
    requires
        claims_sound(claims, total_size),
        forall|i: int| 0 < i < claims.len() ==> (#[trigger] claims[i]).size > 0,
    ensures
        claims.len() <= total_size + 1,
{
    if claims.len() > 0 {
        let starts = Seq::new((claims.len() - 1) as nat, |i: int| claims[i + 1].offset as int);
        assert forall|i: int, j: int| 0 <= i < j < starts.len() implies starts[i] != starts[j] by {
            assert(claims[i + 1].size > 0 && claims[j + 1].size > 0);
        }
        assert forall|x: int| #[trigger] starts.to_set().contains(x) implies set_int_range(
            0,
            total_size as int,
        ).contains(x) by {
            let i = choose|i: int| 0 <= i < starts.len() && starts[i] == x;
            assert(claim_sound(claims[i + 1], total_size));
            assert(claims[i + 1].size > 0);
        }
        starts.unique_seq_to_set();
        lemma_int_range(0, total_size as int);
        lemma_len_subset(starts.to_set(), set_int_range(0, total_size as int));
    }
}

/// An enum of less than a gigabyte has storage for its claims where they are sound, where its
/// alignment is a power of two up to 16 that divides its size, and where none of them is
/// aligned wider.
pub proof fn law_sound_claims_have_storage(
    claims: Seq<ClaimShape>,
    total_size: u64,
    abi_align: u64,
)
    requires
        total_size < 0x3fff_ffff,
        claims_sound(claims, total_size),
        forall|i: int| 0 < i < claims.len() ==> (#[trigger] claims[i]).size > 0,
        is_align(larger(abi_align, 1)),
        total_size as int % larger(abi_align, 1) as int == 0,
        forall|i: int|
            0 <= i < claims.len() ==> size_align((#[trigger] claims[i]).ty)->Some_0.1 <= larger(
                abi_align,
                1,
            ),
    ensures
        enum_storage(claims, total_size, abi_align) is Ok,
{
    let required = larger(abi_align, 1);
    lemma_claims_are_few(claims, total_size);
    let keys = claim_keys(claims);
    let order = sorted_positions(keys);
    lemma_sorted_positions(keys);
    let n = claims.len() as int;
    assert forall|i: int| 0 <= i < claims.len() implies size_align((#[trigger] claims[i]).ty)
        is Some && size_align(claims[i].ty)->Some_0.1 <= required by {
        assert(claim_sound(claims[i], total_size));
    }
    lemma_emitted_align(claims, order, abi_align, n, required);
    let all = emit_claims(claims, order, abi_align, n);
    let e = emission(claims, total_size, abi_align);
    lemma_filler_align(all.offset, total_size - all.offset, abi_align);
    assert forall|i: int| 0 <= i < e.fields.len() implies aligned_within(
        #[trigger] e.fields[i],
        required,
    ) by {
        if i < all.fields.len() {
            assert(e.fields[i] == all.fields[i]);
            assert(aligned_within(all.fields[i], required));
        }
    }
    lemma_emission_positions(claims, total_size, abi_align);
    lemma_prefix_within(e.fields, required, e.fields.len() as int);
    let parts = size_aligns(e.fields);
    assert forall|i: int| 0 <= i < parts.len() && parts[i] is Some implies is_align(
        #[trigger] parts[i]->Some_0.1,
    ) by {
        lemma_is_align(e.fields[i]);
    }
    lemma_prefix_align(parts, parts.len() as int);
    let align = prefix_extent(parts, parts.len() as int)->Some_0.1;
    lemma_align_divides(total_size as int, required, align);
}

/// Bytes that nothing claims are kept in one number where there are two, four or eight of
/// them at a multiple of their count, unless that aligns wider than the enum. Any others are
/// kept byte by byte. Both ways they take as many bytes as they are, where they are.
pub proof fn law_fillers_are_single_numbers(offset: u64, size: u64, abi_align: u64)
    requires
        size > 0,
    ensures
        ({
            let t = filler(offset as int, size as int, abi_align);
            let fits = (size == 2 || size == 4 || size == 8) && offset % size == 0 && size
                <= larger(abi_align, 1);
            &&& t is Integer <==> fits
            &&& t is Integer ==> t->Integer_0 == 8 * size
            &&& !fits ==> t == LlvmShape::Array(Box::new(LlvmShape::Integer(8)), size)
            &&& size_align(t) is Some
            &&& size_align(t)->Some_0.0 == size
            &&& offset as int % size_align(t)->Some_0.1 as int == 0
            &&& size_align(t)->Some_0.1 <= larger(abi_align, 1)
        }),
{
    lemma_filler_layout(offset as int, size as int, abi_align);
    lemma_filler_align(offset as int, size as int, abi_align);
}

} // verus!
