//! Which bytes of an enum each slot of its storage claims.

use crate::layout::size_align;
use crate::llvm::{LlvmShape, LlvmType};
use crate::pointers::{
    collect_llvm_pointer_storage, lemma_pointer_leaves_placed, pointer_leaves, LlvmPointerStorage,
};
use crate::storage::{contains_leaf, LeafKind};
use vstd::prelude::*;

verus! {

/// Bytes of an enum that one LLVM slot owns.
pub struct Claim {
    pub offset: u64,
    pub size: u64,
    pub ty: LlvmType,
}

/// The model of a [`Claim`].
pub ghost struct ClaimShape {
    pub offset: u64,
    pub size: u64,
    pub ty: LlvmShape,
}

impl View for Claim {
    type V = ClaimShape;

    open spec fn view(&self) -> ClaimShape {
        ClaimShape { offset: self.offset, size: self.size, ty: self.ty@ }
    }
}

/// The models of a list of claims.
pub open spec fn claim_shapes(claims: Seq<Claim>) -> Seq<ClaimShape> {
    Seq::new(claims.len(), |i: int| claims[i]@)
}

/// Whether a claim shares a byte with the `size` bytes at `offset`.
pub open spec fn collides(claim: ClaimShape, offset: u64, size: u64) -> bool {
    offset < claim.offset + claim.size && claim.offset < offset + size
}

/// Whether any claim shares a byte with the `size` bytes at `offset`.
pub open spec fn any_collision(claims: Seq<ClaimShape>, offset: u64, size: u64) -> bool {
    exists|i: int| 0 <= i < claims.len() && collides(#[trigger] claims[i], offset, size)
}

/// A sound claim covers exactly its type's bytes at an allowed position inside
/// the enum.
pub open spec fn claim_sound(claim: ClaimShape, total_size: u64) -> bool {
    &&& size_align(claim.ty) is Some
    &&& size_align(claim.ty)->Some_0.0 == claim.size
    &&& claim.offset as int % size_align(claim.ty)->Some_0.1 as int == 0
    &&& claim.offset + claim.size <= total_size
}

/// Sound claims, no two of which share a byte.
pub open spec fn claims_sound(claims: Seq<ClaimShape>, total_size: u64) -> bool {
    &&& forall|i: int| 0 <= i < claims.len() ==> claim_sound(#[trigger] claims[i], total_size)
    &&& forall|i: int, j: int|
        0 <= i < j < claims.len() ==> {
            ||| (#[trigger] claims[i]).offset + claims[i].size <= (#[trigger] claims[j]).offset
            ||| claims[j].offset + claims[j].size <= claims[i].offset
        }
}

/// Whether a pointer leaf shares a byte with the bytes from `start` to `end`.
pub open spec fn leaf_overlaps(leaf: LlvmPointerStorage, start: int, end: int) -> bool {
    leaf.offset < end && start < leaf.offset + leaf.size
}

/// Whether a pointer leaf shares a byte with the bytes from `start` to `end`,
/// or reaches past the end of the address range.
pub open spec fn leaf_touches(leaf: LlvmPointerStorage, start: int, end: int) -> bool {
    leaf.offset + leaf.size > u64::MAX || leaf_overlaps(leaf, start, end)
}

/// Whether `leaf` is a pointer leaf of a claim that collides with the `size`
/// bytes at `offset`, and shares a byte with them itself.
pub open spec fn leaf_is_claimed(
    claims: Seq<ClaimShape>,
    leaf: LlvmPointerStorage,
    offset: u64,
    size: u64,
) -> bool {
    exists|i: int|
        {
            &&& 0 <= i < claims.len()
            &&& collides(#[trigger] claims[i], offset, size)
            &&& pointer_leaves(claims[i].ty, claims[i].offset)->Some_0.contains(leaf)
            &&& leaf_touches(leaf, offset as int, offset + size)
        }
}

/// Whether each pointer leaf of the colliding claims is one that the incoming
/// field carries too.
pub open spec fn claimed_leaves_match(
    claims: Seq<ClaimShape>,
    incoming: Seq<LlvmPointerStorage>,
    offset: u64,
    size: u64,
) -> bool {
    &&& forall|i: int|
        0 <= i < claims.len() && collides(#[trigger] claims[i], offset, size) ==> pointer_leaves(
            claims[i].ty,
            claims[i].offset,
        ) is Some
    &&& forall|leaf: LlvmPointerStorage|
        leaf_is_claimed(claims, leaf, offset, size) ==> #[trigger] incoming.contains(leaf)
}

/// Whether a leaf shares a byte with a claim that collides with the `size`
/// bytes at `offset`.
pub open spec fn leaf_hits_claim(
    claims: Seq<ClaimShape>,
    leaf: LlvmPointerStorage,
    offset: u64,
    size: u64,
) -> bool {
    exists|i: int|
        {
            &&& 0 <= i < claims.len()
            &&& collides(#[trigger] claims[i], offset, size)
            &&& leaf_overlaps(leaf, claims[i].offset as int, claims[i].offset + claims[i].size)
        }
}

/// Among the first `k` leaves of the incoming field, those that no claim
/// carries yet. Nothing where one of them would share bytes with a claim.
pub open spec fn unclaimed_leaves(
    claims: Seq<ClaimShape>,
    incoming: Seq<LlvmPointerStorage>,
    offset: u64,
    size: u64,
    k: int,
) -> Option<Seq<LlvmPointerStorage>>
    decreases k,
{
    if k <= 0 {
        Some(Seq::empty())
    } else {
        match unclaimed_leaves(claims, incoming, offset, size, k - 1) {
            None => None,
            Some(before) => {
                let leaf = incoming[k - 1];
                if leaf_is_claimed(claims, leaf, offset, size) {
                    Some(before)
                } else if leaf.offset + leaf.size > u64::MAX || leaf_hits_claim(
                    claims,
                    leaf,
                    offset,
                    size,
                ) {
                    None
                } else {
                    Some(before.push(leaf))
                }
            },
        }
    }
}

/// The pointer leaves that need a slot of their own so that a field without a
/// slot can overlap `claims` and keep every pointer a pointer.
pub open spec fn pointer_overlap(
    claims: Seq<ClaimShape>,
    ty: LlvmShape,
    offset: u64,
    size: u64,
) -> Option<Seq<LlvmPointerStorage>> {
    match pointer_leaves(ty, offset) {
        None => None,
        Some(incoming) => if claimed_leaves_match(claims, incoming, offset, size) {
            unclaimed_leaves(claims, incoming, offset, size, incoming.len() as int)
        } else {
            None
        },
    }
}

proof fn lemma_unclaimed_none(
    claims: Seq<ClaimShape>,
    incoming: Seq<LlvmPointerStorage>,
    offset: u64,
    size: u64,
    k: int,
    n: int,
)
    requires
        0 <= k <= n,
        unclaimed_leaves(claims, incoming, offset, size, k) is None,
    ensures
        unclaimed_leaves(claims, incoming, offset, size, n) is None,
    decreases n - k,
{
    if k < n {
        lemma_unclaimed_none(claims, incoming, offset, size, k + 1, n);
    }
}

/// Whether a list holds a leaf.
fn holds_leaf(leaves: &Vec<LlvmPointerStorage>, leaf: LlvmPointerStorage) -> (r: bool)
    ensures
        r == leaves@.contains(leaf),
{
    for i in 0..leaves.len()
        invariant
            forall|j: int| 0 <= j < i ==> leaves@[j] != leaf,
    {
        if leaves[i] == leaf {
            return true;
        }
    }
    false
}

/// Whether a claim shares a byte with the `size` bytes at `offset`.
pub fn claim_collides(claim: &Claim, offset: u64, size: u64) -> (r: bool)
    requires
        claim.offset + claim.size <= u64::MAX,
        offset + size <= u64::MAX,
    ensures
        r == collides(claim@, offset, size),
{
    offset < claim.offset + claim.size && claim.offset < offset + size
}

/// How a field without a slot overlaps the storage chosen so far: which of its
/// pointers need a slot of their own.
///
/// A pointer leaf that coincides with one of a claim reuses it. Every other
/// one must land on bytes that no claim covers. Nothing where a pointer would
/// share bytes with anything else.
pub fn analyze_pointer_overlap(claims: &Vec<Claim>, ty: &LlvmType, offset: u64, size: u64) -> (r:
    Option<Vec<LlvmPointerStorage>>)
    requires
        offset + size <= u64::MAX,
        forall|i: int|
            0 <= i < claims@.len() ==> (#[trigger] claims@[i]).offset + claims@[i].size
                <= u64::MAX,
    ensures
        match r {
            None => pointer_overlap(claim_shapes(claims@), ty@, offset, size) is None,
            Some(extra) => pointer_overlap(claim_shapes(claims@), ty@, offset, size) == Some(
                extra@,
            ),
        },
{
    let ghost shapes = claim_shapes(claims@);
    let incoming = match collect_llvm_pointer_storage(ty, offset) {
        None => {
            return None;
        },
        Some(leaves) => leaves,
    };
    let end: u64 = offset + size;
    let mut existing: Vec<LlvmPointerStorage> = Vec::new();
    for i in 0..claims.len()
        invariant
            shapes == claim_shapes(claims@),
            offset + size <= u64::MAX,
            end == offset + size,
            pointer_leaves(ty@, offset) == Some(incoming@),
            forall|j: int|
                0 <= j < claims@.len() ==> (#[trigger] claims@[j]).offset + claims@[j].size
                    <= u64::MAX,
            forall|j: int|
                0 <= j < i && collides(#[trigger] shapes[j], offset, size) ==> pointer_leaves(
                    shapes[j].ty,
                    shapes[j].offset,
                ) is Some,
            forall|leaf: LlvmPointerStorage|
                #[trigger] existing@.contains(leaf) <==> leaf_is_claimed(
                    shapes.take(i as int),
                    leaf,
                    offset,
                    size,
                ),
    {
        assert(shapes[i as int] == claims@[i as int]@);
        let ghost before = existing@;
        if claim_collides(&claims[i], offset, size) {
            match collect_llvm_pointer_storage(&claims[i].ty, claims[i].offset) {
                None => {
                    assert(!claimed_leaves_match(shapes, incoming@, offset, size));
                    return None;
                },
                Some(regions) => {
                    keep_overlapping(&mut existing, &regions, offset, end);
                },
            }
        }
        assert forall|leaf: LlvmPointerStorage| #[trigger]
            existing@.contains(leaf) <==> leaf_is_claimed(
            shapes.take(i + 1),
            leaf,
            offset,
            size,
        ) by {
            let now = shapes.take(i + 1);
            let past = shapes.take(i as int);
            if before.contains(leaf) {
                let j = choose|j: int|
                    {
                        &&& 0 <= j < past.len()
                        &&& collides(#[trigger] past[j], offset, size)
                        &&& pointer_leaves(past[j].ty, past[j].offset)->Some_0.contains(leaf)
                        &&& leaf_touches(leaf, offset as int, offset + size)
                    };
                assert(now[j] == past[j]);
            }
            if leaf_is_claimed(now, leaf, offset, size) {
                let j = choose|j: int|
                    {
                        &&& 0 <= j < now.len()
                        &&& collides(#[trigger] now[j], offset, size)
                        &&& pointer_leaves(now[j].ty, now[j].offset)->Some_0.contains(leaf)
                        &&& leaf_touches(leaf, offset as int, offset + size)
                    };
                if j < i {
                    assert(past[j] == now[j]);
                }
            }
            assert(now[i as int] == shapes[i as int]);
        }
    }
    assert(shapes.take(claims@.len() as int) =~= shapes);
    for i in 0..existing.len()
        invariant
            forall|j: int| 0 <= j < i ==> incoming@.contains(#[trigger] existing@[j]),
            pointer_leaves(ty@, offset) == Some(incoming@),
            forall|leaf: LlvmPointerStorage|
                #[trigger] existing@.contains(leaf) <==> leaf_is_claimed(
                    shapes,
                    leaf,
                    offset,
                    size,
                ),
            shapes == claim_shapes(claims@),
    {
        if !holds_leaf(&incoming, existing[i]) {
            assert(existing@.contains(existing@[i as int]));
            assert(!claimed_leaves_match(shapes, incoming@, offset, size));
            return None;
        }
    }
    assert(claimed_leaves_match(shapes, incoming@, offset, size)) by {
        assert forall|leaf: LlvmPointerStorage|
            leaf_is_claimed(shapes, leaf, offset, size) implies #[trigger] incoming@.contains(
            leaf,
        ) by {
            assert(existing@.contains(leaf));
            let j = choose|j: int| 0 <= j < existing@.len() && existing@[j] == leaf;
            assert(incoming@.contains(existing@[j]));
        }
    }
    let mut extra: Vec<LlvmPointerStorage> = Vec::new();
    for i in 0..incoming.len()
        invariant
            shapes == claim_shapes(claims@),
            offset + size <= u64::MAX,
            forall|j: int|
                0 <= j < claims@.len() ==> (#[trigger] claims@[j]).offset + claims@[j].size
                    <= u64::MAX,
            forall|leaf: LlvmPointerStorage|
                #[trigger] existing@.contains(leaf) <==> leaf_is_claimed(
                    shapes,
                    leaf,
                    offset,
                    size,
                ),
            pointer_leaves(ty@, offset) == Some(incoming@),
            claimed_leaves_match(shapes, incoming@, offset, size),
            unclaimed_leaves(shapes, incoming@, offset, size, i as int) == Some(extra@),
    {
        proof {
            if unclaimed_leaves(shapes, incoming@, offset, size, i + 1) is None {
                lemma_unclaimed_none(
                    shapes,
                    incoming@,
                    offset,
                    size,
                    i + 1,
                    incoming@.len() as int,
                );
            }
        }
        let leaf = incoming[i];
        if !holds_leaf(&existing, leaf) {
            if leaf.offset.checked_add(leaf.size).is_none() {
                return None;
            }
            if hits_claim(claims, leaf, offset, size) {
                return None;
            }
            extra.push(leaf);
        }
    }
    Some(extra)
}

/// Adds the leaves of `regions` that share a byte with the bytes from `start`
/// to `end`.
fn keep_overlapping(
    out: &mut Vec<LlvmPointerStorage>,
    regions: &Vec<LlvmPointerStorage>,
    start: u64,
    end: u64,
)
    ensures
        forall|leaf: LlvmPointerStorage| #[trigger]
            final(out)@.contains(leaf) <==> old(out)@.contains(leaf) || (regions@.contains(leaf)
                && leaf_touches(leaf, start as int, end as int)),
{
    let ghost before = out@;
    for i in 0..regions.len()
        invariant
            forall|leaf: LlvmPointerStorage| #[trigger]
                out@.contains(leaf) <==> before.contains(leaf) || (regions@.take(
                    i as int,
                ).contains(leaf) && leaf_touches(leaf, start as int, end as int)),
    {
        let region = regions[i];
        let ghost past = out@;
        let overlaps: bool = match region.offset.checked_add(region.size) {
            None => true,
            Some(region_end) => region.offset < end && start < region_end,
        };
        assert(regions@.take(i + 1) =~= regions@.take(i as int).push(region));
        if overlaps {
            out.push(region);
        }
        assert forall|leaf: LlvmPointerStorage| #[trigger]
            out@.contains(leaf) <==> before.contains(leaf) || (regions@.take(i + 1).contains(leaf)
                && leaf_touches(leaf, start as int, end as int)) by {
            lemma_push_contains(past, region, leaf);
            lemma_push_contains(regions@.take(i as int), region, leaf);
        }
    }
    assert(regions@.take(regions@.len() as int) =~= regions@);
}

proof fn lemma_push_contains<A>(s: Seq<A>, a: A, x: A)
    ensures
        s.push(a).contains(x) <==> s.contains(x) || a == x,
{
    if s.contains(x) {
        let i = choose|i: int| 0 <= i < s.len() && s[i] == x;
        assert(s.push(a)[i] == x);
    }
    if a == x {
        assert(s.push(a)[s.len() as int] == x);
    }
}

fn hits_claim(claims: &Vec<Claim>, leaf: LlvmPointerStorage, offset: u64, size: u64) -> (r: bool)
    requires
        offset + size <= u64::MAX,
        leaf.offset + leaf.size <= u64::MAX,
        forall|j: int|
            0 <= j < claims@.len() ==> (#[trigger] claims@[j]).offset + claims@[j].size
                <= u64::MAX,
    ensures
        r == leaf_hits_claim(claim_shapes(claims@), leaf, offset, size),
{
    let ghost shapes = claim_shapes(claims@);
    let leaf_end: u64 = leaf.offset + leaf.size;
    for i in 0..claims.len()
        invariant
            shapes == claim_shapes(claims@),
            offset + size <= u64::MAX,
            leaf_end == leaf.offset + leaf.size,
            forall|j: int|
                0 <= j < claims@.len() ==> (#[trigger] claims@[j]).offset + claims@[j].size
                    <= u64::MAX,
            forall|j: int|
                0 <= j < i ==> !(collides(#[trigger] shapes[j], offset, size) && leaf_overlaps(
                    leaf,
                    shapes[j].offset as int,
                    shapes[j].offset + shapes[j].size,
                )),
    {
        assert(shapes[i as int] == claims@[i as int]@);
        if claim_collides(&claims[i], offset, size) {
            if leaf.offset < claims[i].offset + claims[i].size && claims[i].offset < leaf_end {
                return true;
            }
        }
    }
    false
}

/// The claim of a pointer leaf.
pub open spec fn leaf_claim(leaf: LlvmPointerStorage) -> ClaimShape {
    ClaimShape {
        offset: leaf.offset,
        size: leaf.size,
        ty: LlvmShape::Pointer(leaf.address_space),
    }
}

/// The claims of a list of pointer leaves.
pub open spec fn leaf_claims(leaves: Seq<LlvmPointerStorage>) -> Seq<ClaimShape> {
    Seq::new(leaves.len(), |i: int| leaf_claim(leaves[i]))
}

proof fn lemma_unclaimed_leaves(
    claims: Seq<ClaimShape>,
    incoming: Seq<LlvmPointerStorage>,
    offset: u64,
    size: u64,
    k: int,
)
    requires
        0 <= k <= incoming.len(),
        unclaimed_leaves(claims, incoming, offset, size, k) is Some,
    ensures
        ({
            let out = unclaimed_leaves(claims, incoming, offset, size, k)->Some_0;
            &&& forall|i: int|
                0 <= i < out.len() ==> !leaf_hits_claim(claims, #[trigger] out[i], offset, size)
            &&& forall|i: int|
                0 <= i < out.len() ==> exists|m: int| 0 <= m < k && incoming[m] == #[trigger] out[i]
            &&& (forall|i: int, j: int|
                0 <= i < j < incoming.len() ==> (#[trigger] incoming[i]).offset + 8 <= (
                #[trigger] incoming[j]).offset) ==> forall|i: int, j: int|
                0 <= i < j < out.len() ==> (#[trigger] out[i]).offset + 8 <= (
                #[trigger] out[j]).offset
        }),
    decreases k,
{
    if k > 0 {
        lemma_unclaimed_leaves(claims, incoming, offset, size, k - 1);
        let before = unclaimed_leaves(claims, incoming, offset, size, k - 1)->Some_0;
        let out = unclaimed_leaves(claims, incoming, offset, size, k)->Some_0;
        assert forall|i: int| 0 <= i < out.len() implies exists|m: int|
            0 <= m < k && incoming[m] == #[trigger] out[i] by {
            if i < before.len() {
                assert(out[i] == before[i]);
                let m = choose|m: int| 0 <= m < k - 1 && incoming[m] == before[i];
                assert(incoming[m] == out[i]);
            } else {
                assert(incoming[k - 1] == out[i]);
            }
        }
        assert forall|i: int| 0 <= i < out.len() implies !leaf_hits_claim(
            claims,
            #[trigger] out[i],
            offset,
            size,
        ) by {
            if i < before.len() {
                assert(out[i] == before[i]);
            }
        }
        if forall|i: int, j: int|
            0 <= i < j < incoming.len() ==> (#[trigger] incoming[i]).offset + 8 <= (
            #[trigger] incoming[j]).offset {
            assert forall|i: int, j: int| 0 <= i < j < out.len() implies (
            #[trigger] out[i]).offset + 8 <= (#[trigger] out[j]).offset by {
                assert(out[i] == before[i]);
                if j < before.len() {
                    assert(out[j] == before[j]);
                } else {
                    let m = choose|m: int| 0 <= m < k - 1 && incoming[m] == before[i];
                    assert(incoming[m].offset + 8 <= incoming[k - 1].offset);
                }
            }
        }
    }
}

/// Giving each unclaimed pointer leaf a claim of its own keeps the claims
/// sound.
pub proof fn lemma_extra_claims_sound(
    claims: Seq<ClaimShape>,
    ty: LlvmShape,
    offset: u64,
    size: u64,
    total_size: u64,
)
    requires
        claims_sound(claims, total_size),
        claim_sound(ClaimShape { offset, size, ty }, total_size),
        pointer_overlap(claims, ty, offset, size) is Some,
    ensures
        claims_sound(
            claims + leaf_claims(pointer_overlap(claims, ty, offset, size)->Some_0),
            total_size,
        ),
        forall|i: int|
            0 <= i < pointer_overlap(claims, ty, offset, size)->Some_0.len() ==> {
                let leaf = #[trigger] pointer_overlap(claims, ty, offset, size)->Some_0[i];
                leaf.size == 8 && contains_leaf(ty, LeafKind::PointerIn(leaf.address_space))
            },
{
    let incoming = pointer_leaves(ty, offset)->Some_0;
    let extra = pointer_overlap(claims, ty, offset, size)->Some_0;
    lemma_pointer_leaves_placed(ty, offset);
    lemma_unclaimed_leaves(claims, incoming, offset, size, incoming.len() as int);
    let fresh = leaf_claims(extra);
    let all = claims + fresh;
    assert forall|i: int| 0 <= i < extra.len() implies {
        &&& (#[trigger] extra[i]).size == 8
        &&& offset <= extra[i].offset
        &&& extra[i].offset + 8 <= offset + size
        &&& extra[i].offset % 8 == 0
        &&& contains_leaf(ty, LeafKind::PointerIn(extra[i].address_space))
    } by {
        let m = choose|m: int| 0 <= m < incoming.len() && incoming[m] == extra[i];
        assert(incoming[m] == extra[i]);
    }
    assert forall|i: int| 0 <= i < all.len() implies claim_sound(#[trigger] all[i], total_size) by {
        if i < claims.len() {
            assert(all[i] == claims[i]);
        } else {
            assert(all[i] == leaf_claim(extra[i - claims.len()]));
        }
    }
    assert forall|i: int, j: int| 0 <= i < j < all.len() implies {
        ||| (#[trigger] all[i]).offset + all[i].size <= (#[trigger] all[j]).offset
        ||| all[j].offset + all[j].size <= all[i].offset
    } by {
        if j < claims.len() {
            assert(all[i] == claims[i] && all[j] == claims[j]);
        } else if i < claims.len() {
            let leaf = extra[j - claims.len()];
            assert(all[i] == claims[i] && all[j] == leaf_claim(leaf));
            assert(!leaf_hits_claim(claims, leaf, offset, size));
            if collides(claims[i], offset, size) {
                assert(!leaf_overlaps(
                    leaf,
                    claims[i].offset as int,
                    claims[i].offset + claims[i].size,
                ));
            }
        } else {
            let a = extra[i - claims.len()];
            let b = extra[j - claims.len()];
            assert(all[i] == leaf_claim(a) && all[j] == leaf_claim(b));
            assert(a.offset + 8 <= b.offset);
        }
    }
}

/// A sound claim that collides with none keeps the claims sound.
pub proof fn lemma_push_claim_sound(claims: Seq<ClaimShape>, claim: ClaimShape, total_size: u64)
    requires
        claims_sound(claims, total_size),
        claim_sound(claim, total_size),
        !any_collision(claims, claim.offset, claim.size),
    ensures
        claims_sound(claims.push(claim), total_size),
{
    let all = claims.push(claim);
    assert forall|i: int, j: int| 0 <= i < j < all.len() implies {
        ||| (#[trigger] all[i]).offset + all[i].size <= (#[trigger] all[j]).offset
        ||| all[j].offset + all[j].size <= all[i].offset
    } by {
        if j < claims.len() {
            assert(all[i] == claims[i] && all[j] == claims[j]);
        } else {
            assert(all[i] == claims[i] && all[j] == claim);
            assert(!collides(claims[i], claim.offset, claim.size));
        }
    }
}

} // verus!
