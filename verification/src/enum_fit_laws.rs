//! Which enums have storage.

use crate::enum_claims::{
    any_collision, claim_sound, claimed_leaves_match, claims_sound, collides, leaf_claim,
    leaf_claims, leaf_hits_claim, leaf_is_claimed, leaf_overlaps, leaf_touches, pointer_overlap,
    unclaimed_leaves, ClaimShape,
};
use crate::enum_slots::{
    carrier_claims, carrier_type, claim_field, claim_fields, claim_keys_of_fields, claims_agree,
    collides_with_pointer, enum_claims, enum_slots_over, field_inhabited, find_claim,
    lemma_claim_field_agrees, lemma_claims_grow, lemma_find_claim, mir_contains_bool, ClaimState,
    EnumSlots,
};
use crate::enum_storage::{
    law_sound_claims_have_storage, lemma_claims_are_few, lemma_storage_claim_count,
};
use crate::error::LowerError;
use crate::layout::{
    is_align, larger, lemma_is_align, lemma_struct_size_align, size_align, size_aligns,
};
use crate::llvm::{LlvmShape, SHARED};
use crate::mir::{EnumCarrierKind, EnumLayoutKind, MirEnumType, MirType};
use crate::pointers::{
    lemma_pointer_leaves_placed, lemma_prefix_align_bounds, pointer_leaves, LlvmPointerStorage,
};
use crate::signature_laws::stands_at;
use crate::sort::{comes_first, lemma_sorted_positions, sorted_positions};
use crate::storage::{
    byte_faithful, contains_bool, contains_leaf, contains_pointer, payload_storage, zero_sized,
    LeafKind,
};
use crate::type_laws::lemma_all_lowered;
use crate::types::{enum_type_slots, lowered};
use vstd::prelude::*;

verus! {

// ---------------------------------------------------------------------------
// Which bytes can be shared
// ---------------------------------------------------------------------------

/// Whether two claims have no byte in common.
pub open spec fn apart(a: ClaimShape, b: ClaimShape) -> bool {
    a.offset + a.size <= b.offset || b.offset + b.size <= a.offset
}

/// Whether each pointer of `a` that reaches into `b` is one of `b` as well.
pub open spec fn pointers_kept(a: ClaimShape, b: ClaimShape) -> bool {
    &&& pointer_leaves(a.ty, a.offset) is Some
    &&& pointer_leaves(b.ty, b.offset) is Some
    &&& forall|leaf: LlvmPointerStorage|
        pointer_leaves(a.ty, a.offset)->Some_0.contains(leaf) && leaf_overlaps(
            leaf,
            b.offset as int,
            b.offset + b.size,
        ) ==> #[trigger] pointer_leaves(b.ty, b.offset)->Some_0.contains(leaf)
}

/// Whether two claims can stand in one enum: apart, as one, or, unless one must have its byte
/// to itself, over each other where both keep every byte and agree on the pointers.
pub open spec fn can_share(a: ClaimShape, b: ClaimShape, exact: bool) -> bool {
    ||| apart(a, b)
    ||| a.offset == b.offset && a.ty == b.ty
    ||| {
        &&& !exact
        &&& byte_faithful(a.ty)
        &&& byte_faithful(b.ty)
        &&& pointers_kept(a, b)
        &&& pointers_kept(b, a)
    }
}

/// The bytes that payload field `f` needs.
pub open spec fn needs(e: MirEnumType, types: Seq<LlvmShape>, f: int) -> ClaimShape {
    ClaimShape {
        offset: e.all_field_offsets@[f],
        size: e.all_field_sizes@[f],
        ty: payload_storage(types[f])->Ok_0,
    }
}

/// Whether payload field `f` takes bytes of the enum.
pub open spec fn takes_bytes(e: MirEnumType, types: Seq<LlvmShape>, f: int) -> bool {
    &&& 0 <= f < types.len()
    &&& field_inhabited(e, f)
    &&& e.all_field_sizes@[f] > 0
    &&& !zero_sized(types[f])
}

/// Whether payload field `f` has the size that rustc gave it, and stands inside the enum at
/// an allowed position.
pub open spec fn payload_fits(e: MirEnumType, types: Seq<LlvmShape>, f: int) -> bool {
    field_inhabited(e, f) ==> {
        let need = needs(e, types, f);
        &&& payload_storage(types[f]) is Ok
        &&& size_align(need.ty) is Some
        &&& size_align(need.ty)->Some_0.0 == need.size
        &&& takes_bytes(e, types, f) ==> {
            &&& claim_sound(need, e.encoding.total_size)
            &&& size_align(need.ty)->Some_0.1 <= larger(e.encoding.abi_align, 1)
            &&& mir_contains_bool(e.all_field_types@[f]) ==> contains_bool(types[f])
        }
    }
}

/// Whether payload fields `f` and `g` can stand in one enum. A lone `bool` shares its byte
/// with whole bytes only.
pub open spec fn payloads_share(e: MirEnumType, types: Seq<LlvmShape>, f: int, g: int) -> bool {
    takes_bytes(e, types, f) && takes_bytes(e, types, g) ==> can_share(
        needs(e, types, f),
        needs(e, types, g),
        types[f] == LlvmShape::Integer(1) || types[g] == LlvmShape::Integer(1),
    )
}

/// The bytes of the carrier.
pub open spec fn carrier_needs(e: MirEnumType, ty: LlvmShape) -> ClaimShape {
    ClaimShape { offset: e.encoding.tag_offset, size: size_align(ty)->Some_0.0, ty }
}

/// Whether the carrier has the size that rustc gave it, stands inside the enum at an allowed
/// position, and can stand beside each payload field.
pub open spec fn carrier_fits(
    e: MirEnumType,
    carrier: Option<LlvmShape>,
    types: Seq<LlvmShape>,
) -> bool {
    carrier matches Some(ty) ==> {
        let need = carrier_needs(e, ty);
        &&& claim_sound(need, e.encoding.total_size)
        &&& need.size == (e.encoding.carrier_width + 7) / 8
        &&& size_align(ty)->Some_0.1 <= larger(e.encoding.abi_align, 1)
        &&& forall|f: int|
            #[trigger] takes_bytes(e, types, f) ==> can_share(
                need,
                needs(e, types, f),
                types[f] == LlvmShape::Integer(1),
            )
    }
}

/// Whether the payload fields of an enum fit it and each other.
pub open spec fn payloads_fit(e: MirEnumType, types: Seq<LlvmShape>) -> bool {
    &&& e.all_field_offsets@.len() == types.len()
    &&& e.all_field_sizes@.len() == types.len()
    &&& forall|f: int| 0 <= f < types.len() ==> #[trigger] payload_fits(e, types, f)
    &&& forall|f: int, g: int|
        0 <= f < types.len() && 0 <= g < types.len() ==> #[trigger] payloads_share(e, types, f, g)
}

// ---------------------------------------------------------------------------
// Claims that come from the carrier and the payload fields
// ---------------------------------------------------------------------------

/// Whether a claim is that of a pointer inside a claim that keeps every byte.
spec fn is_leaf_of(c: ClaimShape, whole: ClaimShape) -> bool {
    &&& byte_faithful(whole.ty)
    &&& pointer_leaves(whole.ty, whole.offset) is Some
    &&& exists|leaf: LlvmPointerStorage| #[trigger]
        pointer_leaves(whole.ty, whole.offset)->Some_0.contains(leaf) && c == leaf_claim(leaf)
}

spec fn claimed_for(e: MirEnumType, types: Seq<LlvmShape>, g: int, c: ClaimShape) -> bool {
    takes_bytes(e, types, g) && (c == needs(e, types, g) || is_leaf_of(c, needs(e, types, g)))
}

spec fn claim_known(
    e: MirEnumType,
    carrier: Option<LlvmShape>,
    types: Seq<LlvmShape>,
    c: ClaimShape,
) -> bool {
    ||| carrier is Some && c == carrier_needs(e, carrier->Some_0)
    ||| exists|g: int| #[trigger] claimed_for(e, types, g, c)
}

spec fn claims_known(
    e: MirEnumType,
    carrier: Option<LlvmShape>,
    types: Seq<LlvmShape>,
    claims: Seq<ClaimShape>,
) -> bool {
    &&& forall|i: int|
        0 <= i < claims.len() ==> claim_known(e, carrier, types, #[trigger] claims[i])
    &&& forall|i: int| 0 < i < claims.len() ==> (#[trigger] claims[i]).size > 0
}

/// A pointer of a claim lies in it, is its own only pointer, and meets no other.
proof fn lemma_leaf(whole: ClaimShape, leaf: LlvmPointerStorage, total_size: u64)
    requires
        claim_sound(whole, total_size),
        pointer_leaves(whole.ty, whole.offset) is Some,
        pointer_leaves(whole.ty, whole.offset)->Some_0.contains(leaf),
    ensures
        leaf.size == 8,
        whole.offset <= leaf.offset,
        leaf.offset + 8 <= whole.offset + whole.size,
        contains_leaf(whole.ty, LeafKind::PointerIn(leaf.address_space)),
        pointer_leaves(leaf_claim(leaf).ty, leaf_claim(leaf).offset) == Some(seq![leaf]),
        forall|other: LlvmPointerStorage|
            #[trigger] pointer_leaves(whole.ty, whole.offset)->Some_0.contains(other)
                && leaf_overlaps(other, leaf.offset as int, leaf.offset + 8) ==> other == leaf,
{
    let leaves = pointer_leaves(whole.ty, whole.offset)->Some_0;
    lemma_pointer_leaves_placed(whole.ty, whole.offset);
    let i = choose|i: int| 0 <= i < leaves.len() && leaves[i] == leaf;
    assert(leaves[i] == leaf);
    assert forall|other: LlvmPointerStorage| #[trigger] leaves.contains(other) && leaf_overlaps(
        other,
        leaf.offset as int,
        leaf.offset + 8,
    ) implies other == leaf by {
        let j = choose|j: int| 0 <= j < leaves.len() && leaves[j] == other;
        assert(leaves[j] == other);
        if i < j {
            assert(leaves[i].offset + 8 <= leaves[j].offset);
        } else if j < i {
            assert(leaves[j].offset + 8 <= leaves[i].offset);
        }
    }
}

/// What can share with a claim can share with its pointers.
proof fn lemma_leaf_shares(
    c: ClaimShape,
    whole: ClaimShape,
    a: ClaimShape,
    exact: bool,
    total_size: u64,
)
    requires
        claim_sound(whole, total_size),
        claim_sound(a, total_size),
        is_leaf_of(c, whole),
        can_share(whole, a, exact),
        exact ==> a.ty == LlvmShape::Integer(8),
    ensures
        can_share(c, a, exact),
{
    let leaf = choose|leaf: LlvmPointerStorage| #[trigger]
        pointer_leaves(whole.ty, whole.offset)->Some_0.contains(leaf) && c == leaf_claim(leaf);
    lemma_leaf(whole, leaf, total_size);
    let mine = seq![leaf];
    assert(mine[0] == leaf);
    assert(mine.contains(leaf));
    if !apart(c, a) {
        assert(!apart(whole, a));
        let theirs = pointer_leaves(a.ty, a.offset)->Some_0;
        assert(leaf_overlaps(leaf, a.offset as int, a.offset + a.size));
        assert(pointer_leaves(a.ty, a.offset) is Some);
        assert(theirs.contains(leaf));
        lemma_leaf(a, leaf, total_size);
        assert(!exact) by {
            if exact {
                assert(theirs.len() == 0);
            }
        }
        assert(byte_faithful(a.ty));
        assert(byte_faithful(c.ty));
        assert forall|l: LlvmPointerStorage|
            mine.contains(l) && leaf_overlaps(l, a.offset as int, a.offset + a.size) implies
            #[trigger] theirs.contains(l) by {}
        assert forall|l: LlvmPointerStorage|
            theirs.contains(l) && leaf_overlaps(l, c.offset as int, c.offset + c.size) implies
            #[trigger] mine.contains(l) by {
            assert(l == leaf);
        }
        assert(pointers_kept(c, a));
        assert(pointers_kept(a, c));
    }
}

/// Whatever was claimed can share with a payload field that fits.
proof fn lemma_known_shares(
    e: MirEnumType,
    carrier: Option<LlvmShape>,
    types: Seq<LlvmShape>,
    c: ClaimShape,
    f: int,
)
    requires
        payloads_fit(e, types),
        carrier_fits(e, carrier, types),
        claim_known(e, carrier, types, c),
        takes_bytes(e, types, f),
    ensures
        can_share(c, needs(e, types, f), types[f] == LlvmShape::Integer(1)),
{
    let a = needs(e, types, f);
    let exact = types[f] == LlvmShape::Integer(1);
    assert(payload_fits(e, types, f));
    if !(carrier is Some && c == carrier_needs(e, carrier->Some_0)) {
        let g = choose|g: int| #[trigger] claimed_for(e, types, g, c);
        assert(payloads_share(e, types, g, f));
        assert(payload_fits(e, types, g));
        let whole = needs(e, types, g);
        if c != whole {
            lemma_leaf_shares(c, whole, a, exact, e.encoding.total_size);
        }
    }
}

// ---------------------------------------------------------------------------
// Claiming succeeds
// ---------------------------------------------------------------------------

proof fn lemma_unclaimed_some(claims: Seq<ClaimShape>, a: ClaimShape, k: int, total_size: u64)
    requires
        claim_sound(a, total_size),
        pointer_leaves(a.ty, a.offset) is Some,
        0 <= k <= pointer_leaves(a.ty, a.offset)->Some_0.len(),
        forall|i: int|
            0 <= i < claims.len() && collides(#[trigger] claims[i], a.offset, a.size)
                ==> pointers_kept(a, claims[i]),
    ensures
        ({
            let incoming = pointer_leaves(a.ty, a.offset)->Some_0;
            let out = unclaimed_leaves(claims, incoming, a.offset, a.size, k);
            &&& out is Some
            &&& forall|i: int| 0 <= i < out->Some_0.len() ==> incoming.contains(
                #[trigger] out->Some_0[i],
            )
        }),
    decreases k,
{
    if k > 0 {
        lemma_unclaimed_some(claims, a, k - 1, total_size);
        let incoming = pointer_leaves(a.ty, a.offset)->Some_0;
        let leaf = incoming[k - 1];
        assert(incoming.contains(leaf));
        lemma_leaf(a, leaf, total_size);
        if !leaf_is_claimed(claims, leaf, a.offset, a.size) && leaf_hits_claim(
            claims,
            leaf,
            a.offset,
            a.size,
        ) {
            let i = choose|i: int|
                {
                    &&& 0 <= i < claims.len()
                    &&& collides(#[trigger] claims[i], a.offset, a.size)
                    &&& leaf_overlaps(
                        leaf,
                        claims[i].offset as int,
                        claims[i].offset + claims[i].size,
                    )
                };
            assert(pointers_kept(a, claims[i]));
            assert(pointer_leaves(claims[i].ty, claims[i].offset)->Some_0.contains(leaf));
            assert(leaf_touches(leaf, a.offset as int, a.offset + a.size));
            assert(leaf_is_claimed(claims, leaf, a.offset, a.size));
        }
    }
}

proof fn lemma_pointer_overlap_some(claims: Seq<ClaimShape>, a: ClaimShape, total_size: u64)
    requires
        claims_sound(claims, total_size),
        claim_sound(a, total_size),
        any_collision(claims, a.offset, a.size),
        forall|i: int|
            0 <= i < claims.len() && collides(#[trigger] claims[i], a.offset, a.size)
                ==> pointers_kept(a, claims[i]) && pointers_kept(claims[i], a),
    ensures
        ({
            let out = pointer_overlap(claims, a.ty, a.offset, a.size);
            &&& pointer_leaves(a.ty, a.offset) is Some
            &&& out is Some
            &&& forall|i: int|
                0 <= i < out->Some_0.len() ==> pointer_leaves(
                    a.ty,
                    a.offset,
                )->Some_0.contains(#[trigger] out->Some_0[i])
        }),
{
    let c = choose|c: int|
        0 <= c < claims.len() && collides(#[trigger] claims[c], a.offset, a.size);
    assert(pointers_kept(a, claims[c]));
    let incoming = pointer_leaves(a.ty, a.offset)->Some_0;
    assert forall|leaf: LlvmPointerStorage|
        leaf_is_claimed(claims, leaf, a.offset, a.size) implies #[trigger] incoming.contains(leaf) by {
        let i = choose|i: int|
            {
                &&& 0 <= i < claims.len()
                &&& collides(#[trigger] claims[i], a.offset, a.size)
                &&& pointer_leaves(claims[i].ty, claims[i].offset)->Some_0.contains(leaf)
                &&& leaf_touches(leaf, a.offset as int, a.offset + a.size)
            };
        assert(pointers_kept(claims[i], a));
        assert(claim_sound(claims[i], total_size));
        lemma_leaf(claims[i], leaf, total_size);
        assert(leaf_overlaps(leaf, a.offset as int, a.offset + a.size));
    }
    assert(claimed_leaves_match(claims, incoming, a.offset, a.size));
    lemma_unclaimed_some(claims, a, incoming.len() as int, total_size);
}

/// A payload field that fits is claimed, and what is then claimed still comes from the
/// carrier and the payload fields.
#[verifier::rlimit(40)]
proof fn lemma_field_claimed(
    e: MirEnumType,
    carrier: Option<LlvmShape>,
    types: Seq<LlvmShape>,
    st: ClaimState,
    field: usize,
)
    requires
        e.encoding.total_size < 0x3fff_ffff,
        payloads_fit(e, types),
        carrier_fits(e, carrier, types),
        claims_known(e, carrier, types, st.claims),
        claims_agree(e, types, st),
        st.of_field.len() == types.len(),
        field < types.len(),
    ensures
        claim_field(e, types, st, field) is Ok,
        claims_known(e, carrier, types, claim_field(e, types, st, field)->Ok_0.claims),
        claims_agree(e, types, claim_field(e, types, st, field)->Ok_0),
        claim_field(e, types, st, field)->Ok_0.of_field.len() == types.len(),
{
    reveal(claim_field);
    let f = field as int;
    let total_size = e.encoding.total_size;
    lemma_claims_are_few(st.claims, total_size);
    assert(payload_fits(e, types, f));
    if takes_bytes(e, types, f) {
        let a = needs(e, types, f);
        let exact = types[f] == LlvmShape::Integer(1);
        assert forall|i: int| 0 <= i < st.claims.len() implies can_share(
            #[trigger] st.claims[i],
            a,
            exact,
        ) by {
            lemma_known_shares(e, carrier, types, st.claims[i], f);
        }
        assert forall|i: int| 0 <= i < st.claims.len() implies claim_sound(
            #[trigger] st.claims[i],
            total_size,
        ) by {}
        assert(claimed_for(e, types, f, a));
        if !exact {
            lemma_find_claim(st.claims, a.offset, a.ty, 0);
            if find_claim(st.claims, a.offset, a.ty, 0) is None && any_collision(
                st.claims,
                a.offset,
                a.size,
            ) {
                assert forall|i: int|
                    0 <= i < st.claims.len() && collides(
                        #[trigger] st.claims[i],
                        a.offset,
                        a.size,
                    ) implies {
                    &&& byte_faithful(a.ty)
                    &&& byte_faithful(st.claims[i].ty)
                    &&& pointers_kept(a, st.claims[i])
                    &&& pointers_kept(st.claims[i], a)
                } by {
                    assert(can_share(st.claims[i], a, exact));
                }
                lemma_pointer_overlap_some(st.claims, a, total_size);
                let c = choose|c: int|
                    0 <= c < st.claims.len() && collides(
                        #[trigger] st.claims[c],
                        a.offset,
                        a.size,
                    );
                assert(byte_faithful(a.ty));
                let leaves = pointer_overlap(st.claims, a.ty, a.offset, a.size)->Some_0;
                let more = st.claims + leaf_claims(leaves);
                assert forall|i: int| 0 <= i < more.len() implies claim_known(
                    e,
                    carrier,
                    types,
                    #[trigger] more[i],
                ) && (i > 0 ==> more[i].size > 0) by {
                    if i < st.claims.len() {
                        assert(more[i] == st.claims[i]);
                    } else {
                        let leaf = leaves[i - st.claims.len()];
                        assert(pointer_leaves(a.ty, a.offset)->Some_0.contains(leaf));
                        assert(more[i] == leaf_claim(leaf));
                        lemma_leaf(a, leaf, total_size);
                        assert(is_leaf_of(more[i], a));
                        assert(claimed_for(e, types, f, more[i]));
                    }
                }
                assert(st.claims + leaf_claims(Seq::empty()) =~= st.claims);
            }
        }
        let pushed = st.claims.push(a);
        assert forall|i: int| 0 <= i < pushed.len() implies claim_known(
            e,
            carrier,
            types,
            #[trigger] pushed[i],
        ) by {
            if i < st.claims.len() {
                assert(pushed[i] == st.claims[i]);
            }
        }
    }
    lemma_claim_field_agrees(e, types, st, field);
}

proof fn lemma_fields_claimed(
    e: MirEnumType,
    carrier: Option<LlvmShape>,
    types: Seq<LlvmShape>,
    start: ClaimState,
    order: Seq<usize>,
    k: int,
)
    requires
        e.encoding.total_size < 0x3fff_ffff,
        payloads_fit(e, types),
        carrier_fits(e, carrier, types),
        claims_known(e, carrier, types, start.claims),
        claims_agree(e, types, start),
        start.of_field.len() == types.len(),
        0 <= k <= order.len(),
        forall|p: int| 0 <= p < order.len() ==> #[trigger] order[p] < types.len(),
    ensures
        ({
            let r = claim_fields(e, types, start, order, k);
            &&& r is Ok
            &&& claims_known(e, carrier, types, r->Ok_0.claims)
            &&& claims_agree(e, types, r->Ok_0)
            &&& r->Ok_0.of_field.len() == types.len()
        }),
    decreases k,
{
    if k > 0 {
        lemma_fields_claimed(e, carrier, types, start, order, k - 1);
        let st = claim_fields(e, types, start, order, k - 1)->Ok_0;
        lemma_field_claimed(e, carrier, types, st, order[k - 1]);
    }
}

/// A type that holds a pointer and keeps every byte is aligned as pointers are.
proof fn lemma_pointer_align(t: LlvmShape, space: u32)
    requires
        byte_faithful(t),
        contains_leaf(t, LeafKind::PointerIn(space)),
        size_align(t) is Some,
    ensures
        size_align(t)->Some_0.1 >= 8,
    decreases t,
{
    match t {
        LlvmShape::Array(elem, _) => {
            lemma_pointer_align(*elem, space);
        },
        LlvmShape::Struct(fields) => {
            let i = choose|i: int|
                0 <= i < fields.len() && contains_leaf(
                    #[trigger] fields[i],
                    LeafKind::PointerIn(space),
                );
            lemma_struct_size_align(fields);
            let parts = size_aligns(fields);
            assert(parts[i] == size_align(fields[i]));
            lemma_prefix_align_bounds(parts, fields.len() as int, i);
            lemma_pointer_align(fields[i], space);
        },
        _ => {},
    }
}

/// The physical type of the carrier: an integer or pointer as rustc recorded it.
pub open spec fn recorded_carrier(e: MirEnumType) -> Option<LlvmShape> {
    match e.encoding.carrier_kind {
        EnumCarrierKind::Absent => None,
        EnumCarrierKind::Integer => Some(LlvmShape::Integer(e.encoding.carrier_width)),
        EnumCarrierKind::Pointer => Some(LlvmShape::Pointer(e.encoding.carrier_address_space)),
    }
}

/// An enum of less than a gigabyte has storage where its carrier and its payload fields fit
/// it and each other, and where its alignment is a power of two up to 16 that divides its
/// size. Its carrier is an integer of whole bytes or a pointer outside shared memory, and
/// that of a directly tagged enum is of the type of its discriminants.
pub proof fn law_fitting_enums_have_storage(e: MirEnumType, types: Seq<LlvmShape>)
    requires
        e.encoding.total_size < 0x3fff_ffff,
        is_align(larger(e.encoding.abi_align, 1)),
        e.encoding.total_size as int % larger(e.encoding.abi_align, 1) as int == 0,
        e.encoding.layout_kind != EnumLayoutKind::Unknown,
        e.encoding.carrier_kind == EnumCarrierKind::Pointer ==> e.encoding.carrier_address_space
            != SHARED,
        e.encoding.carrier_kind == EnumCarrierKind::Integer ==> e.encoding.carrier_width % 8 == 0,
        e.encoding.carrier_kind == EnumCarrierKind::Integer && e.encoding.layout_kind
            == EnumLayoutKind::Direct ==> lowered(*e.discriminant_ty) == Ok::<
            LlvmShape,
            LowerError,
        >(LlvmShape::Integer(e.encoding.carrier_width)),
        types.len() == e.all_field_types@.len(),
        forall|i: int|
            0 <= i < types.len() ==> stands_at(e.all_field_types@, i, #[trigger] types[i]),
        payloads_fit(e, types),
        carrier_fits(e, recorded_carrier(e), types),
    ensures
        enum_type_slots(e) is Ok,
        lowered(MirType::Enum(e)) is Ok,
{
    let carrier = recorded_carrier(e);
    let total_size = e.encoding.total_size;
    assert(carrier_type(e, lowered(*e.discriminant_ty)) == Ok::<
        Option<LlvmShape>,
        LowerError,
    >(carrier));
    lemma_all_lowered(e.all_field_types@, types);
    let keys = claim_keys_of_fields(e, types);
    assert(e.all_field_types@.len() == e.all_field_types.len());
    lemma_sorted_positions(keys);
    let claims = carrier_claims(e, carrier)->Ok_0;
    assert(carrier_claims(e, carrier) is Ok) by {
        if carrier is Some {
            lemma_is_align(carrier->Some_0);
        }
    }
    if carrier is Some {
        assert(claims =~= seq![carrier_needs(e, carrier->Some_0)]);
    }
    let start = ClaimState { claims, of_field: Seq::new(types.len(), |i: int| None) };
    assert(claims_known(e, carrier, types, claims));
    assert(claims_sound(claims, total_size));
    assert(claims_agree(e, types, start));
    lemma_fields_claimed(e, carrier, types, start, sorted_positions(keys), types.len() as int);
    let st = enum_claims(e, carrier, types)->Ok_0;
    assert forall|i: int| 0 <= i < st.claims.len() implies size_align(
        (#[trigger] st.claims[i]).ty,
    )->Some_0.1 <= larger(e.encoding.abi_align, 1) by {
        let c = st.claims[i];
        assert(claim_known(e, carrier, types, c));
        if !(carrier is Some && c == carrier_needs(e, carrier->Some_0)) {
            let g = choose|g: int| #[trigger] claimed_for(e, types, g, c);
            assert(payload_fits(e, types, g));
            let whole = needs(e, types, g);
            if c != whole {
                let leaf = choose|leaf: LlvmPointerStorage| #[trigger]
                    pointer_leaves(whole.ty, whole.offset)->Some_0.contains(leaf) && c
                        == leaf_claim(leaf);
                lemma_leaf(whole, leaf, total_size);
                lemma_pointer_align(whole.ty, leaf.address_space);
            }
        }
    }
    law_sound_claims_have_storage(st.claims, total_size, e.encoding.abi_align);
    assert(enum_slots_over(e, carrier, types) is Ok);
}

// ---------------------------------------------------------------------------
// Which payload fields own a slot
// ---------------------------------------------------------------------------

/// Whether the bytes of claim `c` are among those of `whole`.
spec fn within(c: ClaimShape, whole: ClaimShape) -> bool {
    whole.offset <= c.offset && c.offset + c.size <= whole.offset + whole.size
}

/// A payload field claims bytes of its own only, and decides about its own slot only. It gets
/// one where nothing else claimed its bytes.
proof fn lemma_claims_own_bytes(
    e: MirEnumType,
    types: Seq<LlvmShape>,
    st: ClaimState,
    field: usize,
)
    requires
        claims_agree(e, types, st),
        st.of_field.len() == types.len(),
        st.claims.len() <= usize::MAX,
        field < types.len(),
        claim_field(e, types, st, field) is Ok,
    ensures
        ({
            let next = claim_field(e, types, st, field)->Ok_0;
            let need = needs(e, types, field as int);
            &&& forall|i: int|
                st.claims.len() <= i < next.claims.len() ==> takes_bytes(e, types, field as int)
                    && within(#[trigger] next.claims[i], need)
            &&& forall|g: int|
                0 <= g < types.len() && g != field ==> #[trigger] next.of_field[g] == st.of_field[g]
            &&& takes_bytes(e, types, field as int) && !contains_bool(types[field as int])
                && !any_collision(st.claims, need.offset, need.size)
                ==> next.of_field[field as int] is Some
        }),
{
    reveal(claim_field);
    let f = field as int;
    let next = claim_field(e, types, st, field)->Ok_0;
    let need = needs(e, types, f);
    if next.claims != st.claims && types[f] != LlvmShape::Integer(1) {
        let storage = payload_storage(types[f])->Ok_0;
        lemma_is_align(storage);
        if find_claim(st.claims, need.offset, storage, 0) is None && any_collision(
            st.claims,
            need.offset,
            need.size,
        ) {
            let leaves = pointer_overlap(st.claims, storage, need.offset, need.size)->Some_0;
            let incoming = pointer_leaves(storage, need.offset)->Some_0;
            if contains_pointer(storage) || collides_with_pointer(
                st.claims,
                need.offset,
                need.size,
            ) {
                lemma_pointer_leaves_placed(storage, need.offset);
                lemma_unclaimed_are_incoming(
                    st.claims,
                    incoming,
                    need.offset,
                    need.size,
                    incoming.len() as int,
                );
                assert forall|i: int| st.claims.len() <= i < next.claims.len() implies within(
                    #[trigger] next.claims[i],
                    need,
                ) by {
                    let leaf = leaves[i - st.claims.len()];
                    assert(next.claims[i] == leaf_claim(leaf));
                    let m = choose|m: int| 0 <= m < incoming.len() && incoming[m] == leaf;
                    assert(incoming[m] == leaf);
                }
            }
        }
    }
}

proof fn lemma_unclaimed_are_incoming(
    claims: Seq<ClaimShape>,
    incoming: Seq<LlvmPointerStorage>,
    offset: u64,
    size: u64,
    k: int,
)
    requires
        0 <= k <= incoming.len(),
        unclaimed_leaves(claims, incoming, offset, size, k) is Some,
    ensures
        forall|i: int|
            0 <= i < unclaimed_leaves(claims, incoming, offset, size, k)->Some_0.len()
                ==> incoming.contains(
                #[trigger] unclaimed_leaves(claims, incoming, offset, size, k)->Some_0[i],
            ),
    decreases k,
{
    if k > 0 {
        lemma_unclaimed_are_incoming(claims, incoming, offset, size, k - 1);
        assert(incoming.contains(incoming[k - 1]));
    }
}

/// Whether claim `c` is one of `start` or lies in a field among the first `k` of `order`.
spec fn claimed_before(
    e: MirEnumType,
    types: Seq<LlvmShape>,
    start: Seq<ClaimShape>,
    order: Seq<usize>,
    k: int,
    c: ClaimShape,
) -> bool {
    ||| start.contains(c)
    ||| exists|q: int|
        0 <= q < k && takes_bytes(e, types, #[trigger] order[q] as int) && within(
            c,
            needs(e, types, order[q] as int),
        )
}

proof fn lemma_claimed_in_order(
    e: MirEnumType,
    types: Seq<LlvmShape>,
    start: ClaimState,
    order: Seq<usize>,
    k: int,
    p: int,
)
    requires
        0 <= k <= order.len(),
        0 <= p < order.len(),
        forall|q: int| 0 <= q < order.len() ==> #[trigger] order[q] < types.len(),
        order.no_duplicates(),
        claims_agree(e, types, start),
        start.of_field.len() == types.len(),
        claim_fields(e, types, start, order, k) is Ok,
        claim_fields(e, types, start, order, k)->Ok_0.claims.len() <= usize::MAX,
        takes_bytes(e, types, order[p] as int),
        !contains_bool(types[order[p] as int]),
        forall|i: int|
            0 <= i < start.claims.len() ==> apart(
                #[trigger] start.claims[i],
                needs(e, types, order[p] as int),
            ),
        forall|q: int|
            0 <= q < p && takes_bytes(e, types, #[trigger] order[q] as int) ==> apart(
                needs(e, types, order[q] as int),
                needs(e, types, order[p] as int),
            ),
    ensures
        ({
            let st = claim_fields(e, types, start, order, k)->Ok_0;
            &&& claims_agree(e, types, st)
            &&& st.of_field.len() == types.len()
            &&& forall|i: int|
                0 <= i < st.claims.len() ==> claimed_before(
                    e,
                    types,
                    start.claims,
                    order,
                    k,
                    #[trigger] st.claims[i],
                )
            &&& p < k ==> st.of_field[order[p] as int] is Some
        }),
    decreases k,
{
    if k > 0 {
        let past = claim_fields(e, types, start, order, k - 1)->Ok_0;
        lemma_claims_grow(e, types, past, order[k - 1]);
        lemma_claimed_in_order(e, types, start, order, k - 1, p);
        lemma_claim_field_agrees(e, types, past, order[k - 1]);
        lemma_claims_own_bytes(e, types, past, order[k - 1]);
        let st = claim_field(e, types, past, order[k - 1])->Ok_0;
        assert(st == claim_fields(e, types, start, order, k)->Ok_0);
        assert forall|i: int| 0 <= i < st.claims.len() implies claimed_before(
            e,
            types,
            start.claims,
            order,
            k,
            #[trigger] st.claims[i],
        ) by {
            if i < past.claims.len() {
                assert(st.claims[i] == past.claims[i]);
                assert(claimed_before(e, types, start.claims, order, k - 1, past.claims[i]));
            } else {
                assert(within(st.claims[i], needs(e, types, order[k - 1] as int)));
            }
        }
        if p == k - 1 {
            let need = needs(e, types, order[p] as int);
            assert(!any_collision(past.claims, need.offset, need.size)) by {
                if any_collision(past.claims, need.offset, need.size) {
                    let i = choose|i: int|
                        0 <= i < past.claims.len() && collides(
                            #[trigger] past.claims[i],
                            need.offset,
                            need.size,
                        );
                    let c = past.claims[i];
                    assert(claimed_before(e, types, start.claims, order, k - 1, c));
                    if start.claims.contains(c) {
                        let j = choose|j: int|
                            0 <= j < start.claims.len() && start.claims[j] == c;
                        assert(apart(start.claims[j], need));
                    }
                }
            }
        } else if p < k - 1 {
            assert(order[p] != order[k - 1]);
        }
    }
}

/// Whether payload field `f` is placed before payload field `g`: it starts earlier, or at the
/// same byte but as the only one to keep every byte, or is listed first.
pub open spec fn placed_before(e: MirEnumType, types: Seq<LlvmShape>, f: int, g: int) -> bool {
    let at = e.all_field_offsets@;
    ||| at[f] < at[g]
    ||| at[f] == at[g] && byte_faithful(types[f]) && !byte_faithful(types[g])
    ||| at[f] == at[g] && byte_faithful(types[f]) == byte_faithful(types[g]) && f < g
}

/// A payload field that takes bytes and holds no `bool` owns a slot where it has no byte in
/// common with the carrier, nor with a payload field that is placed before it.
pub proof fn law_first_payloads_own_slots(e: MirEnumType, s: EnumSlots, f: int)
    requires
        enum_type_slots(e) == Ok::<EnumSlots, LowerError>(s),
        e.spec_variant_count() > 0,
        takes_bytes(e, s.field_types, f),
        !contains_bool(s.field_types[f]),
        s.carrier_ty matches Some(ty) ==> apart(
            carrier_needs(e, ty),
            needs(e, s.field_types, f),
        ),
        forall|g: int|
            g != f && #[trigger] takes_bytes(e, s.field_types, g) ==> apart(
                needs(e, s.field_types, g),
                needs(e, s.field_types, f),
            ) || placed_before(e, s.field_types, f, g),
    ensures
        s.field_slots[f] is Some,
{
    let types = s.field_types;
    let carrier = s.carrier_ty;
    assert(enum_slots_over(e, carrier, types) == Ok::<EnumSlots, LowerError>(s));
    let keys = claim_keys_of_fields(e, types);
    assert(e.all_field_offsets@.len() == e.all_field_offsets.len());
    lemma_sorted_positions(keys);
    let order = sorted_positions(keys);
    let claims = carrier_claims(e, carrier)->Ok_0;
    let start = ClaimState { claims, of_field: Seq::new(types.len(), |i: int| None) };
    if carrier is Some {
        lemma_is_align(carrier->Some_0);
        assert(claims =~= seq![carrier_needs(e, carrier->Some_0)]);
        assert(claim_sound(claims[0], e.encoding.total_size));
    }
    assert(claims_agree(e, types, start));
    let st = enum_claims(e, carrier, types)->Ok_0;
    lemma_storage_claim_count(st.claims, e.encoding.total_size, e.encoding.abi_align);
    assert(order.contains(f as usize));
    let p = choose|p: int| 0 <= p < order.len() && order[p] == f as usize;
    assert forall|q: int|
        0 <= q < p && takes_bytes(e, types, #[trigger] order[q] as int) implies apart(
        needs(e, types, order[q] as int),
        needs(e, types, order[p] as int),
    ) by {
        assert(comes_first(keys, order[q], order[p]));
        assert(order[q] != order[p]);
    }
    lemma_claimed_in_order(e, types, start, order, types.len() as int, p);
}

} // verus!
