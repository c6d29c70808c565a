//! What an enum's slot map promises of every enum that has one.

use crate::collect::all_ok;
use crate::enum_claims::{any_collision, ClaimShape};
use crate::enum_slots::{
    carrier_claims, carrier_defect, carrier_storable, carrier_type, claim_field, claim_fields,
    claim_keys_of_fields, enum_claims, enum_slots, enum_slots_over, field_inhabited, find_claim,
    lemma_claims_grow, lemma_find_claim, lemma_slot_claims, lemma_slots_keep_layout,
    lemma_slots_keep_offsets, lemma_storage_is_target_stable, ClaimState,
};
use crate::error::LowerError;
use crate::layout::{field_at, is_align, larger, size_align};
use crate::llvm::{LlvmShape, SHARED};
use crate::mir::MirEnumType;
use crate::sort::{comes_first, lemma_sorted_positions, sorted_positions};
use crate::storage::{
    byte_faithful, contains_bool, contains_leaf, payload_storage, zero_sized, LeafKind,
};
use vstd::prelude::*;
use vstd::relations::{sorted_by, total_ordering};
use vstd::seq_lib::{group_to_multiset_ensures, lemma_sorted_unique};

verus! {

/// A slot map puts the carrier at rustc's tag offset, in its physical type, and
/// every payload field that owns a slot at rustc's field offset, in its storage
/// type.
pub proof fn law_enum_slots_keep_offsets(
    e: MirEnumType,
    discriminant: Result<LlvmShape, LowerError>,
    converted: Seq<Result<LlvmShape, LowerError>>,
)
    requires
        enum_slots(e, discriminant, converted) is Ok,
    ensures
        ({
            let s = enum_slots(e, discriminant, converted)->Ok_0;
            &&& s.carrier_slot is Some ==> s.carrier_ty is Some && field_at(
                s.fields,
                s.carrier_slot->Some_0 as int,
                s.carrier_ty->Some_0,
                e.encoding.tag_offset as int,
            )
            &&& e.spec_variant_count() > 0 ==> s.field_offsets == e.all_field_offsets@
            &&& s.field_slots.len() == s.field_types.len()
            &&& forall|f: int|
                0 <= f < s.field_slots.len() && #[trigger] s.field_slots[f] is Some ==> {
                    &&& payload_storage(s.field_types[f]) is Ok
                    &&& field_at(
                        s.fields,
                        s.field_slots[f]->Some_0 as int,
                        payload_storage(s.field_types[f])->Ok_0,
                        s.field_offsets[f] as int,
                    )
                }
        }),
{
    if e.spec_variant_count() > 0 {
        let carrier = carrier_type(e, discriminant)->Ok_0;
        let types = all_ok(converted)->Ok_0;
        lemma_slots_keep_offsets(e, carrier, types);
    }
}

/// The storage struct of an enum with a variant has exactly rustc's size and
/// alignment, so arrays of it step as rustc's do.
///
/// A type cannot align wider than sixteen bytes, and rustc's sizes are
/// multiples of its alignments.
pub proof fn law_enum_slots_keep_layout(
    e: MirEnumType,
    discriminant: Result<LlvmShape, LowerError>,
    converted: Seq<Result<LlvmShape, LowerError>>,
)
    requires
        enum_slots(e, discriminant, converted) is Ok,
        e.spec_variant_count() > 0,
        is_align(larger(e.encoding.abi_align, 1)),
        e.encoding.total_size as int % larger(e.encoding.abi_align, 1) as int == 0,
    ensures
        size_align(LlvmShape::Struct(enum_slots(e, discriminant, converted)->Ok_0.fields)) == Some(
            (e.encoding.total_size, larger(e.encoding.abi_align, 1)),
        ),
        forall|n: u64|
            e.encoding.total_size * n <= u64::MAX ==> #[trigger] size_align(
                LlvmShape::Array(
                    Box::new(
                        LlvmShape::Struct(enum_slots(e, discriminant, converted)->Ok_0.fields),
                    ),
                    n,
                ),
            ) == Some(
                ((e.encoding.total_size * n) as u64, larger(e.encoding.abi_align, 1)),
            ),
{
    let carrier = carrier_type(e, discriminant)->Ok_0;
    let types = all_ok(converted)->Ok_0;
    lemma_slots_keep_layout(e, carrier, types);
    assert forall|n: u64| e.encoding.total_size * n <= u64::MAX implies #[trigger] size_align(
        LlvmShape::Array(
            Box::new(LlvmShape::Struct(enum_slots(e, discriminant, converted)->Ok_0.fields)),
            n,
        ),
    ) == Some(((e.encoding.total_size * n) as u64, larger(e.encoding.abi_align, 1))) by {
        assert(0 <= e.encoding.total_size * n) by (nonlinear_arith);
    }
}

/// Enum storage never holds an `i1` or a shared-memory pointer.
pub proof fn law_enum_storage_is_target_stable(
    e: MirEnumType,
    discriminant: Result<LlvmShape, LowerError>,
    converted: Seq<Result<LlvmShape, LowerError>>,
)
    requires
        enum_slots(e, discriminant, converted) is Ok,
    ensures
        ({
            let whole = LlvmShape::Struct(enum_slots(e, discriminant, converted)->Ok_0.fields);
            &&& !contains_bool(whole)
            &&& !contains_leaf(whole, LeafKind::PointerIn(SHARED))
        }),
{
    if e.spec_variant_count() > 0 {
        let carrier = carrier_type(e, discriminant)->Ok_0;
        let types = all_ok(converted)->Ok_0;
        lemma_storage_is_target_stable(e, carrier, types);
    } else {
        let whole = LlvmShape::Struct(enum_slots(e, discriminant, converted)->Ok_0.fields);
        assert(whole->Struct_0.len() == 0);
    }
}

/// Whether only payload fields that can own a slot use a claim: fields that take
/// bytes and hold no `bool`, of variants that can exist.
spec fn owners_sound(e: MirEnumType, types: Seq<LlvmShape>, st: ClaimState) -> bool {
    forall|f: int|
        0 <= f < st.of_field.len() && #[trigger] st.of_field[f] is Some ==> !contains_bool(types[f])
            && !zero_sized(types[f]) && field_inhabited(e, f)
}

proof fn lemma_owners_sound(
    e: MirEnumType,
    types: Seq<LlvmShape>,
    start: ClaimState,
    order: Seq<usize>,
    k: int,
)
    requires
        0 <= k <= order.len(),
        forall|p: int| 0 <= p < order.len() ==> #[trigger] order[p] < types.len(),
        start.of_field.len() == types.len(),
        owners_sound(e, types, start),
        claim_fields(e, types, start, order, k) is Ok,
    ensures
        claim_fields(e, types, start, order, k)->Ok_0.of_field.len() == types.len(),
        owners_sound(e, types, claim_fields(e, types, start, order, k)->Ok_0),
    decreases k,
{
    if k > 0 {
        lemma_owners_sound(e, types, start, order, k - 1);
        reveal(claim_field);
        let past = claim_fields(e, types, start, order, k - 1)->Ok_0;
        let st = claim_fields(e, types, start, order, k)->Ok_0;
        let field = order[k - 1] as int;
        assert forall|f: int| 0 <= f < st.of_field.len() && #[trigger] st.of_field[f] is Some
            implies !contains_bool(types[f]) && !zero_sized(types[f]) && field_inhabited(e, f) by {
            if f != field || st == past {
                assert(past.of_field[f] is Some);
            }
        }
    }
}

/// Only payload fields that take bytes and hold no `bool`, of variants that can
/// exist, own a slot.
pub proof fn lemma_slot_owners(
    e: MirEnumType,
    discriminant: Result<LlvmShape, LowerError>,
    converted: Seq<Result<LlvmShape, LowerError>>,
    f: int,
)
    requires
        enum_slots(e, discriminant, converted) is Ok,
        0 <= f < enum_slots(e, discriminant, converted)->Ok_0.field_slots.len(),
        enum_slots(e, discriminant, converted)->Ok_0.field_slots[f] is Some,
    ensures
        !contains_bool(enum_slots(e, discriminant, converted)->Ok_0.field_types[f]),
        !zero_sized(enum_slots(e, discriminant, converted)->Ok_0.field_types[f]),
        field_inhabited(e, f),
{
    let carrier = carrier_type(e, discriminant)->Ok_0;
    let types = all_ok(converted)->Ok_0;
    let claims = carrier_claims(e, carrier)->Ok_0;
    let start = ClaimState { claims, of_field: Seq::new(types.len(), |i: int| None) };
    let order = sorted_positions(claim_keys_of_fields(e, types));
    assert(e.all_field_offsets@.len() == e.all_field_offsets.len());
    lemma_sorted_positions(claim_keys_of_fields(e, types));
    lemma_owners_sound(e, types, start, order, types.len() as int);
    lemma_slot_claims(e, carrier, types);
    let st = enum_claims(e, carrier, types)->Ok_0;
    assert(st.of_field[f] is Some);
}

/// A payload field that is or holds a `bool` owns no slot: its bytes are written
/// and read in memory.
pub proof fn law_bool_payloads_have_no_slot(
    e: MirEnumType,
    discriminant: Result<LlvmShape, LowerError>,
    converted: Seq<Result<LlvmShape, LowerError>>,
)
    requires
        enum_slots(e, discriminant, converted) is Ok,
    ensures
        ({
            let s = enum_slots(e, discriminant, converted)->Ok_0;
            forall|f: int|
                0 <= f < s.field_slots.len() && contains_bool(s.field_types[f])
                    ==> #[trigger] s.field_slots[f] is None
        }),
{
    let s = enum_slots(e, discriminant, converted)->Ok_0;
    assert forall|f: int| 0 <= f < s.field_slots.len() && contains_bool(s.field_types[f]) implies
        #[trigger] s.field_slots[f] is None by {
        if s.field_slots[f] is Some {
            lemma_slot_owners(e, discriminant, converted, f);
        }
    }
}

// ---------------------------------------------------------------------------
// Where claims come from
// ---------------------------------------------------------------------------

/// Whether a claim is for payload field `f`: in its storage type, at its offset.
pub open spec fn claimed_for(
    e: MirEnumType,
    types: Seq<LlvmShape>,
    claim: ClaimShape,
    f: int,
) -> bool {
    &&& 0 <= f < types.len()
    &&& field_inhabited(e, f)
    &&& !zero_sized(types[f])
    &&& payload_storage(types[f]) == Ok::<LlvmShape, LowerError>(claim.ty)
    &&& claim.offset == e.all_field_offsets@[f]
}

/// Whether each claim is byte-faithful or for some payload field.
pub open spec fn claims_traced(
    e: MirEnumType,
    types: Seq<LlvmShape>,
    claims: Seq<ClaimShape>,
) -> bool {
    forall|c: int|
        0 <= c < claims.len() ==> byte_faithful((#[trigger] claims[c]).ty) || exists|f: int| #[trigger]
            claimed_for(e, types, claims[c], f)
}

/// Whether payload field `f` lies inside the enum and is byte-faithful or has a
/// claim of its own, where it can exist and takes bytes.
pub open spec fn payload_placed(
    e: MirEnumType,
    types: Seq<LlvmShape>,
    claims: Seq<ClaimShape>,
    f: int,
) -> bool {
    let storage = payload_storage(types[f])->Ok_0;
    field_inhabited(e, f) && !zero_sized(types[f]) ==> {
        &&& payload_storage(types[f]) is Ok
        &&& size_align(storage) is Some
        &&& size_align(storage)->Some_0.0 == 0 || e.all_field_offsets@[f] + size_align(
            storage,
        )->Some_0.0 <= e.encoding.total_size
        &&& size_align(storage)->Some_0.0 == 0 || byte_faithful(storage) || exists|c: int|
            0 <= c < claims.len() && claimed_for(e, types, #[trigger] claims[c], f)
    }
}

proof fn lemma_claim_traced(e: MirEnumType, types: Seq<LlvmShape>, st: ClaimState, field: usize)
    requires
        field < types.len(),
        st.claims.len() <= usize::MAX,
        claims_traced(e, types, st.claims),
        claim_field(e, types, st, field) is Ok,
    ensures
        ({
            let after = claim_field(e, types, st, field)->Ok_0;
            &&& claims_traced(e, types, after.claims)
            &&& payload_placed(e, types, after.claims, field as int)
            &&& st.claims.len() <= after.claims.len()
            &&& forall|c: int| 0 <= c < st.claims.len() ==> #[trigger] after.claims[c]
                == st.claims[c]
        }),
{
    reveal(claim_field);
    let after = claim_field(e, types, st, field)->Ok_0;
    let f = field as int;
    let storage = payload_storage(types[f])->Ok_0;
    lemma_find_claim(st.claims, e.all_field_offsets@[f], storage, 0);
    if field_inhabited(e, f) && !zero_sized(types[f]) && size_align(storage)->Some_0.0 != 0 {
        if types[f] == LlvmShape::Integer(1) {
            assert(byte_faithful(LlvmShape::Integer(8)));
            assert(storage == LlvmShape::Integer(8));
        } else {
            match find_claim(st.claims, e.all_field_offsets@[f], storage, 0) {
                Some(c) => {
                    assert(claimed_for(e, types, after.claims[c as int], f));
                },
                None => {
                    if !any_collision(
                        st.claims,
                        e.all_field_offsets@[f],
                        size_align(storage)->Some_0.0,
                    ) {
                        assert(claimed_for(e, types, after.claims[st.claims.len() as int], f));
                    }
                },
            }
        }
    }
    assert forall|c: int| 0 <= c < after.claims.len() implies byte_faithful(
        (#[trigger] after.claims[c]).ty,
    ) || exists|g: int| #[trigger] claimed_for(e, types, after.claims[c], g) by {
        if c < st.claims.len() {
            assert(after.claims[c] == st.claims[c]);
        }
    }
}

proof fn lemma_claims_traced(
    e: MirEnumType,
    types: Seq<LlvmShape>,
    start: ClaimState,
    order: Seq<usize>,
    k: int,
)
    requires
        0 <= k <= order.len(),
        forall|p: int| 0 <= p < order.len() ==> #[trigger] order[p] < types.len(),
        claims_traced(e, types, start.claims),
        claim_fields(e, types, start, order, k) is Ok,
        claim_fields(e, types, start, order, k)->Ok_0.claims.len() <= usize::MAX,
    ensures
        ({
            let st = claim_fields(e, types, start, order, k)->Ok_0;
            &&& claims_traced(e, types, st.claims)
            &&& forall|p: int|
                0 <= p < k ==> payload_placed(e, types, st.claims, #[trigger] order[p] as int)
        }),
    decreases k,
{
    if k > 0 {
        let past = claim_fields(e, types, start, order, k - 1)->Ok_0;
        let st = claim_fields(e, types, start, order, k)->Ok_0;
        lemma_claims_grow(e, types, past, order[k - 1]);
        lemma_claims_traced(e, types, start, order, k - 1);
        lemma_claim_traced(e, types, past, order[k - 1]);
        assert forall|p: int| 0 <= p < k implies payload_placed(
            e,
            types,
            st.claims,
            #[trigger] order[p] as int,
        ) by {
            if p < k - 1 {
                let f = order[p] as int;
                assert(payload_placed(e, types, past.claims, f));
                if exists|c: int|
                    0 <= c < past.claims.len() && claimed_for(e, types, #[trigger] past.claims[c], f) {
                    let c = choose|c: int|
                        0 <= c < past.claims.len() && claimed_for(
                            e,
                            types,
                            #[trigger] past.claims[c],
                            f,
                        );
                    assert(st.claims[c] == past.claims[c]);
                }
            }
        }
    }
}

/// Each claim of an enum is byte-faithful or for a payload field, and each payload
/// field is byte-faithful or has a claim of its own.
pub proof fn lemma_claims_and_payloads(
    e: MirEnumType,
    carrier: Option<LlvmShape>,
    types: Seq<LlvmShape>,
)
    requires
        carrier_storable(carrier),
        enum_slots_over(e, carrier, types) is Ok,
    ensures
        claims_traced(e, types, enum_claims(e, carrier, types)->Ok_0.claims),
        forall|f: int|
            0 <= f < types.len() ==> #[trigger] payload_placed(
                e,
                types,
                enum_claims(e, carrier, types)->Ok_0.claims,
                f,
            ),
{
    lemma_slot_claims(e, carrier, types);
    let claims = carrier_claims(e, carrier)->Ok_0;
    let start = ClaimState { claims, of_field: Seq::new(types.len(), |i: int| None) };
    let keys = claim_keys_of_fields(e, types);
    let order = sorted_positions(keys);
    assert(e.all_field_offsets@.len() == e.all_field_offsets.len());
    lemma_sorted_positions(keys);
    lemma_claims_traced(e, types, start, order, types.len() as int);
    let st = enum_claims(e, carrier, types)->Ok_0;
    assert forall|f: int| 0 <= f < types.len() implies #[trigger] payload_placed(
        e,
        types,
        st.claims,
        f,
    ) by {
        assert(order.contains(f as usize));
        let p = choose|p: int| 0 <= p < order.len() && order[p] == f as usize;
        assert(order[p] == f);
    }
}

// ---------------------------------------------------------------------------
// Variants that cannot exist
// ---------------------------------------------------------------------------

/// The first `k` entries of `order` whose payload fields can exist.
spec fn kept(e: MirEnumType, order: Seq<usize>, k: int) -> Seq<usize>
    decreases k,
{
    if k <= 0 {
        Seq::empty()
    } else if field_inhabited(e, order[k - 1] as int) {
        kept(e, order, k - 1).push(order[k - 1])
    } else {
        kept(e, order, k - 1)
    }
}

/// The kept entries are those of `order`, in its order.
proof fn lemma_kept(e: MirEnumType, order: Seq<usize>, keys: Seq<(u64, bool)>, k: int)
    requires
        0 <= k <= order.len(),
        order.no_duplicates(),
        forall|i: int, j: int|
            0 <= i < j < order.len() ==> comes_first(
                keys,
                #[trigger] order[i],
                #[trigger] order[j],
            ),
    ensures
        kept(e, order, k).no_duplicates(),
        forall|x: usize| #[trigger]
            kept(e, order, k).contains(x) <==> order.take(k).contains(x) && field_inhabited(
                e,
                x as int,
            ),
        forall|i: int, j: int|
            0 <= i < j < kept(e, order, k).len() ==> comes_first(
                keys,
                #[trigger] kept(e, order, k)[i],
                #[trigger] kept(e, order, k)[j],
            ),
    decreases k,
{
    if k > 0 {
        lemma_kept(e, order, keys, k - 1);
        let past = kept(e, order, k - 1);
        let all = kept(e, order, k);
        let x = order[k - 1];
        let head = order.take(k - 1);
        assert(order.take(k) =~= head.push(x));
        assert forall|y: usize| #[trigger] past.contains(y) implies y != x && comes_first(
            keys,
            y,
            x,
        ) by {
            let i = choose|i: int| 0 <= i < k - 1 && head[i] == y;
            assert(order[i] == y);
        }
        assert forall|y: usize| #[trigger] all.contains(y) <==> order.take(k).contains(y)
            && field_inhabited(e, y as int) by {
            if all.contains(y) {
                let i = choose|i: int| 0 <= i < all.len() && all[i] == y;
                if i < past.len() {
                    assert(past[i] == y);
                    assert(past.contains(y));
                    let p = choose|p: int| 0 <= p < k - 1 && head[p] == y;
                    assert(order.take(k)[p] == y);
                } else {
                    assert(order.take(k)[k - 1] == y);
                }
            }
            if order.take(k).contains(y) && field_inhabited(e, y as int) {
                let p = choose|p: int| 0 <= p < k && order.take(k)[p] == y;
                if p < k - 1 {
                    assert(head[p] == y);
                    assert(past.contains(y));
                    let i = choose|i: int| 0 <= i < past.len() && past[i] == y;
                    assert(all[i] == y);
                } else {
                    assert(all[past.len() as int] == y);
                }
            }
        }
        assert forall|i: int, j: int| 0 <= i < j < all.len() implies comes_first(
            keys,
            #[trigger] all[i],
            #[trigger] all[j],
        ) && all[i] != all[j] by {
            if j < past.len() {
                assert(past[i] == all[i] && past[j] == all[j]);
            } else {
                assert(past[i] == all[i]);
                assert(past.contains(past[i]));
            }
        }
    } else {
        assert(order.take(0) =~= Seq::empty());
    }
}

proof fn lemma_claims_of_prefix(
    e: MirEnumType,
    types: Seq<LlvmShape>,
    start: ClaimState,
    order: Seq<usize>,
    next: usize,
    k: int,
)
    requires
        0 <= k <= order.len(),
    ensures
        claim_fields(e, types, start, order.push(next), k) == claim_fields(
            e,
            types,
            start,
            order,
            k,
        ),
    decreases k,
{
    if k > 0 {
        lemma_claims_of_prefix(e, types, start, order, next, k - 1);
        assert(order.push(next)[k - 1] == order[k - 1]);
    }
}

/// Payload fields that cannot exist make no claim.
proof fn lemma_claims_of_kept(
    e: MirEnumType,
    types: Seq<LlvmShape>,
    start: ClaimState,
    order: Seq<usize>,
    k: int,
)
    requires
        0 <= k <= order.len(),
    ensures
        claim_fields(e, types, start, order, k) == claim_fields(
            e,
            types,
            start,
            kept(e, order, k),
            kept(e, order, k).len() as int,
        ),
    decreases k,
{
    if k > 0 {
        lemma_claims_of_kept(e, types, start, order, k - 1);
        let past = kept(e, order, k - 1);
        reveal(claim_field);
        if field_inhabited(e, order[k - 1] as int) {
            lemma_claims_of_prefix(e, types, start, past, order[k - 1], past.len() as int);
        }
    }
}

/// Whether two enums differ only in the offsets and sizes of payload fields of
/// variants that cannot exist.
pub open spec fn same_where_inhabited(e: MirEnumType, g: MirEnumType) -> bool {
    &&& g == MirEnumType {
        all_field_offsets: g.all_field_offsets,
        all_field_sizes: g.all_field_sizes,
        ..e
    }
    &&& g.all_field_offsets@.len() == e.all_field_offsets@.len()
    &&& g.all_field_sizes@.len() == e.all_field_sizes@.len()
    &&& forall|f: int|
        0 <= f < e.all_field_offsets@.len() && field_inhabited(e, f)
            ==> #[trigger] g.all_field_offsets@[f] == e.all_field_offsets@[f]
    &&& forall|f: int|
        0 <= f < e.all_field_sizes@.len() && field_inhabited(e, f)
            ==> #[trigger] g.all_field_sizes@[f] == e.all_field_sizes@[f]
}

proof fn lemma_same_claims(
    e: MirEnumType,
    g: MirEnumType,
    types: Seq<LlvmShape>,
    start: ClaimState,
    order: Seq<usize>,
    k: int,
)
    requires
        same_where_inhabited(e, g),
        e.all_field_offsets@.len() == types.len(),
        e.all_field_sizes@.len() == types.len(),
        0 <= k <= order.len(),
        forall|i: int|
            0 <= i < order.len() ==> #[trigger] order[i] < types.len() && field_inhabited(
                e,
                order[i] as int,
            ),
    ensures
        claim_fields(g, types, start, order, k) == claim_fields(e, types, start, order, k),
    decreases k,
{
    if k > 0 {
        lemma_same_claims(e, g, types, start, order, k - 1);
        reveal(claim_field);
        assert(order[k - 1] < types.len());
    }
}

/// The payload fields that can exist claim their bytes in the same order.
proof fn lemma_same_order(e: MirEnumType, g: MirEnumType, types: Seq<LlvmShape>)
    requires
        same_where_inhabited(e, g),
        types.len() <= usize::MAX,
        e.all_field_offsets@.len() == types.len(),
    ensures
        ({
            let n = types.len() as int;
            let x = kept(e, sorted_positions(claim_keys_of_fields(e, types)), n);
            let y = kept(g, sorted_positions(claim_keys_of_fields(g, types)), n);
            &&& x == y
            &&& forall|i: int|
                0 <= i < x.len() ==> #[trigger] x[i] < types.len() && field_inhabited(
                    e,
                    x[i] as int,
                )
        }),
{
    broadcast use group_to_multiset_ensures;

    let n = types.len() as int;
    let ka = claim_keys_of_fields(e, types);
    let kb = claim_keys_of_fields(g, types);
    let a = sorted_positions(ka);
    let b = sorted_positions(kb);
    lemma_sorted_positions(ka);
    lemma_sorted_positions(kb);
    lemma_kept(e, a, ka, n);
    lemma_kept(g, b, kb, n);
    assert(a.take(n) =~= a);
    assert(b.take(n) =~= b);
    let x = kept(e, a, n);
    let y = kept(g, b, n);
    let leq = |p: usize, q: usize| comes_first(ka, p, q);
    assert(total_ordering(leq));
    assert forall|p: usize| #[trigger] a.contains(p) <==> p < n by {
        if a.contains(p) {
            let i = choose|i: int| 0 <= i < a.len() && a[i] == p;
            assert(a[i] < n);
        }
    }
    assert forall|p: usize| #[trigger] b.contains(p) <==> p < n by {
        if b.contains(p) {
            let i = choose|i: int| 0 <= i < b.len() && b[i] == p;
            assert(b[i] < n);
        }
    }
    assert forall|p: usize| #[trigger] x.contains(p) <==> y.contains(p) by {
        assert(a.contains(p) <==> b.contains(p));
    }
    assert forall|i: int| 0 <= i < x.len() implies #[trigger] x[i] < types.len()
        && field_inhabited(e, x[i] as int) by {
        assert(x.contains(x[i]));
    }
    assert forall|i: int, j: int| 0 <= i < j < y.len() implies #[trigger] leq(y[i], y[j]) by {
        assert(y.contains(y[i]) && y.contains(y[j]));
        assert(comes_first(kb, y[i], y[j]));
        assert(kb[y[i] as int] == ka[y[i] as int]);
        assert(kb[y[j] as int] == ka[y[j] as int]);
    }
    assert(sorted_by(x, leq));
    assert(sorted_by(y, leq));
    x.lemma_multiset_has_no_duplicates();
    y.lemma_multiset_has_no_duplicates();
    assert forall|p: usize| x.to_multiset().count(p) == y.to_multiset().count(p) by {
        assert(x.contains(p) <==> x.to_multiset().count(p) > 0);
        assert(y.contains(p) <==> y.to_multiset().count(p) > 0);
    }
    assert(x.to_multiset() =~= y.to_multiset());
    lemma_sorted_unique(x, y, leq);
}

/// Offsets and sizes of payload fields of variants that cannot exist change
/// nothing, and those fields own no slot.
pub proof fn law_uninhabited_fields_change_nothing(
    e: MirEnumType,
    g: MirEnumType,
    discriminant: Result<LlvmShape, LowerError>,
    converted: Seq<Result<LlvmShape, LowerError>>,
)
    requires
        same_where_inhabited(e, g),
        enum_slots(e, discriminant, converted) is Ok,
    ensures
        enum_slots(g, discriminant, converted) is Ok,
        ({
            let s = enum_slots(e, discriminant, converted)->Ok_0;
            let t = enum_slots(g, discriminant, converted)->Ok_0;
            &&& t.fields == s.fields
            &&& t.carrier_slot == s.carrier_slot
            &&& t.carrier_ty == s.carrier_ty
            &&& t.field_slots == s.field_slots
            &&& t.field_types == s.field_types
            &&& forall|f: int|
                0 <= f < s.field_slots.len() && !field_inhabited(e, f)
                    ==> #[trigger] s.field_slots[f] is None
        }),
{
    let s = enum_slots(e, discriminant, converted)->Ok_0;
    assert forall|f: int| 0 <= f < s.field_slots.len() && !field_inhabited(e, f) implies
        #[trigger] s.field_slots[f] is None by {
        if s.field_slots[f] is Some {
            lemma_slot_owners(e, discriminant, converted, f);
        }
    }
    if e.spec_variant_count() > 0 {
        assert(carrier_defect(g) == carrier_defect(e));
        let carrier = carrier_type(e, discriminant)->Ok_0;
        let types = all_ok(converted)->Ok_0;
        let n = types.len() as int;
        assert(e.all_field_offsets@.len() == e.all_field_offsets.len());
        lemma_same_order(e, g, types);
        let claims = carrier_claims(e, carrier)->Ok_0;
        let start = ClaimState { claims, of_field: Seq::new(types.len(), |i: int| None) };
        let a = sorted_positions(claim_keys_of_fields(e, types));
        let b = sorted_positions(claim_keys_of_fields(g, types));
        lemma_sorted_positions(claim_keys_of_fields(e, types));
        lemma_sorted_positions(claim_keys_of_fields(g, types));
        lemma_claims_of_kept(e, types, start, a, n);
        lemma_claims_of_kept(g, types, start, b, n);
        let x = kept(e, a, n);
        lemma_same_claims(e, g, types, start, x, x.len() as int);
        assert(enum_claims(g, carrier, types) == enum_claims(e, carrier, types));
        let t = enum_slots_over(g, carrier, types)->Ok_0;
        assert(t.field_slots =~= s.field_slots);
    }
}

} // verus!
