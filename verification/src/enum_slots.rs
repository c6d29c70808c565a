//! Where the tag and each payload field of an enum land in its LLVM struct.
//!
//! The variants of an enum share bytes, which an LLVM struct cannot say. Each
//! payload field is therefore resolved in one of three ways: it owns a slot, it
//! shares the slot of an equal type at the same byte, or it has no slot and is
//! read and written through memory at its byte offset.

use crate::collect::all_ok;
use crate::enum_claims::{
    analyze_pointer_overlap, any_collision, claim_collides, claim_shapes, claim_sound, claims_sound,
    collides, leaf_claim, leaf_claims, lemma_extra_claims_sound, lemma_push_claim_sound,
    pointer_overlap, Claim, ClaimShape,
};
use crate::enum_storage::{
    build_enum_storage, enum_storage, law_enum_storage_has_enum_layout,
    law_enum_storage_places_claims, lemma_storage_claim_count, lemma_storage_leaves,
    lemma_storage_slot_count, slot_holds,
};
use crate::error::LowerError;
use crate::layout::{field_at, is_align, larger, lemma_is_align, llvm_type_size_align, size_align};
use crate::llvm::{opt_shape, shapes, LlvmShape, LlvmType, SHARED};
use crate::mir::{EnumCarrierKind, EnumLayoutKind, MirEnumType, MirType};
use crate::pointers::LlvmPointerStorage;
use crate::sort::{lemma_sorted_positions, sort_positions, sorted_positions};
use crate::storage::{
    byte_faithful, contains_bool, contains_leaf, contains_pointer, enum_payload_storage_type,
    is_zero_sized_type, law_payload_storage_is_layout_neutral, llvm_type_contains_i1,
    llvm_type_contains_pointer, llvm_type_is_byte_faithful, payload_storage, zero_sized, LeafKind,
};
use vstd::prelude::*;

verus! {

// ---------------------------------------------------------------------------
// Facts about the Rust-level type
// ---------------------------------------------------------------------------

/// Whether a Rust-level type holds a `bool` in its own bytes.
///
/// Pointees are not its own bytes, and a nested enum answers for itself.
pub open spec fn mir_contains_bool(t: MirType) -> bool
    decreases t,
{
    match t {
        MirType::Integer(width, _) => width == 1,
        MirType::Struct(s) => exists|i: int|
            0 <= i < s.field_types@.len() && mir_contains_bool(#[trigger] s.field_types@[i]),
        MirType::Tuple(s) => exists|i: int|
            0 <= i < s.types@.len() && mir_contains_bool(#[trigger] s.types@[i]),
        MirType::Union(s) => exists|i: int|
            0 <= i < s.field_types@.len() && mir_contains_bool(#[trigger] s.field_types@[i]),
        MirType::Array(elem, _) => mir_contains_bool(*elem),
        _ => false,
    }
}

/// Whether any of a list of types holds a `bool`.
pub open spec fn any_contains_bool(fields: Seq<MirType>) -> bool {
    exists|i: int| 0 <= i < fields.len() && mir_contains_bool(#[trigger] fields[i])
}

/// Whether a Rust-level type holds a `bool` in its own bytes.
///
/// A union may lower to raw bytes and hide a `bool` from its LLVM type.
pub fn mir_type_contains_i1(ty: &MirType) -> (r: bool)
    ensures
        r == mir_contains_bool(*ty),
    decreases ty, 0int,
{
    match ty {
        MirType::Integer(width, _) => *width == 1,
        MirType::Struct(s) => {
            let r: bool = any_mir_type_contains_i1(&s.field_types);
            assert(any_contains_bool(s.field_types@) == mir_contains_bool(*ty));
            r
        },
        MirType::Tuple(s) => {
            let r: bool = any_mir_type_contains_i1(&s.types);
            assert(any_contains_bool(s.types@) == mir_contains_bool(*ty));
            r
        },
        MirType::Union(s) => {
            let r: bool = any_mir_type_contains_i1(&s.field_types);
            assert(any_contains_bool(s.field_types@) == mir_contains_bool(*ty));
            r
        },
        MirType::Array(elem, _) => mir_type_contains_i1(elem),
        _ => false,
    }
}

fn any_mir_type_contains_i1(fields: &Vec<MirType>) -> (r: bool)
    ensures
        r == any_contains_bool(fields@),
    decreases fields, 1int,
{
    for i in 0..fields.len()
        invariant
            forall|j: int| 0 <= j < i ==> !mir_contains_bool(#[trigger] fields@[j]),
    {
        if mir_type_contains_i1(&fields[i]) {
            assert(mir_contains_bool(fields@[i as int]));
            return true;
        }
    }
    false
}

/// The variant that owns flat payload field `field`, counting from variant
/// `variant` on.
pub open spec fn field_owner(counts: Seq<u32>, field: int, variant: int) -> Option<int>
    decreases counts.len() - variant,
{
    if variant < 0 || variant >= counts.len() {
        None
    } else if field < counts[variant] {
        Some(variant)
    } else {
        field_owner(counts, field - counts[variant], variant + 1)
    }
}

/// Whether the variant that owns a flat payload field can exist.
pub open spec fn field_inhabited(e: MirEnumType, field: int) -> bool {
    match field_owner(e.variant_field_counts@, field, 0) {
        None => false,
        Some(variant) => e.inhabited(variant),
    }
}

fn field_is_inhabited(e: &MirEnumType, field: usize) -> (r: bool)
    ensures
        r == field_inhabited(*e, field as int),
{
    let mut rest: usize = field;
    for v in 0..e.variant_field_counts.len()
        invariant
            field_owner(e.variant_field_counts@, field as int, 0) == field_owner(
                e.variant_field_counts@,
                rest as int,
                v as int,
            ),
    {
        let count: u32 = e.variant_field_counts[v];
        if (rest as u64) < count as u64 {
            return v < e.encoding.variant_inhabited.len() && e.encoding.variant_inhabited[v] != 0;
        }
        rest = rest - count as usize;
    }
    false
}

// ---------------------------------------------------------------------------
// Claiming bytes
// ---------------------------------------------------------------------------

/// The claims made so far, and the claim that each payload field uses.
pub ghost struct ClaimState {
    pub claims: Seq<ClaimShape>,
    pub of_field: Seq<Option<usize>>,
}

/// Position of the first of `claims` from `from` on that claims `ty` at
/// `offset`, if there is one.
pub open spec fn find_claim(claims: Seq<ClaimShape>, offset: u64, ty: LlvmShape, from: int) -> Option<
    usize,
>
    decreases claims.len() - from,
{
    if from < 0 || from >= claims.len() {
        None
    } else if claims[from].offset == offset && claims[from].ty == ty {
        Some(from as usize)
    } else {
        find_claim(claims, offset, ty, from + 1)
    }
}

/// Whether every claim that collides with the byte at `offset` is that one
/// `i8`.
pub open spec fn only_exact_byte(claims: Seq<ClaimShape>, offset: u64) -> bool {
    forall|i: int|
        0 <= i < claims.len() && collides(#[trigger] claims[i], offset, 1) ==> {
            &&& claims[i].offset == offset
            &&& claims[i].size == 1
            &&& claims[i].ty == LlvmShape::Integer(8)
        }
}

/// Whether a claim that collides with the `size` bytes at `offset` holds a
/// pointer.
pub open spec fn collides_with_pointer(claims: Seq<ClaimShape>, offset: u64, size: u64) -> bool {
    exists|i: int|
        0 <= i < claims.len() && collides(#[trigger] claims[i], offset, size) && contains_pointer(
            claims[i].ty,
        )
}

/// Whether every claim that collides with the `size` bytes at `offset` is
/// byte-faithful.
pub open spec fn collides_byte_faithfully(
    claims: Seq<ClaimShape>,
    offset: u64,
    size: u64,
) -> bool {
    forall|i: int|
        0 <= i < claims.len() && collides(#[trigger] claims[i], offset, size) ==> byte_faithful(
            claims[i].ty,
        )
}

/// The claims after a `bool` payload at `offset` was added: it uses one exact
/// `i8` byte.
pub open spec fn claim_bool(st: ClaimState, field: usize, offset: u64) -> Result<
    ClaimState,
    LowerError,
> {
    if !any_collision(st.claims, offset, 1) {
        Ok(
            ClaimState {
                claims: st.claims.push(
                    ClaimShape { offset, size: 1, ty: LlvmShape::Integer(8) },
                ),
                ..st
            },
        )
    } else if only_exact_byte(st.claims, offset) {
        Ok(st)
    } else {
        Err(LowerError::EnumBoolOverlap { field })
    }
}

/// The claims after a payload kept as `storage` was added at `offset`.
pub open spec fn claim_storage(
    st: ClaimState,
    field: usize,
    storage: LlvmShape,
    offset: u64,
    size: u64,
    gets_slot: bool,
) -> Result<ClaimState, LowerError> {
    match find_claim(st.claims, offset, storage, 0) {
        Some(claim) => if gets_slot {
            Ok(ClaimState { of_field: st.of_field.update(field as int, Some(claim)), ..st })
        } else {
            Ok(st)
        },
        None => if any_collision(st.claims, offset, size) {
            let has_pointer = contains_pointer(storage) || collides_with_pointer(
                st.claims,
                offset,
                size,
            );
            let extra = if has_pointer {
                pointer_overlap(st.claims, storage, offset, size)
            } else {
                Some(Seq::empty())
            };
            match extra {
                None => Err(LowerError::EnumPointerOverlap { offset }),
                Some(leaves) => if !byte_faithful(storage) || !collides_byte_faithfully(
                    st.claims,
                    offset,
                    size,
                ) {
                    Err(LowerError::EnumNotByteFaithful { field })
                } else {
                    Ok(ClaimState { claims: st.claims + leaf_claims(leaves), ..st })
                },
            }
        } else {
            Ok(
                ClaimState {
                    claims: st.claims.push(ClaimShape { offset, size, ty: storage }),
                    of_field: if gets_slot {
                        st.of_field.update(field as int, Some(st.claims.len() as usize))
                    } else {
                        st.of_field
                    },
                },
            )
        },
    }
}

/// The claims after payload field `field` was added.
#[verifier::opaque]
pub open spec fn claim_field(e: MirEnumType, types: Seq<LlvmShape>, st: ClaimState, field: usize) ->
    Result<ClaimState, LowerError> {
    let ty = types[field as int];
    let offset = e.all_field_offsets@[field as int];
    let expected = e.all_field_sizes@[field as int];
    let total_size = e.encoding.total_size;
    if !field_inhabited(e, field as int) {
        Ok(st)
    } else {
        match payload_storage(ty) {
            Err(error) => Err(error),
            Ok(storage) => match size_align(storage) {
                None => Err(LowerError::EnumFieldLayout { field }),
                Some((size, align)) => if size != expected {
                    Err(LowerError::EnumFieldSize { field, lowered: size, expected })
                } else if size == 0 || zero_sized(ty) {
                    Ok(st)
                } else if offset + size > total_size {
                    Err(LowerError::EnumFieldBounds { field, size, offset, total_size })
                } else if offset % align != 0 {
                    Err(LowerError::EnumFieldAlign { field, align, offset })
                } else if ty == LlvmShape::Integer(1) {
                    claim_bool(st, field, offset)
                } else if mir_contains_bool(e.all_field_types@[field as int]) && !contains_bool(ty) {
                    Err(LowerError::EnumHiddenBool { field })
                } else {
                    claim_storage(st, field, storage, offset, size, !contains_bool(ty))
                },
            },
        }
    }
}

/// The claims after the first `k` payload fields of `order` were added.
pub open spec fn claim_fields(
    e: MirEnumType,
    types: Seq<LlvmShape>,
    start: ClaimState,
    order: Seq<usize>,
    k: int,
) -> Result<ClaimState, LowerError>
    decreases k,
{
    if k <= 0 {
        Ok(start)
    } else {
        match claim_fields(e, types, start, order, k - 1) {
            Err(error) => Err(error),
            Ok(st) => claim_field(e, types, st, order[k - 1]),
        }
    }
}

/// Claims under construction.
pub struct ClaimTable {
    pub claims: Vec<Claim>,
    pub of_field: Vec<Option<usize>>,
}

impl View for ClaimTable {
    type V = ClaimState;

    open spec fn view(&self) -> ClaimState {
        ClaimState { claims: claim_shapes(self.claims@), of_field: self.of_field@ }
    }
}

fn exec_find_claim(claims: &Vec<Claim>, offset: u64, ty: &LlvmType) -> (r: Option<usize>)
    ensures
        r == find_claim(claim_shapes(claims@), offset, ty@, 0),
        r is Some ==> r->Some_0 < claims@.len(),
{
    let ghost cs = claim_shapes(claims@);
    for i in 0..claims.len()
        invariant
            cs == claim_shapes(claims@),
            find_claim(cs, offset, ty@, 0) == find_claim(cs, offset, ty@, i as int),
    {
        assert(cs[i as int] == claims@[i as int]@);
        if claims[i].offset == offset && claims[i].ty.same_type(ty) {
            return Some(i);
        }
    }
    None
}

/// How the claims that collide with some bytes look.
struct Collisions {
    any: bool,
    pointer: bool,
    faithful: bool,
    exact_byte: bool,
}

fn find_collisions(claims: &Vec<Claim>, offset: u64, size: u64) -> (r: Collisions)
    requires
        offset + size <= u64::MAX,
        forall|i: int|
            0 <= i < claims@.len() ==> (#[trigger] claims@[i]).offset + claims@[i].size
                <= u64::MAX,
    ensures
        r.any == any_collision(claim_shapes(claims@), offset, size),
        r.pointer == collides_with_pointer(claim_shapes(claims@), offset, size),
        r.faithful == collides_byte_faithfully(claim_shapes(claims@), offset, size),
        size == 1 ==> r.exact_byte == only_exact_byte(claim_shapes(claims@), offset),
{
    let ghost cs = claim_shapes(claims@);
    let mut any: bool = false;
    let mut pointer: bool = false;
    let mut faithful: bool = true;
    let mut exact_byte: bool = true;
    for i in 0..claims.len()
        invariant
            cs == claim_shapes(claims@),
            offset + size <= u64::MAX,
            forall|j: int|
                0 <= j < claims@.len() ==> (#[trigger] claims@[j]).offset + claims@[j].size
                    <= u64::MAX,
            any <==> exists|j: int| 0 <= j < i && collides(#[trigger] cs[j], offset, size),
            pointer <==> exists|j: int|
                0 <= j < i && collides(#[trigger] cs[j], offset, size) && contains_pointer(
                    cs[j].ty,
                ),
            faithful <==> forall|j: int|
                0 <= j < i && collides(#[trigger] cs[j], offset, size) ==> byte_faithful(cs[j].ty),
            exact_byte <==> forall|j: int|
                0 <= j < i && collides(#[trigger] cs[j], offset, size) ==> {
                    &&& cs[j].offset == offset
                    &&& cs[j].size == 1
                    &&& cs[j].ty == LlvmShape::Integer(8)
                },
    {
        assert(cs[i as int] == claims@[i as int]@);
        if claim_collides(&claims[i], offset, size) {
            assert(collides(cs[i as int], offset, size));
            any = true;
            if llvm_type_contains_pointer(&claims[i].ty) {
                pointer = true;
            }
            if !llvm_type_is_byte_faithful(&claims[i].ty) {
                faithful = false;
            }
            let is_byte: bool = match &claims[i].ty {
                LlvmType::Integer(width) => *width == 8,
                _ => false,
            };
            if !(claims[i].offset == offset && claims[i].size == 1 && is_byte) {
                exact_byte = false;
            }
        }
    }
    Collisions { any, pointer, faithful, exact_byte }
}

/// Whether the claims agree with the payload fields that use them.
pub open spec fn claims_agree(e: MirEnumType, types: Seq<LlvmShape>, st: ClaimState) -> bool {
    &&& claims_sound(st.claims, e.encoding.total_size)
    &&& forall|f: int|
        0 <= f < st.of_field.len() && #[trigger] st.of_field[f] is Some ==> {
            let claim = st.claims[st.of_field[f]->Some_0 as int];
            &&& st.of_field[f]->Some_0 < st.claims.len()
            &&& claim.offset == e.all_field_offsets@[f]
            &&& payload_storage(types[f]) == Ok::<LlvmShape, LowerError>(claim.ty)
        }
}

/// Searching the claims finds one of the given type at the given offset, if any.
pub proof fn lemma_find_claim(claims: Seq<ClaimShape>, offset: u64, ty: LlvmShape, from: int)
    requires
        0 <= from,
        claims.len() <= usize::MAX,
    ensures
        match find_claim(claims, offset, ty, from) {
            Some(c) => from <= c < claims.len() && claims[c as int].offset == offset
                && claims[c as int].ty == ty,
            None => forall|i: int|
                from <= i < claims.len() ==> !((#[trigger] claims[i]).offset == offset
                    && claims[i].ty == ty),
        },
    decreases claims.len() - from,
{
    if from < claims.len() && !(claims[from].offset == offset && claims[from].ty == ty) {
        lemma_find_claim(claims, offset, ty, from + 1);
    }
}

/// Adding a payload field keeps the claims sound and in agreement with the
/// fields, and leaves earlier claims in place.
pub proof fn lemma_claim_field_agrees(
    e: MirEnumType,
    types: Seq<LlvmShape>,
    st: ClaimState,
    field: usize,
)
    requires
        claims_agree(e, types, st),
        st.of_field.len() == types.len(),
        st.claims.len() <= usize::MAX,
        field < types.len(),
        claim_field(e, types, st, field) is Ok,
    ensures
        claims_agree(e, types, claim_field(e, types, st, field)->Ok_0),
        claim_field(e, types, st, field)->Ok_0.of_field.len() == types.len(),
        st.claims.len() <= claim_field(e, types, st, field)->Ok_0.claims.len(),
        forall|i: int|
            0 <= i < st.claims.len() ==> #[trigger] claim_field(
                e,
                types,
                st,
                field,
            )->Ok_0.claims[i] == st.claims[i],
{
    reveal(claim_field);
    let next = claim_field(e, types, st, field)->Ok_0;
    let ty = types[field as int];
    let offset = e.all_field_offsets@[field as int];
    let total_size = e.encoding.total_size;
    if next != st {
        let storage = payload_storage(ty)->Ok_0;
        let (size, align) = size_align(storage)->Some_0;
        lemma_is_align(storage);
        if ty == LlvmShape::Integer(1) {
            let claim = ClaimShape { offset, size: 1, ty: LlvmShape::Integer(8) };
            assert(offset as int % 1 == 0);
            lemma_push_claim_sound(st.claims, claim, total_size);
            assert(next.claims == st.claims.push(claim));
        } else {
            let claim = ClaimShape { offset, size, ty: storage };
            assert(claim_sound(claim, total_size));
            lemma_find_claim(st.claims, offset, storage, 0);
            if find_claim(st.claims, offset, storage, 0) is None {
                if any_collision(st.claims, offset, size) {
                    if contains_pointer(storage) || collides_with_pointer(
                        st.claims,
                        offset,
                        size,
                    ) {
                        lemma_extra_claims_sound(st.claims, storage, offset, size, total_size);
                    } else {
                        assert(leaf_claims(Seq::<LlvmPointerStorage>::empty()) =~= Seq::<
                            ClaimShape,
                        >::empty());
                        assert(next.claims =~= st.claims);
                    }
                } else {
                    lemma_push_claim_sound(st.claims, claim, total_size);
                }
            }
        }
    }
}

/// Claims bytes for one payload field.
fn claim_one(e: &MirEnumType, types: &Vec<LlvmType>, table: &mut ClaimTable, field: usize) -> (r:
    Option<LowerError>)
    requires
        field < types@.len(),
        types@.len() == e.all_field_types@.len(),
        types@.len() == e.all_field_offsets@.len(),
        types@.len() == e.all_field_sizes@.len(),
        old(table)@.of_field.len() == types@.len(),
        claims_sound(old(table)@.claims, e.encoding.total_size),
    ensures
        match r {
            None => claim_field(*e, shapes(types@), old(table)@, field) == Ok::<
                ClaimState,
                LowerError,
            >(final(table)@),
            Some(error) => claim_field(*e, shapes(types@), old(table)@, field) == Err::<
                ClaimState,
                LowerError,
            >(error),
        },
{
    reveal(claim_field);
    let ghost tys = shapes(types@);
    let ghost st = table@;
    assert(tys[field as int] == types@[field as int]@);
    if !field_is_inhabited(e, field) {
        return None;
    }
    let ty = &types[field];
    let offset: u64 = e.all_field_offsets[field];
    let expected: u64 = e.all_field_sizes[field];
    let total_size: u64 = e.encoding.total_size;
    let storage = match enum_payload_storage_type(ty) {
        Err(error) => {
            return Some(error);
        },
        Ok(storage) => storage,
    };
    let (size, align): (u64, u64) = match llvm_type_size_align(&storage) {
        None => {
            return Some(LowerError::EnumFieldLayout { field });
        },
        Some(sa) => sa,
    };
    if size != expected {
        return Some(LowerError::EnumFieldSize { field, lowered: size, expected });
    }
    if size == 0 || is_zero_sized_type(ty) {
        return None;
    }
    proof {
        lemma_is_align(storage@);
    }
    match offset.checked_add(size) {
        None => {
            return Some(LowerError::EnumFieldBounds { field, size, offset, total_size });
        },
        Some(end) => {
            if end > total_size {
                return Some(LowerError::EnumFieldBounds { field, size, offset, total_size });
            }
        },
    }
    if offset % align != 0 {
        return Some(LowerError::EnumFieldAlign { field, align, offset });
    }
    let is_bool: bool = match ty {
        LlvmType::Integer(width) => *width == 1,
        _ => false,
    };
    let has_bool: bool = llvm_type_contains_i1(ty);
    if !is_bool && mir_type_contains_i1(&e.all_field_types[field]) && !has_bool {
        return Some(LowerError::EnumHiddenBool { field });
    }
    assert forall|i: int| 0 <= i < table.claims@.len() implies (
    #[trigger] table.claims@[i]).offset + table.claims@[i].size <= u64::MAX by {
        assert(st.claims[i] == table.claims@[i]@);
        assert(claim_sound(st.claims[i], e.encoding.total_size));
    }
    let found = find_collisions(&table.claims, offset, size);
    if is_bool {
        assert(size == 1);
        if !found.any {
            let ghost before = table.claims@;
            table.claims.push(Claim { offset, size: 1, ty: LlvmType::integer(8) });
            assert(claim_shapes(table.claims@) =~= st.claims.push(
                ClaimShape { offset, size: 1, ty: LlvmShape::Integer(8) },
            ));
            return None;
        }
        if found.exact_byte {
            return None;
        }
        return Some(LowerError::EnumBoolOverlap { field });
    }
    let gets_slot: bool = !has_bool;
    match exec_find_claim(&table.claims, offset, &storage) {
        Some(claim) => {
            if gets_slot {
                table.of_field.set(field, Some(claim));
            }
            return None;
        },
        None => {},
    }
    if found.any {
        let extra: Vec<LlvmPointerStorage> = if llvm_type_contains_pointer(&storage)
            || found.pointer {
            match analyze_pointer_overlap(&table.claims, &storage, offset, size) {
                None => {
                    return Some(LowerError::EnumPointerOverlap { offset });
                },
                Some(extra) => extra,
            }
        } else {
            Vec::new()
        };
        if !llvm_type_is_byte_faithful(&storage) || !found.faithful {
            return Some(LowerError::EnumNotByteFaithful { field });
        }
        let ghost before = claim_shapes(table.claims@);
        for i in 0..extra.len()
            invariant
                table.of_field@ == st.of_field,
                claim_shapes(table.claims@) == before + leaf_claims(extra@.take(i as int)),
        {
            let leaf = extra[i];
            let ghost now = table.claims@;
            table.claims.push(
                Claim {
                    offset: leaf.offset,
                    size: leaf.size,
                    ty: LlvmType::pointer(leaf.address_space),
                },
            );
            assert(claim_shapes(table.claims@) =~= claim_shapes(now).push(leaf_claim(leaf)));
            assert(leaf_claims(extra@.take(i + 1)) =~= leaf_claims(extra@.take(i as int)).push(
                leaf_claim(leaf),
            ));
            assert(claim_shapes(table.claims@) =~= before + leaf_claims(extra@.take(i + 1)));
        }
        assert(extra@.take(extra@.len() as int) =~= extra@);
        return None;
    }
    let next: usize = table.claims.len();
    let ghost pushed = ClaimShape { offset, size, ty: storage@ };
    table.claims.push(Claim { offset, size, ty: storage });
    assert(claim_shapes(table.claims@) =~= st.claims.push(pushed));
    if gets_slot {
        table.of_field.set(field, Some(next));
    }
    None
}

// ---------------------------------------------------------------------------
// The slot map
// ---------------------------------------------------------------------------

/// The model of an [`EnumSlotMap`].
pub ghost struct EnumSlots {
    pub fields: Seq<LlvmShape>,
    pub carrier_slot: Option<u32>,
    pub carrier_ty: Option<LlvmShape>,
    pub field_slots: Seq<Option<u32>>,
    pub field_offsets: Seq<u64>,
    pub field_types: Seq<LlvmShape>,
}

/// An LLVM struct for an enum, and where the tag and each payload field landed
/// in it.
pub struct EnumSlotMap {
    /// The LLVM struct type, fillers included.
    pub llvm_struct_ty: LlvmType,
    /// Slot of the tag or niche carrier; nothing for layouts without one.
    pub carrier_slot: Option<u32>,
    /// Physical type of the carrier, where there is one.
    pub carrier_llvm_ty: Option<LlvmType>,
    /// Slot of each payload field; nothing for a field that has none.
    pub field_slots: Vec<Option<u32>>,
    /// Byte offset of each payload field.
    pub field_offsets: Vec<u64>,
    /// Converted type of each payload field.
    pub field_llvm_types: Vec<LlvmType>,
}

impl EnumSlotMap {
    /// Whether this map is the one that `slots` describes.
    pub open spec fn models(self, slots: EnumSlots) -> bool {
        &&& self.llvm_struct_ty@ == LlvmShape::Struct(slots.fields)
        &&& self.carrier_slot == slots.carrier_slot
        &&& opt_shape(self.carrier_llvm_ty) == slots.carrier_ty
        &&& self.field_slots@ == slots.field_slots
        &&& self.field_offsets@ == slots.field_offsets
        &&& shapes(self.field_llvm_types@) == slots.field_types
    }
}

/// Why an enum with variants has no physical storage to build, if so.
pub open spec fn carrier_defect(e: MirEnumType) -> Option<LowerError> {
    let c = e.encoding;
    if c.layout_kind == EnumLayoutKind::Unknown {
        Some(LowerError::EnumUnknownLayout)
    } else if c.carrier_kind == EnumCarrierKind::Pointer && c.carrier_address_space == SHARED {
        Some(LowerError::EnumSharedCarrier)
    } else if c.carrier_kind == EnumCarrierKind::Integer && c.carrier_width % 8 != 0 {
        Some(LowerError::EnumCarrierWidth { width: c.carrier_width })
    } else {
        None
    }
}

/// The physical type of the carrier. A direct integer tag has the converted
/// discriminant type.
pub open spec fn carrier_type(e: MirEnumType, discriminant: Result<LlvmShape, LowerError>) -> Result<
    Option<LlvmShape>,
    LowerError,
> {
    let c = e.encoding;
    match c.carrier_kind {
        EnumCarrierKind::Absent => Ok(None),
        EnumCarrierKind::Integer => if c.layout_kind == EnumLayoutKind::Direct {
            match discriminant {
                Err(error) => Err(error),
                Ok(ty) => if ty == LlvmShape::Integer(c.carrier_width) {
                    Ok(Some(ty))
                } else {
                    Err(LowerError::EnumCarrierMismatch)
                },
            }
        } else {
            Ok(Some(LlvmShape::Integer(c.carrier_width)))
        },
        EnumCarrierKind::Pointer => Ok(Some(LlvmShape::Pointer(c.carrier_address_space))),
    }
}

/// The carrier's claim on the tag bytes.
pub open spec fn carrier_claims(e: MirEnumType, carrier: Option<LlvmShape>) -> Result<
    Seq<ClaimShape>,
    LowerError,
> {
    let offset = e.encoding.tag_offset;
    let total_size = e.encoding.total_size;
    match carrier {
        None => Ok(Seq::empty()),
        Some(ty) => match size_align(ty) {
            None => Err(LowerError::EnumStorageLayout),
            Some((size, align)) => if size != (e.encoding.carrier_width + 7) / 8 || offset % align
                != 0 || offset + size > total_size {
                Err(LowerError::EnumCarrierPlacement { size, align, offset, total_size })
            } else {
                Ok(seq![ClaimShape { offset, size, ty }])
            },
        },
    }
}

/// The order in which payload fields claim bytes: by offset, byte-faithful
/// types first, then as listed.
pub open spec fn claim_keys_of_fields(e: MirEnumType, types: Seq<LlvmShape>) -> Seq<(u64, bool)> {
    Seq::new(
        types.len(),
        |i: int| (e.all_field_offsets@[i], !byte_faithful(types[i])),
    )
}

/// The claims of an enum with the given carrier and payload types.
pub open spec fn enum_claims(
    e: MirEnumType,
    carrier: Option<LlvmShape>,
    types: Seq<LlvmShape>,
) -> Result<ClaimState, LowerError> {
    match carrier_claims(e, carrier) {
        Err(error) => Err(error),
        Ok(claims) => claim_fields(
            e,
            types,
            ClaimState { claims, of_field: Seq::new(types.len(), |i: int| None) },
            sorted_positions(claim_keys_of_fields(e, types)),
            types.len() as int,
        ),
    }
}

/// The slots of an enum with the given carrier and payload types.
pub open spec fn enum_slots_over(
    e: MirEnumType,
    carrier: Option<LlvmShape>,
    types: Seq<LlvmShape>,
) -> Result<EnumSlots, LowerError> {
    let offsets = e.all_field_offsets@.len();
    let sizes = e.all_field_sizes@.len();
    if offsets != types.len() || sizes != types.len() {
        Err(
            LowerError::EnumFieldCount {
                entries: (if offsets <= sizes {
                    offsets
                } else {
                    sizes
                }) as usize,
                fields: types.len() as usize,
            },
        )
    } else {
        match enum_claims(e, carrier, types) {
            Err(error) => Err(error),
            Ok(st) => match enum_storage(
                st.claims,
                e.encoding.total_size,
                e.encoding.abi_align,
            ) {
                Err(error) => Err(error),
                Ok(storage) => Ok(
                    EnumSlots {
                        fields: storage.fields,
                        carrier_slot: if carrier is Some {
                            Some(storage.slots[0])
                        } else {
                            None
                        },
                        carrier_ty: carrier,
                        field_slots: Seq::new(
                            types.len(),
                            |f: int|
                                match st.of_field[f] {
                                    None => None,
                                    Some(c) => Some(storage.slots[c as int]),
                                },
                        ),
                        field_offsets: e.all_field_offsets@,
                        field_types: types,
                    },
                ),
            },
        }
    }
}

/// The slots of an enum, over the outcomes of converting its discriminant type
/// and its payload types.
pub open spec fn enum_slots(
    e: MirEnumType,
    discriminant: Result<LlvmShape, LowerError>,
    converted: Seq<Result<LlvmShape, LowerError>>,
) -> Result<EnumSlots, LowerError> {
    if e.spec_variant_count() == 0 {
        Ok(
            EnumSlots {
                fields: Seq::empty(),
                carrier_slot: None,
                carrier_ty: None,
                field_slots: Seq::empty(),
                field_offsets: Seq::empty(),
                field_types: Seq::empty(),
            },
        )
    } else if carrier_defect(e) is Some {
        Err(carrier_defect(e)->Some_0)
    } else {
        match carrier_type(e, discriminant) {
            Err(error) => Err(error),
            Ok(carrier) => match all_ok(converted) {
                Err(error) => Err(error),
                Ok(types) => enum_slots_over(e, carrier, types),
            },
        }
    }
}

/// Once a field fails to claim its bytes, so does the enum.
proof fn lemma_claim_error(
    e: MirEnumType,
    types: Seq<LlvmShape>,
    start: ClaimState,
    order: Seq<usize>,
    k: int,
    n: int,
)
    requires
        0 <= k <= n,
        claim_fields(e, types, start, order, k) is Err,
    ensures
        claim_fields(e, types, start, order, n) == claim_fields(e, types, start, order, k),
    decreases n - k,
{
    if k < n {
        lemma_claim_error(e, types, start, order, k + 1, n);
    }
}

/// The physical carrier's own claim.
fn claim_carrier(e: &MirEnumType, carrier: &Option<LlvmType>) -> (r: Result<
    Vec<Claim>,
    LowerError,
>)
    ensures
        match r {
            Ok(claims) => {
                &&& carrier_claims(*e, opt_shape(*carrier)) == Ok::<Seq<ClaimShape>, LowerError>(
                    claim_shapes(claims@),
                )
                &&& claims_sound(claim_shapes(claims@), e.encoding.total_size)
                &&& claims@.len() == if carrier is Some {
                    1int
                } else {
                    0int
                }
            },
            Err(error) => carrier_claims(*e, opt_shape(*carrier)) == Err::<
                Seq<ClaimShape>,
                LowerError,
            >(error),
        },
{
    let mut claims: Vec<Claim> = Vec::new();
    match carrier {
        None => {
            assert(claim_shapes(claims@) =~= Seq::empty());
            Ok(claims)
        },
        Some(ty) => {
            let offset: u64 = e.encoding.tag_offset;
            let total_size: u64 = e.encoding.total_size;
            match llvm_type_size_align(ty) {
                None => Err(LowerError::EnumStorageLayout),
                Some((size, align)) => {
                    proof {
                        lemma_is_align(ty@);
                    }
                    let expected: u64 = (e.encoding.carrier_width as u64 + 7) / 8;
                    let fits_inside: bool = match offset.checked_add(size) {
                        None => false,
                        Some(end) => end <= total_size,
                    };
                    if size != expected || offset % align != 0 || !fits_inside {
                        return Err(
                            LowerError::EnumCarrierPlacement { size, align, offset, total_size },
                        );
                    }
                    let ghost model = ClaimShape { offset, size, ty: ty@ };
                    claims.push(Claim { offset, size, ty: ty.duplicate() });
                    assert(claim_shapes(claims@) =~= seq![model]);
                    assert(claim_sound(model, total_size));
                    Ok(claims)
                },
            }
        },
    }
}

/// Claims bytes for the payload fields, in order.
fn claim_all(e: &MirEnumType, types: &Vec<LlvmType>, order: &Vec<usize>, table: &mut ClaimTable) ->
    (r: Option<LowerError>)
    requires
        types@.len() == e.all_field_types@.len(),
        types@.len() == e.all_field_offsets@.len(),
        types@.len() == e.all_field_sizes@.len(),
        types@.len() == order@.len(),
        forall|p: int| 0 <= p < order@.len() ==> #[trigger] order@[p] < types@.len(),
        claims_agree(*e, shapes(types@), old(table)@),
        old(table)@.of_field.len() == types@.len(),
    ensures
        match r {
            None => {
                &&& claim_fields(
                    *e,
                    shapes(types@),
                    old(table)@,
                    order@,
                    order@.len() as int,
                ) == Ok::<ClaimState, LowerError>(final(table)@)
                &&& claims_agree(*e, shapes(types@), final(table)@)
                &&& final(table)@.of_field.len() == types@.len()
                &&& old(table)@.claims.len() <= final(table)@.claims.len()
            },
            Some(error) => claim_fields(
                *e,
                shapes(types@),
                old(table)@,
                order@,
                order@.len() as int,
            ) == Err::<ClaimState, LowerError>(error),
        },
{
    let ghost tys = shapes(types@);
    let ghost start = table@;
    for i in 0..order.len()
        invariant
            tys == shapes(types@),
            types@.len() == e.all_field_types@.len(),
            types@.len() == e.all_field_offsets@.len(),
            types@.len() == e.all_field_sizes@.len(),
            types@.len() == order@.len(),
            forall|p: int| 0 <= p < order@.len() ==> #[trigger] order@[p] < types@.len(),
            claim_fields(*e, tys, start, order@, i as int) == Ok::<ClaimState, LowerError>(table@),
            claims_agree(*e, tys, table@),
            table@.of_field.len() == types@.len(),
            start.claims.len() <= table@.claims.len(),
            start == old(table)@,
    {
        let ghost st = table@;
        assert(table.claims.len() == st.claims.len());
        let field: usize = order[i];
        proof {
            if claim_fields(*e, tys, start, order@, i + 1) is Err {
                lemma_claim_error(*e, tys, start, order@, i + 1, order@.len() as int);
            }
        }
        match claim_one(e, types, table, field) {
            Some(error) => {
                return Some(error);
            },
            None => {
                proof {
                    lemma_claim_field_agrees(*e, tys, st, field);
                }
            },
        }
    }
    None
}

/// Builds the slot map of an enum from its carrier type and the types of its
/// payload fields.
pub fn enum_slot_map_over(e: &MirEnumType, carrier: Option<LlvmType>, types: Vec<LlvmType>) -> (r:
    Result<EnumSlotMap, LowerError>)
    requires
        types@.len() == e.all_field_types@.len(),
    ensures
        match r {
            Ok(map) => {
                &&& enum_slots_over(*e, opt_shape(carrier), shapes(types@)) is Ok
                &&& map.models(
                    enum_slots_over(*e, opt_shape(carrier), shapes(types@))->Ok_0,
                )
            },
            Err(error) => enum_slots_over(*e, opt_shape(carrier), shapes(types@)) == Err::<
                EnumSlots,
                LowerError,
            >(error),
        },
{
    let ghost tys = shapes(types@);
    let n: usize = types.len();
    if e.all_field_offsets.len() != n || e.all_field_sizes.len() != n {
        let entries: usize = if e.all_field_offsets.len() <= e.all_field_sizes.len() {
            e.all_field_offsets.len()
        } else {
            e.all_field_sizes.len()
        };
        return Err(LowerError::EnumFieldCount { entries, fields: n });
    }
    let claims = match claim_carrier(e, &carrier) {
        Err(error) => {
            return Err(error);
        },
        Ok(claims) => claims,
    };
    let mut of_field: Vec<Option<usize>> = Vec::new();
    let mut keys: Vec<(u64, bool)> = Vec::new();
    for i in 0..n
        invariant
            n == types@.len(),
            n == e.all_field_offsets@.len(),
            tys == shapes(types@),
            of_field@ =~= Seq::new(i as nat, |j: int| None),
            keys@.len() == i,
            forall|j: int|
                0 <= j < i ==> #[trigger] keys@[j] == (
                    e.all_field_offsets@[j],
                    !byte_faithful(tys[j]),
                ),
    {
        assert(tys[i as int] == types@[i as int]@);
        of_field.push(None);
        keys.push((e.all_field_offsets[i], !llvm_type_is_byte_faithful(&types[i])));
    }
    assert(keys@ =~= claim_keys_of_fields(*e, tys));
    let order = sort_positions(&keys);
    proof {
        lemma_sorted_positions(keys@);
    }
    let mut table = ClaimTable { claims, of_field };
    let ghost start = table@;
    assert(start.of_field =~= Seq::new(tys.len(), |j: int| None));
    assert(claims_agree(*e, tys, start));
    match claim_all(e, &types, &order, &mut table) {
        Some(error) => {
            return Err(error);
        },
        None => {},
    }
    let storage = match build_enum_storage(
        &table.claims,
        e.encoding.total_size,
        e.encoding.abi_align,
    ) {
        Err(error) => {
            return Err(error);
        },
        Ok(storage) => storage,
    };
    let ghost st = table@;
    proof {
        lemma_storage_slot_count(st.claims, e.encoding.total_size, e.encoding.abi_align);
    }
    let mut field_slots: Vec<Option<u32>> = Vec::new();
    let mut field_offsets: Vec<u64> = Vec::new();
    for f in 0..n
        invariant
            n == st.of_field.len(),
            n == e.all_field_offsets@.len(),
            st == table@,
            claims_agree(*e, tys, st),
            storage.slots@.len() == st.claims.len(),
            field_offsets@ == e.all_field_offsets@.take(f as int),
            field_slots@.len() == f,
            forall|g: int|
                0 <= g < f ==> #[trigger] field_slots@[g] == match st.of_field[g] {
                    None => None,
                    Some(c) => Some(storage.slots@[c as int]),
                },
    {
        let slot: Option<u32> = match table.of_field[f] {
            None => None,
            Some(c) => {
                assert(st.of_field[f as int] is Some);
                Some(storage.slots[c])
            },
        };
        field_slots.push(slot);
        field_offsets.push(e.all_field_offsets[f]);
        assert(field_offsets@ =~= e.all_field_offsets@.take(f + 1));
    }
    assert(field_offsets@ =~= e.all_field_offsets@);
    let carrier_slot: Option<u32> = match &carrier {
        None => None,
        Some(_) => Some(storage.slots[0]),
    };
    let ghost wanted = enum_slots_over(*e, opt_shape(carrier), tys)->Ok_0;
    assert(field_slots@ =~= wanted.field_slots);
    Ok(
        EnumSlotMap {
            llvm_struct_ty: LlvmType::structure(storage.fields),
            carrier_slot,
            carrier_llvm_ty: carrier,
            field_slots,
            field_offsets,
            field_llvm_types: types,
        },
    )
}

/// The lists of a slot map have one entry for each payload field.
pub proof fn lemma_enum_slot_lengths(
    e: MirEnumType,
    discriminant: Result<LlvmShape, LowerError>,
    converted: Seq<Result<LlvmShape, LowerError>>,
)
    requires
        enum_slots(e, discriminant, converted) is Ok,
    ensures
        ({
            let s = enum_slots(e, discriminant, converted)->Ok_0;
            &&& s.field_offsets.len() == s.field_slots.len()
            &&& s.field_types.len() == s.field_slots.len()
        }),
{
}

// ---------------------------------------------------------------------------
// Laws
// ---------------------------------------------------------------------------

/// Whether every claim but the first takes bytes, and none holds an `i1` or a
/// shared-memory pointer. The first is the carrier's, where there is one.
pub open spec fn claims_clean(claims: Seq<ClaimShape>) -> bool {
    forall|i: int|
        0 <= i < claims.len() ==> {
            &&& i > 0 ==> claims[i].size > 0
            &&& !contains_bool((#[trigger] claims[i]).ty)
            &&& !contains_leaf(claims[i].ty, LeafKind::PointerIn(SHARED))
        }
}

proof fn lemma_claim_field_clean(
    e: MirEnumType,
    types: Seq<LlvmShape>,
    st: ClaimState,
    field: usize,
)
    requires
        claims_agree(e, types, st),
        claims_clean(st.claims),
        claim_field(e, types, st, field) is Ok,
    ensures
        claims_clean(claim_field(e, types, st, field)->Ok_0.claims),
{
    reveal(claim_field);
    let next = claim_field(e, types, st, field)->Ok_0;
    let ty = types[field as int];
    let offset = e.all_field_offsets@[field as int];
    if next != st && ty != LlvmShape::Integer(1) {
        let storage = payload_storage(ty)->Ok_0;
        let (size, align) = size_align(storage)->Some_0;
        law_payload_storage_is_layout_neutral(ty);
        lemma_is_align(storage);
        if find_claim(st.claims, offset, storage, 0) is None && any_collision(
            st.claims,
            offset,
            size,
        ) {
            if contains_pointer(storage) || collides_with_pointer(st.claims, offset, size) {
                assert(claim_sound(
                    ClaimShape { offset, size, ty: storage },
                    e.encoding.total_size,
                ));
                lemma_extra_claims_sound(
                    st.claims,
                    storage,
                    offset,
                    size,
                    e.encoding.total_size,
                );
                let extra = pointer_overlap(st.claims, storage, offset, size)->Some_0;
                assert forall|i: int| 0 <= i < next.claims.len() implies {
                    &&& i > 0 ==> next.claims[i].size > 0
                    &&& !contains_bool((#[trigger] next.claims[i]).ty)
                    &&& !contains_leaf(next.claims[i].ty, LeafKind::PointerIn(SHARED))
                } by {
                    if i < st.claims.len() {
                        assert(next.claims[i] == st.claims[i]);
                    } else {
                        let leaf = extra[i - st.claims.len()];
                        assert(next.claims[i] == leaf_claim(leaf));
                        assert(contains_leaf(storage, LeafKind::PointerIn(leaf.address_space)));
                    }
                }
            } else {
                assert(next.claims =~= st.claims);
            }
        }
    }
}

proof fn lemma_claim_fields_hold(
    e: MirEnumType,
    types: Seq<LlvmShape>,
    start: ClaimState,
    order: Seq<usize>,
    k: int,
)
    requires
        0 <= k <= order.len(),
        forall|p: int| 0 <= p < order.len() ==> #[trigger] order[p] < types.len(),
        claims_agree(e, types, start),
        claims_clean(start.claims),
        start.of_field.len() == types.len(),
        claim_fields(e, types, start, order, k) is Ok,
        claim_fields(e, types, start, order, k)->Ok_0.claims.len() <= usize::MAX,
    ensures
        ({
            let st = claim_fields(e, types, start, order, k)->Ok_0;
            &&& claims_agree(e, types, st)
            &&& claims_clean(st.claims)
            &&& st.of_field.len() == types.len()
            &&& start.claims.len() <= st.claims.len()
            &&& forall|i: int|
                0 <= i < start.claims.len() ==> #[trigger] st.claims[i] == start.claims[i]
        }),
    decreases k,
{
    if k > 0 {
        let past = claim_fields(e, types, start, order, k - 1)->Ok_0;
        lemma_claims_grow(e, types, past, order[k - 1]);
        lemma_claim_fields_hold(e, types, start, order, k - 1);
        lemma_claim_field_agrees(e, types, past, order[k - 1]);
        lemma_claim_field_clean(e, types, past, order[k - 1]);
        let st = claim_fields(e, types, start, order, k)->Ok_0;
        assert forall|i: int| 0 <= i < start.claims.len() implies #[trigger] st.claims[i]
            == start.claims[i] by {
            assert(past.claims[i] == start.claims[i]);
        }
    }
}

/// Claims are only ever added.
pub proof fn lemma_claims_grow(e: MirEnumType, types: Seq<LlvmShape>, st: ClaimState, field: usize)
    requires
        claim_field(e, types, st, field) is Ok,
    ensures
        st.claims.len() <= claim_field(e, types, st, field)->Ok_0.claims.len(),
{
    reveal(claim_field);
}

/// The claims of an enum are sound, clean, and agree with its fields; the
/// carrier's claim is the first.
pub proof fn lemma_enum_claims(e: MirEnumType, carrier: Option<LlvmShape>, types: Seq<LlvmShape>)
    requires
        types.len() <= usize::MAX,
        e.all_field_offsets@.len() == types.len(),
        enum_claims(e, carrier, types) is Ok,
        enum_claims(e, carrier, types)->Ok_0.claims.len() <= usize::MAX,
        match carrier {
            None => true,
            Some(LlvmShape::Integer(width)) => width != 1,
            Some(LlvmShape::Pointer(space)) => space != SHARED,
            Some(_) => false,
        },
    ensures
        ({
            let st = enum_claims(e, carrier, types)->Ok_0;
            &&& claims_agree(e, types, st)
            &&& claims_clean(st.claims)
            &&& st.of_field.len() == types.len()
            &&& carrier is Some ==> st.claims.len() > 0 && st.claims[0].offset
                == e.encoding.tag_offset && st.claims[0].ty == carrier->Some_0
        }),
{
    let keys = claim_keys_of_fields(e, types);
    lemma_sorted_positions(keys);
    let claims = carrier_claims(e, carrier)->Ok_0;
    let start = ClaimState { claims, of_field: Seq::new(types.len(), |i: int| None) };
    if carrier is Some {
        lemma_is_align(carrier->Some_0);
        assert(claims[0].ty == carrier->Some_0);
        assert(claim_sound(claims[0], e.encoding.total_size));
    }
    assert(claims_sound(claims, e.encoding.total_size));
    assert(claims_agree(e, types, start));
    lemma_claim_fields_hold(e, types, start, sorted_positions(keys), types.len() as int);
    let st = enum_claims(e, carrier, types)->Ok_0;
    if carrier is Some {
        assert(st.claims[0] == claims[0]);
    }
}

/// Whether a carrier type is one that enum storage can hold: an integer of
/// whole bytes or a pointer outside shared memory.
pub open spec fn carrier_storable(carrier: Option<LlvmShape>) -> bool {
    match carrier {
        None => true,
        Some(LlvmShape::Integer(width)) => width % 8 == 0,
        Some(LlvmShape::Pointer(space)) => space != SHARED,
        Some(_) => false,
    }
}

/// The claims behind a slot map.
pub proof fn lemma_slot_claims(e: MirEnumType, carrier: Option<LlvmShape>, types: Seq<LlvmShape>)
    requires
        carrier_storable(carrier),
        enum_slots_over(e, carrier, types) is Ok,
    ensures
        ({
            let st = enum_claims(e, carrier, types)->Ok_0;
            &&& enum_slots_over(e, carrier, types)->Ok_0.fields.len() <= u32::MAX
            &&& st.claims.len() <= usize::MAX
            &&& claims_agree(e, types, st)
            &&& claims_clean(st.claims)
            &&& st.of_field.len() == types.len()
            &&& carrier is Some ==> st.claims.len() > 0 && st.claims[0].offset
                == e.encoding.tag_offset && st.claims[0].ty == carrier->Some_0
        }),
{
    let st = enum_claims(e, carrier, types)->Ok_0;
    assert(e.all_field_offsets@.len() == e.all_field_offsets.len());
    lemma_storage_claim_count(st.claims, e.encoding.total_size, e.encoding.abi_align);
    lemma_enum_claims(e, carrier, types);
}

/// The slot map puts the carrier at rustc's tag offset and every payload field
/// that owns a slot at rustc's field offset, in its storage type.
pub proof fn lemma_slots_keep_offsets(
    e: MirEnumType,
    carrier: Option<LlvmShape>,
    types: Seq<LlvmShape>,
)
    requires
        carrier_storable(carrier),
        enum_slots_over(e, carrier, types) is Ok,
    ensures
        ({
            let s = enum_slots_over(e, carrier, types)->Ok_0;
            &&& carrier is Some ==> s.carrier_slot is Some && field_at(
                s.fields,
                s.carrier_slot->Some_0 as int,
                carrier->Some_0,
                e.encoding.tag_offset as int,
            )
            &&& s.field_slots.len() == types.len()
            &&& forall|f: int|
                0 <= f < types.len() && #[trigger] s.field_slots[f] is Some ==> {
                    &&& payload_storage(types[f]) is Ok
                    &&& field_at(
                        s.fields,
                        s.field_slots[f]->Some_0 as int,
                        payload_storage(types[f])->Ok_0,
                        e.all_field_offsets@[f] as int,
                    )
                }
        }),
{
    lemma_slot_claims(e, carrier, types);
    let st = enum_claims(e, carrier, types)->Ok_0;
    law_enum_storage_places_claims(st.claims, e.encoding.total_size, e.encoding.abi_align);
    let storage = enum_storage(st.claims, e.encoding.total_size, e.encoding.abi_align)->Ok_0;
    let s = enum_slots_over(e, carrier, types)->Ok_0;
    if carrier is Some {
        assert(slot_holds(s.fields, storage.slots[0] as int, st.claims[0]));
    }
    assert forall|f: int| 0 <= f < types.len() && #[trigger] s.field_slots[f] is Some implies {
        &&& payload_storage(types[f]) is Ok
        &&& field_at(
            s.fields,
            s.field_slots[f]->Some_0 as int,
            payload_storage(types[f])->Ok_0,
            e.all_field_offsets@[f] as int,
        )
    } by {
        assert(st.of_field[f] is Some);
        let c = st.of_field[f]->Some_0 as int;
        assert(slot_holds(s.fields, storage.slots[c] as int, st.claims[c]));
    }
}

/// The storage struct of an enum has exactly rustc's size and alignment.
///
/// A type cannot align wider than sixteen bytes, and rustc's sizes are
/// multiples of its alignments.
pub proof fn lemma_slots_keep_layout(
    e: MirEnumType,
    carrier: Option<LlvmShape>,
    types: Seq<LlvmShape>,
)
    requires
        carrier_storable(carrier),
        enum_slots_over(e, carrier, types) is Ok,
        is_align(larger(e.encoding.abi_align, 1)),
        e.encoding.total_size as int % larger(e.encoding.abi_align, 1) as int == 0,
    ensures
        size_align(LlvmShape::Struct(enum_slots_over(e, carrier, types)->Ok_0.fields)) == Some(
            (e.encoding.total_size, larger(e.encoding.abi_align, 1)),
        ),
{
    lemma_slot_claims(e, carrier, types);
    let st = enum_claims(e, carrier, types)->Ok_0;
    law_enum_storage_has_enum_layout(st.claims, e.encoding.total_size, e.encoding.abi_align);
}

/// Enum storage never holds an `i1` or a shared-memory pointer.
pub proof fn lemma_storage_is_target_stable(
    e: MirEnumType,
    carrier: Option<LlvmShape>,
    types: Seq<LlvmShape>,
)
    requires
        carrier_storable(carrier),
        enum_slots_over(e, carrier, types) is Ok,
    ensures
        !contains_bool(LlvmShape::Struct(enum_slots_over(e, carrier, types)->Ok_0.fields)),
        !contains_leaf(
            LlvmShape::Struct(enum_slots_over(e, carrier, types)->Ok_0.fields),
            LeafKind::PointerIn(SHARED),
        ),
{
    lemma_slot_claims(e, carrier, types);
    let st = enum_claims(e, carrier, types)->Ok_0;
    let total_size = e.encoding.total_size;
    let abi_align = e.encoding.abi_align;
    let s = enum_slots_over(e, carrier, types)->Ok_0;
    lemma_storage_leaves(st.claims, total_size, abi_align, LeafKind::Bool);
    lemma_storage_leaves(st.claims, total_size, abi_align, LeafKind::PointerIn(SHARED));
}

} // verus!
