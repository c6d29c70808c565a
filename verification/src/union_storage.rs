//! One LLVM type that holds all fields of a union at byte zero.

use crate::error::LowerError;
use crate::layout::{
    align_up, fits, is_align, is_power_of_two, lemma_align_up, lemma_is_align, lemma_struct_size_align,
    llvm_type_size_align, natural_offset, prefix_extent, size_align, size_aligns, struct_extent,
};
use crate::llvm::{shapes, LlvmShape, LlvmType};
use crate::storage::{
    byte_faithful, contains_pointer, llvm_type_contains_pointer, llvm_type_is_byte_faithful,
    starts_at_end,
};
use crate::struct_slots::{make_padding_type, padding};
use crate::values::byte_size;
use vstd::arithmetic::power2::is_pow2;
use vstd::prelude::*;

verus! {

/// A union field with its natural size and alignment.
pub ghost struct UnionField {
    pub ty: LlvmShape,
    pub size: u64,
    pub align: u64,
}

/// The first pointer-bearing field, if there is one.
pub open spec fn pointer_field(fields: Seq<UnionField>, k: int) -> Option<LlvmShape>
    decreases k,
{
    if k <= 0 {
        None
    } else {
        match pointer_field(fields, k - 1) {
            Some(ty) => Some(ty),
            None => if contains_pointer(fields[k - 1].ty) {
                Some(fields[k - 1].ty)
            } else {
                None
            },
        }
    }
}

/// The first `k` fields of a union, each fit for a union of that size and
/// alignment; all pointer-bearing ones have the same type.
pub open spec fn union_fields(
    converted: Seq<Result<LlvmShape, LowerError>>,
    size: u64,
    align: u64,
    k: int,
) -> Result<Seq<UnionField>, LowerError>
    decreases k,
{
    if k <= 0 {
        Ok(Seq::empty())
    } else {
        match union_fields(converted, size, align, k - 1) {
            Err(e) => Err(e),
            Ok(fields) => {
                let field = (k - 1) as usize;
                match converted[k - 1] {
                    Err(e) => Err(e),
                    Ok(ty) => match size_align(ty) {
                        None => Err(LowerError::UnionFieldLayout { field }),
                        Some((field_size, field_align)) => if field_size > size {
                            Err(LowerError::UnionFieldSize { field, field_size, size })
                        } else if field_align > align {
                            Err(LowerError::UnionFieldAlign { field, field_align, align })
                        } else if contains_pointer(ty) && pointer_field(fields, k - 1) is Some
                            && pointer_field(fields, k - 1)->Some_0 != ty {
                            Err(LowerError::UnionPointerRepresentations { field })
                        } else {
                            Ok(fields.push(UnionField { ty, size: field_size, align: field_align }))
                        },
                    },
                }
            },
        }
    }
}

/// Whether a field can stand for the union's bytes: it has some, preserves
/// them all, and carries the union's pointers where there are any.
pub open spec fn can_represent(field: UnionField, has_pointer: bool) -> bool {
    &&& field.size > 0
    &&& byte_faithful(field.ty)
    &&& has_pointer ==> contains_pointer(field.ty)
}

/// The widest aligned, then largest, then last field that can stand for the
/// union's bytes.
pub open spec fn representative(fields: Seq<UnionField>, has_pointer: bool, k: int) -> Option<
    UnionField,
>
    decreases k,
{
    if k <= 0 {
        None
    } else {
        let field = fields[k - 1];
        let best = representative(fields, has_pointer, k - 1);
        if !can_represent(field, has_pointer) {
            best
        } else {
            match best {
                None => Some(field),
                Some(b) => if b.align < field.align || (b.align == field.align && b.size
                    <= field.size) {
                    Some(field)
                } else {
                    Some(b)
                },
            }
        }
    }
}

/// `[0 x iN]` with the natural alignment `min(align, 16)`, which raises a
/// struct's alignment and takes no bytes.
pub open spec fn union_anchor(align: u64) -> LlvmShape {
    let bytes = if align < 16 {
        align
    } else {
        16
    };
    LlvmShape::Array(Box::new(LlvmShape::Integer((bytes * 8) as u32)), 0)
}

/// The fields of a union's storage struct.
pub open spec fn union_storage_fields(fields: Seq<UnionField>, size: u64, align: u64) -> Result<
    Seq<LlvmShape>,
    LowerError,
> {
    let n = fields.len() as int;
    let has_pointer = pointer_field(fields, n) is Some;
    let anchor = seq![union_anchor(align)];
    if size == 0 {
        Ok(anchor)
    } else {
        match representative(fields, has_pointer, n) {
            Some(rep) => if rep.size < size {
                Ok(anchor.push(rep.ty).push(padding(size - rep.size)))
            } else {
                Ok(anchor.push(rep.ty))
            },
            None => if has_pointer {
                Err(LowerError::UnionPointerCarrier)
            } else {
                Ok(anchor.push(padding(size as int)))
            },
        }
    }
}

/// Storage for a union whose fields convert to `converted`.
pub open spec fn union_storage(
    converted: Seq<Result<LlvmShape, LowerError>>,
    size: u64,
    align: u64,
) -> Result<LlvmShape, LowerError> {
    if !is_pow2(align as int) {
        Err(LowerError::UnionAlign { align })
    } else if size > 0 && size % align != 0 {
        Err(LowerError::UnionSize { size, align })
    } else {
        match union_fields(converted, size, align, converted.len() as int) {
            Err(e) => Err(e),
            Ok(fields) => match union_storage_fields(fields, size, align) {
                Err(e) => Err(e),
                Ok(storage) => match size_align(LlvmShape::Struct(storage)) {
                    None => Err(LowerError::UnionStorageLayout),
                    Some((storage_size, storage_align)) => if storage_size != size || storage_align
                        > align {
                        Err(
                            LowerError::UnionStorageMismatch {
                                storage_size,
                                storage_align,
                                size,
                                align,
                            },
                        )
                    } else {
                        Ok(LlvmShape::Struct(storage))
                    },
                },
            },
        }
    }
}

/// The model of the outcome of a conversion.
pub open spec fn outcome_shape(r: Result<LlvmType, LowerError>) -> Result<LlvmShape, LowerError> {
    match r {
        Ok(t) => Ok(t@),
        Err(e) => Err(e),
    }
}

/// The models of the outcomes of conversions.
pub open spec fn outcome_shapes(s: Seq<Result<LlvmType, LowerError>>) -> Seq<
    Result<LlvmShape, LowerError>,
> {
    Seq::new(s.len(), |i: int| outcome_shape(s[i]))
}

proof fn lemma_union_fields_error(
    converted: Seq<Result<LlvmShape, LowerError>>,
    size: u64,
    align: u64,
    k: int,
    n: int,
)
    requires
        0 <= k <= n,
        union_fields(converted, size, align, k) is Err,
    ensures
        union_fields(converted, size, align, n) == union_fields(converted, size, align, k),
    decreases n - k,
{
    if k < n {
        lemma_union_fields_error(converted, size, align, k + 1, n);
    }
}

/// Size and alignment of a converted union field.
struct FieldRecord {
    size: u64,
    align: u64,
}

spec fn records_field(
    record: FieldRecord,
    outcome: Result<LlvmType, LowerError>,
    field: UnionField,
    size: u64,
) -> bool {
    &&& outcome is Ok
    &&& field.ty == outcome->Ok_0@
    &&& field.size == record.size
    &&& field.align == record.align
    &&& record.size <= size
}

/// Byte-exact storage for a union of the given size and alignment, over the
/// outcomes of converting its fields.
///
/// One byte-faithful field is the storage view, with explicit tail bytes;
/// pointer-bearing fields come first so that copying the union keeps LLVM
/// pointer provenance.
pub fn union_storage_type(
    converted: &Vec<Result<LlvmType, LowerError>>,
    size: u64,
    align: u64,
) -> (r: Result<LlvmType, LowerError>)
    ensures
        outcome_shape(r) == union_storage(outcome_shapes(converted@), size, align),
{
    let ghost wanted = outcome_shapes(converted@);
    if !is_power_of_two(align) {
        return Err(LowerError::UnionAlign { align });
    }
    proof {
        reveal(is_pow2);
    }
    if size > 0 && size % align != 0 {
        return Err(LowerError::UnionSize { size, align });
    }
    let mut pointer: Option<usize> = None;
    let mut records: Vec<FieldRecord> = Vec::new();
    let ghost mut fields: Seq<UnionField> = Seq::empty();
    for i in 0..converted.len()
        invariant
            wanted == outcome_shapes(converted@),
            is_pow2(align as int),
            size == 0 || size % align == 0,
            union_fields(wanted, size, align, i as int) == Ok::<Seq<UnionField>, LowerError>(
                fields,
            ),
            fields.len() == i,
            records@.len() == i,
            forall|j: int|
                0 <= j < i ==> #[trigger] records_field(
                    records@[j],
                    converted@[j],
                    fields[j],
                    size,
                ),
            match pointer {
                None => pointer_field(fields, i as int) is None,
                Some(p) => p < i && pointer_field(fields, i as int) == Some(
                    converted@[p as int]->Ok_0@,
                ),
            },
    {
        assert(wanted[i as int] == outcome_shape(converted@[i as int]));
        proof {
            if union_fields(wanted, size, align, i + 1) is Err {
                lemma_union_fields_error(wanted, size, align, i + 1, wanted.len() as int);
            }
        }
        match &converted[i] {
            Err(e) => {
                return Err(*e);
            },
            Ok(ty) => {
                match llvm_type_size_align(ty) {
                    None => {
                        return Err(LowerError::UnionFieldLayout { field: i });
                    },
                    Some((field_size, field_align)) => {
                        if field_size > size {
                            return Err(LowerError::UnionFieldSize { field: i, field_size, size });
                        }
                        if field_align > align {
                            return Err(
                                LowerError::UnionFieldAlign { field: i, field_align, align },
                            );
                        }
                        let holds: bool = llvm_type_contains_pointer(ty);
                        if holds {
                            match pointer {
                                Some(p) => {
                                    assert(records_field(
                                        records@[p as int],
                                        converted@[p as int],
                                        fields[p as int],
                                        size,
                                    ));
                                    if let Ok(first) = &converted[p] {
                                        if !first.same_type(ty) {
                                            return Err(
                                                LowerError::UnionPointerRepresentations {
                                                    field: i,
                                                },
                                            );
                                        }
                                    }
                                },
                                None => {
                                    pointer = Some(i);
                                },
                            }
                        }
                        records.push(
                            FieldRecord { size: field_size, align: field_align },
                        );
                        proof {
                            let before = fields;
                            fields =
                            fields.push(
                                UnionField { ty: ty@, size: field_size, align: field_align },
                            );
                            lemma_pointer_field_push(before, fields[i as int], i as int);
                        }
                    },
                }
            },
        }
    }
    let has_pointer: bool = pointer.is_some();
    let anchor_bytes: u64 = if align < 16 {
        align
    } else {
        16
    };
    let anchor = LlvmType::array(LlvmType::integer((anchor_bytes * 8) as u32), 0);
    let mut storage: Vec<LlvmType> = Vec::new();
    storage.push(anchor);
    let ghost anchored = seq![union_anchor(align)];
    assert(shapes(storage@) =~= anchored);
    if size > 0 {
        let mut best: Option<usize> = None;
        for i in 0..records.len()
            invariant
                fields.len() == records@.len(),
                records@.len() == converted@.len(),
                forall|j: int|
                    0 <= j < records@.len() ==> #[trigger] records_field(
                        records@[j],
                        converted@[j],
                        fields[j],
                        size,
                    ),
                match best {
                    None => representative(fields, has_pointer, i as int) is None,
                    Some(b) => b < i && representative(fields, has_pointer, i as int) == Some(
                        fields[b as int],
                    ),
                },
        {
            assert(records_field(
                records@[i as int],
                converted@[i as int],
                fields[i as int],
                size,
            ));
            if let Ok(ty) = &converted[i] {
                let faithful: bool = llvm_type_is_byte_faithful(ty);
                let holds: bool = llvm_type_contains_pointer(ty);
                if records[i].size > 0 && faithful && (!has_pointer || holds) {
                    match best {
                        None => {
                            best = Some(i);
                        },
                        Some(b) => {
                            assert(records_field(
                                records@[b as int],
                                converted@[b as int],
                                fields[b as int],
                                size,
                            ));
                            if records[b].align < records[i].align || (records[b].align
                                == records[i].align && records[b].size <= records[i].size) {
                                best = Some(i);
                            }
                        },
                    }
                }
            }
        }
        match best {
            Some(b) => {
                assert(records_field(
                    records@[b as int],
                    converted@[b as int],
                    fields[b as int],
                    size,
                ));
                if let Ok(ty) = &converted[b] {
                    storage.push(ty.duplicate());
                }
                assert(shapes(storage@) =~= anchored.push(fields[b as int].ty));
                let rest: u64 = size - records[b].size;
                if rest > 0 {
                    storage.push(make_padding_type(rest));
                    assert(shapes(storage@) =~= anchored.push(fields[b as int].ty).push(
                        padding(rest as int),
                    ));
                }
            },
            None => {
                if has_pointer {
                    return Err(LowerError::UnionPointerCarrier);
                }
                storage.push(make_padding_type(size));
                assert(shapes(storage@) =~= anchored.push(padding(size as int)));
            },
        }
    }
    let storage_ty = LlvmType::structure(storage);
    match llvm_type_size_align(&storage_ty) {
        None => Err(LowerError::UnionStorageLayout),
        Some((storage_size, storage_align)) => {
            if storage_size != size || storage_align > align {
                return Err(
                    LowerError::UnionStorageMismatch { storage_size, storage_align, size, align },
                );
            }
            Ok(storage_ty)
        },
    }
}

proof fn lemma_pointer_field_push(fields: Seq<UnionField>, field: UnionField, k: int)
    requires
        0 <= k <= fields.len(),
    ensures
        pointer_field(fields.push(field), k) == pointer_field(fields, k),
    decreases k,
{
    if k > 0 {
        lemma_pointer_field_push(fields, field, k - 1);
    }
}

/// `align`, or sixteen where that is less: no type aligns wider.
pub open spec fn natural_align(align: u64) -> u64 {
    if align < 16 {
        align
    } else {
        16
    }
}

/// Union storage has exactly the union's size, and its alignment as far as a
/// type can have it. A field without bytes comes first and the union's bytes
/// behind it start at zero. They hold a pointer where a field of the union does.
pub proof fn law_union_storage_is_exact(
    converted: Seq<Result<LlvmShape, LowerError>>,
    size: u64,
    align: u64,
)
    requires
        union_storage(converted, size, align) is Ok,
    ensures
        ({
            let s = union_storage(converted, size, align)->Ok_0;
            let fields = s->Struct_0;
            &&& s is Struct
            &&& size_align(s) == Some((size, natural_align(align)))
            &&& fields.len() > 0
            &&& fields[0] is Array
            &&& fields[0]->Array_1 == 0
            &&& size > 0 ==> fields.len() > 1 && natural_offset(fields, 1) == 0
            &&& size > 0 && (exists|i: int|
                0 <= i < converted.len() && #[trigger] converted[i] is Ok && contains_pointer(
                    converted[i]->Ok_0,
                )) ==> contains_pointer(s)
        }),
{
    let fields = union_fields(converted, size, align, converted.len() as int)->Ok_0;
    let n = fields.len() as int;
    let has_pointer = pointer_field(fields, n) is Some;
    let storage = union_storage_fields(fields, size, align)->Ok_0;
    lemma_union_fields(converted, size, align, converted.len() as int);
    lemma_representative(fields, has_pointer, n, size);
    lemma_anchor_align(align);
    lemma_padding(size as int);
    let whole = LlvmShape::Struct(storage);
    assert(whole->Struct_0 == storage);
    if size > 0 {
        match representative(fields, has_pointer, n) {
            Some(rep) => {
                lemma_padding(size - rep.size);
                lemma_is_align(rep.ty);
                lemma_representative_align(fields, has_pointer, n, align);
                assert(storage[1] == rep.ty);
            },
            None => {},
        }
    }
    reveal_with_fuel(is_pow2, 2);
    assert(align >= 1);
    assert forall|i: int| 0 <= i < storage.len() implies size_align(#[trigger] storage[i]) is Some
        && size_align(storage[i])->Some_0.1 <= natural_align(align) by {
        assert(i == 0 || i == 1 || i == 2);
    }
    lemma_anchored_layout(storage, natural_align(align));
    if exists|i: int|
        0 <= i < converted.len() && #[trigger] converted[i] is Ok && contains_pointer(
            converted[i]->Ok_0,
        ) {
        let i = choose|i: int|
            0 <= i < converted.len() && #[trigger] converted[i] is Ok && contains_pointer(
                converted[i]->Ok_0,
            );
        assert(fields[i].ty == converted[i]->Ok_0);
        lemma_pointer_field_found(fields, n, i);
        if size > 0 {
            assert(contains_pointer(storage[1]));
        }
    }
}

proof fn lemma_pointer_field_found(fields: Seq<UnionField>, k: int, i: int)
    requires
        0 <= i < k <= fields.len(),
        contains_pointer(fields[i].ty),
    ensures
        pointer_field(fields, k) is Some,
    decreases k,
{
    if i < k - 1 {
        lemma_pointer_field_found(fields, k - 1, i);
    }
}

proof fn lemma_representative_align(
    fields: Seq<UnionField>,
    has_pointer: bool,
    k: int,
    align: u64,
)
    requires
        0 <= k <= fields.len(),
        forall|i: int| 0 <= i < fields.len() ==> (#[trigger] fields[i]).align <= align,
    ensures
        match representative(fields, has_pointer, k) {
            None => true,
            Some(field) => field.align <= align,
        },
    decreases k,
{
    if k > 0 {
        lemma_representative_align(fields, has_pointer, k - 1, align);
    }
}

proof fn lemma_anchor_align(align: u64)
    requires
        is_pow2(align as int),
    ensures
        size_align(union_anchor(align)) == Some((0u64, natural_align(align))),
{
    lemma_anchor(align);
    if align < 16 {
        lemma_small_powers(align);
    }
    let int_ty = LlvmShape::Integer((natural_align(align) * 8) as u32);
    assert(size_align(int_ty) == Some((natural_align(align), natural_align(align))));
    assert(union_anchor(align) == LlvmShape::Array(Box::new(int_ty), 0));
}

/// The powers of two below sixteen.
proof fn lemma_small_powers(n: u64)
    requires
        is_pow2(n as int),
        n < 16,
    ensures
        n == 1 || n == 2 || n == 4 || n == 8,
{
    reveal_with_fuel(is_pow2, 5);
}

/// The size of a struct behind an anchor is that of its fields, and its
/// alignment is the anchor's.
proof fn lemma_anchored_layout(fields: Seq<LlvmShape>, align: u64)
    requires
        1 <= fields.len() <= 3,
        forall|i: int| 0 <= i < fields.len() ==> size_align(#[trigger] fields[i]) is Some,
        size_align(fields[0]) == Some((0u64, align)),
        forall|i: int|
            0 <= i < fields.len() ==> size_align(#[trigger] fields[i])->Some_0.1 <= align,
        size_align(LlvmShape::Struct(fields)) is Some,
    ensures
        size_align(LlvmShape::Struct(fields))->Some_0.1 == align,
        fields.len() > 1 ==> natural_offset(fields, 1) == 0,
{
    let parts = size_aligns(fields);
    lemma_struct_size_align(fields);
    reveal_with_fuel(prefix_extent, 4);
    assert(parts[0] == size_align(fields[0]));
    lemma_is_align(fields[0]);
    lemma_align_up(0, align as int);
    if fields.len() > 1 {
        assert(parts[1] == size_align(fields[1]));
        lemma_is_align(fields[1]);
        lemma_align_up(0, size_align(fields[1])->Some_0.1 as int);
    }
    if fields.len() > 2 {
        assert(parts[2] == size_align(fields[2]));
    }
}

/// Reading and writing a union's storage preserves each of its bytes.
pub proof fn law_union_storage_is_byte_faithful(
    converted: Seq<Result<LlvmShape, LowerError>>,
    size: u64,
    align: u64,
)
    requires
        union_storage(converted, size, align) is Ok,
    ensures
        byte_faithful(union_storage(converted, size, align)->Ok_0),
{
    let fields = union_fields(converted, size, align, converted.len() as int)->Ok_0;
    let n = fields.len() as int;
    let has_pointer = pointer_field(fields, n) is Some;
    let storage = union_storage_fields(fields, size, align)->Ok_0;
    lemma_union_fields(converted, size, align, converted.len() as int);
    lemma_representative(fields, has_pointer, n, size);
    lemma_anchor(align);
    lemma_padding(size as int);
    if size == 0 {
        lemma_gap_free(storage, size);
    } else {
        match representative(fields, has_pointer, n) {
            Some(rep) => {
                lemma_padding(size - rep.size);
                lemma_gap_free(storage, size);
            },
            None => {
                lemma_gap_free(storage, size);
            },
        }
    }
}

proof fn lemma_anchor(align: u64)
    requires
        is_pow2(align as int),
    ensures
        byte_faithful(union_anchor(align)),
        size_align(union_anchor(align)) is Some,
        size_align(union_anchor(align))->Some_0.0 == 0,
{
    reveal_with_fuel(byte_faithful, 2);
    reveal_with_fuel(size_align, 2);
}

proof fn lemma_padding(n: int)
    requires
        0 <= n <= u64::MAX,
    ensures
        byte_faithful(padding(n)),
        size_align(padding(n)) == Some((n as u64, 1u64)),
{
    reveal_with_fuel(byte_faithful, 2);
    reveal_with_fuel(size_align, 2);
    assert(size_align(LlvmShape::Integer(8)) == Some((1u64, 1u64)));
    assert(fits(1 * n) == Some(n as u64));
}

/// An anchor, a type and padding follow each other without a gap.
proof fn lemma_gap_free(fields: Seq<LlvmShape>, size: u64)
    requires
        1 <= fields.len() <= 3,
        forall|i: int|
            0 <= i < fields.len() ==> byte_faithful(#[trigger] fields[i]) && size_align(
                fields[i],
            ) is Some,
        size_align(fields[0])->Some_0.0 == 0,
        fields.len() == 3 ==> size_align(fields[2])->Some_0.1 == 1,
        size_align(LlvmShape::Struct(fields)) is Some,
        size_align(LlvmShape::Struct(fields))->Some_0.0 == size,
        size == (if fields.len() > 1 {
            size_align(fields[1])->Some_0.0 as int
        } else {
            0
        }) + (if fields.len() > 2 {
            size_align(fields[2])->Some_0.0 as int
        } else {
            0
        }),
    ensures
        byte_faithful(LlvmShape::Struct(fields)),
{
    let parts = size_aligns(fields);
    lemma_struct_size_align(fields);
    reveal_with_fuel(prefix_extent, 4);
    assert(parts[0] == size_align(fields[0]));
    lemma_is_align(fields[0]);
    lemma_align_up(0, size_align(fields[0])->Some_0.1 as int);
    assert(align_up(0, size_align(fields[0])->Some_0.1 as int) == 0);
    assert(prefix_extent(parts, 1)->Some_0.0 == 0);
    assert(starts_at_end(parts, 0));
    if fields.len() > 1 {
        assert(parts[1] == size_align(fields[1]));
        lemma_is_align(fields[1]);
        assert(align_up(0, size_align(fields[1])->Some_0.1 as int) == 0);
        assert(starts_at_end(parts, 1));
    }
    if fields.len() > 2 {
        assert(parts[2] == size_align(fields[2]));
        let end = prefix_extent(parts, 2)->Some_0.0 as int;
        assert(align_up(end, 1) == end);
        assert(starts_at_end(parts, 2));
    }
    assert forall|k: int| 0 <= k < parts.len() implies #[trigger] starts_at_end(parts, k) by {
        assert(k == 0 || k == 1 || k == 2);
    }
    assert(struct_extent(parts)->Some_0.0 == size);
}

/// Every field of a union has a layout and fits in the union.
pub proof fn law_union_fields_fit(
    converted: Seq<Result<LlvmShape, LowerError>>,
    size: u64,
    align: u64,
    i: int,
)
    requires
        union_storage(converted, size, align) is Ok,
        0 <= i < converted.len(),
    ensures
        converted[i] is Ok,
        size_align(converted[i]->Ok_0) is Some,
        size_align(converted[i]->Ok_0)->Some_0.0 <= size,
{
    lemma_union_fields(converted, size, align, converted.len() as int);
}

proof fn lemma_union_fields(
    converted: Seq<Result<LlvmShape, LowerError>>,
    size: u64,
    align: u64,
    k: int,
)
    requires
        0 <= k <= converted.len(),
        union_fields(converted, size, align, k) is Ok,
    ensures
        union_fields(converted, size, align, k)->Ok_0.len() == k,
        forall|i: int|
            #![trigger converted[i]]
            #![trigger union_fields(converted, size, align, k)->Ok_0[i]]
            0 <= i < k ==> {
                let field = union_fields(converted, size, align, k)->Ok_0[i];
                &&& converted[i] == Ok::<LlvmShape, LowerError>(field.ty)
                &&& size_align(field.ty) == Some((field.size, field.align))
                &&& field.size <= size
                &&& field.align <= align
            },
    decreases k,
{
    if k > 0 {
        lemma_union_fields(converted, size, align, k - 1);
    }
}

proof fn lemma_representative(fields: Seq<UnionField>, has_pointer: bool, k: int, size: u64)
    requires
        0 <= k <= fields.len(),
        forall|i: int|
            0 <= i < fields.len() ==> size_align((#[trigger] fields[i]).ty) == Some(
                (fields[i].size, fields[i].align),
            ) && fields[i].size <= size,
    ensures
        match representative(fields, has_pointer, k) {
            None => true,
            Some(field) => {
                &&& can_represent(field, has_pointer)
                &&& size_align(field.ty) == Some((field.size, field.align))
                &&& field.size <= size
            },
        },
    decreases k,
{
    if k > 0 {
        lemma_representative(fields, has_pointer, k - 1, size);
    }
}

// ---------------------------------------------------------------------------
// When there is storage
// ---------------------------------------------------------------------------

/// Whether a field can be one of a union of this size and alignment. A field with a pointer
/// is of type `carrier`, which takes bytes and keeps each of them.
pub open spec fn fits_union(
    field: Result<LlvmShape, LowerError>,
    size: u64,
    align: u64,
    carrier: LlvmShape,
) -> bool {
    &&& field is Ok
    &&& size_align(field->Ok_0) is Some
    &&& size_align(field->Ok_0)->Some_0.0 <= size
    &&& size_align(field->Ok_0)->Some_0.1 <= align
    &&& contains_pointer(field->Ok_0) ==> {
        &&& field->Ok_0 == carrier
        &&& byte_faithful(carrier)
        &&& size_align(carrier)->Some_0.0 > 0
    }
}

proof fn lemma_fields_found(
    converted: Seq<Result<LlvmShape, LowerError>>,
    size: u64,
    align: u64,
    carrier: LlvmShape,
    k: int,
)
    requires
        0 <= k <= converted.len(),
        forall|i: int|
            0 <= i < converted.len() ==> fits_union(
                #[trigger] converted[i],
                size,
                align,
                carrier,
            ),
    ensures
        ({
            let r = union_fields(converted, size, align, k);
            &&& r is Ok
            &&& r->Ok_0.len() == k
            &&& forall|i: int|
                0 <= i < k ==> (#[trigger] r->Ok_0[i]).ty == converted[i]->Ok_0 && size_align(
                    r->Ok_0[i].ty,
                ) == Some((r->Ok_0[i].size, r->Ok_0[i].align))
            &&& pointer_field(r->Ok_0, k) is Some ==> pointer_field(r->Ok_0, k)->Some_0 == carrier
                && exists|i: int| 0 <= i < k && (#[trigger] r->Ok_0[i]).ty == carrier
        }),
    decreases k,
{
    if k > 0 {
        lemma_fields_found(converted, size, align, carrier, k - 1);
        let past = union_fields(converted, size, align, k - 1)->Ok_0;
        assert(fits_union(converted[k - 1], size, align, carrier));
        let all = union_fields(converted, size, align, k)->Ok_0;
        assert(all.drop_last() =~= past);
        lemma_pointer_field_same(past, all, k - 1);
        if pointer_field(all, k) is Some {
            if pointer_field(past, k - 1) is Some {
                let i = choose|i: int| 0 <= i < k - 1 && (#[trigger] past[i]).ty == carrier;
                assert(all[i] == past[i]);
            } else {
                assert(all[k - 1].ty == carrier);
            }
        }
        assert forall|i: int| 0 <= i < k implies (#[trigger] all[i]).ty == converted[i]->Ok_0
            && size_align(all[i].ty) == Some((all[i].size, all[i].align)) by {
            if i < k - 1 {
                assert(all[i] == past[i]);
            }
        }
    }
}

proof fn lemma_pointer_field_same(a: Seq<UnionField>, b: Seq<UnionField>, k: int)
    requires
        k <= a.len(),
        k <= b.len(),
        forall|i: int| 0 <= i < k ==> a[i] == b[i],
    ensures
        pointer_field(a, k) == pointer_field(b, k),
    decreases k,
{
    if k > 0 {
        lemma_pointer_field_same(a, b, k - 1);
        assert(a[k - 1] == b[k - 1]);
    }
}

proof fn lemma_represented(fields: Seq<UnionField>, has_pointer: bool, k: int, i: int)
    requires
        0 <= i < k <= fields.len(),
        can_represent(fields[i], has_pointer),
    ensures
        representative(fields, has_pointer, k) is Some,
    decreases k,
{
    if i < k - 1 {
        lemma_represented(fields, has_pointer, k - 1, i);
    }
}

/// The size of an anchor and what follows it, where their sizes sum up to a multiple of the
/// anchor's alignment.
proof fn lemma_anchored_size(fields: Seq<LlvmShape>, align: u64, size: u64)
    requires
        1 <= fields.len() <= 3,
        size_align(fields[0]) == Some((0u64, align)),
        is_align(align),
        fields.len() > 1 ==> size_align(fields[1]) is Some && size_align(fields[1])->Some_0.1
            <= align,
        fields.len() > 2 ==> size_align(fields[2]) is Some && size_align(fields[2])->Some_0.1 == 1,
        size == if fields.len() == 1 {
            0
        } else if fields.len() == 2 {
            size_align(fields[1])->Some_0.0 as int
        } else {
            size_align(fields[1])->Some_0.0 + size_align(fields[2])->Some_0.0
        },
        size as int % align as int == 0,
    ensures
        size_align(LlvmShape::Struct(fields)) == Some((size, align)),
{
    let parts = size_aligns(fields);
    lemma_struct_size_align(fields);
    reveal_with_fuel(prefix_extent, 4);
    assert(parts[0] == size_align(fields[0]));
    lemma_align_up(0, align as int);
    lemma_small_zero(align as int);
    if fields.len() > 1 {
        assert(parts[1] == size_align(fields[1]));
        lemma_is_align(fields[1]);
        lemma_small_zero(size_align(fields[1])->Some_0.1 as int);
    }
    if fields.len() > 2 {
        assert(parts[2] == size_align(fields[2]));
        assert(size_align(fields[1])->Some_0.0 as int % 1 == 0);
    }
}

proof fn lemma_small_zero(a: int)
    requires
        a > 0,
    ensures
        0int % a == 0,
{
    vstd::arithmetic::div_mod::lemma_small_mod(0, a as nat);
}

/// A union has storage where its alignment is a power of two that divides its size, and
/// where each field has a layout that fits the union; fields with pointers are all of one
/// type that can carry them.
pub proof fn law_fitting_unions_have_storage(
    converted: Seq<Result<LlvmShape, LowerError>>,
    size: u64,
    align: u64,
    carrier: LlvmShape,
)
    requires
        is_pow2(align as int),
        size > 0 ==> size % align == 0,
        forall|i: int|
            0 <= i < converted.len() ==> fits_union(
                #[trigger] converted[i],
                size,
                align,
                carrier,
            ),
    ensures
        union_storage(converted, size, align) is Ok,
{
    reveal_with_fuel(is_pow2, 2);
    let k = converted.len() as int;
    lemma_fields_found(converted, size, align, carrier, k);
    let fields = union_fields(converted, size, align, k)->Ok_0;
    lemma_union_fields(converted, size, align, k);
    let has_pointer = pointer_field(fields, k) is Some;
    lemma_representative(fields, has_pointer, k, size);
    lemma_representative_align(fields, has_pointer, k, align);
    if has_pointer {
        let i = choose|i: int| 0 <= i < k && (#[trigger] fields[i]).ty == carrier;
        assert(fits_union(converted[i], size, align, carrier));
        lemma_carrier_found(converted, size, align, carrier, k);
        lemma_represented(fields, has_pointer, k, i);
    }
    let natural = natural_align(align);
    lemma_anchor_align(align);
    lemma_is_align(union_anchor(align));
    let storage = union_storage_fields(fields, size, align)->Ok_0;
    lemma_natural_divides(size, align);
    if size == 0 {
        lemma_small_zero(natural as int);
    } else {
        lemma_padding(size as int);
        if let Some(rep) = representative(fields, has_pointer, k) {
            lemma_padding(size - rep.size);
            lemma_is_align(rep.ty);
        }
    }
    lemma_anchored_size(storage, natural, size);
}

proof fn lemma_carrier_found(
    converted: Seq<Result<LlvmShape, LowerError>>,
    size: u64,
    align: u64,
    carrier: LlvmShape,
    k: int,
)
    requires
        0 <= k <= converted.len(),
        forall|i: int|
            0 <= i < converted.len() ==> fits_union(
                #[trigger] converted[i],
                size,
                align,
                carrier,
            ),
        union_fields(converted, size, align, k) is Ok,
        pointer_field(union_fields(converted, size, align, k)->Ok_0, k) is Some,
    ensures
        contains_pointer(carrier),
        byte_faithful(carrier),
        size_align(carrier)->Some_0.0 > 0,
    decreases k,
{
    if k > 0 {
        lemma_fields_found(converted, size, align, carrier, k);
        let past = union_fields(converted, size, align, k - 1)->Ok_0;
        let all = union_fields(converted, size, align, k)->Ok_0;
        lemma_union_fields(converted, size, align, k - 1);
        lemma_pointer_field_same(past, all, k - 1);
        assert(fits_union(converted[k - 1], size, align, carrier));
        if pointer_field(past, k - 1) is Some {
            lemma_carrier_found(converted, size, align, carrier, k - 1);
        }
    }
}

/// A multiple of a power of two is one of the power of two up to 16.
proof fn lemma_natural_divides(size: u64, align: u64)
    requires
        is_pow2(align as int),
        size > 0 ==> size % align == 0,
    ensures
        size as int % natural_align(align) as int == 0,
{
    if align > 16 && size > 0 {
        lemma_sixteen_divides(align as int);
        let q = size as int / align as int;
        let m = align as int / 16;
        vstd::arithmetic::div_mod::lemma_fundamental_div_mod(size as int, align as int);
        vstd::arithmetic::div_mod::lemma_fundamental_div_mod(align as int, 16);
        assert(size == (m * q) * 16) by (nonlinear_arith)
            requires
                size == align as int * q + 0,
                align == 16 * m,
        ;
        vstd::arithmetic::div_mod::lemma_mod_multiples_basic(m * q, 16);
    }
    reveal_with_fuel(is_pow2, 2);
    if size == 0 {
        lemma_small_zero(natural_align(align) as int);
    }
}

proof fn lemma_sixteen_divides(n: int)
    requires
        is_pow2(n),
        n >= 16,
    ensures
        n % 16 == 0,
    decreases n,
{
    reveal_with_fuel(is_pow2, 2);
    if n > 16 {
        if n / 2 < 16 {
            reveal_with_fuel(is_pow2, 6);
        } else {
            lemma_sixteen_divides(n / 2);
        }
    }
}

/// Whether field `i` of a union can stand for its bytes: it has some, keeps them all, and
/// holds a pointer where any field does.
pub open spec fn represents(types: Seq<LlvmShape>, i: int) -> bool {
    &&& 0 <= i < types.len()
    &&& byte_size(types[i]) > 0
    &&& byte_faithful(types[i])
    &&& (exists|m: int| 0 <= m < types.len() && contains_pointer(#[trigger] types[m]))
        ==> contains_pointer(types[i])
}

/// Whether field `i` stands for a union's bytes no better than field `j`: it is not aligned
/// wider, then not larger, then not later.
pub open spec fn no_better(types: Seq<LlvmShape>, i: int, j: int) -> bool {
    let a = size_align(types[i])->Some_0;
    let b = size_align(types[j])->Some_0;
    a.1 < b.1 || (a.1 == b.1 && (a.0 < b.0 || (a.0 == b.0 && i <= j)))
}

/// The bytes of a union are kept in the type of the field that stands for them best. Where no
/// field can stand for them, they are kept as bytes.
pub proof fn law_unions_are_kept_in_their_best_field(
    converted: Seq<Result<LlvmShape, LowerError>>,
    types: Seq<LlvmShape>,
    size: u64,
    align: u64,
    j: int,
)
    requires
        size > 0,
        union_storage(converted, size, align) is Ok,
        types.len() == converted.len(),
        forall|i: int|
            0 <= i < types.len() ==> #[trigger] converted[i] == Ok::<LlvmShape, LowerError>(
                types[i],
            ),
    ensures
        ({
            let storage = union_storage(converted, size, align)->Ok_0->Struct_0;
            &&& storage.len() >= 2
            &&& represents(types, j) && (forall|i: int|
                #[trigger] represents(types, i) ==> no_better(types, i, j)) ==> storage[1]
                == types[j]
            &&& (forall|i: int| !#[trigger] represents(types, i)) ==> storage[1]
                == LlvmShape::Array(Box::new(LlvmShape::Integer(8)), size)
        }),
{
    let n = converted.len() as int;
    lemma_fields_listed(converted, types, size, align, n);
    let fields = union_fields(converted, size, align, n)->Ok_0;
    lemma_pointer_field_listed(fields, n);
    let has_pointer = pointer_field(fields, n) is Some;
    assert(has_pointer <==> exists|m: int|
        0 <= m < types.len() && contains_pointer(#[trigger] types[m])) by {
        if has_pointer {
            let m = choose|m: int| 0 <= m < n && contains_pointer((#[trigger] fields[m]).ty);
            assert(contains_pointer(types[m]));
        }
        if exists|m: int| 0 <= m < types.len() && contains_pointer(#[trigger] types[m]) {
            let m = choose|m: int| 0 <= m < types.len() && contains_pointer(#[trigger] types[m]);
            assert(contains_pointer(fields[m].ty));
        }
    }
    assert forall|i: int| 0 <= i < n implies represents(types, i) == can_represent(
        #[trigger] fields[i],
        has_pointer,
    ) by {}
    lemma_best(fields, has_pointer, n, j);
    let rep = representative(fields, has_pointer, n);
    if represents(types, j) && (forall|i: int|
        #[trigger] represents(types, i) ==> no_better(types, i, j)) {
        assert forall|i: int| 0 <= i < n && can_represent(#[trigger] fields[i], has_pointer) implies {
            ||| fields[i].align < fields[j].align
            ||| fields[i].align == fields[j].align && (fields[i].size < fields[j].size || (
            fields[i].size == fields[j].size && i <= j))
        } by {
            assert(represents(types, i));
            assert(no_better(types, i, j));
        }
        assert(rep == Some(fields[j]));
    }
    if forall|i: int| !#[trigger] represents(types, i) {
        assert forall|i: int| 0 <= i < n implies !can_represent(#[trigger] fields[i], has_pointer) by {
            assert(!represents(types, i));
        }
        assert(rep is None);
    }
}

proof fn lemma_fields_listed(
    converted: Seq<Result<LlvmShape, LowerError>>,
    types: Seq<LlvmShape>,
    size: u64,
    align: u64,
    k: int,
)
    requires
        0 <= k <= converted.len(),
        types.len() == converted.len(),
        forall|i: int|
            0 <= i < types.len() ==> #[trigger] converted[i] == Ok::<LlvmShape, LowerError>(
                types[i],
            ),
        union_fields(converted, size, align, k) is Ok,
    ensures
        ({
            let fields = union_fields(converted, size, align, k)->Ok_0;
            &&& fields.len() == k
            &&& forall|i: int|
                0 <= i < k ==> {
                    &&& size_align(types[i]) is Some
                    &&& (#[trigger] fields[i]).ty == types[i]
                    &&& (fields[i].size, fields[i].align) == size_align(types[i])->Some_0
                }
        }),
    decreases k,
{
    if k > 0 {
        lemma_fields_listed(converted, types, size, align, k - 1);
        assert(converted[k - 1] == Ok::<LlvmShape, LowerError>(types[k - 1]));
    }
}

proof fn lemma_pointer_field_listed(fields: Seq<UnionField>, k: int)
    requires
        0 <= k <= fields.len(),
    ensures
        pointer_field(fields, k) is Some <==> exists|m: int|
            0 <= m < k && contains_pointer((#[trigger] fields[m]).ty),
    decreases k,
{
    if k > 0 {
        lemma_pointer_field_listed(fields, k - 1);
        if pointer_field(fields, k) is Some && pointer_field(fields, k - 1) is None {
            assert(contains_pointer(fields[k - 1].ty));
        }
    }
}

proof fn lemma_best(fields: Seq<UnionField>, has_pointer: bool, k: int, j: int)
    requires
        0 <= k <= fields.len(),
    ensures
        0 <= j < k && can_represent(fields[j], has_pointer) && (forall|i: int|
            0 <= i < k && can_represent(#[trigger] fields[i], has_pointer) ==> {
                ||| fields[i].align < fields[j].align
                ||| fields[i].align == fields[j].align && (fields[i].size < fields[j].size || (
                fields[i].size == fields[j].size && i <= j))
            }) ==> representative(fields, has_pointer, k) == Some(fields[j]),
        (forall|i: int| 0 <= i < k ==> !can_represent(#[trigger] fields[i], has_pointer))
            ==> representative(fields, has_pointer, k) is None,
        representative(fields, has_pointer, k) matches Some(b) ==> exists|i: int|
            0 <= i < k && #[trigger] fields[i] == b && can_represent(b, has_pointer),
    decreases k,
{
    if k > 0 {
        lemma_best(fields, has_pointer, k - 1, j);
        let field = fields[k - 1];
        let best = representative(fields, has_pointer, k - 1);
        if can_represent(field, has_pointer) {
            assert(fields[k - 1] == field);
        }
    }
}

} // verus!
