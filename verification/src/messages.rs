//! Refusals in words.

use crate::error::LowerError;
use crate::names::{decimal, decimal_text};
use vstd::prelude::*;
use vstd::string::StringExecFns;

verus! {

/// A text with one number in it.
pub open spec fn filled_one(
    a0: Seq<char>,
    n1: nat,
    a1: Seq<char>,
) -> Seq<char> {
    a0 + decimal(n1) + a1
}

fn fill_one(a0: &str, n1: u64, a1: &str) -> (r: String)
    ensures
        r@ == filled_one(a0@, n1 as nat, a1@),
{
    let mut r: String = a0.to_owned();
    r.append(decimal_text(n1).as_str());
    r.append(a1);
    r
}

/// A text with two numbers in it.
pub open spec fn filled_two(
    a0: Seq<char>,
    n1: nat,
    a1: Seq<char>,
    n2: nat,
    a2: Seq<char>,
) -> Seq<char> {
    filled_one(a0, n1, a1) + decimal(n2) + a2
}

fn fill_two(a0: &str, n1: u64, a1: &str, n2: u64, a2: &str) -> (r: String)
    ensures
        r@ == filled_two(a0@, n1 as nat, a1@, n2 as nat, a2@),
{
    let mut r: String = fill_one(a0, n1, a1);
    r.append(decimal_text(n2).as_str());
    r.append(a2);
    r
}

/// A text with three numbers in it.
pub open spec fn filled_three(
    a0: Seq<char>,
    n1: nat,
    a1: Seq<char>,
    n2: nat,
    a2: Seq<char>,
    n3: nat,
    a3: Seq<char>,
) -> Seq<char> {
    filled_two(a0, n1, a1, n2, a2) + decimal(n3) + a3
}

fn fill_three(a0: &str, n1: u64, a1: &str, n2: u64, a2: &str, n3: u64, a3: &str) -> (r: String)
    ensures
        r@ == filled_three(a0@, n1 as nat, a1@, n2 as nat, a2@, n3 as nat, a3@),
{
    let mut r: String = fill_two(a0, n1, a1, n2, a2);
    r.append(decimal_text(n3).as_str());
    r.append(a3);
    r
}

/// A text with four numbers in it.
pub open spec fn filled_four(
    a0: Seq<char>,
    n1: nat,
    a1: Seq<char>,
    n2: nat,
    a2: Seq<char>,
    n3: nat,
    a3: Seq<char>,
    n4: nat,
    a4: Seq<char>,
) -> Seq<char> {
    filled_three(a0, n1, a1, n2, a2, n3, a3) + decimal(n4) + a4
}

fn fill_four(a0: &str, n1: u64, a1: &str, n2: u64, a2: &str, n3: u64, a3: &str, n4: u64, a4: &str) -> (r: String)
    ensures
        r@ == filled_four(a0@, n1 as nat, a1@, n2 as nat, a2@, n3 as nat, a3@, n4 as nat, a4@),
{
    let mut r: String = fill_three(a0, n1, a1, n2, a2, n3, a3);
    r.append(decimal_text(n4).as_str());
    r.append(a4);
    r
}

/// What a refusal says.
pub open spec fn message_text(e: LowerError) -> Seq<char> {
    match e {
        LowerError::MissingIndex => "missing field or variant index attribute"@,
        LowerError::NoFieldMapping => "nothing records how field indices map to LLVM slots; refusing to guess"@,
        LowerError::FieldIndex { member, fields } => filled_two(
            "field index "@,
            member as nat,
            " out of bounds for struct with "@,
            fields as nat,
            " fields"@,
        ),
        LowerError::UnionFieldIndex { member } => filled_one(
            "union field index "@,
            member as nat,
            " out of bounds"@,
        ),
        LowerError::IndexNotInteger => "array index must lower to an integer"@,
        LowerError::GlobalKeyMissing => "global allocation is missing its key"@,
        LowerError::GlobalTypeMissing => "allocation is missing its type"@,
        LowerError::SharedSizeMissing => "shared allocation is missing its size"@,
        LowerError::InitializerAlignMissing => "initialized device global is missing its alignment"@,
        LowerError::RelocationsWithoutBytes => "device global has relocations but no initializer bytes"@,
        LowerError::InvalidSymbol => "global key does not make a valid symbol"@,
        LowerError::SharedIndexOverflow => "no more shared globals can be numbered"@,
        LowerError::DynamicAlignmentMissing => "dynamic shared memory alignment was not computed"@,
        LowerError::MemoryOperands { operands, needed } => filled_two(
            "memory operation needs "@,
            needed as nat,
            " operands, got "@,
            operands as nat,
            ""@,
        ),
        LowerError::CastOperands { operands } => filled_one(
            "cast needs exactly one operand, got "@,
            operands as nat,
            ""@,
        ),
        LowerError::CastKindMissing => "cast is missing its kind"@,
        LowerError::CastSourceNotInteger => "cast needs an integer source"@,
        LowerError::CastTargetNotInteger => "cast needs an integer destination"@,
        LowerError::CastNotFloat => "cast needs a floating-point type"@,
        LowerError::TransmuteShared => "transmute of a shared-memory pointer is target-mode dependent"@,
        LowerError::TransmuteLayout => "transmute source or destination has no known layout"@,
        LowerError::TransmuteSize { source, target } => filled_two(
            "transmute between "@,
            source as nat,
            " and "@,
            target as nat,
            " bytes"@,
        ),
        LowerError::TransmuteNotByteFaithful => "transmute source is not byte-faithful"@,
        LowerError::TransmuteScalar => "transmute needs scalars with known bits"@,
        LowerError::VariantUninhabited { variant } => filled_one(
            "variant "@,
            variant as nat,
            " is missing or cannot exist"@,
        ),
        LowerError::VariantDiscriminant { variant } => filled_one(
            "variant "@,
            variant as nat,
            " has no declared discriminant"@,
        ),
        LowerError::VariantNotEncodable { variant } => filled_one(
            "niche layout cannot encode variant "@,
            variant as nat,
            ""@,
        ),
        LowerError::VariantNotSingle { variant } => filled_one(
            "single layout does not hold variant "@,
            variant as nat,
            ""@,
        ),
        LowerError::EnumUninhabited => "enum has no value"@,
        LowerError::NicheRange => "niche variant range ends before it starts"@,
        LowerError::NoCarrier => "enum layout has no carrier"@,
        LowerError::PayloadIndex { variant, payload, fields } => filled_three(
            "payload "@,
            payload as nat,
            " of variant "@,
            variant as nat,
            " is out of range for "@,
            fields as nat,
            " fields"@,
        ),
        LowerError::PayloadSlot { slot } => filled_one(
            "payload slot "@,
            slot as nat,
            " does not exist"@,
        ),
        LowerError::PayloadAddress { member } => filled_one(
            "payload field "@,
            member as nat,
            " differs from its canonical storage type"@,
        ),
        LowerError::PayloadOffset { offset } => filled_one(
            "payload offset "@,
            offset as nat,
            " does not fit in an address computation"@,
        ),
        LowerError::UnexpectedType => "operand or result has an unexpected type"@,
        LowerError::OperandCount { operands, fields } => filled_two(
            "construction expects "@,
            fields as nat,
            " operands, got "@,
            operands as nat,
            ""@,
        ),
        LowerError::BoolCanonicalization => "bool storage has a shape that cannot be made canonical"@,
        LowerError::PayloadCoercion => "payload value cannot be adapted to its storage type"@,
        LowerError::ExtractIndex { slot } => filled_one(
            "value has no field or element "@,
            slot as nat,
            ""@,
        ),
        LowerError::UnsupportedType => "type has no LLVM equivalent"@,
        LowerError::SharedPointerArray => "arrays containing shared-memory pointers are not supported in enum payloads"@,
        LowerError::SharedPointerVector => "vectors of shared-memory pointers are not supported in enum payloads"@,
        LowerError::BoolVector => "vectors of i1 are packed bits in memory"@,
        LowerError::LayoutOverflow => "byte count does not fit in 64 bits"@,
        LowerError::SlotCount { fields } => filled_one(
            "struct of "@,
            fields as nat,
            " fields has more than can be numbered"@,
        ),
        LowerError::SizeUnknown => "type has no size that fits in 64 bits"@,
        LowerError::MemoryOrderLength { entries, fields } => filled_two(
            "memory order has "@,
            entries as nat,
            " entries for "@,
            fields as nat,
            " fields"@,
        ),
        LowerError::MemoryOrderNotPermutation => "memory order is not a permutation of the fields"@,
        LowerError::FieldOffsetCount { offsets, fields } => filled_two(
            ""@,
            offsets as nat,
            " field offsets for "@,
            fields as nat,
            " fields"@,
        ),
        LowerError::UnionAlign { align } => filled_one(
            "union alignment "@,
            align as nat,
            " is not a power of two"@,
        ),
        LowerError::UnionSize { size, align } => filled_two(
            "union size "@,
            size as nat,
            " is not a multiple of its alignment "@,
            align as nat,
            ""@,
        ),
        LowerError::UnionFieldLayout { field } => filled_one(
            "union field "@,
            field as nat,
            " has no LLVM layout"@,
        ),
        LowerError::UnionFieldSize { field, field_size, size } => filled_three(
            "union field "@,
            field as nat,
            " has "@,
            field_size as nat,
            " bytes in a union of "@,
            size as nat,
            ""@,
        ),
        LowerError::UnionFieldAlign { field, field_align, align } => filled_three(
            "union field "@,
            field as nat,
            " aligns to "@,
            field_align as nat,
            " in a union aligned to "@,
            align as nat,
            ""@,
        ),
        LowerError::UnionPointerRepresentations { field } => filled_one(
            "pointer-bearing union field "@,
            field as nat,
            " has different LLVM representations"@,
        ),
        LowerError::UnionPointerCarrier => "union has no byte-faithful pointer carrier"@,
        LowerError::UnionStorageLayout => "union storage has no LLVM layout"@,
        LowerError::EnumUnknownLayout => "enum has an unknown physical rustc layout"@,
        LowerError::EnumSharedCarrier => "shared-memory pointer carrier is target-mode dependent"@,
        LowerError::EnumCarrierWidth { width } => filled_one(
            "integer carrier of "@,
            width as nat,
            " bits is not a whole number of bytes"@,
        ),
        LowerError::EnumCarrierMismatch => "direct carrier is not the declared discriminant type"@,
        LowerError::EnumFieldCount { entries, fields } => filled_two(
            ""@,
            entries as nat,
            " payload offsets or sizes for "@,
            fields as nat,
            " fields"@,
        ),
        LowerError::EnumCarrierPlacement { size, align, offset, total_size } => filled_four(
            "carrier of "@,
            size as nat,
            " bytes aligned to "@,
            align as nat,
            " cannot sit at byte "@,
            offset as nat,
            " of "@,
            total_size as nat,
            ""@,
        ),
        LowerError::EnumFieldLayout { field } => filled_one(
            "payload field "@,
            field as nat,
            " has no LLVM layout"@,
        ),
        LowerError::EnumFieldSize { field, lowered, expected } => filled_three(
            "payload field "@,
            field as nat,
            " lowers to "@,
            lowered as nat,
            " bytes, rustc has "@,
            expected as nat,
            ""@,
        ),
        LowerError::EnumFieldBounds { field, size, offset, total_size } => filled_four(
            "payload field "@,
            field as nat,
            " of "@,
            size as nat,
            " bytes at byte "@,
            offset as nat,
            " ends past "@,
            total_size as nat,
            " bytes"@,
        ),
        LowerError::EnumFieldAlign { field, align, offset } => filled_three(
            "payload field "@,
            field as nat,
            ": offset "@,
            offset as nat,
            " is not aligned to "@,
            align as nat,
            ""@,
        ),
        LowerError::EnumHiddenBool { field } => filled_one(
            "payload field "@,
            field as nat,
            " holds a bool hidden behind a union"@,
        ),
        LowerError::EnumBoolOverlap { field } => filled_one(
            "bool payload field "@,
            field as nat,
            " overlaps storage other than one exact byte"@,
        ),
        LowerError::EnumPointerOverlap { offset } => filled_one(
            "payloads at byte "@,
            offset as nat,
            " overlap without preserving pointer provenance"@,
        ),
        LowerError::EnumNotByteFaithful { field } => filled_one(
            "overlapping payload field "@,
            field as nat,
            " is not byte-faithful"@,
        ),
        LowerError::EnumStorageLayout => "enum storage has no LLVM layout"@,
        LowerError::EnumStorageSize { lowered, expected } => filled_two(
            "enum storage has "@,
            lowered as nat,
            " bytes, rustc has "@,
            expected as nat,
            ""@,
        ),
        LowerError::EnumStorageAlign { lowered, expected } => filled_two(
            "enum storage aligns to "@,
            lowered as nat,
            ", rustc to "@,
            expected as nat,
            ""@,
        ),
        LowerError::InitializedAlign { align } => filled_one(
            "initializer alignment "@,
            align as nat,
            " is not a power of two"@,
        ),
        LowerError::InitializedUnknownEnum => "initialized enum has an unknown physical layout"@,
        LowerError::InitializedLayout => "initialized type has no LLVM layout"@,
        LowerError::InitializedNoSize { lowered } => filled_one(
            "initialized aggregate has no stored size but lowers to "@,
            lowered as nat,
            " bytes"@,
        ),
        LowerError::InitializedNoOffsets => "initialized aggregate has no field offsets"@,
        LowerError::InitializedFieldLayout => "field of an initialized aggregate has no LLVM layout"@,
        LowerError::InitializedFieldOffset { field, lowered, expected } => filled_three(
            "field "@,
            field as nat,
            " lowers at byte "@,
            lowered as nat,
            ", rustc placed it at "@,
            expected as nat,
            ""@,
        ),
        LowerError::InitializedMismatch { size, align, expected_size, expected_align } => filled_four(
            "initialized type lowers to "@,
            size as nat,
            " bytes aligned to "@,
            align as nat,
            ", rustc has "@,
            expected_size as nat,
            " aligned to "@,
            expected_align as nat,
            ""@,
        ),
        LowerError::HexOddLength => "hexadecimal initializer has an odd length"@,
        LowerError::HexDigit { byte } => filled_one(
            "byte "@,
            byte as nat,
            " is no hexadecimal digit"@,
        ),
        LowerError::RelocationsEmpty => "relocation metadata lists no relocation"@,
        LowerError::RelocationWidth { index, width } => filled_two(
            "relocation "@,
            index as nat,
            " uses unsupported "@,
            width as nat,
            "-byte pointer storage"@,
        ),
        LowerError::RelocationSpace { index, space } => filled_two(
            "relocation "@,
            index as nat,
            " targets unsupported address space "@,
            space as nat,
            ""@,
        ),
        LowerError::RelocationTarget { index } => filled_one(
            "relocation "@,
            index as nat,
            " has an empty target key"@,
        ),
        LowerError::RelocationOffset { index, offset } => filled_two(
            "relocation "@,
            index as nat,
            " starts at unaligned byte offset "@,
            offset as nat,
            ""@,
        ),
        LowerError::RelocationAlign { index, align } => filled_two(
            "relocation "@,
            index as nat,
            " needs a wider alignment than "@,
            align as nat,
            ""@,
        ),
        LowerError::RelocationOverlap { index } => filled_one(
            "relocation "@,
            index as nat,
            " overlaps the previous relocation"@,
        ),
        LowerError::RelocationOverflow { index } => filled_one(
            "relocation "@,
            index as nat,
            " offset overflows"@,
        ),
        LowerError::RelocationBounds { index, end, bytes } => filled_three(
            "relocation "@,
            index as nat,
            " ends at byte "@,
            end as nat,
            " of a "@,
            bytes as nat,
            "-byte initializer"@,
        ),
        LowerError::UnionStorageMismatch { storage_size, storage_align, size, align } => filled_four(
            "union storage has "@,
            storage_size as nat,
            " bytes aligned to "@,
            storage_align as nat,
            ", rustc has "@,
            size as nat,
            " aligned to "@,
            align as nat,
            ""@,
        ),
    }
}

impl LowerError {
    /// This refusal in words.
    pub fn message(&self) -> (r: String)
        ensures
            r@ == message_text(*self),
    {
        match *self {
            LowerError::MissingIndex => "missing field or variant index attribute".to_owned(),
            LowerError::NoFieldMapping => "nothing records how field indices map to LLVM slots; refusing to guess".to_owned(),
            LowerError::FieldIndex { member, fields } => fill_two(
                "field index ",
                member as u64,
                " out of bounds for struct with ",
                fields as u64,
                " fields",
            ),
            LowerError::UnionFieldIndex { member } => fill_one(
                "union field index ",
                member as u64,
                " out of bounds",
            ),
            LowerError::IndexNotInteger => "array index must lower to an integer".to_owned(),
            LowerError::GlobalKeyMissing => "global allocation is missing its key".to_owned(),
            LowerError::GlobalTypeMissing => "allocation is missing its type".to_owned(),
            LowerError::SharedSizeMissing => "shared allocation is missing its size".to_owned(),
            LowerError::InitializerAlignMissing => "initialized device global is missing its alignment".to_owned(),
            LowerError::RelocationsWithoutBytes => "device global has relocations but no initializer bytes".to_owned(),
            LowerError::InvalidSymbol => "global key does not make a valid symbol".to_owned(),
            LowerError::SharedIndexOverflow => "no more shared globals can be numbered".to_owned(),
            LowerError::DynamicAlignmentMissing => "dynamic shared memory alignment was not computed".to_owned(),
            LowerError::MemoryOperands { operands, needed } => fill_two(
                "memory operation needs ",
                needed as u64,
                " operands, got ",
                operands as u64,
                "",
            ),
            LowerError::CastOperands { operands } => fill_one(
                "cast needs exactly one operand, got ",
                operands as u64,
                "",
            ),
            LowerError::CastKindMissing => "cast is missing its kind".to_owned(),
            LowerError::CastSourceNotInteger => "cast needs an integer source".to_owned(),
            LowerError::CastTargetNotInteger => "cast needs an integer destination".to_owned(),
            LowerError::CastNotFloat => "cast needs a floating-point type".to_owned(),
            LowerError::TransmuteShared => "transmute of a shared-memory pointer is target-mode dependent".to_owned(),
            LowerError::TransmuteLayout => "transmute source or destination has no known layout".to_owned(),
            LowerError::TransmuteSize { source, target } => fill_two(
                "transmute between ",
                source,
                " and ",
                target,
                " bytes",
            ),
            LowerError::TransmuteNotByteFaithful => "transmute source is not byte-faithful".to_owned(),
            LowerError::TransmuteScalar => "transmute needs scalars with known bits".to_owned(),
            LowerError::VariantUninhabited { variant } => fill_one(
                "variant ",
                variant as u64,
                " is missing or cannot exist",
            ),
            LowerError::VariantDiscriminant { variant } => fill_one(
                "variant ",
                variant as u64,
                " has no declared discriminant",
            ),
            LowerError::VariantNotEncodable { variant } => fill_one(
                "niche layout cannot encode variant ",
                variant as u64,
                "",
            ),
            LowerError::VariantNotSingle { variant } => fill_one(
                "single layout does not hold variant ",
                variant as u64,
                "",
            ),
            LowerError::EnumUninhabited => "enum has no value".to_owned(),
            LowerError::NicheRange => "niche variant range ends before it starts".to_owned(),
            LowerError::NoCarrier => "enum layout has no carrier".to_owned(),
            LowerError::PayloadIndex { variant, payload, fields } => fill_three(
                "payload ",
                payload as u64,
                " of variant ",
                variant as u64,
                " is out of range for ",
                fields as u64,
                " fields",
            ),
            LowerError::PayloadSlot { slot } => fill_one(
                "payload slot ",
                slot as u64,
                " does not exist",
            ),
            LowerError::PayloadAddress { member } => fill_one(
                "payload field ",
                member as u64,
                " differs from its canonical storage type",
            ),
            LowerError::PayloadOffset { offset } => fill_one(
                "payload offset ",
                offset,
                " does not fit in an address computation",
            ),
            LowerError::UnexpectedType => "operand or result has an unexpected type".to_owned(),
            LowerError::OperandCount { operands, fields } => fill_two(
                "construction expects ",
                fields as u64,
                " operands, got ",
                operands as u64,
                "",
            ),
            LowerError::BoolCanonicalization => "bool storage has a shape that cannot be made canonical".to_owned(),
            LowerError::PayloadCoercion => "payload value cannot be adapted to its storage type".to_owned(),
            LowerError::ExtractIndex { slot } => fill_one(
                "value has no field or element ",
                slot as u64,
                "",
            ),
            LowerError::UnsupportedType => "type has no LLVM equivalent".to_owned(),
            LowerError::SharedPointerArray => "arrays containing shared-memory pointers are not supported in enum payloads".to_owned(),
            LowerError::SharedPointerVector => "vectors of shared-memory pointers are not supported in enum payloads".to_owned(),
            LowerError::BoolVector => "vectors of i1 are packed bits in memory".to_owned(),
            LowerError::LayoutOverflow => "byte count does not fit in 64 bits".to_owned(),
            LowerError::SlotCount { fields } => fill_one(
                "struct of ",
                fields as u64,
                " fields has more than can be numbered",
            ),
            LowerError::SizeUnknown => "type has no size that fits in 64 bits".to_owned(),
            LowerError::MemoryOrderLength { entries, fields } => fill_two(
                "memory order has ",
                entries as u64,
                " entries for ",
                fields as u64,
                " fields",
            ),
            LowerError::MemoryOrderNotPermutation => "memory order is not a permutation of the fields".to_owned(),
            LowerError::FieldOffsetCount { offsets, fields } => fill_two(
                "",
                offsets as u64,
                " field offsets for ",
                fields as u64,
                " fields",
            ),
            LowerError::UnionAlign { align } => fill_one(
                "union alignment ",
                align,
                " is not a power of two",
            ),
            LowerError::UnionSize { size, align } => fill_two(
                "union size ",
                size,
                " is not a multiple of its alignment ",
                align,
                "",
            ),
            LowerError::UnionFieldLayout { field } => fill_one(
                "union field ",
                field as u64,
                " has no LLVM layout",
            ),
            LowerError::UnionFieldSize { field, field_size, size } => fill_three(
                "union field ",
                field as u64,
                " has ",
                field_size,
                " bytes in a union of ",
                size,
                "",
            ),
            LowerError::UnionFieldAlign { field, field_align, align } => fill_three(
                "union field ",
                field as u64,
                " aligns to ",
                field_align,
                " in a union aligned to ",
                align,
                "",
            ),
            LowerError::UnionPointerRepresentations { field } => fill_one(
                "pointer-bearing union field ",
                field as u64,
                " has different LLVM representations",
            ),
            LowerError::UnionPointerCarrier => "union has no byte-faithful pointer carrier".to_owned(),
            LowerError::UnionStorageLayout => "union storage has no LLVM layout".to_owned(),
            LowerError::EnumUnknownLayout => "enum has an unknown physical rustc layout".to_owned(),
            LowerError::EnumSharedCarrier => "shared-memory pointer carrier is target-mode dependent".to_owned(),
            LowerError::EnumCarrierWidth { width } => fill_one(
                "integer carrier of ",
                width as u64,
                " bits is not a whole number of bytes",
            ),
            LowerError::EnumCarrierMismatch => "direct carrier is not the declared discriminant type".to_owned(),
            LowerError::EnumFieldCount { entries, fields } => fill_two(
                "",
                entries as u64,
                " payload offsets or sizes for ",
                fields as u64,
                " fields",
            ),
            LowerError::EnumCarrierPlacement { size, align, offset, total_size } => fill_four(
                "carrier of ",
                size,
                " bytes aligned to ",
                align,
                " cannot sit at byte ",
                offset,
                " of ",
                total_size,
                "",
            ),
            LowerError::EnumFieldLayout { field } => fill_one(
                "payload field ",
                field as u64,
                " has no LLVM layout",
            ),
            LowerError::EnumFieldSize { field, lowered, expected } => fill_three(
                "payload field ",
                field as u64,
                " lowers to ",
                lowered,
                " bytes, rustc has ",
                expected,
                "",
            ),
            LowerError::EnumFieldBounds { field, size, offset, total_size } => fill_four(
                "payload field ",
                field as u64,
                " of ",
                size,
                " bytes at byte ",
                offset,
                " ends past ",
                total_size,
                " bytes",
            ),
            LowerError::EnumFieldAlign { field, align, offset } => fill_three(
                "payload field ",
                field as u64,
                ": offset ",
                offset,
                " is not aligned to ",
                align,
                "",
            ),
            LowerError::EnumHiddenBool { field } => fill_one(
                "payload field ",
                field as u64,
                " holds a bool hidden behind a union",
            ),
            LowerError::EnumBoolOverlap { field } => fill_one(
                "bool payload field ",
                field as u64,
                " overlaps storage other than one exact byte",
            ),
            LowerError::EnumPointerOverlap { offset } => fill_one(
                "payloads at byte ",
                offset,
                " overlap without preserving pointer provenance",
            ),
            LowerError::EnumNotByteFaithful { field } => fill_one(
                "overlapping payload field ",
                field as u64,
                " is not byte-faithful",
            ),
            LowerError::EnumStorageLayout => "enum storage has no LLVM layout".to_owned(),
            LowerError::EnumStorageSize { lowered, expected } => fill_two(
                "enum storage has ",
                lowered,
                " bytes, rustc has ",
                expected,
                "",
            ),
            LowerError::EnumStorageAlign { lowered, expected } => fill_two(
                "enum storage aligns to ",
                lowered,
                ", rustc to ",
                expected,
                "",
            ),
            LowerError::InitializedAlign { align } => fill_one(
                "initializer alignment ",
                align,
                " is not a power of two",
            ),
            LowerError::InitializedUnknownEnum => "initialized enum has an unknown physical layout".to_owned(),
            LowerError::InitializedLayout => "initialized type has no LLVM layout".to_owned(),
            LowerError::InitializedNoSize { lowered } => fill_one(
                "initialized aggregate has no stored size but lowers to ",
                lowered,
                " bytes",
            ),
            LowerError::InitializedNoOffsets => "initialized aggregate has no field offsets".to_owned(),
            LowerError::InitializedFieldLayout => "field of an initialized aggregate has no LLVM layout".to_owned(),
            LowerError::InitializedFieldOffset { field, lowered, expected } => fill_three(
                "field ",
                field as u64,
                " lowers at byte ",
                lowered,
                ", rustc placed it at ",
                expected,
                "",
            ),
            LowerError::InitializedMismatch { size, align, expected_size, expected_align } => fill_four(
                "initialized type lowers to ",
                size,
                " bytes aligned to ",
                align,
                ", rustc has ",
                expected_size,
                " aligned to ",
                expected_align,
                "",
            ),
            LowerError::HexOddLength => "hexadecimal initializer has an odd length".to_owned(),
            LowerError::HexDigit { byte } => fill_one(
                "byte ",
                byte as u64,
                " is no hexadecimal digit",
            ),
            LowerError::RelocationsEmpty => "relocation metadata lists no relocation".to_owned(),
            LowerError::RelocationWidth { index, width } => fill_two(
                "relocation ",
                index as u64,
                " uses unsupported ",
                width as u64,
                "-byte pointer storage",
            ),
            LowerError::RelocationSpace { index, space } => fill_two(
                "relocation ",
                index as u64,
                " targets unsupported address space ",
                space as u64,
                "",
            ),
            LowerError::RelocationTarget { index } => fill_one(
                "relocation ",
                index as u64,
                " has an empty target key",
            ),
            LowerError::RelocationOffset { index, offset } => fill_two(
                "relocation ",
                index as u64,
                " starts at unaligned byte offset ",
                offset,
                "",
            ),
            LowerError::RelocationAlign { index, align } => fill_two(
                "relocation ",
                index as u64,
                " needs a wider alignment than ",
                align,
                "",
            ),
            LowerError::RelocationOverlap { index } => fill_one(
                "relocation ",
                index as u64,
                " overlaps the previous relocation",
            ),
            LowerError::RelocationOverflow { index } => fill_one(
                "relocation ",
                index as u64,
                " offset overflows",
            ),
            LowerError::RelocationBounds { index, end, bytes } => fill_three(
                "relocation ",
                index as u64,
                " ends at byte ",
                end,
                " of a ",
                bytes,
                "-byte initializer",
            ),
            LowerError::UnionStorageMismatch { storage_size, storage_align, size, align } => fill_four(
                "union storage has ",
                storage_size,
                " bytes aligned to ",
                storage_align,
                ", rustc has ",
                size,
                " aligned to ",
                align,
                "",
            ),
        }
    }
}

} // verus!
