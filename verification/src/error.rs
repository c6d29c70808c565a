//! Why a type or an operation cannot be lowered.

use vstd::prelude::*;

verus! {

/// A reason for refusing to lower something.
///
/// Lowering never guesses: where it cannot prove that the device would see the
/// bytes that the host wrote, it returns one of these.
#[derive(Clone, Copy, Debug, PartialEq, Eq, Structural)]
pub enum LowerError {
    /// An operation lacks the attribute that names its field or variant.
    MissingIndex,
    /// Nothing says how field indices of an aggregate map to LLVM slots.
    NoFieldMapping,
    /// A field index is out of bounds.
    FieldIndex { member: u32, fields: usize },
    /// A union field index is out of bounds.
    UnionFieldIndex { member: u32 },
    /// An array index does not lower to an integer.
    IndexNotInteger,
    /// A global allocation lacks its key.
    GlobalKeyMissing,
    /// An allocation lacks its type.
    GlobalTypeMissing,
    /// A shared allocation lacks its size.
    SharedSizeMissing,
    /// An initializer comes without the alignment of its allocation.
    InitializerAlignMissing,
    /// Relocations come without initializer bytes.
    RelocationsWithoutBytes,
    /// A global's key does not make a valid symbol.
    InvalidSymbol,
    /// No more shared globals can be numbered.
    SharedIndexOverflow,
    /// The alignment of a function's dynamic shared memory was not computed.
    DynamicAlignmentMissing,
    /// A memory operation has the wrong number of operands.
    MemoryOperands { operands: usize, needed: usize },
    /// A cast does not have exactly one operand.
    CastOperands { operands: usize },
    /// A cast lacks its kind.
    CastKindMissing,
    /// A cast needs an integer source.
    CastSourceNotInteger,
    /// A cast needs an integer destination.
    CastTargetNotInteger,
    /// A cast needs a floating-point type.
    CastNotFloat,
    /// A transmute involves a shared-memory pointer, whose size depends on the
    /// target mode.
    TransmuteShared,
    /// A transmute's source or destination has no layout.
    TransmuteLayout,
    /// A transmute's source and destination have different sizes.
    TransmuteSize { source: u64, target: u64 },
    /// A transmute would expose bytes that its source leaves undefined.
    TransmuteNotByteFaithful,
    /// A transmute's source or destination is not a scalar with known bits.
    TransmuteScalar,
    /// A variant is missing or cannot exist.
    VariantUninhabited { variant: usize },
    /// A variant has no declared discriminant.
    VariantDiscriminant { variant: usize },
    /// A niche layout cannot encode a variant.
    VariantNotEncodable { variant: usize },
    /// A variant is not the one variant that a `Single` layout holds.
    VariantNotSingle { variant: usize },
    /// No value of an enum can exist.
    EnumUninhabited,
    /// A niche layout ends its variant range before it starts.
    NicheRange,
    /// An enum operation needs a carrier that the layout does not have.
    NoCarrier,
    /// A payload field index is out of range.
    PayloadIndex { variant: usize, payload: usize, fields: usize },
    /// A payload slot is not a field of the enum's storage.
    PayloadSlot { slot: u32 },
    /// The storage of a payload differs from its own type, so its address
    /// cannot be handed out.
    PayloadAddress { member: u32 },
    /// A payload's byte offset does not fit in an address computation.
    PayloadOffset { offset: u64 },
    /// An operation's result or operand does not have the type it needs.
    UnexpectedType,
    /// An operation has a different number of operands than its type has
    /// fields.
    OperandCount { operands: usize, fields: usize },
    /// A value with `bool` storage has a shape that cannot be made canonical.
    BoolCanonicalization,
    /// An enum payload value cannot be adapted to its storage type or back.
    PayloadCoercion,
    /// A value is not an aggregate with the field or element asked for.
    ExtractIndex { slot: u32 },
    /// A type has no LLVM equivalent.
    UnsupportedType,
    /// An enum payload holds an array of shared-memory pointers.
    SharedPointerArray,
    /// An enum payload holds a vector of shared-memory pointers.
    SharedPointerVector,
    /// An enum payload holds a vector of `i1`, which memory packs into bits.
    BoolVector,
    /// A byte count does not fit in 64 bits.
    LayoutOverflow,
    /// A struct has more fields than slots can be numbered.
    SlotCount { fields: usize },
    /// A type has no size in bytes, or one that does not fit in 64 bits.
    SizeUnknown,
    /// A struct's memory order has a different number of entries than fields.
    MemoryOrderLength { entries: usize, fields: usize },
    /// A struct's memory order is not a permutation of its fields.
    MemoryOrderNotPermutation,
    /// A struct has a different number of field offsets than fields.
    FieldOffsetCount { offsets: usize, fields: usize },
    /// A union's alignment is not a power of two.
    UnionAlign { align: u64 },
    /// A union's size is not a multiple of its alignment.
    UnionSize { size: u64, align: u64 },
    /// A union field has no LLVM layout.
    UnionFieldLayout { field: usize },
    /// A union field is larger than the union.
    UnionFieldSize { field: usize, field_size: u64, size: u64 },
    /// A union field needs a wider alignment than the union has.
    UnionFieldAlign { field: usize, field_align: u64, align: u64 },
    /// Pointer-bearing fields of a union have different LLVM representations.
    UnionPointerRepresentations { field: usize },
    /// No pointer-bearing field of a union is byte-faithful; raw bytes would
    /// discard pointer provenance.
    UnionPointerCarrier,
    /// A union's storage has no LLVM layout.
    UnionStorageLayout,
    /// An enum's physical layout is unknown.
    EnumUnknownLayout,
    /// An enum's carrier is a shared-memory pointer, whose size depends on the
    /// target mode.
    EnumSharedCarrier,
    /// An enum's integer carrier is not a whole number of bytes.
    EnumCarrierWidth { width: u32 },
    /// An enum's direct carrier is not the declared discriminant type.
    EnumCarrierMismatch,
    /// An enum has a different number of field offsets or sizes than fields.
    EnumFieldCount { entries: usize, fields: usize },
    /// An enum's carrier cannot sit at its byte.
    EnumCarrierPlacement { size: u64, align: u64, offset: u64, total_size: u64 },
    /// An enum payload field has no LLVM layout.
    EnumFieldLayout { field: usize },
    /// An enum payload field does not lower to the size that rustc gave it.
    EnumFieldSize { field: usize, lowered: u64, expected: u64 },
    /// An enum payload field reaches past the end of the enum.
    EnumFieldBounds { field: usize, size: u64, offset: u64, total_size: u64 },
    /// An enum payload field is not aligned; packed payloads are not supported.
    EnumFieldAlign { field: usize, align: u64, offset: u64 },
    /// An enum payload field holds a `bool` hidden behind a union.
    EnumHiddenBool { field: usize },
    /// A `bool` payload overlaps storage other than one exact byte.
    EnumBoolOverlap { field: usize },
    /// Payloads overlap in a way that would erase pointer provenance.
    EnumPointerOverlap { offset: u64 },
    /// Overlapping payloads of different types are not all byte-faithful.
    EnumNotByteFaithful { field: usize },
    /// An enum's storage has no LLVM layout.
    EnumStorageLayout,
    /// An enum's storage does not have the size that rustc gave the enum.
    EnumStorageSize { lowered: u64, expected: u64 },
    /// An enum's storage aligns wider than the enum.
    EnumStorageAlign { lowered: u64, expected: u64 },
    /// An initialized global's alignment is not a power of two.
    InitializedAlign { align: u64 },
    /// An initialized global holds an enum with an unknown layout.
    InitializedUnknownEnum,
    /// An initialized aggregate has no LLVM layout.
    InitializedLayout,
    /// An initialized aggregate has no stored size but lowers to some bytes.
    InitializedNoSize { lowered: u64 },
    /// An initialized aggregate has no field offsets.
    InitializedNoOffsets,
    /// A field of an initialized aggregate has no LLVM layout.
    InitializedFieldLayout,
    /// A field of an initialized aggregate lowers at another byte than rustc
    /// placed it.
    InitializedFieldOffset { field: usize, lowered: u64, expected: u64 },
    /// An initialized type lowers to another size, or aligns wider, than rustc
    /// says.
    InitializedMismatch { size: u64, align: u64, expected_size: u64, expected_align: u64 },
    /// A hexadecimal initializer has an odd number of digits.
    HexOddLength,
    /// A hexadecimal initializer holds something else than a digit.
    HexDigit { byte: u8 },
    /// Relocation metadata lists no relocation.
    RelocationsEmpty,
    /// A relocation is not eight bytes wide.
    RelocationWidth { index: usize, width: u32 },
    /// A relocation targets neither global nor constant memory.
    RelocationSpace { index: usize, space: u32 },
    /// A relocation names no target.
    RelocationTarget { index: usize },
    /// A relocation does not start at a multiple of eight bytes.
    RelocationOffset { index: usize, offset: u64 },
    /// The allocation aligns too narrowly for a pointer.
    RelocationAlign { index: usize, align: u64 },
    /// A relocation overlaps the one before it.
    RelocationOverlap { index: usize },
    /// A relocation's end does not fit in 64 bits.
    RelocationOverflow { index: usize },
    /// A relocation reaches past the end of the initializer.
    RelocationBounds { index: usize, end: u64, bytes: u64 },
    /// A union's storage does not have the union's size, or aligns wider.
    UnionStorageMismatch { storage_size: u64, storage_align: u64, size: u64, align: u64 },
}

} // verus!
