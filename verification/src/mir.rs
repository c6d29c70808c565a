//! Rust-level types with the byte layout that rustc chose for them.

use vstd::prelude::*;

verus! {

/// Sign of an integer type.
#[derive(Clone, Copy, Debug, PartialEq, Eq, Structural)]
pub enum Signedness {
    Signed,
    Unsigned,
    Signless,
}

/// How an enum tells its variants apart in memory.
#[derive(Clone, Copy, Debug, PartialEq, Eq, Structural)]
pub enum EnumLayoutKind {
    /// The layout was not recorded.
    Unknown,
    /// A tag holds the declared discriminant.
    Direct,
    /// Unused values of a payload field stand for the other variants.
    Niche,
    /// Only one variant can exist.
    Single,
    /// No variant can exist.
    Empty,
}

/// The physical type of an enum's tag or niche field.
#[derive(Clone, Copy, Debug, PartialEq, Eq, Structural)]
pub enum EnumCarrierKind {
    /// The enum has no tag in memory.
    Absent,
    Integer,
    Pointer,
}

/// A Rust-level type.
#[derive(Debug, PartialEq, Eq)]
pub enum MirType {
    /// An integer of the given width; `bool` is an integer of width one.
    Integer(u32, Signedness),
    /// `f16`.
    Fp16,
    /// `f32`.
    Fp32,
    /// `f64`.
    Fp64,
    /// A thin pointer or reference.
    Ptr(MirPtrType),
    /// A slice fat pointer.
    Slice(Box<MirType>),
    /// A slice of uniquely owned elements, with the runtime layout fields of
    /// its index space.
    DisjointSlice(MirDisjointSliceType),
    /// A fixed array.
    Array(Box<MirType>, u64),
    /// A vector, fixed or scalable.
    Vector(Box<MirType>, u32, bool),
    Tuple(MirTupleType),
    Struct(MirStructType),
    Union(MirUnionType),
    Enum(MirEnumType),
    /// The type that encloses this one so many levels out: how a recursive type
    /// names itself behind a pointer or a slice. A type that held itself in place
    /// would have no size.
    Enclosing(u32),
    /// A type that has no LLVM equivalent.
    Opaque,
}

/// A thin pointer type.
#[derive(Debug, PartialEq, Eq)]
pub struct MirPtrType {
    pub pointee: Box<MirType>,
    pub mutable: bool,
    pub address_space: u32,
}

/// The type of a slice of uniquely owned elements.
#[derive(Debug, PartialEq, Eq)]
pub struct MirDisjointSliceType {
    pub element_ty: Box<MirType>,
    /// Runtime layout fields that the index space carries.
    pub space_tys: Vec<MirType>,
}

/// A tuple type.
#[derive(Debug, PartialEq, Eq)]
pub struct MirTupleType {
    pub types: Vec<MirType>,
    /// Declaration index of each field in memory order; empty when that is
    /// declaration order.
    pub mem_to_decl: Vec<usize>,
    /// Byte offset of each field in declaration order; empty when unknown.
    pub field_offsets: Vec<u64>,
    /// Size in bytes; zero when unknown.
    pub total_size: u64,
    /// Alignment in bytes; zero when unknown.
    pub abi_align: u64,
}

/// A struct type.
#[derive(Debug, PartialEq, Eq)]
pub struct MirStructType {
    pub name: String,
    pub field_names: Vec<String>,
    pub field_types: Vec<MirType>,
    /// Declaration index of each field in memory order; empty when that is
    /// declaration order.
    pub mem_to_decl: Vec<usize>,
    /// Byte offset of each field in declaration order; empty when unknown.
    pub field_offsets: Vec<u64>,
    /// Size in bytes; zero when unknown.
    pub total_size: u64,
    /// Alignment in bytes; zero when unknown.
    pub abi_align: u64,
}

/// A union type; every field starts at byte zero.
#[derive(Debug, PartialEq, Eq)]
pub struct MirUnionType {
    pub name: String,
    pub field_names: Vec<String>,
    pub field_types: Vec<MirType>,
    pub total_size: u64,
    pub abi_align: u64,
}

/// An enum type. Payload fields of all variants stand in one flat list.
#[derive(Debug, PartialEq, Eq)]
pub struct MirEnumType {
    pub name: String,
    pub discriminant_ty: Box<MirType>,
    pub variant_names: Vec<String>,
    /// Declared discriminant of each variant, as a bit pattern.
    pub variant_discriminants: Vec<u64>,
    /// Number of payload fields of each variant.
    pub variant_field_counts: Vec<u32>,
    pub all_field_types: Vec<MirType>,
    pub all_field_offsets: Vec<u64>,
    pub all_field_sizes: Vec<u64>,
    pub encoding: EnumEncoding,
}

/// The physical layout of an enum.
#[derive(Debug, PartialEq, Eq)]
pub struct EnumEncoding {
    /// Byte offset of the tag or niche field.
    pub tag_offset: u64,
    pub total_size: u64,
    pub abi_align: u64,
    pub layout_kind: EnumLayoutKind,
    pub carrier_kind: EnumCarrierKind,
    /// Width of the carrier in bits.
    pub carrier_width: u32,
    pub carrier_address_space: u32,
    /// Carrier value of the first niche variant.
    pub niche_start: u128,
    /// First variant that the niche encodes.
    pub niche_variant_start: u32,
    /// Last variant that the niche encodes.
    pub niche_variant_end: u32,
    /// The variant whose payload holds the niche.
    pub untagged_variant: u32,
    /// The one variant of a `Single` layout.
    pub single_variant: u32,
    /// Non-zero for each variant that can exist.
    pub variant_inhabited: Vec<u8>,
}

impl Default for EnumEncoding {
    fn default() -> (r: EnumEncoding)
        ensures
            r.tag_offset == 0 && r.total_size == 0 && r.abi_align == 0,
            r.layout_kind == EnumLayoutKind::Unknown,
            r.carrier_kind == EnumCarrierKind::Absent,
            r.carrier_width == 0 && r.carrier_address_space == 0,
            r.niche_start == 0 && r.niche_variant_start == 0 && r.niche_variant_end == 0,
            r.untagged_variant == 0 && r.single_variant == 0,
            r.variant_inhabited@.len() == 0,
    {
        EnumEncoding {
            tag_offset: 0,
            total_size: 0,
            abi_align: 0,
            layout_kind: EnumLayoutKind::Unknown,
            carrier_kind: EnumCarrierKind::Absent,
            carrier_width: 0,
            carrier_address_space: 0,
            niche_start: 0,
            niche_variant_start: 0,
            niche_variant_end: 0,
            untagged_variant: 0,
            single_variant: 0,
            variant_inhabited: Vec::new(),
        }
    }
}

/// Declaration indices in memory order: `order` itself, or declaration order
/// where it is empty.
pub open spec fn memory_order(order: Seq<usize>, fields: nat) -> Seq<usize> {
    if order.len() == 0 {
        Seq::new(fields, |i: int| i as usize)
    } else {
        order
    }
}

/// Declaration indices in memory order.
pub fn expand_memory_order(order: &Vec<usize>, fields: usize) -> (r: Vec<usize>)
    ensures
        r@ == memory_order(order@, fields as nat),
{
    let mut out: Vec<usize> = Vec::new();
    if order.len() == 0 {
        for i in 0..fields
            invariant
                out@.len() == i,
                forall|j: int| 0 <= j < i ==> out@[j] == j,
        {
            out.push(i);
        }
    } else {
        for i in 0..order.len()
            invariant
                out@ == order@.take(i as int),
        {
            out.push(order[i]);
            assert(out@ =~= order@.take(i + 1));
        }
    }
    assert(out@ =~= memory_order(order@, fields as nat));
    out
}

impl MirEnumType {
    /// Number of declared variants.
    pub open spec fn spec_variant_count(self) -> nat {
        self.variant_names@.len()
    }

    /// Whether variant `variant` is declared and can exist.
    pub open spec fn inhabited(self, variant: int) -> bool {
        0 <= variant < self.encoding.variant_inhabited@.len()
            && self.encoding.variant_inhabited@[variant] != 0
    }

    /// Number of declared variants.
    pub fn variant_count(&self) -> (r: usize)
        ensures
            r == self.spec_variant_count(),
    {
        self.variant_names.len()
    }

    /// Whether a variant can exist; nothing for a variant without an entry.
    pub fn variant_is_inhabited(&self, variant: usize) -> (r: Option<bool>)
        ensures
            r is Some <==> variant < self.encoding.variant_inhabited@.len(),
            r is Some ==> r->Some_0 == self.inhabited(variant as int),
    {
        if variant < self.encoding.variant_inhabited.len() {
            Some(self.encoding.variant_inhabited[variant] != 0)
        } else {
            None
        }
    }
}

} // verus!
