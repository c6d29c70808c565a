//! Initializer bytes of device globals, and the storage that keeps their
//! pointers visible to the linker.

use crate::error::LowerError;
use crate::layout::{
    field_at, lemma_push_at_end, lemma_push_keeps_field, prefix_extent, size_align, size_aligns,
};
use crate::llvm::{shapes, LlvmShape, LlvmType, CONSTANT, GLOBAL};
use crate::sort::{lemma_sorted_positions, sort_positions, sorted_positions};
use crate::struct_slots::{lemma_padding_layout, make_padding_type, padding};
use vstd::prelude::*;
use vstd::string::StringSliceAdditionalSpecFns;

verus! {

/// Whether `b` is an ASCII hexadecimal digit.
pub open spec fn is_hex_digit(b: u8) -> bool {
    (0x30 <= b && b <= 0x39) || (0x41 <= b && b <= 0x46) || (0x61 <= b && b <= 0x66)
}

/// The first byte of `hex` from `from` on that is not a hexadecimal digit.
pub open spec fn first_non_digit(hex: Seq<u8>, from: int) -> Option<u8>
    decreases hex.len() - from,
{
    if from < 0 || from >= hex.len() {
        None
    } else if !is_hex_digit(hex[from]) {
        Some(hex[from])
    } else {
        first_non_digit(hex, from + 1)
    }
}

/// How many bytes a hexadecimal string stands for.
pub open spec fn hex_bytes(hex: Seq<u8>) -> Result<u64, LowerError> {
    if hex.len() % 2 != 0 {
        Err(LowerError::HexOddLength)
    } else {
        match first_non_digit(hex, 0) {
            Some(byte) => Err(LowerError::HexDigit { byte }),
            None => Ok((hex.len() / 2) as u64),
        }
    }
}

/// Counts the bytes that a hexadecimal initializer stands for.
pub fn initializer_hex_byte_count(hex: &str) -> (r: Result<u64, LowerError>)
    ensures
        r == hex_bytes(hex.spec_bytes()),
{
    let bytes = hex.as_bytes();
    let n: usize = bytes.len();
    if n % 2 != 0 {
        return Err(LowerError::HexOddLength);
    }
    for i in 0..n
        invariant
            n == bytes@.len(),
            n % 2 == 0,
            bytes@ == hex.spec_bytes(),
            first_non_digit(bytes@, 0) == first_non_digit(bytes@, i as int),
    {
        let b: u8 = bytes[i];
        let digit: bool = (0x30 <= b && b <= 0x39) || (0x41 <= b && b <= 0x46) || (0x61 <= b && b
            <= 0x66);
        if !digit {
            return Err(LowerError::HexDigit { byte: b });
        }
    }
    Ok((n / 2) as u64)
}

/// A pointer inside an initializer that the linker fills in.
#[derive(Debug, PartialEq, Eq)]
pub struct Relocation {
    /// Byte of the initializer at which the pointer starts.
    pub source_offset: u64,
    pub width_bytes: u32,
    pub target_address_space: u32,
    /// Byte of the target that the pointer points to.
    pub target_addend: u64,
    /// Key of the global that the pointer points to.
    pub target_key: String,
}

/// The initializer covered so far: fields and the byte they reach.
pub ghost struct Segments {
    pub fields: Seq<LlvmShape>,
    pub cursor: u64,
}

/// The segments after one relocation, the `index`-th in byte order.
pub open spec fn add_relocation(
    past: Segments,
    relocation: Relocation,
    index: usize,
    bytes: u64,
    align: u64,
) -> Result<Segments, LowerError> {
    let offset = relocation.source_offset;
    if relocation.width_bytes != 8 {
        Err(LowerError::RelocationWidth { index, width: relocation.width_bytes })
    } else if relocation.target_address_space != GLOBAL && relocation.target_address_space
        != CONSTANT {
        Err(LowerError::RelocationSpace { index, space: relocation.target_address_space })
    } else if relocation.target_key@.len() == 0 {
        Err(LowerError::RelocationTarget { index })
    } else if offset % 8 != 0 {
        Err(LowerError::RelocationOffset { index, offset })
    } else if align < 8 {
        Err(LowerError::RelocationAlign { index, align })
    } else if offset < past.cursor {
        Err(LowerError::RelocationOverlap { index })
    } else if offset + 8 > u64::MAX {
        Err(LowerError::RelocationOverflow { index })
    } else if offset + 8 > bytes {
        Err(LowerError::RelocationBounds { index, end: (offset + 8) as u64, bytes })
    } else {
        let before = if offset > past.cursor {
            past.fields.push(padding(offset - past.cursor))
        } else {
            past.fields
        };
        Ok(
            Segments {
                fields: before.push(LlvmShape::Integer(64)),
                cursor: (offset + 8) as u64,
            },
        )
    }
}

/// The segments after the first `k` relocations of `order`.
pub open spec fn add_relocations(
    relocations: Seq<Relocation>,
    order: Seq<usize>,
    bytes: u64,
    align: u64,
    k: int,
) -> Result<Segments, LowerError>
    decreases k,
{
    if k <= 0 {
        Ok(Segments { fields: Seq::empty(), cursor: 0 })
    } else {
        match add_relocations(relocations, order, bytes, align, k - 1) {
            Err(error) => Err(error),
            Ok(past) => add_relocation(
                past,
                relocations[order[k - 1] as int],
                (k - 1) as usize,
                bytes,
                align,
            ),
        }
    }
}

/// The sort keys of relocations: their byte offsets.
pub open spec fn relocation_keys(relocations: Seq<Relocation>) -> Seq<(u64, bool)> {
    Seq::new(relocations.len(), |i: int| (relocations[i].source_offset, false))
}

/// The fields of the storage of an initializer with relocations: bytes between
/// pointers, and an integer for each pointer.
pub open spec fn relocated_fields(relocations: Seq<Relocation>, bytes: u64, align: u64) -> Result<
    Seq<LlvmShape>,
    LowerError,
> {
    if relocations.len() == 0 {
        Err(LowerError::RelocationsEmpty)
    } else {
        match add_relocations(
            relocations,
            sorted_positions(relocation_keys(relocations)),
            bytes,
            align,
            relocations.len() as int,
        ) {
            Err(error) => Err(error),
            Ok(all) => if all.cursor < bytes {
                Ok(all.fields.push(padding(bytes - all.cursor)))
            } else {
                Ok(all.fields)
            },
        }
    }
}

proof fn lemma_relocation_error(
    relocations: Seq<Relocation>,
    order: Seq<usize>,
    bytes: u64,
    align: u64,
    k: int,
    n: int,
)
    requires
        0 <= k <= n,
        add_relocations(relocations, order, bytes, align, k) is Err,
    ensures
        add_relocations(relocations, order, bytes, align, n) == add_relocations(
            relocations,
            order,
            bytes,
            align,
            k,
        ),
    decreases n - k,
{
    if k < n {
        lemma_relocation_error(relocations, order, bytes, align, k + 1, n);
    }
}

/// Storage for an initializer with relocations.
///
/// Literal spans stay byte arrays and each pointer becomes a 64-bit integer,
/// which keeps the bytes exact and the pointers visible to the linker.
pub fn relocated_initializer_storage_type(
    byte_count: u64,
    allocation_alignment: u64,
    relocations: &Vec<Relocation>,
) -> (r: Result<LlvmType, LowerError>)
    ensures
        match r {
            Ok(ty) => {
                &&& relocated_fields(relocations@, byte_count, allocation_alignment) is Ok
                &&& ty@ == LlvmShape::Struct(
                    relocated_fields(relocations@, byte_count, allocation_alignment)->Ok_0,
                )
            },
            Err(error) => relocated_fields(relocations@, byte_count, allocation_alignment)
                == Err::<Seq<LlvmShape>, LowerError>(error),
        },
{
    let n: usize = relocations.len();
    if n == 0 {
        return Err(LowerError::RelocationsEmpty);
    }
    let mut keys: Vec<(u64, bool)> = Vec::new();
    for i in 0..n
        invariant
            n == relocations@.len(),
            keys@.len() == i,
            forall|j: int|
                0 <= j < i ==> #[trigger] keys@[j] == (relocations@[j].source_offset, false),
    {
        keys.push((relocations[i].source_offset, false));
    }
    assert(keys@ =~= relocation_keys(relocations@));
    let order = sort_positions(&keys);
    proof {
        lemma_sorted_positions(keys@);
    }
    let mut cursor: u64 = 0;
    let mut fields: Vec<LlvmType> = Vec::new();
    assert(shapes(fields@) =~= Seq::empty());
    for i in 0..n
        invariant
            n == relocations@.len(),
            n == order@.len(),
            n > 0,
            order@ == sorted_positions(relocation_keys(relocations@)),
            forall|p: int| 0 <= p < n ==> #[trigger] order@[p] < n,
            cursor <= byte_count,
            add_relocations(relocations@, order@, byte_count, allocation_alignment, i as int)
                == Ok::<Segments, LowerError>(Segments { fields: shapes(fields@), cursor }),
    {
        proof {
            if add_relocations(relocations@, order@, byte_count, allocation_alignment, i + 1)
                is Err {
                lemma_relocation_error(
                    relocations@,
                    order@,
                    byte_count,
                    allocation_alignment,
                    i + 1,
                    n as int,
                );
            }
        }
        let relocation = &relocations[order[i]];
        let offset: u64 = relocation.source_offset;
        if relocation.width_bytes != 8 {
            return Err(LowerError::RelocationWidth { index: i, width: relocation.width_bytes });
        }
        if relocation.target_address_space != GLOBAL && relocation.target_address_space
            != CONSTANT {
            return Err(
                LowerError::RelocationSpace { index: i, space: relocation.target_address_space },
            );
        }
        if relocation.target_key.as_str().is_empty() {
            return Err(LowerError::RelocationTarget { index: i });
        }
        if offset % 8 != 0 {
            return Err(LowerError::RelocationOffset { index: i, offset });
        }
        if allocation_alignment < 8 {
            return Err(LowerError::RelocationAlign { index: i, align: allocation_alignment });
        }
        if offset < cursor {
            return Err(LowerError::RelocationOverlap { index: i });
        }
        let end: u64 = match offset.checked_add(8) {
            None => {
                return Err(LowerError::RelocationOverflow { index: i });
            },
            Some(end) => end,
        };
        if end > byte_count {
            return Err(LowerError::RelocationBounds { index: i, end, bytes: byte_count });
        }
        if offset > cursor {
            let pad = make_padding_type(offset - cursor);
            let ghost before = fields@;
            fields.push(pad);
            assert(shapes(fields@) =~= shapes(before).push(pad@));
        }
        let ghost before = fields@;
        fields.push(LlvmType::integer(64));
        assert(shapes(fields@) =~= shapes(before).push(LlvmShape::Integer(64)));
        cursor = end;
    }
    if cursor < byte_count {
        let pad = make_padding_type(byte_count - cursor);
        let ghost before = fields@;
        fields.push(pad);
        assert(shapes(fields@) =~= shapes(before).push(pad@));
    }
    Ok(LlvmType::structure(fields))
}

/// Whether some field of a struct over `fields` is a 64-bit integer at byte
/// `offset`.
pub open spec fn pointer_slot_at(fields: Seq<LlvmShape>, offset: u64) -> bool {
    exists|slot: int| #[trigger]
        field_at(fields, slot, LlvmShape::Integer(64), offset as int)
}

proof fn lemma_relocations_placed(
    relocations: Seq<Relocation>,
    order: Seq<usize>,
    bytes: u64,
    align: u64,
    k: int,
)
    requires
        0 <= k <= order.len(),
        add_relocations(relocations, order, bytes, align, k) is Ok,
    ensures
        ({
            let s = add_relocations(relocations, order, bytes, align, k)->Ok_0;
            let extent = prefix_extent(size_aligns(s.fields), s.fields.len() as int);
            &&& s.cursor <= bytes
            &&& extent is Some
            &&& extent->Some_0.0 == s.cursor
            &&& forall|q: int|
                0 <= q < k ==> pointer_slot_at(
                    s.fields,
                    relocations[#[trigger] order[q] as int].source_offset,
                )
        }),
    decreases k,
{
    if k > 0 {
        lemma_relocations_placed(relocations, order, bytes, align, k - 1);
        let past = add_relocations(relocations, order, bytes, align, k - 1)->Ok_0;
        let s = add_relocations(relocations, order, bytes, align, k)->Ok_0;
        let offset = relocations[order[k - 1] as int].source_offset;
        let word = LlvmShape::Integer(64);
        let gap = offset > past.cursor;
        let pad = padding(offset - past.cursor);
        let before = if gap {
            past.fields.push(pad)
        } else {
            past.fields
        };
        assert(size_align(word) == Some((8u64, 8u64)));
        if gap {
            lemma_padding_layout(offset - past.cursor);
            assert(past.cursor as int % 1 == 0);
            lemma_push_at_end(past.fields, pad, past.cursor);
        }
        lemma_push_at_end(before, word, offset);
        assert(s.fields == before.push(word));
        assert forall|q: int| 0 <= q < k implies pointer_slot_at(
            s.fields,
            relocations[#[trigger] order[q] as int].source_offset,
        ) by {
            let o = relocations[order[q] as int].source_offset;
            if q < k - 1 {
                let slot = choose|slot: int| #[trigger]
                    field_at(past.fields, slot, word, o as int);
                if gap {
                    lemma_push_keeps_field(past.fields, pad, slot, word, o as int);
                }
                lemma_push_keeps_field(before, word, slot, word, o as int);
            } else {
                assert(field_at(s.fields, before.len() as int, word, o as int));
            }
        }
    }
}

/// Relocated storage covers exactly the initializer's bytes, with a pointer
/// slot at the byte of every relocation.
pub proof fn law_relocated_storage_is_exact(
    relocations: Seq<Relocation>,
    bytes: u64,
    align: u64,
)
    requires
        relocations.len() <= usize::MAX,
        relocated_fields(relocations, bytes, align) is Ok,
    ensures
        ({
            let fields = relocated_fields(relocations, bytes, align)->Ok_0;
            let extent = prefix_extent(size_aligns(fields), fields.len() as int);
            &&& extent is Some
            &&& extent->Some_0.0 == bytes
            &&& forall|i: int|
                0 <= i < relocations.len() ==> pointer_slot_at(
                    fields,
                    (#[trigger] relocations[i]).source_offset,
                )
        }),
{
    let order = sorted_positions(relocation_keys(relocations));
    lemma_sorted_positions(relocation_keys(relocations));
    let n = relocations.len() as int;
    lemma_relocations_placed(relocations, order, bytes, align, n);
    let all = add_relocations(relocations, order, bytes, align, n)->Ok_0;
    let fields = relocated_fields(relocations, bytes, align)->Ok_0;
    let pad = padding(bytes - all.cursor);
    if all.cursor < bytes {
        lemma_padding_layout(bytes - all.cursor);
        assert(all.cursor as int % 1 == 0);
        lemma_push_at_end(all.fields, pad, all.cursor);
    }
    assert forall|i: int| 0 <= i < relocations.len() implies pointer_slot_at(
        fields,
        (#[trigger] relocations[i]).source_offset,
    ) by {
        assert(order.contains(i as usize));
        let q = choose|q: int| 0 <= q < order.len() && order[q] == i as usize;
        let offset = relocations[order[q] as int].source_offset;
        assert(pointer_slot_at(all.fields, offset));
        let slot = choose|slot: int| #[trigger]
            field_at(all.fields, slot, LlvmShape::Integer(64), offset as int);
        if all.cursor < bytes {
            lemma_push_keeps_field(
                all.fields,
                pad,
                slot,
                LlvmShape::Integer(64),
                offset as int,
            );
        }
        assert(field_at(fields, slot, LlvmShape::Integer(64), offset as int));
    }
}

} // verus!
