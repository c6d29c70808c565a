//! What global variables are made, and where the pointers to them lead.

use crate::address_laws::law_global_addresses_lie_in_their_global;
use crate::error::LowerError;
use crate::globals::{
    allocated_device, allocated_shared, device_storage, hex_text, pointer_outcome, pointer_to,
    symbol_of, AddressShape, EntryShape, GlobalAlloc, Globals, SharedAlloc,
};
use crate::initialized::{fields_defect, global_defect, misplaced_field, type_defect};
use crate::initializer::{
    add_relocations, first_non_digit, hex_bytes, is_hex_digit, relocated_fields, relocation_keys,
    Relocation,
};
use crate::ir::{valid, value_type, Body};
use crate::layout::{natural_offset, prefix_extent, size_align, size_aligns};
use crate::llvm::{LlvmShape, CONSTANT, GLOBAL, SHARED};
use crate::mir::{EnumLayoutKind, MirEnumType, MirStructType, MirTupleType, MirType};
use crate::names::{decimal, is_symbol, opt_text};
use crate::quiet::{lemma_quiet_memory, quiet};
use crate::semantics::{memory_after, place_of, value_of, Env};
use crate::sort::{comes_first, lemma_sorted_positions, sorted_positions};
use crate::struct_slots::StructSlots;
use crate::types::{lowered, struct_type_slots, tuple_type_slots};
use crate::values::{byte_size, Val};
use vstd::arithmetic::power2::is_pow2;
use vstd::prelude::*;

verus! {

// ---------------------------------------------------------------------------
// Symbols
// ---------------------------------------------------------------------------

/// A key stands for the symbol of the first entry that has it, and for none where no entry
/// has it.
pub proof fn law_keys_stand_for_their_first_symbol(
    before: Seq<EntryShape>,
    entry: EntryShape,
    after: Seq<EntryShape>,
)
    requires
        forall|i: int| 0 <= i < before.len() ==> (#[trigger] before[i]).key != entry.key,
    ensures
        symbol_of(before.push(entry) + after, entry.key, 0) == Some(entry.symbol),
        symbol_of(before, entry.key, 0) is None,
{
    let all = before.push(entry) + after;
    assert forall|i: int| 0 <= i < before.len() implies (#[trigger] all[i]).key != entry.key by {
        assert(all[i] == before[i]);
    }
    lemma_first_symbol(all, entry.key, before.len() as int, 0);
    lemma_no_symbol(before, entry.key, 0);
}

proof fn lemma_first_symbol(all: Seq<EntryShape>, key: Seq<char>, at: int, from: int)
    requires
        0 <= from <= at < all.len(),
        all[at].key == key,
        forall|i: int| 0 <= i < at ==> (#[trigger] all[i]).key != key,
    ensures
        symbol_of(all, key, from) == Some(all[at].symbol),
    decreases at - from,
{
    if from < at {
        lemma_first_symbol(all, key, at, from + 1);
    }
}

proof fn lemma_no_symbol(all: Seq<EntryShape>, key: Seq<char>, from: int)
    requires
        0 <= from <= all.len(),
        forall|i: int| 0 <= i < all.len() ==> (#[trigger] all[i]).key != key,
    ensures
        symbol_of(all, key, from) is None,
    decreases all.len() - from,
{
    if from < all.len() {
        lemma_no_symbol(all, key, from + 1);
    }
}

// ---------------------------------------------------------------------------
// Shared memory
// ---------------------------------------------------------------------------

/// A shared allocation that no key stands for makes one global variable in shared memory:
/// an array of the elements asked for, aligned as asked for, writable and defined here. Its
/// address is where the variable starts. Nothing else changes but the count of shared
/// variables, which names the next one, and what the key stands for.
pub proof fn law_shared_allocations_make_an_array(
    g: Globals,
    alloc: SharedAlloc,
    elem: MirType,
    t: LlvmShape,
    n: u64,
)
    requires
        alloc.elem_type == Some(elem),
        alloc.size == Some(n),
        alloc.alloc_key matches Some(key) ==> symbol_of(g.shared, key@, 0) is None,
        lowered(elem) == Ok::<LlvmShape, LowerError>(t),
        g.next_shared_index < u64::MAX,
    ensures
        ({
            let (h, r) = allocated_shared(g, alloc);
            let made = h.globals[0];
            &&& r == Ok::<AddressShape, LowerError>(
                AddressShape { symbol: made.name, address_space: SHARED, byte_offset: 0 },
            )
            &&& h.globals.len() == g.globals.len() + 1
            &&& h.globals.drop_first() == g.globals
            &&& made.name == "__shared_mem_"@ + decimal(g.next_shared_index as nat)
            &&& made.ty == LlvmShape::Array(Box::new(t), n)
            &&& made.alignment == alloc.alignment
            &&& made.address_space == SHARED
            &&& !made.is_external
            &&& !made.is_immutable
            &&& made.source_name == opt_text(alloc.source_name)
            &&& made.source_key is None
            &&& made.initializer_hex is None
            &&& made.relocations is None
            &&& h.next_shared_index == g.next_shared_index + 1
            &&& h.device == g.device
            &&& h.dynamic == g.dynamic
            &&& h.shared == match alloc.alloc_key {
                None => g.shared,
                Some(key) => g.shared.push(EntryShape { key: key@, symbol: made.name }),
            }
        }),
{
    let h = allocated_shared(g, alloc).0;
    assert(h.globals.drop_first() =~= g.globals);
}

/// A shared allocation needs an element type with an LLVM equivalent and a number of
/// elements; a refused one changes nothing.
pub proof fn law_incomplete_shared_allocations_are_refused(g: Globals, alloc: SharedAlloc)
    ensures
        alloc.elem_type is None || alloc.size is None ==> allocated_shared(g, alloc).1 is Err,
        allocated_shared(g, alloc).1 is Err ==> allocated_shared(g, alloc).0 == g,
{
}

// ---------------------------------------------------------------------------
// Device memory
// ---------------------------------------------------------------------------

/// A device allocation that its key does not stand for yet makes one global variable, of
/// the storage for its type and initializer, in constant memory where its pointer is one
/// to constant memory and in global memory elsewhere. A constant has its key as its name;
/// others have a name of their own. Its address is where the variable starts, and nothing
/// else changes but what the key stands for.
pub proof fn law_device_allocations_make_a_variable(
    g: Globals,
    alloc: GlobalAlloc,
    key: Seq<char>,
    t: MirType,
    space: u32,
    storage: LlvmShape,
)
    requires
        opt_text(alloc.global_key) == Some(key),
        alloc.global_type == Some(t),
        alloc.result_ty matches MirType::Ptr(p) && space == if p.address_space == CONSTANT {
            CONSTANT
        } else {
            GLOBAL
        },
        symbol_of(g.device, key, 0) is None,
        device_storage(
            t,
            alloc.alignment,
            hex_text(alloc.initializer_hex),
            alloc.relocations,
        ) == Ok::<LlvmShape, LowerError>(storage),
    ensures
        ({
            let (h, r) = allocated_device(g, alloc);
            let name = if space == CONSTANT {
                key
            } else {
                "__device_global_"@ + key
            };
            let made = h.globals[0];
            &&& r is Ok <==> is_symbol(name)
            &&& r is Err ==> h == g
            &&& r is Ok ==> {
                &&& r->Ok_0 == AddressShape { symbol: name, address_space: space, byte_offset: 0 }
                &&& h.globals.len() == g.globals.len() + 1
                &&& h.globals.drop_first() == g.globals
                &&& made.name == name
                &&& made.ty == storage
                &&& made.alignment == alloc.alignment
                &&& made.address_space == space
                &&& !made.is_external
                &&& made.is_immutable == alloc.immutable
                &&& made.source_name is None
                &&& made.source_key == Some(key)
                &&& made.initializer_hex == opt_text(alloc.initializer_hex)
                &&& made.relocations == alloc.relocations
                &&& h.device == g.device.push(EntryShape { key, symbol: name })
                &&& h.shared == g.shared
                &&& h.dynamic == g.dynamic
                &&& h.next_shared_index == g.next_shared_index
            }
        }),
{
    let (h, r) = allocated_device(g, alloc);
    if r is Ok {
        assert(h.globals.drop_first() =~= g.globals);
    }
}

/// A device allocation needs a key, a type and a pointer type, and storage for its
/// initializer; a refused one changes nothing.
pub proof fn law_incomplete_device_allocations_are_refused(g: Globals, alloc: GlobalAlloc)
    ensures
        alloc.global_key is None || alloc.global_type is None || !(alloc.result_ty is Ptr)
            ==> allocated_device(g, alloc).1 is Err,
        allocated_device(g, alloc).1 is Err ==> allocated_device(g, alloc).0 == g,
{
}

/// A variable without an initializer has the LLVM equivalent of its type, and pointers need
/// an initializer that they stand in.
pub proof fn law_plain_variables_have_their_type(t: MirType, align: u64, list: Vec<Relocation>)
    ensures
        device_storage(t, align, None, None) == lowered(t),
        device_storage(t, align, None, Some(list)) is Err,
{
}

/// A variable with an initializer and no pointers in it is as many bytes as the initializer
/// has. It is made exactly where the initializer is hexadecimal digits in pairs, of the
/// size of its type, with an alignment that the type allows.
pub proof fn law_initialized_variables_are_their_bytes(t: MirType, align: u64, digits: Seq<u8>)
    requires
        digits.len() <= usize::MAX,
    ensures
        ({
            let r = device_storage(t, align, Some(digits), None);
            let bytes = digits.len() / 2;
            &&& r is Ok <==> {
                &&& lowered(t) is Ok
                &&& digits.len() % 2 == 0
                &&& forall|i: int| 0 <= i < digits.len() ==> is_hex_digit(#[trigger] digits[i])
                &&& align > 0
                &&& global_defect(t, bytes as u64, align) is None
            }
            &&& r is Ok ==> r->Ok_0 == LlvmShape::Array(
                Box::new(LlvmShape::Integer(8)),
                bytes as u64,
            )
        }),
{
    law_hexadecimal_counts_bytes(digits);
}

/// Hexadecimal text stands for half as many bytes as it has digits. It is refused for an
/// odd number of digits and for what is no digit.
pub proof fn law_hexadecimal_counts_bytes(digits: Seq<u8>)
    requires
        digits.len() <= usize::MAX,
    ensures
        hex_bytes(digits) is Ok <==> digits.len() % 2 == 0 && forall|i: int|
            0 <= i < digits.len() ==> is_hex_digit(#[trigger] digits[i]),
        hex_bytes(digits) is Ok ==> 2 * hex_bytes(digits)->Ok_0 == digits.len(),
{
    lemma_first_non_digit(digits, 0);
}

proof fn lemma_first_non_digit(digits: Seq<u8>, from: int)
    requires
        0 <= from <= digits.len(),
    ensures
        first_non_digit(digits, from) is None <==> forall|i: int|
            from <= i < digits.len() ==> is_hex_digit(#[trigger] digits[i]),
    decreases digits.len() - from,
{
    if from < digits.len() {
        lemma_first_non_digit(digits, from + 1);
    }
}

/// A digit of a hexadecimal text is one of `0` to `9`, `A` to `F` and `a` to `f`.
pub proof fn law_hexadecimal_digits(b: u8)
    ensures
        is_hex_digit(b) <==> ('0' <= b as char <= '9') || ('A' <= b as char <= 'F') || ('a'
            <= b as char <= 'f'),
{
}

/// Whether a pointer can stand in an initializer of `bytes` bytes and alignment `align`: it
/// has 8 bytes, lies inside at a multiple of 8, and leads to a named variable in global or
/// constant memory.
pub open spec fn can_stand(r: Relocation, bytes: u64, align: u64) -> bool {
    &&& r.width_bytes == 8
    &&& r.target_address_space == GLOBAL || r.target_address_space == CONSTANT
    &&& r.target_key@.len() > 0
    &&& r.source_offset % 8 == 0
    &&& align >= 8
    &&& r.source_offset + 8 <= bytes
}

/// Pointers can stand in an initializer, in any order of listing, where each can and no two
/// share a byte.
pub proof fn law_apart_pointers_can_stand(
    relocations: Seq<Relocation>,
    bytes: u64,
    align: u64,
)
    requires
        0 < relocations.len() <= usize::MAX,
        forall|i: int|
            0 <= i < relocations.len() ==> can_stand(#[trigger] relocations[i], bytes, align),
        forall|i: int, j: int|
            0 <= i < relocations.len() && 0 <= j < relocations.len() && i != j ==> (
            #[trigger] relocations[i]).source_offset + 8 <= (
            #[trigger] relocations[j]).source_offset || relocations[j].source_offset + 8
                <= relocations[i].source_offset,
    ensures
        relocated_fields(relocations, bytes, align) is Ok,
{
    let keys = relocation_keys(relocations);
    lemma_sorted_positions(keys);
    let order = sorted_positions(keys);
    let n = relocations.len() as int;
    lemma_relocations_added(relocations, order, bytes, align, n);
}

proof fn lemma_relocations_added(
    relocations: Seq<Relocation>,
    order: Seq<usize>,
    bytes: u64,
    align: u64,
    k: int,
)
    requires
        0 <= k <= order.len() == relocations.len(),
        order == sorted_positions(relocation_keys(relocations)),
        relocations.len() <= usize::MAX,
        forall|i: int|
            0 <= i < relocations.len() ==> can_stand(#[trigger] relocations[i], bytes, align),
        forall|i: int, j: int|
            0 <= i < relocations.len() && 0 <= j < relocations.len() && i != j ==> (
            #[trigger] relocations[i]).source_offset + 8 <= (
            #[trigger] relocations[j]).source_offset || relocations[j].source_offset + 8
                <= relocations[i].source_offset,
    ensures
        add_relocations(relocations, order, bytes, align, k) is Ok,
        k > 0 ==> add_relocations(relocations, order, bytes, align, k)->Ok_0.cursor
            == relocations[order[k - 1] as int].source_offset + 8,
        k <= 0 ==> add_relocations(relocations, order, bytes, align, k)->Ok_0.cursor == 0,
    decreases k,
{
    if k > 0 {
        let keys = relocation_keys(relocations);
        lemma_sorted_positions(keys);
        lemma_relocations_added(relocations, order, bytes, align, k - 1);
        let at = order[k - 1] as int;
        assert(sorted_positions(keys)[k - 1] < keys.len());
        assert(can_stand(relocations[at], bytes, align));
        if k > 1 {
            let before = order[k - 2] as int;
            assert(sorted_positions(keys)[k - 2] < keys.len());
            assert(comes_first(keys, order[k - 2], order[k - 1]));
            assert(keys[before].0 == relocations[before].source_offset);
            assert(keys[at].0 == relocations[at].source_offset);
            assert(order[k - 2] != order[k - 1]);
            assert(relocations[before].source_offset + 8 <= relocations[at].source_offset
                || relocations[at].source_offset + 8 <= relocations[before].source_offset);
        }
    }
}

/// Pointers that cannot stand in an initializer are refused, and so is an empty list of
/// them.
pub proof fn law_pointers_that_cannot_stand_are_refused(
    relocations: Seq<Relocation>,
    bytes: u64,
    align: u64,
    i: int,
)
    requires
        relocations.len() <= usize::MAX,
        relocations.len() == 0 || (0 <= i < relocations.len() && !can_stand(
            relocations[i],
            bytes,
            align,
        )),
    ensures
        relocated_fields(relocations, bytes, align) is Err,
{
    if relocations.len() > 0 {
        let keys = relocation_keys(relocations);
        lemma_sorted_positions(keys);
        let order = sorted_positions(keys);
        assert(order.contains(i as usize));
        let q = choose|q: int| 0 <= q < order.len() && order[q] == i as usize;
        lemma_relocation_refused(relocations, order, bytes, align, q, relocations.len() as int);
    }
}

proof fn lemma_relocation_refused(
    relocations: Seq<Relocation>,
    order: Seq<usize>,
    bytes: u64,
    align: u64,
    q: int,
    k: int,
)
    requires
        0 <= q < k <= order.len(),
        !can_stand(relocations[order[q] as int], bytes, align),
    ensures
        add_relocations(relocations, order, bytes, align, k) is Err,
    decreases k,
{
    if q < k - 1 {
        lemma_relocation_refused(relocations, order, bytes, align, q, k - 1);
    }
}

// ---------------------------------------------------------------------------
// Initialized types
// ---------------------------------------------------------------------------

/// An initialized struct is accepted where its fields are, where each stands at the byte
/// that rustc gave it, and where the whole has the size that rustc gave it and no wider
/// alignment.
pub proof fn law_faithful_structs_are_accepted(s: MirStructType, slots: StructSlots)
    requires
        s.total_size > 0,
        s.field_offsets@.len() > 0,
        struct_type_slots(s) == Ok::<StructSlots, LowerError>(slots),
        prefix_extent(size_aligns(slots.fields), slots.fields.len() as int) is Some,
        forall|d: int|
            0 <= d < slots.decl_to_llvm.len() && #[trigger] slots.decl_to_llvm[d] is Some
                ==> natural_offset(slots.fields, slots.decl_to_llvm[d]->Some_0 as int)
                == s.field_offsets@[d],
        size_align(LlvmShape::Struct(slots.fields)) is Some,
        byte_size(LlvmShape::Struct(slots.fields)) == s.total_size,
        size_align(LlvmShape::Struct(slots.fields))->Some_0.1 <= s.abi_align,
        forall|i: int|
            0 <= i < s.field_types@.len() ==> type_defect(#[trigger] s.field_types@[i]) is None,
    ensures
        type_defect(MirType::Struct(s)) is None,
{
    lemma_none_misplaced(slots, s.field_offsets@, 0);
    lemma_no_field_defect(s.field_types@, 0);
}

proof fn lemma_none_misplaced(slots: StructSlots, offsets: Seq<u64>, from: int)
    requires
        0 <= from <= slots.decl_to_llvm.len(),
        forall|d: int|
            0 <= d < slots.decl_to_llvm.len() && #[trigger] slots.decl_to_llvm[d] is Some
                ==> natural_offset(slots.fields, slots.decl_to_llvm[d]->Some_0 as int)
                == offsets[d],
    ensures
        misplaced_field(slots, offsets, from) is None,
    decreases slots.decl_to_llvm.len() - from,
{
    if from < slots.decl_to_llvm.len() {
        assert(slots.decl_to_llvm[from] is Some || slots.decl_to_llvm[from] is None);
        lemma_none_misplaced(slots, offsets, from + 1);
    }
}

proof fn lemma_no_field_defect(fields: Seq<MirType>, from: int)
    requires
        0 <= from <= fields.len(),
        forall|i: int| 0 <= i < fields.len() ==> type_defect(#[trigger] fields[i]) is None,
    ensures
        fields_defect(fields, from) is None,
    decreases fields.len() - from,
{
    if from < fields.len() {
        assert(type_defect(fields[from]) is None);
        lemma_no_field_defect(fields, from + 1);
    }
}

/// An initialized value without fields is accepted as it is, and an array where its
/// elements are.
pub proof fn law_scalars_are_accepted(t: MirType, elem: MirType, n: u64)
    ensures
        !(t is Struct) && !(t is Tuple) && !(t is Enum) && !(t is Array) ==> type_defect(t) is None,
        type_defect(MirType::Array(Box::new(elem), n)) == type_defect(elem),
{
}

/// An initializer fits a type where its alignment is a power of two that the type's does
/// not exceed, its size is the type's, and the type is accepted.
pub proof fn law_initializers_fit_their_type(t: MirType, size: u64, align: u64)
    ensures
        global_defect(t, size, align) is None <==> {
            &&& is_pow2(align as int)
            &&& type_defect(t) is None
            &&& lowered(t) is Ok
            &&& size_align(lowered(t)->Ok_0) is Some
            &&& byte_size(lowered(t)->Ok_0) == size
            &&& size_align(lowered(t)->Ok_0)->Some_0.1 <= align
        },
{
}

// ---------------------------------------------------------------------------
// Pointers to globals
// ---------------------------------------------------------------------------

/// The pointer to an allocation leads to the allocation's offset in its variable, in the
/// allocation's address space; computing it leaves memory alone. A refused allocation has
/// no pointer.
pub proof fn law_allocations_are_pointed_to(
    b: Body,
    env: Env,
    outcome: Result<AddressShape, LowerError>,
)
    requires
        b.insts.len() + 4 < usize::MAX,
    ensures
        ({
            let (c, r) = pointer_outcome(b, outcome);
            &&& r is Ok <==> outcome is Ok
            &&& r is Err ==> c == b
            &&& outcome matches Ok(address) ==> {
                &&& valid(c, r->Ok_0)
                &&& value_type(c, r->Ok_0) == LlvmShape::Pointer(address.address_space)
                &&& place_of(value_of(c, env, r->Ok_0)) == (
                    Val::Global(address.symbol),
                    address.byte_offset as int,
                )
                &&& memory_after(c, env) == memory_after(b, env)
            }
        }),
{
    if let Ok(address) = outcome {
        law_global_addresses_lie_in_their_global(b, env, address);
        let (c, r) = pointer_to(b, address);
        assert(quiet(b, c));
        lemma_quiet_memory(b, c, env);
    }
}

/// An initialized tuple is accepted where its fields are, where each stands at the byte that
/// rustc gave it, and where the whole has the size that rustc gave it and no wider alignment.
/// The empty tuple is accepted.
pub proof fn law_faithful_tuples_are_accepted(s: MirTupleType, slots: StructSlots)
    requires
        s.types@.len() > 0 ==> {
            &&& s.total_size > 0
            &&& s.field_offsets@.len() > 0
            &&& tuple_type_slots(s) == Ok::<StructSlots, LowerError>(slots)
            &&& prefix_extent(size_aligns(slots.fields), slots.fields.len() as int) is Some
            &&& forall|d: int|
                0 <= d < slots.decl_to_llvm.len() && #[trigger] slots.decl_to_llvm[d] is Some
                    ==> natural_offset(slots.fields, slots.decl_to_llvm[d]->Some_0 as int)
                    == s.field_offsets@[d]
            &&& size_align(LlvmShape::Struct(slots.fields)) is Some
            &&& byte_size(LlvmShape::Struct(slots.fields)) == s.total_size
            &&& size_align(LlvmShape::Struct(slots.fields))->Some_0.1 <= s.abi_align
        },
        forall|i: int|
            0 <= i < s.types@.len() ==> type_defect(#[trigger] s.types@[i]) is None,
    ensures
        type_defect(MirType::Tuple(s)) is None,
{
    if s.types@.len() > 0 {
        lemma_none_misplaced(slots, s.field_offsets@, 0);
    }
    lemma_no_field_defect(s.types@, 0);
}

/// An initialized enum is accepted exactly where its physical layout is known, its payload
/// fields are accepted, and its LLVM type, where rustc gave it bytes, has that size and no
/// wider alignment.
pub proof fn law_faithful_enums_are_accepted(e: MirEnumType)
    ensures
        type_defect(MirType::Enum(e)) is None <==> {
            &&& e.encoding.layout_kind != EnumLayoutKind::Unknown
            &&& e.encoding.total_size > 0 ==> {
                let t = lowered(MirType::Enum(e));
                &&& t is Ok
                &&& size_align(t->Ok_0) is Some
                &&& byte_size(t->Ok_0) == e.encoding.total_size
                &&& size_align(t->Ok_0)->Some_0.1 <= e.encoding.abi_align
            }
            &&& forall|i: int|
                0 <= i < e.all_field_types@.len() ==> type_defect(
                    #[trigger] e.all_field_types@[i],
                ) is None
        },
{
    if forall|i: int|
        0 <= i < e.all_field_types@.len() ==> type_defect(#[trigger] e.all_field_types@[i]) is None {
        lemma_no_field_defect(e.all_field_types@, 0);
    } else {
        let i = choose|i: int|
            0 <= i < e.all_field_types@.len() && type_defect(#[trigger] e.all_field_types@[i])
                is Some;
        lemma_field_defect(e.all_field_types@, 0, i);
    }
}

/// An initialized struct or tuple with a field that is not accepted is refused.
pub proof fn law_unfaithful_fields_are_refused(s: MirStructType, p: MirTupleType, i: int)
    ensures
        0 <= i < s.field_types@.len() && type_defect(s.field_types@[i]) is Some ==> type_defect(
            MirType::Struct(s),
        ) is Some,
        0 <= i < p.types@.len() && type_defect(p.types@[i]) is Some ==> type_defect(
            MirType::Tuple(p),
        ) is Some,
{
    if 0 <= i < s.field_types@.len() && type_defect(s.field_types@[i]) is Some {
        lemma_field_defect(s.field_types@, 0, i);
    }
    if 0 <= i < p.types@.len() && type_defect(p.types@[i]) is Some {
        lemma_field_defect(p.types@, 0, i);
    }
}

proof fn lemma_field_defect(fields: Seq<MirType>, from: int, i: int)
    requires
        0 <= from <= i < fields.len(),
        type_defect(fields[i]) is Some,
    ensures
        fields_defect(fields, from) is Some,
    decreases fields.len() - from,
{
    if from < i {
        lemma_field_defect(fields, from + 1, i);
    }
}

} // verus!
