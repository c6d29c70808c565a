//! Global variables in shared, device and constant memory.
//!
//! Allocations with the same key share one global. Names of shared globals are
//! numbered within one module; names of device globals come from their keys, so
//! that separate modules emit the same symbol for the same Rust static.

use crate::error::LowerError;
use crate::initialized::{global_defect, validate_initialized_global_layout};
use crate::initializer::{
    hex_bytes, initializer_hex_byte_count, relocated_fields, relocated_initializer_storage_type,
    Relocation,
};
use crate::ir::{
    extends, lemma_extends_transitive, lemma_extends_value, valid, with_address_of,
    with_constant, with_gep, Body, Builder, GepIndex, GepPath, Value,
};
use crate::llvm::{LlvmShape, LlvmType, CONSTANT, GLOBAL, SHARED};
use crate::mir::MirType;
use crate::names::{
    decimal, decimal_text, is_identifier, is_symbol, law_decimals_differ, opt_text,
};
use crate::struct_slots::{make_padding_type, padding};
use crate::types::{convert_type, lowered};
use vstd::prelude::*;
use vstd::string::{StringExecFns, StringSliceAdditionalSpecFns};

verus! {

// ---------------------------------------------------------------------------
// State
// ---------------------------------------------------------------------------

/// A global variable.
#[derive(Debug, PartialEq, Eq)]
pub struct GlobalDef {
    pub name: String,
    pub ty: LlvmType,
    /// Alignment in bytes; zero for the natural one.
    pub alignment: u64,
    pub address_space: u32,
    /// Whether the variable is defined elsewhere.
    pub is_external: bool,
    /// Whether nothing writes the variable.
    pub is_immutable: bool,
    /// Rust path of the static that a shared global comes from.
    pub source_name: Option<String>,
    /// Key of the static that a device global comes from.
    pub source_key: Option<String>,
    pub initializer_hex: Option<String>,
    pub relocations: Option<Vec<Relocation>>,
}

/// The model of a [`GlobalDef`].
pub ghost struct GlobalShape {
    pub name: Seq<char>,
    pub ty: LlvmShape,
    pub alignment: u64,
    pub address_space: u32,
    pub is_external: bool,
    pub is_immutable: bool,
    pub source_name: Option<Seq<char>>,
    pub source_key: Option<Seq<char>>,
    pub initializer_hex: Option<Seq<char>>,
    pub relocations: Option<Vec<Relocation>>,
}

impl View for GlobalDef {
    type V = GlobalShape;

    open spec fn view(&self) -> GlobalShape {
        GlobalShape {
            name: self.name@,
            ty: self.ty@,
            alignment: self.alignment,
            address_space: self.address_space,
            is_external: self.is_external,
            is_immutable: self.is_immutable,
            source_name: opt_text(self.source_name),
            source_key: opt_text(self.source_key),
            initializer_hex: opt_text(self.initializer_hex),
            relocations: self.relocations,
        }
    }
}

/// A symbol that stands for a key.
#[derive(Debug, PartialEq, Eq)]
pub struct SymbolEntry {
    pub key: String,
    pub symbol: String,
}

/// The dynamic shared memory of a function: its symbol and alignment.
#[derive(Debug, PartialEq, Eq)]
pub struct DynamicShared {
    pub function: String,
    pub symbol: String,
    pub alignment: u64,
}

/// The globals of one module.
#[derive(Debug, PartialEq, Eq)]
pub struct GlobalState {
    /// Defined globals, newest first.
    pub globals: Vec<GlobalDef>,
    /// Symbols of shared allocations by key.
    pub shared: Vec<SymbolEntry>,
    /// Symbols of device allocations by key.
    pub device: Vec<SymbolEntry>,
    /// Dynamic shared memory of each function that uses some.
    pub dynamic: Vec<DynamicShared>,
    /// Number of the next shared global.
    pub next_shared_index: u64,
}

/// A key and its symbol.
pub ghost struct EntryShape {
    pub key: Seq<char>,
    pub symbol: Seq<char>,
}

/// The model of a [`DynamicShared`].
pub ghost struct DynamicShape {
    pub function: Seq<char>,
    pub symbol: Seq<char>,
    pub alignment: u64,
}

/// The model of a [`GlobalState`].
pub ghost struct Globals {
    pub globals: Seq<GlobalShape>,
    pub shared: Seq<EntryShape>,
    pub device: Seq<EntryShape>,
    pub dynamic: Seq<DynamicShape>,
    pub next_shared_index: u64,
}

/// The models of a list of entries.
pub open spec fn entry_shapes(entries: Seq<SymbolEntry>) -> Seq<EntryShape> {
    Seq::new(
        entries.len(),
        |i: int| EntryShape { key: entries[i].key@, symbol: entries[i].symbol@ },
    )
}

/// The models of a list of globals.
pub open spec fn global_shapes(globals: Seq<GlobalDef>) -> Seq<GlobalShape> {
    Seq::new(globals.len(), |i: int| globals[i]@)
}

/// The models of a list of dynamic shared memories.
pub open spec fn dynamic_shapes(dynamic: Seq<DynamicShared>) -> Seq<DynamicShape> {
    Seq::new(
        dynamic.len(),
        |i: int|
            DynamicShape {
                function: dynamic[i].function@,
                symbol: dynamic[i].symbol@,
                alignment: dynamic[i].alignment,
            },
    )
}

impl View for GlobalState {
    type V = Globals;

    open spec fn view(&self) -> Globals {
        Globals {
            globals: global_shapes(self.globals@),
            shared: entry_shapes(self.shared@),
            device: entry_shapes(self.device@),
            dynamic: dynamic_shapes(self.dynamic@),
            next_shared_index: self.next_shared_index,
        }
    }
}

impl GlobalState {
    /// A module without globals.
    pub fn new() -> (r: GlobalState)
        ensures
            r@.globals.len() == 0,
            r@.shared.len() == 0,
            r@.device.len() == 0,
            r@.dynamic.len() == 0,
            r@.next_shared_index == 0,
    {
        GlobalState {
            globals: Vec::new(),
            shared: Vec::new(),
            device: Vec::new(),
            dynamic: Vec::new(),
            next_shared_index: 0,
        }
    }
}

/// The symbol that the first entry from `from` on with the given key has.
pub open spec fn symbol_of(entries: Seq<EntryShape>, key: Seq<char>, from: int) -> Option<
    Seq<char>,
>
    decreases entries.len() - from,
{
    if from < 0 || from >= entries.len() {
        None
    } else if entries[from].key == key {
        Some(entries[from].symbol)
    } else {
        symbol_of(entries, key, from + 1)
    }
}

fn find_symbol(entries: &Vec<SymbolEntry>, key: &String) -> (r: Option<String>)
    ensures
        opt_text(r) == symbol_of(entry_shapes(entries@), key@, 0),
{
    let ghost es = entry_shapes(entries@);
    for i in 0..entries.len()
        invariant
            es == entry_shapes(entries@),
            symbol_of(es, key@, 0) == symbol_of(es, key@, i as int),
    {
        if entries[i].key == *key {
            return Some(entries[i].symbol.clone());
        }
    }
    None
}

/// The dynamic shared memory of a function, from entry `from` on.
pub open spec fn dynamic_of(dynamic: Seq<DynamicShape>, function: Seq<char>, from: int) -> Option<
    DynamicShape,
>
    decreases dynamic.len() - from,
{
    if from < 0 || from >= dynamic.len() {
        None
    } else if dynamic[from].function == function {
        Some(dynamic[from])
    } else {
        dynamic_of(dynamic, function, from + 1)
    }
}

fn find_dynamic(dynamic: &Vec<DynamicShared>, function: &String) -> (r: Option<(String, u64)>)
    ensures
        match r {
            None => dynamic_of(dynamic_shapes(dynamic@), function@, 0) is None,
            Some((symbol, alignment)) => dynamic_of(dynamic_shapes(dynamic@), function@, 0)
                == Some(DynamicShape { function: function@, symbol: symbol@, alignment }),
        },
{
    let ghost ds = dynamic_shapes(dynamic@);
    for i in 0..dynamic.len()
        invariant
            ds == dynamic_shapes(dynamic@),
            dynamic_of(ds, function@, 0) == dynamic_of(ds, function@, i as int),
    {
        if dynamic[i].function == *function {
            return Some((dynamic[i].symbol.clone(), dynamic[i].alignment));
        }
    }
    None
}

/// Where an allocation is: a symbol in an address space, and a byte offset from
/// it.
#[derive(Debug, PartialEq, Eq)]
pub struct GlobalAddress {
    pub symbol: String,
    pub address_space: u32,
    pub byte_offset: u64,
}

/// The model of a [`GlobalAddress`].
pub ghost struct AddressShape {
    pub symbol: Seq<char>,
    pub address_space: u32,
    pub byte_offset: u64,
}

impl View for GlobalAddress {
    type V = AddressShape;

    open spec fn view(&self) -> AddressShape {
        AddressShape {
            symbol: self.symbol@,
            address_space: self.address_space,
            byte_offset: self.byte_offset,
        }
    }
}

/// The model of the outcome of an allocation.
pub open spec fn address_outcome(r: Result<GlobalAddress, LowerError>) -> Result<
    AddressShape,
    LowerError,
> {
    match r {
        Ok(a) => Ok(a@),
        Err(e) => Err(e),
    }
}

/// The pointer to an address: that of its global, moved on by its offset where
/// there is one.
pub open spec fn pointer_to(b: Body, address: AddressShape) -> (Body, Value) {
    let (b1, base) = with_address_of(b, address.symbol, address.address_space);
    if address.byte_offset > 0 {
        let (b2, offset) = with_constant(b1, 64, address.byte_offset as u128);
        with_gep(b2, base, GepPath::One(GepIndex::Value(offset)), LlvmShape::Integer(8))
    } else {
        (b1, base)
    }
}

/// The pointer to the outcome of an allocation.
pub open spec fn pointer_outcome(b: Body, outcome: Result<AddressShape, LowerError>) -> (
    Body,
    Result<Value, LowerError>,
) {
    match outcome {
        Err(e) => (b, Err(e)),
        Ok(address) => {
            let (c, r) = pointer_to(b, address);
            (c, Ok(r))
        },
    }
}

fn emit_pointer(b: &mut Builder, address: GlobalAddress) -> (r: Value)
    ensures
        (final(b)@, r) == pointer_to(old(b)@, address@),
        extends(old(b)@, final(b)@),
        valid(final(b)@, r),
{
    let ghost b0 = b@;
    let base = b.address_of(address.symbol, address.address_space);
    if address.byte_offset == 0 {
        return base;
    }
    let ghost b1 = b@;
    let offset = b.constant(64, address.byte_offset as u128);
    let ghost b2 = b@;
    proof {
        lemma_extends_transitive(b0, b1, b2);
        lemma_extends_value(b1, b2, base);
    }
    let r = b.gep(base, GepPath::One(GepIndex::Value(offset)), LlvmType::Integer(8));
    proof {
        lemma_extends_transitive(b0, b2, b@);
    }
    r
}

fn emit_outcome(b: &mut Builder, outcome: Result<GlobalAddress, LowerError>) -> (r: Result<
    Value,
    LowerError,
>)
    ensures
        (final(b)@, r) == pointer_outcome(old(b)@, address_outcome(outcome)),
        extends(old(b)@, final(b)@),
        r is Ok ==> valid(final(b)@, r->Ok_0),
{
    match outcome {
        Err(e) => Err(e),
        Ok(address) => Ok(emit_pointer(b, address)),
    }
}

/// `g` with `def` in front of its globals.
pub open spec fn with_global(g: Globals, def: GlobalShape) -> Globals {
    Globals { globals: seq![def] + g.globals, ..g }
}

fn add_global(state: &mut GlobalState, def: GlobalDef)
    ensures
        final(state)@ == with_global(old(state)@, def@),
{
    let ghost before = state.globals@;
    let ghost model = def@;
    state.globals.insert(0, def);
    assert(global_shapes(state.globals@) =~= seq![model] + global_shapes(before));
}

fn add_entry(entries: &mut Vec<SymbolEntry>, key: String, symbol: &String)
    ensures
        entry_shapes(final(entries)@) == entry_shapes(old(entries)@).push(
            EntryShape { key: key@, symbol: symbol@ },
        ),
{
    let ghost before = entries@;
    let ghost entry = EntryShape { key: key@, symbol: symbol@ };
    entries.push(SymbolEntry { key, symbol: symbol.clone() });
    assert(entry_shapes(entries@) =~= entry_shapes(before).push(entry));
}

// ---------------------------------------------------------------------------
// Shared memory
// ---------------------------------------------------------------------------

/// A static shared-memory allocation.
#[derive(Debug, PartialEq, Eq)]
pub struct SharedAlloc {
    /// Allocations with the same key share one global.
    pub alloc_key: Option<String>,
    /// Rust path of the static that the allocation comes from.
    pub source_name: Option<String>,
    pub elem_type: Option<MirType>,
    /// Number of elements.
    pub size: Option<u64>,
    /// Alignment in bytes; zero for the natural one.
    pub alignment: u64,
}

/// The name of the `n`-th shared global of a module.
pub open spec fn shared_name(n: u64) -> Seq<char> {
    "__shared_mem_"@ + decimal(n as nat)
}

/// The globals after a shared allocation that no key stands for yet.
pub open spec fn created_shared(g: Globals, alloc: SharedAlloc, elem: MirType, size: u64) -> (
    Globals,
    Result<AddressShape, LowerError>,
) {
    match lowered(elem) {
        Err(e) => (g, Err(e)),
        Ok(ty) => if g.next_shared_index == u64::MAX {
            (g, Err(LowerError::SharedIndexOverflow))
        } else {
            let name = shared_name(g.next_shared_index);
            let def = GlobalShape {
                name,
                ty: LlvmShape::Array(Box::new(ty), size),
                alignment: alloc.alignment,
                address_space: SHARED,
                is_external: false,
                is_immutable: false,
                source_name: opt_text(alloc.source_name),
                source_key: None,
                initializer_hex: None,
                relocations: None,
            };
            let counted = Globals {
                next_shared_index: (g.next_shared_index + 1) as u64,
                shared: match opt_text(alloc.alloc_key) {
                    None => g.shared,
                    Some(key) => g.shared.push(EntryShape { key, symbol: name }),
                },
                ..g
            };
            (
                with_global(counted, def),
                Ok(AddressShape { symbol: name, address_space: SHARED, byte_offset: 0 }),
            )
        },
    }
}

/// The globals after a shared allocation, and its address.
pub open spec fn allocated_shared(g: Globals, alloc: SharedAlloc) -> (
    Globals,
    Result<AddressShape, LowerError>,
) {
    if alloc.elem_type is None {
        (g, Err(LowerError::GlobalTypeMissing))
    } else if alloc.size is None {
        (g, Err(LowerError::SharedSizeMissing))
    } else {
        let known = match opt_text(alloc.alloc_key) {
            None => None,
            Some(key) => symbol_of(g.shared, key, 0),
        };
        match known {
            Some(symbol) => (
                g,
                Ok(AddressShape { symbol, address_space: SHARED, byte_offset: 0 }),
            ),
            None => created_shared(g, alloc, alloc.elem_type->Some_0, alloc.size->Some_0),
        }
    }
}

/// Creates the global of a shared allocation.
fn create_shared_global(state: &mut GlobalState, alloc: SharedAlloc, elem: &MirType, size: u64) -> (r:
    Result<GlobalAddress, LowerError>)
    ensures
        (final(state)@, address_outcome(r)) == created_shared(old(state)@, alloc, *elem, size),
{
    let ghost g = state@;
    let ty = match convert_type(elem) {
        Err(e) => {
            return Err(e);
        },
        Ok(ty) => ty,
    };
    if state.next_shared_index == u64::MAX {
        return Err(LowerError::SharedIndexOverflow);
    }
    let n: u64 = state.next_shared_index;
    let mut name: String = "__shared_mem_".to_owned();
    name.append(decimal_text(n).as_str());
    state.next_shared_index = n + 1;
    let SharedAlloc { alloc_key, source_name, elem_type: _, size: _, alignment } = alloc;
    if let Some(key) = alloc_key {
        add_entry(&mut state.shared, key, &name);
    }
    let symbol = name.clone();
    add_global(
        state,
        GlobalDef {
            name,
            ty: LlvmType::array(ty, size),
            alignment,
            address_space: SHARED,
            is_external: false,
            is_immutable: false,
            source_name,
            source_key: None,
            initializer_hex: None,
            relocations: None,
        },
    );
    Ok(GlobalAddress { symbol, address_space: SHARED, byte_offset: 0 })
}

fn allocate_shared(state: &mut GlobalState, alloc: SharedAlloc) -> (r: Result<
    GlobalAddress,
    LowerError,
>)
    ensures
        (final(state)@, address_outcome(r)) == allocated_shared(old(state)@, alloc),
{
    let mut alloc = alloc;
    let elem = match alloc.elem_type.take() {
        None => {
            return Err(LowerError::GlobalTypeMissing);
        },
        Some(elem) => elem,
    };
    let size: u64 = match alloc.size {
        None => {
            return Err(LowerError::SharedSizeMissing);
        },
        Some(size) => size,
    };
    let known: Option<String> = match &alloc.alloc_key {
        None => None,
        Some(key) => find_symbol(&state.shared, key),
    };
    match known {
        Some(symbol) => Ok(GlobalAddress { symbol, address_space: SHARED, byte_offset: 0 }),
        None => create_shared_global(state, alloc, &elem, size),
    }
}

/// Lowers a static shared-memory allocation to a global in shared memory and its
/// address.
pub fn convert_shared_alloc_dc(b: &mut Builder, state: &mut GlobalState, alloc: SharedAlloc) -> (r:
    Result<Value, LowerError>)
    ensures
        ({
            let (g, outcome) = allocated_shared(old(state)@, alloc);
            &&& final(state)@ == g
            &&& (final(b)@, r) == pointer_outcome(old(b)@, outcome)
        }),
        extends(old(b)@, final(b)@),
        r is Ok ==> valid(final(b)@, r->Ok_0),
{
    let outcome = allocate_shared(state, alloc);
    emit_outcome(b, outcome)
}

/// A second shared allocation with the same key gives the same address and
/// changes nothing.
pub proof fn law_shared_allocations_share_by_key(g: Globals, first: SharedAlloc, second: SharedAlloc)
    requires
        allocated_shared(g, first).1 is Ok,
        first.alloc_key is Some,
        second.alloc_key is Some,
        second.alloc_key->Some_0@ == first.alloc_key->Some_0@,
        second.elem_type is Some,
        second.size is Some,
    ensures
        allocated_shared(allocated_shared(g, first).0, second) == (
            allocated_shared(g, first).0,
            allocated_shared(g, first).1,
        ),
{
    let key = first.alloc_key->Some_0@;
    let (h, r) = allocated_shared(g, first);
    if symbol_of(g.shared, key, 0) is None {
        lemma_pushed_entry(g.shared, key, shared_name(g.next_shared_index), 0);
    }
}

proof fn lemma_pushed_entry(entries: Seq<EntryShape>, key: Seq<char>, symbol: Seq<char>, from: int)
    requires
        0 <= from <= entries.len(),
        symbol_of(entries, key, from) is None,
    ensures
        symbol_of(entries.push(EntryShape { key, symbol }), key, from) == Some(symbol),
    decreases entries.len() - from,
{
    if from < entries.len() {
        lemma_pushed_entry(entries, key, symbol, from + 1);
    }
}

/// Different shared globals of a module have different names.
pub proof fn law_shared_names_differ(m: u64, n: u64)
    requires
        shared_name(m) == shared_name(n),
    ensures
        m == n,
{
    let prefix = "__shared_mem_"@;
    let k = prefix.len() as int;
    assert(shared_name(m).skip(k) =~= decimal(m as nat));
    assert(shared_name(n).skip(k) =~= decimal(n as nat));
    law_decimals_differ(m as nat, n as nat);
}

// ---------------------------------------------------------------------------
// Device and constant memory
// ---------------------------------------------------------------------------

/// A device global: a Rust static or a promoted constant.
#[derive(Debug, PartialEq, Eq)]
pub struct GlobalAlloc {
    pub global_key: Option<String>,
    pub global_type: Option<MirType>,
    /// Alignment in bytes; zero for the natural one.
    pub alignment: u64,
    /// The evaluated bytes in hexadecimal.
    pub initializer_hex: Option<String>,
    /// Pointers among those bytes.
    pub relocations: Option<Vec<Relocation>>,
    /// Whether nothing writes the global.
    pub immutable: bool,
    /// Type of the pointer that the allocation gives.
    pub result_ty: MirType,
}

/// The storage type of a device global. Initialized globals are exact bytes,
/// with pointer slots where there are relocations.
pub open spec fn device_storage(
    t: MirType,
    alignment: u64,
    hex: Option<Seq<u8>>,
    relocations: Option<Vec<Relocation>>,
) -> Result<LlvmShape, LowerError> {
    match lowered(t) {
        Err(e) => Err(e),
        Ok(semantic) => match hex {
            None => if relocations is Some {
                Err(LowerError::RelocationsWithoutBytes)
            } else {
                Ok(semantic)
            },
            Some(digits) => match hex_bytes(digits) {
                Err(e) => Err(e),
                Ok(bytes) => if alignment == 0 {
                    Err(LowerError::InitializerAlignMissing)
                } else {
                    match global_defect(t, bytes, alignment) {
                        Some(e) => Err(e),
                        None => match relocations {
                            None => Ok(padding(bytes as int)),
                            Some(list) => match relocated_fields(list@, bytes, alignment) {
                                Err(e) => Err(e),
                                Ok(fields) => Ok(LlvmShape::Struct(fields)),
                            },
                        },
                    }
                },
            },
        },
    }
}

/// The symbol of a device global: its key in constant memory, where the host
/// looks it up by name, and a prefixed key elsewhere.
pub open spec fn device_name(key: Seq<char>, space: u32) -> Seq<char> {
    if space == CONSTANT {
        key
    } else {
        "__device_global_"@ + key
    }
}

/// The hexadecimal text of an initializer as bytes.
pub open spec fn hex_text(hex: Option<String>) -> Option<Seq<u8>> {
    match hex {
        None => None,
        Some(text) => Some(vstd::utf8::encode_utf8(text@)),
    }
}

/// The globals after a device allocation that no key stands for yet.
pub open spec fn created_device(
    g: Globals,
    alloc: GlobalAlloc,
    key: Seq<char>,
    t: MirType,
    space: u32,
) -> (Globals, Result<AddressShape, LowerError>) {
    match device_storage(t, alloc.alignment, hex_text(alloc.initializer_hex), alloc.relocations) {
        Err(e) => (g, Err(e)),
        Ok(ty) => {
            let name = device_name(key, space);
            if !is_symbol(name) {
                (g, Err(LowerError::InvalidSymbol))
            } else {
                let def = GlobalShape {
                    name,
                    ty,
                    alignment: alloc.alignment,
                    address_space: space,
                    is_external: false,
                    is_immutable: alloc.immutable,
                    source_name: None,
                    source_key: Some(key),
                    initializer_hex: opt_text(alloc.initializer_hex),
                    relocations: alloc.relocations,
                };
                let recorded = Globals {
                    device: g.device.push(EntryShape { key, symbol: name }),
                    ..g
                };
                (
                    with_global(recorded, def),
                    Ok(AddressShape { symbol: name, address_space: space, byte_offset: 0 }),
                )
            }
        },
    }
}

/// The globals after a device allocation, and its address. The address space
/// is that of the pointer it gives: constant or global.
pub open spec fn allocated_device(g: Globals, alloc: GlobalAlloc) -> (
    Globals,
    Result<AddressShape, LowerError>,
) {
    match (opt_text(alloc.global_key), alloc.global_type) {
        (None, _) => (g, Err(LowerError::GlobalKeyMissing)),
        (Some(_), None) => (g, Err(LowerError::GlobalTypeMissing)),
        (Some(key), Some(t)) => match alloc.result_ty {
            MirType::Ptr(p) => {
                let space = if p.address_space == CONSTANT {
                    CONSTANT
                } else {
                    GLOBAL
                };
                match symbol_of(g.device, key, 0) {
                    Some(symbol) => (
                        g,
                        Ok(AddressShape { symbol, address_space: space, byte_offset: 0 }),
                    ),
                    None => created_device(g, alloc, key, t, space),
                }
            },
            _ => (g, Err(LowerError::UnexpectedType)),
        },
    }
}

fn device_storage_type(
    t: &MirType,
    alignment: u64,
    hex: &Option<String>,
    relocations: &Option<Vec<Relocation>>,
) -> (r: Result<LlvmType, LowerError>)
    ensures
        crate::union_storage::outcome_shape(r) == device_storage(
            *t,
            alignment,
            hex_text(*hex),
            *relocations,
        ),
{
    let semantic = match convert_type(t) {
        Err(e) => {
            return Err(e);
        },
        Ok(ty) => ty,
    };
    let digits = match hex {
        None => {
            return match relocations {
                None => Ok(semantic),
                Some(_) => Err(LowerError::RelocationsWithoutBytes),
            };
        },
        Some(digits) => digits,
    };
    let bytes: u64 = match initializer_hex_byte_count(digits.as_str()) {
        Err(e) => {
            return Err(e);
        },
        Ok(bytes) => bytes,
    };
    if alignment == 0 {
        return Err(LowerError::InitializerAlignMissing);
    }
    match validate_initialized_global_layout(t, bytes, alignment) {
        Err(e) => {
            return Err(e);
        },
        Ok(_) => {},
    }
    match relocations {
        None => Ok(make_padding_type(bytes)),
        Some(list) => relocated_initializer_storage_type(bytes, alignment, list),
    }
}

/// Creates the global of a device allocation.
fn create_device_global(
    state: &mut GlobalState,
    alloc: GlobalAlloc,
    key: String,
    t: &MirType,
    space: u32,
) -> (r: Result<GlobalAddress, LowerError>)
    ensures
        (final(state)@, address_outcome(r)) == created_device(
            old(state)@,
            alloc,
            key@,
            *t,
            space,
        ),
{
    let ty = match device_storage_type(
        t,
        alloc.alignment,
        &alloc.initializer_hex,
        &alloc.relocations,
    ) {
        Err(e) => {
            return Err(e);
        },
        Ok(ty) => ty,
    };
    let name: String = if space == CONSTANT {
        key.clone()
    } else {
        let mut n: String = "__device_global_".to_owned();
        n.append(key.as_str());
        n
    };
    if !is_identifier(&name) {
        return Err(LowerError::InvalidSymbol);
    }
    let GlobalAlloc {
        global_key: _,
        global_type: _,
        alignment,
        initializer_hex,
        relocations,
        immutable,
        result_ty: _,
    } = alloc;
    let symbol = name.clone();
    add_entry(&mut state.device, key.clone(), &symbol);
    add_global(
        state,
        GlobalDef {
            name,
            ty,
            alignment,
            address_space: space,
            is_external: false,
            is_immutable: immutable,
            source_name: None,
            source_key: Some(key),
            initializer_hex,
            relocations,
        },
    );
    Ok(GlobalAddress { symbol, address_space: space, byte_offset: 0 })
}

fn allocate_device(state: &mut GlobalState, alloc: GlobalAlloc) -> (r: Result<
    GlobalAddress,
    LowerError,
>)
    ensures
        (final(state)@, address_outcome(r)) == allocated_device(old(state)@, alloc),
{
    let mut alloc = alloc;
    let key: String = match &alloc.global_key {
        None => {
            return Err(LowerError::GlobalKeyMissing);
        },
        Some(key) => key.clone(),
    };
    let t = match alloc.global_type.take() {
        None => {
            return Err(LowerError::GlobalTypeMissing);
        },
        Some(t) => t,
    };
    let space: u32 = match &alloc.result_ty {
        MirType::Ptr(p) => if p.address_space == CONSTANT {
            CONSTANT
        } else {
            GLOBAL
        },
        _ => {
            return Err(LowerError::UnexpectedType);
        },
    };
    match find_symbol(&state.device, &key) {
        Some(symbol) => Ok(GlobalAddress { symbol, address_space: space, byte_offset: 0 }),
        None => create_device_global(state, alloc, key, &t, space),
    }
}

/// Lowers a device global to a global in device or constant memory and its
/// address.
pub fn convert_global_alloc_dc(b: &mut Builder, state: &mut GlobalState, alloc: GlobalAlloc) -> (r:
    Result<Value, LowerError>)
    ensures
        ({
            let (g, outcome) = allocated_device(old(state)@, alloc);
            &&& final(state)@ == g
            &&& (final(b)@, r) == pointer_outcome(old(b)@, outcome)
        }),
        extends(old(b)@, final(b)@),
        r is Ok ==> valid(final(b)@, r->Ok_0),
{
    let outcome = allocate_device(state, alloc);
    emit_outcome(b, outcome)
}

/// A second device allocation with the same key changes nothing and gives the
/// same symbol; with the same result type it gives the same address.
pub proof fn law_device_allocations_share_by_key(
    g: Globals,
    first: GlobalAlloc,
    second: GlobalAlloc,
)
    requires
        allocated_device(g, first).1 is Ok,
        second.global_key is Some,
        second.global_key->Some_0@ == first.global_key->Some_0@,
        second.global_type is Some,
        second.result_ty is Ptr,
    ensures
        ({
            let (h, r) = allocated_device(g, first);
            let (i, s) = allocated_device(h, second);
            &&& i == h
            &&& s is Ok
            &&& s->Ok_0.symbol == r->Ok_0.symbol
            &&& s->Ok_0.byte_offset == r->Ok_0.byte_offset
            &&& second.result_ty == first.result_ty ==> s == r
        }),
{
    let key = first.global_key->Some_0@;
    let p = first.result_ty->Ptr_0;
    let space = if p.address_space == CONSTANT {
        CONSTANT
    } else {
        GLOBAL
    };
    if symbol_of(g.device, key, 0) is None {
        lemma_pushed_entry(g.device, key, device_name(key, space), 0);
    }
}

// ---------------------------------------------------------------------------
// Dynamic shared memory
// ---------------------------------------------------------------------------

/// The key under which a function's dynamic shared memory is recorded as
/// created.
pub open spec fn dynamic_key(function: Seq<char>) -> Seq<char> {
    "__dynamic_smem_global_created_"@ + function
}

/// The globals after an access to a function's dynamic shared memory, and the
/// address of the access. Each function has one symbol, of the alignment that
/// was computed for it; its size is fixed at launch.
pub open spec fn accessed_dynamic(g: Globals, function: Seq<char>, byte_offset: u64) -> (
    Globals,
    Result<AddressShape, LowerError>,
) {
    match dynamic_of(g.dynamic, function, 0) {
        None => (g, Err(LowerError::DynamicAlignmentMissing)),
        Some(d) => {
            let address = AddressShape { symbol: d.symbol, address_space: SHARED, byte_offset };
            let key = dynamic_key(function);
            if symbol_of(g.shared, key, 0) is Some {
                (g, Ok(address))
            } else {
                let recorded = Globals {
                    shared: g.shared.push(EntryShape { key, symbol: d.symbol }),
                    ..g
                };
                (with_global(recorded, dynamic_global(d)), Ok(address))
            }
        },
    }
}

fn access_dynamic(state: &mut GlobalState, function: &String, byte_offset: u64) -> (r:
    Result<GlobalAddress, LowerError>)
    ensures
        (final(state)@, address_outcome(r)) == accessed_dynamic(
            old(state)@,
            function@,
            byte_offset,
        ),
{
    let (symbol, alignment): (String, u64) = match find_dynamic(&state.dynamic, function) {
        None => {
            return Err(LowerError::DynamicAlignmentMissing);
        },
        Some(d) => d,
    };
    let mut key: String = "__dynamic_smem_global_created_".to_owned();
    key.append(function.as_str());
    if find_symbol(&state.shared, &key).is_some() {
        return Ok(GlobalAddress { symbol, address_space: SHARED, byte_offset });
    }
    add_entry(&mut state.shared, key, &symbol);
    let name = symbol.clone();
    add_global(
        state,
        GlobalDef {
            name,
            ty: make_padding_type(0),
            alignment,
            address_space: SHARED,
            is_external: true,
            is_immutable: false,
            source_name: None,
            source_key: None,
            initializer_hex: None,
            relocations: None,
        },
    );
    Ok(GlobalAddress { symbol, address_space: SHARED, byte_offset })
}

/// Lowers an access to dynamic shared memory in function `function`, at a byte
/// offset from its start.
pub fn convert_extern_shared_dc(
    b: &mut Builder,
    state: &mut GlobalState,
    function: &String,
    byte_offset: u64,
) -> (r: Result<Value, LowerError>)
    ensures
        ({
            let (g, outcome) = accessed_dynamic(old(state)@, function@, byte_offset);
            &&& final(state)@ == g
            &&& (final(b)@, r) == pointer_outcome(old(b)@, outcome)
        }),
        extends(old(b)@, final(b)@),
        r is Ok ==> valid(final(b)@, r->Ok_0),
{
    let outcome = access_dynamic(state, function, byte_offset);
    emit_outcome(b, outcome)
}

/// The external global that holds the dynamic shared memory `d`.
pub open spec fn dynamic_global(d: DynamicShape) -> GlobalShape {
    GlobalShape {
        name: d.symbol,
        ty: padding(0),
        alignment: d.alignment,
        address_space: SHARED,
        is_external: true,
        is_immutable: false,
        source_name: None,
        source_key: None,
        initializer_hex: None,
        relocations: None,
    }
}

/// An access to dynamic shared memory.
pub ghost struct DynamicAccess {
    pub function: Seq<char>,
    pub byte_offset: u64,
}

/// The globals after the first `k` accesses.
pub open spec fn after_accesses(g: Globals, accesses: Seq<DynamicAccess>, k: int) -> Globals
    decreases k,
{
    if k <= 0 {
        g
    } else {
        let a = accesses[k - 1];
        accessed_dynamic(after_accesses(g, accesses, k - 1), a.function, a.byte_offset).0
    }
}

/// Whether one of the first `k` accesses is to a function's memory.
pub open spec fn accessed(accesses: Seq<DynamicAccess>, function: Seq<char>, k: int) -> bool {
    exists|i: int| 0 <= i < k && #[trigger] accesses[i].function == function
}

/// Different functions have different keys.
proof fn lemma_dynamic_keys_differ(f: Seq<char>, h: Seq<char>)
    requires
        dynamic_key(f) == dynamic_key(h),
    ensures
        f == h,
{
    let p = "__dynamic_smem_global_created_"@;
    assert(f =~= dynamic_key(f).skip(p.len() as int));
    assert(h =~= dynamic_key(h).skip(p.len() as int));
}

/// Looking up a key skips a new entry with another key.
proof fn lemma_other_entry(entries: Seq<EntryShape>, entry: EntryShape, key: Seq<char>, from: int)
    requires
        0 <= from <= entries.len(),
        entry.key != key,
    ensures
        symbol_of(entries.push(entry), key, from) == symbol_of(entries, key, from),
    decreases entries.len() - from,
{
    if from < entries.len() {
        assert(entries.push(entry)[from] == entries[from]);
        lemma_other_entry(entries, entry, key, from + 1);
    } else {
        assert(entries.push(entry)[from] == entry);
        assert(symbol_of(entries.push(entry), key, from + 1) is None);
    }
}

/// How many globals have a name.
pub open spec fn named(globals: Seq<GlobalShape>, name: Seq<char>) -> nat
    decreases globals.len(),
{
    if globals.len() == 0 {
        0
    } else {
        named(globals.drop_first(), name) + if globals[0].name == name {
            1nat
        } else {
            0nat
        }
    }
}

/// What the first `k` accesses leave behind of one function.
proof fn lemma_accesses(
    g: Globals,
    accesses: Seq<DynamicAccess>,
    function: Seq<char>,
    k: int,
)
    requires
        0 <= k <= accesses.len(),
        dynamic_of(g.dynamic, function, 0) is Some,
        symbol_of(g.shared, dynamic_key(function), 0) is None,
        ({
            let d = dynamic_of(g.dynamic, function, 0)->Some_0;
            &&& named(g.globals, d.symbol) == 0
            &&& forall|f: Seq<char>|
                f != function && #[trigger] dynamic_of(g.dynamic, f, 0) is Some ==> dynamic_of(
                    g.dynamic,
                    f,
                    0,
                )->Some_0.symbol != d.symbol
        }),
    ensures
        ({
            let d = dynamic_of(g.dynamic, function, 0)->Some_0;
            let h = after_accesses(g, accesses, k);
            &&& h.dynamic == g.dynamic
            &&& accessed(accesses, function, k) <==> symbol_of(
                h.shared,
                dynamic_key(function),
                0,
            ) is Some
            &&& named(h.globals, d.symbol) == if accessed(accesses, function, k) {
                1nat
            } else {
                0nat
            }
            &&& accessed(accesses, function, k) ==> h.globals.contains(dynamic_global(d))
        }),
    decreases k,
{
    if k > 0 {
        lemma_accesses(g, accesses, function, k - 1);
        let past = after_accesses(g, accesses, k - 1);
        let h = after_accesses(g, accesses, k);
        let a = accesses[k - 1];
        let d = dynamic_of(g.dynamic, function, 0)->Some_0;
        assert(accessed(accesses, function, k) <==> accessed(accesses, function, k - 1)
            || a.function == function) by {
            if accessed(accesses, function, k - 1) {
                let i = choose|i: int|
                    0 <= i < k - 1 && #[trigger] accesses[i].function == function;
                assert(accesses[i].function == function);
            }
            if a.function == function {
                assert(accesses[k - 1].function == function);
            }
        }
        if h.globals != past.globals {
            let e = dynamic_of(g.dynamic, a.function, 0)->Some_0;
            let key = dynamic_key(a.function);
            assert(h.globals == seq![dynamic_global(e)] + past.globals);
            assert(h.globals.drop_first() =~= past.globals);
            assert(h.globals[0] == dynamic_global(e));
            if a.function == function {
                lemma_pushed_entry(past.shared, key, d.symbol, 0);
                assert(h.globals.contains(h.globals[0]));
            } else {
                if dynamic_key(function) == key {
                    lemma_dynamic_keys_differ(function, a.function);
                }
                lemma_other_entry(
                    past.shared,
                    EntryShape { key, symbol: e.symbol },
                    dynamic_key(function),
                    0,
                );
                if accessed(accesses, function, k - 1) {
                    let i = choose|i: int|
                        0 <= i < past.globals.len() && past.globals[i] == dynamic_global(d);
                    assert(h.globals[i + 1] == dynamic_global(d));
                }
            }
        } else {
            lemma_unchanged_access(past, a.function, a.byte_offset);
        }
    }
}

/// An access that adds no global changes nothing.
proof fn lemma_unchanged_access(g: Globals, function: Seq<char>, byte_offset: u64)
    requires
        accessed_dynamic(g, function, byte_offset).0.globals == g.globals,
    ensures
        accessed_dynamic(g, function, byte_offset).0 == g,
        dynamic_of(g.dynamic, function, 0) is Some ==> symbol_of(
            g.shared,
            dynamic_key(function),
            0,
        ) is Some,
{
    if dynamic_of(g.dynamic, function, 0) is Some && symbol_of(
        g.shared,
        dynamic_key(function),
        0,
    ) is None {
        let d = dynamic_of(g.dynamic, function, 0)->Some_0;
        let h = accessed_dynamic(g, function, byte_offset).0;
        assert(h.globals == seq![dynamic_global(d)] + g.globals);
        assert(h.globals.len() == g.globals.len() + 1);
    }
}

/// After any run of accesses, a function whose dynamic shared memory was
/// accessed has exactly one global: zero bytes in shared memory, external, of
/// the alignment that was computed for it. A function that was not accessed has
/// none.
///
/// The run may access the memory of other functions too, whose symbols differ.
pub proof fn law_dynamic_shared_is_created_once(
    g: Globals,
    accesses: Seq<DynamicAccess>,
    function: Seq<char>,
)
    requires
        dynamic_of(g.dynamic, function, 0) is Some,
        symbol_of(g.shared, dynamic_key(function), 0) is None,
        ({
            let d = dynamic_of(g.dynamic, function, 0)->Some_0;
            &&& named(g.globals, d.symbol) == 0
            &&& forall|f: Seq<char>|
                f != function && #[trigger] dynamic_of(g.dynamic, f, 0) is Some ==> dynamic_of(
                    g.dynamic,
                    f,
                    0,
                )->Some_0.symbol != d.symbol
        }),
    ensures
        ({
            let n = accesses.len() as int;
            let d = dynamic_of(g.dynamic, function, 0)->Some_0;
            let h = after_accesses(g, accesses, n);
            &&& named(h.globals, d.symbol) == if accessed(accesses, function, n) {
                1nat
            } else {
                0nat
            }
            &&& accessed(accesses, function, n) ==> h.globals.contains(dynamic_global(d))
        }),
{
    lemma_accesses(g, accesses, function, accesses.len() as int);
}

/// Every access to a function's dynamic shared memory, whatever came before it,
/// gives the function's symbol at the offset asked for; a function without a
/// computed alignment is refused.
pub proof fn law_dynamic_accesses_are_exact(
    g: Globals,
    accesses: Seq<DynamicAccess>,
    function: Seq<char>,
    byte_offset: u64,
)
    ensures
        ({
            let h = after_accesses(g, accesses, accesses.len() as int);
            accessed_dynamic(h, function, byte_offset).1 == match dynamic_of(
                g.dynamic,
                function,
                0,
            ) {
                None => Err(LowerError::DynamicAlignmentMissing),
                Some(d) => Ok(
                    AddressShape { symbol: d.symbol, address_space: SHARED, byte_offset },
                ),
            }
        }),
{
    lemma_dynamic_kept(g, accesses, accesses.len() as int);
}

proof fn lemma_dynamic_kept(g: Globals, accesses: Seq<DynamicAccess>, k: int)
    ensures
        after_accesses(g, accesses, k).dynamic == g.dynamic,
    decreases k,
{
    if k > 0 {
        lemma_dynamic_kept(g, accesses, k - 1);
    }
}

} // verus!
