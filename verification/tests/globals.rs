use mir_lower::error::LowerError;
use mir_lower::globals::{
    convert_extern_shared_dc, convert_global_alloc_dc, convert_shared_alloc_dc, DynamicShared,
    GlobalAlloc, GlobalDef, GlobalState, SharedAlloc,
};
use mir_lower::initializer::{initializer_hex_byte_count, relocated_initializer_storage_type, Relocation};
use mir_lower::ir::{Builder, GepIndex, GepPath, Op, Value};
use mir_lower::llvm::{LlvmType, CONSTANT, GLOBAL, SHARED};
use mir_lower::mir::{MirPtrType, MirType, Signedness};

fn uint(width: u32) -> MirType {
    MirType::Integer(width, Signedness::Unsigned)
}

fn pointer(pointee: MirType, address_space: u32) -> MirType {
    MirType::Ptr(MirPtrType { pointee: Box::new(pointee), mutable: false, address_space })
}

fn array(element: MirType, len: u64) -> MirType {
    MirType::Array(Box::new(element), len)
}

fn i32_type() -> MirType {
    MirType::Integer(32, Signedness::Signless)
}

fn shared_alloc(key: &str, size: u64, source_name: Option<&str>) -> SharedAlloc {
    SharedAlloc {
        alloc_key: Some(key.to_string()),
        source_name: source_name.map(|name| name.to_string()),
        elem_type: Some(i32_type()),
        size: Some(size),
        alignment: 0,
    }
}

fn global_alloc(key: &str, constant: bool) -> GlobalAlloc {
    GlobalAlloc {
        global_key: Some(key.to_string()),
        global_type: Some(i32_type()),
        alignment: 0,
        initializer_hex: None,
        relocations: None,
        immutable: false,
        result_ty: pointer(i32_type(), if constant { CONSTANT } else { GLOBAL }),
    }
}

/// The symbol and address space of the one address that was emitted.
fn emitted(b: &Builder, r: Result<Value, LowerError>) -> Result<(String, u32), LowerError> {
    match r {
        Err(e) => {
            assert!(b.insts.is_empty());
            Err(e)
        },
        Ok(v) => {
            assert_eq!(v, Value::Inst(0));
            assert_eq!(b.insts.len(), 1);
            assert_eq!(b.insts[0].op, Op::AddressOf);
            match b.insts[0].ty {
                LlvmType::Pointer(space) => Ok((b.insts[0].symbol.clone().unwrap(), space)),
                _ => panic!("an address is a pointer"),
            }
        },
    }
}

fn alloc_shared(state: &mut GlobalState, alloc: SharedAlloc) -> Result<(String, u32), LowerError> {
    let mut b = Builder::new(vec![]);
    let r = convert_shared_alloc_dc(&mut b, state, alloc);
    emitted(&b, r)
}

fn alloc_global(state: &mut GlobalState, alloc: GlobalAlloc) -> Result<(String, u32), LowerError> {
    let mut b = Builder::new(vec![]);
    let r = convert_global_alloc_dc(&mut b, state, alloc);
    emitted(&b, r)
}

fn shared_globals(state: &GlobalState) -> Vec<&GlobalDef> {
    state.globals.iter().filter(|g| g.address_space == SHARED).collect()
}

#[test]
fn convert_shared_alloc_creates_global_in_addrspace_3() {
    let mut state = GlobalState::new();
    let address = alloc_shared(&mut state, shared_alloc("k1", 64, None)).unwrap();
    assert_eq!(state.globals.len(), 1);
    assert_eq!(state.globals[0].address_space, SHARED);
    assert!(state.globals[0].name.starts_with("__shared_mem_"));
    assert_eq!(state.globals[0].ty, LlvmType::Array(Box::new(LlvmType::Integer(32)), 64));
    assert_eq!(address, (state.globals[0].name.clone(), SHARED));
}

#[test]
fn convert_shared_alloc_deduplicates_by_alloc_key() {
    let mut state = GlobalState::new();
    let mut b = Builder::new(vec![]);
    for (key, size) in [("same-key", 64), ("same-key", 64), ("other-key", 32)] {
        convert_shared_alloc_dc(&mut b, &mut state, shared_alloc(key, size, None)).unwrap();
    }
    assert_eq!(
        shared_globals(&state).len(),
        2,
        "two distinct alloc_keys must produce two globals"
    );
    assert_eq!(b.insts.iter().filter(|inst| inst.op == Op::AddressOf).count(), 3);
    assert_eq!(b.insts[0].symbol, b.insts[1].symbol);
    assert_ne!(b.insts[0].symbol, b.insts[2].symbol);
}

#[test]
fn shared_alloc_source_name_reaches_the_generated_global() {
    let mut state = GlobalState::new();
    alloc_shared(&mut state, shared_alloc("k1", 64, Some("my_kernel::TILE"))).unwrap();
    let shared = shared_globals(&state);
    assert_eq!(shared.len(), 1, "expected exactly one shared global");
    assert!(shared[0].name.starts_with("__shared_mem_"));
    assert_eq!(shared[0].source_name.as_deref(), Some("my_kernel::TILE"));
}

#[test]
fn shared_alloc_without_source_name_leaves_the_global_unlabelled() {
    let mut state = GlobalState::new();
    alloc_shared(&mut state, shared_alloc("k1", 64, None)).unwrap();
    let shared = shared_globals(&state);
    assert_eq!(shared.len(), 1);
    assert_eq!(shared[0].source_name, None, "an unnamed allocation must stay unnamed");
}

#[test]
fn shared_alloc_source_names_are_per_global_not_shared_across_them() {
    let mut state = GlobalState::new();
    for (key, size, name) in [
        ("tile", 64, "my_kernel::TILE"),
        ("tile", 64, "my_kernel::TILE"),
        ("scratch", 32, "my_kernel::SCRATCH"),
    ] {
        alloc_shared(&mut state, shared_alloc(key, size, Some(name))).unwrap();
    }
    let mut names: Vec<&str> = shared_globals(&state)
        .into_iter()
        .map(|g| g.source_name.as_deref().expect("named"))
        .collect();
    assert_eq!(names.len(), 2, "the shared alloc_key must still dedupe");
    names.sort();
    assert_eq!(names, vec!["my_kernel::SCRATCH", "my_kernel::TILE"]);
}

#[test]
fn shared_names_are_numbered_within_one_module() {
    for _ in 0..2 {
        let mut state = GlobalState::new();
        alloc_shared(&mut state, shared_alloc("k", 64, None)).unwrap();
        alloc_shared(&mut state, shared_alloc("l", 64, None)).unwrap();
        assert_eq!(state.globals[1].name, "__shared_mem_0");
        assert_eq!(state.globals[0].name, "__shared_mem_1");
    }
}

#[test]
fn convert_global_alloc_places_in_global_or_constant_addrspace() {
    let mut state = GlobalState::new();
    alloc_global(&mut state, global_alloc("ordinary_static", false)).unwrap();
    alloc_global(&mut state, global_alloc("_ZN7my_mod3KEYE", true)).unwrap();
    let in_space = |space: u32| state.globals.iter().find(|g| g.address_space == space);
    let ordinary = in_space(GLOBAL).expect("expected one global in addrspace(1)");
    let constant = in_space(CONSTANT).expect("expected one global in addrspace(4)");
    assert_eq!(
        constant.name, "_ZN7my_mod3KEYE",
        "constant globals must keep the mangled global_key as symbol name"
    );
    assert_eq!(
        ordinary.name, "__device_global_ordinary_static",
        "ordinary device globals derive their symbol from stable global identity"
    );

    // Another module gives the same static the same symbol.
    let mut other = GlobalState::new();
    alloc_global(&mut other, global_alloc("ordinary_static", false)).unwrap();
    assert_eq!(other.globals[0].name, "__device_global_ordinary_static");
}

#[test]
fn immutable_marking_survives_lowering_and_is_not_assumed() {
    let mut state = GlobalState::new();
    let promoted = GlobalAlloc { immutable: true, ..global_alloc("promoted_table", false) };
    alloc_global(&mut state, promoted).unwrap();
    alloc_global(&mut state, global_alloc("plain_static", false)).unwrap();
    let by_key = |key: &str| {
        state.globals.iter().find(|g| g.source_key.as_deref() == Some(key)).unwrap()
    };
    assert!(by_key("promoted_table").is_immutable);
    assert!(!by_key("plain_static").is_immutable);
}

#[test]
fn initialized_global_lowers_to_byte_storage() {
    let mut state = GlobalState::new();
    let alloc = GlobalAlloc {
        alignment: 4,
        initializer_hex: Some("3412c07f".to_string()),
        ..global_alloc("nan_payload", false)
    };
    alloc_global(&mut state, alloc).unwrap();
    let global = &state.globals[0];
    assert_eq!(global.ty, LlvmType::Array(Box::new(LlvmType::Integer(8)), 4));
    assert_eq!(global.alignment, 4);
    assert_eq!(global.initializer_hex.as_deref(), Some("3412c07f"));
}

fn relocation(source_offset: u64, target_addend: u64, target_key: &str) -> Relocation {
    Relocation {
        source_offset,
        width_bytes: 8,
        target_address_space: GLOBAL,
        target_addend,
        target_key: target_key.to_string(),
    }
}

fn relocated_alloc(key: &str, words: u64, relocations: Vec<Relocation>) -> GlobalAlloc {
    let ty = || array(uint(64), words);
    GlobalAlloc {
        global_key: Some(key.to_string()),
        global_type: Some(ty()),
        alignment: 8,
        initializer_hex: Some("00".repeat(8 * words as usize)),
        relocations: Some(relocations),
        immutable: false,
        result_ty: pointer(ty(), GLOBAL),
    }
}

#[test]
fn relocated_global_lowers_to_segmented_storage() {
    let mut state = GlobalState::new();
    let relocations = || vec![relocation(8, 4, "target_static")];
    alloc_global(&mut state, relocated_alloc("reference_table", 3, relocations()))
        .unwrap();
    let global = &state.globals[0];
    let bytes = || LlvmType::Array(Box::new(LlvmType::Integer(8)), 8);
    assert_eq!(
        global.ty,
        LlvmType::Struct(vec![bytes(), LlvmType::Integer(64), bytes()])
    );
    assert_eq!(global.source_key.as_deref(), Some("reference_table"));
    assert_eq!(global.relocations, Some(relocations()));
}

#[test]
fn relocated_global_rejects_overlapping_slots() {
    let mut state = GlobalState::new();
    let relocations = vec![relocation(0, 0, "a"), relocation(0, 0, "b")];
    assert_eq!(
        alloc_global(&mut state, relocated_alloc("overlap", 2, relocations)),
        Err(LowerError::RelocationOverlap { index: 1 })
    );
    assert!(state.globals.is_empty());
}

#[test]
fn device_allocations_with_one_key_share_one_global() {
    let mut state = GlobalState::new();
    let first = alloc_global(&mut state, global_alloc("table", false)).unwrap();
    let again = alloc_global(&mut state, global_alloc("table", false)).unwrap();
    assert_eq!(first, again);
    assert_eq!(state.globals.len(), 1);
}

#[test]
fn constant_symbols_must_be_identifiers() {
    let mut state = GlobalState::new();
    assert_eq!(
        alloc_global(&mut state, global_alloc("not a symbol", true)),
        Err(LowerError::InvalidSymbol)
    );
    assert!(state.globals.is_empty());
}

#[test]
fn allocations_need_their_attributes() {
    let mut state = GlobalState::new();
    let untyped = SharedAlloc { elem_type: None, ..shared_alloc("k", 1, None) };
    assert_eq!(
        alloc_shared(&mut state, untyped),
        Err(LowerError::GlobalTypeMissing)
    );
    let unsized_alloc = SharedAlloc { size: None, ..shared_alloc("k", 1, None) };
    assert_eq!(
        alloc_shared(&mut state, unsized_alloc),
        Err(LowerError::SharedSizeMissing)
    );
    let keyless = GlobalAlloc { global_key: None, ..global_alloc("k", false) };
    assert_eq!(
        alloc_global(&mut state, keyless),
        Err(LowerError::GlobalKeyMissing)
    );
    let untyped = GlobalAlloc { global_type: None, ..global_alloc("k", false) };
    assert_eq!(
        alloc_global(&mut state, untyped),
        Err(LowerError::GlobalTypeMissing)
    );
    let unaligned = GlobalAlloc {
        initializer_hex: Some("00000000".to_string()),
        ..global_alloc("k", false)
    };
    assert_eq!(
        alloc_global(&mut state, unaligned),
        Err(LowerError::InitializerAlignMissing)
    );
    let byteless = GlobalAlloc {
        relocations: Some(vec![relocation(0, 0, "t")]),
        ..global_alloc("k", false)
    };
    assert_eq!(
        alloc_global(&mut state, byteless),
        Err(LowerError::RelocationsWithoutBytes)
    );
}

#[test]
fn shared_indices_run_out() {
    let mut state = GlobalState::new();
    state.next_shared_index = u64::MAX;
    assert_eq!(
        alloc_shared(&mut state, shared_alloc("k", 1, None)),
        Err(LowerError::SharedIndexOverflow)
    );
}

#[test]
fn dynamic_shared_memory_is_one_symbol_per_function() {
    let mut state = GlobalState::new();
    let function = "kernel".to_string();
    let mut b = Builder::new(vec![]);
    assert_eq!(
        convert_extern_shared_dc(&mut b, &mut state, &function, 0),
        Err(LowerError::DynamicAlignmentMissing)
    );
    assert!(b.insts.is_empty());
    state.dynamic.push(DynamicShared {
        function: "kernel".to_string(),
        symbol: "__dynamic_smem_kernel".to_string(),
        alignment: 128,
    });
    let start = convert_extern_shared_dc(&mut b, &mut state, &function, 0);
    assert_eq!(start, Ok(Value::Inst(0)));
    let behind = convert_extern_shared_dc(&mut b, &mut state, &function, 16);
    assert_eq!(behind, Ok(Value::Inst(3)));
    for at in [0, 1] {
        assert_eq!(b.insts[at].op, Op::AddressOf);
        assert_eq!(b.insts[at].symbol.as_deref(), Some("__dynamic_smem_kernel"));
        assert_eq!(b.insts[at].ty, LlvmType::Pointer(SHARED));
    }
    assert_eq!(b.insts[2].op, Op::Constant { width: 64, bits: 16 });
    let path = GepPath::One(GepIndex::Value(Value::Inst(2)));
    assert_eq!(
        b.insts[3].op,
        Op::GetElementPtr { base: Value::Inst(1), path, inbounds: false }
    );
    assert_eq!(b.insts[3].elem, LlvmType::Integer(8));
    assert_eq!(state.globals.len(), 1);
    assert!(state.globals[0].is_external);
    assert_eq!(state.globals[0].alignment, 128);
    assert_eq!(
        state.globals[0].ty,
        LlvmType::Array(Box::new(LlvmType::Integer(8)), 0)
    );
}

#[test]
fn hexadecimal_text_counts_bytes() {
    assert_eq!(initializer_hex_byte_count(""), Ok(0));
    assert_eq!(initializer_hex_byte_count("3412C07f"), Ok(4));
    assert_eq!(initializer_hex_byte_count("341"), Err(LowerError::HexOddLength));
    assert_eq!(
        initializer_hex_byte_count("3g"),
        Err(LowerError::HexDigit { byte: 103 })
    );
}

#[test]
fn relocations_are_checked_one_by_one() {
    let storage =
        |bytes: u64, align: u64, relocations: Vec<Relocation>| {
            relocated_initializer_storage_type(bytes, align, &relocations)
        };
    assert_eq!(storage(8, 8, vec![]), Err(LowerError::RelocationsEmpty));
    assert_eq!(
        storage(8, 8, vec![Relocation { width_bytes: 4, ..relocation(0, 0, "t") }]),
        Err(LowerError::RelocationWidth { index: 0, width: 4 })
    );
    assert_eq!(
        storage(8, 8, vec![Relocation { target_address_space: 3, ..relocation(0, 0, "t") }]),
        Err(LowerError::RelocationSpace { index: 0, space: 3 })
    );
    assert_eq!(
        storage(8, 8, vec![relocation(0, 0, "")]),
        Err(LowerError::RelocationTarget { index: 0 })
    );
    assert_eq!(
        storage(16, 8, vec![relocation(4, 0, "t")]),
        Err(LowerError::RelocationOffset { index: 0, offset: 4 })
    );
    assert_eq!(
        storage(8, 4, vec![relocation(0, 0, "t")]),
        Err(LowerError::RelocationAlign { index: 0, align: 4 })
    );
    assert_eq!(
        storage(8, 8, vec![relocation(8, 0, "t")]),
        Err(LowerError::RelocationBounds { index: 0, end: 16, bytes: 8 })
    );
    assert_eq!(
        storage(8, 8, vec![relocation(u64::MAX - 7, 0, "t")]),
        Err(LowerError::RelocationOverflow { index: 0 })
    );
    // Relocations may come in any order.
    let two = storage(24, 8, vec![relocation(16, 0, "b"), relocation(0, 0, "a")]).unwrap();
    assert_eq!(
        two,
        LlvmType::Struct(vec![
            LlvmType::Integer(64),
            LlvmType::Array(Box::new(LlvmType::Integer(8)), 8),
            LlvmType::Integer(64),
        ])
    );
}
