use mir_lower::abi::{
    convert_function_type, find_unmodeled_enum_in_abi, is_kernel_func, Attr, AttrValue,
    MirFunctionType,
};
use mir_lower::error::LowerError;
use mir_lower::ir::{
    BinOp, Builder, DebugInfo, DebugVariable, GepIndex, GepPath, Inst, Location, Op,
    SourcePosition, Value,
};
use mir_lower::layout::llvm_type_size_align;
use mir_lower::llvm::{LlvmType, GENERIC, GLOBAL, SHARED};
use mir_lower::memory::{
    convert_alloca, convert_dbg_value, convert_load, convert_memcpy, convert_memmove,
    convert_ptr_offset, convert_ref, convert_store,
};
use mir_lower::mir::{
    EnumCarrierKind, EnumEncoding, EnumLayoutKind, MirEnumType, MirPtrType, MirStructType,
    MirTupleType, MirType, MirUnionType, Signedness,
};
use mir_lower::operands::Operand;
use mir_lower::types::{build_enum_slot_map, convert_type};

fn uint(width: u32) -> MirType {
    MirType::Integer(width, Signedness::Unsigned)
}

fn pointer(pointee: MirType, address_space: u32) -> MirType {
    MirType::Ptr(MirPtrType { pointee: Box::new(pointee), mutable: false, address_space })
}

fn array(element: MirType, len: u64) -> MirType {
    MirType::Array(Box::new(element), len)
}

fn struct_type(
    name: &str,
    fields: Vec<(&str, MirType)>,
    mem_to_decl: Vec<usize>,
    field_offsets: Vec<u64>,
    total_size: u64,
    abi_align: u64,
) -> MirStructType {
    let mut field_names = vec![];
    let mut field_types = vec![];
    for (field_name, ty) in fields {
        field_names.push(field_name.to_string());
        field_types.push(ty);
    }
    MirStructType {
        name: name.to_string(),
        field_names,
        field_types,
        mem_to_decl,
        field_offsets,
        total_size,
        abi_align,
    }
}

fn laid_out_struct(
    name: &str,
    fields: Vec<(&str, MirType)>,
    mem_to_decl: Vec<usize>,
    field_offsets: Vec<u64>,
    total_size: u64,
    abi_align: u64,
) -> MirType {
    MirType::Struct(struct_type(name, fields, mem_to_decl, field_offsets, total_size, abi_align))
}

fn laid_out_tuple(
    types: Vec<MirType>,
    mem_to_decl: Vec<usize>,
    field_offsets: Vec<u64>,
    total_size: u64,
    abi_align: u64,
) -> MirType {
    MirType::Tuple(MirTupleType { types, mem_to_decl, field_offsets, total_size, abi_align })
}

fn union_type(name: &str, fields: Vec<(&str, MirType)>, total_size: u64, abi_align: u64) -> MirUnionType {
    let mut field_names = vec![];
    let mut field_types = vec![];
    for (field_name, ty) in fields {
        field_names.push(field_name.to_string());
        field_types.push(ty);
    }
    MirUnionType { name: name.to_string(), field_names, field_types, total_size, abi_align }
}

/// One enum variant: its name and the type, offset and size of each payload
/// field.
type Variant = (&'static str, Vec<(MirType, u64, u64)>);

fn unit(name: &'static str) -> Variant {
    (name, vec![])
}

fn payload(name: &'static str, ty: MirType, offset: u64, size: u64) -> Variant {
    (name, vec![(ty, offset, size)])
}

fn enum_type(
    name: &str,
    discriminant_ty: MirType,
    variant_discriminants: Vec<u64>,
    variants: Vec<Variant>,
    encoding: EnumEncoding,
) -> MirEnumType {
    let mut e = MirEnumType {
        name: name.to_string(),
        discriminant_ty: Box::new(discriminant_ty),
        variant_names: vec![],
        variant_discriminants,
        variant_field_counts: vec![],
        all_field_types: vec![],
        all_field_offsets: vec![],
        all_field_sizes: vec![],
        encoding,
    };
    for (variant_name, fields) in variants {
        e.variant_names.push(variant_name.to_string());
        e.variant_field_counts.push(fields.len() as u32);
        for (ty, offset, size) in fields {
            e.all_field_types.push(ty);
            e.all_field_offsets.push(offset);
            e.all_field_sizes.push(size);
        }
    }
    e
}

/// An enum with a tag of the discriminant type, all of whose variants can
/// exist.
fn tagged_enum(
    name: &str,
    width: u32,
    variant_discriminants: Vec<u64>,
    variants: Vec<Variant>,
    tag_offset: u64,
    total_size: u64,
    abi_align: u64,
) -> MirEnumType {
    let variant_inhabited = vec![1; variants.len()];
    enum_type(
        name,
        uint(width),
        variant_discriminants,
        variants,
        EnumEncoding {
            tag_offset,
            total_size,
            abi_align,
            layout_kind: EnumLayoutKind::Direct,
            carrier_kind: EnumCarrierKind::Integer,
            carrier_width: width,
            variant_inhabited,
            ..EnumEncoding::default()
        },
    )
}

fn count(b: &Builder, wanted: fn(&Op) -> bool) -> usize {
    b.insts.iter().filter(|inst| wanted(&inst.op)).count()
}

fn find_all(b: &Builder, wanted: fn(&Op) -> bool) -> Vec<&Inst> {
    b.insts.iter().filter(|inst| wanted(&inst.op)).collect()
}

fn i32_type() -> MirType {
    MirType::Integer(32, Signedness::Signless)
}

fn i64_type() -> MirType {
    MirType::Integer(64, Signedness::Signless)
}

fn no_info() -> DebugInfo {
    DebugInfo { variable: None, source_scope: None, declaration: None }
}

fn debug_variable(argument_index: Option<u32>) -> DebugVariable {
    DebugVariable {
        name: "x".to_string(),
        argument_index,
        ty: "i32".to_string(),
        size_bits: 32,
        encoding: "DW_ATE_signed".to_string(),
    }
}

/// Code whose arguments have these Rust types.
fn body_of(args: &[MirType]) -> Builder {
    Builder::new(args.iter().map(|ty| convert_type(ty).unwrap()).collect())
}

fn over_aligned_tuple() -> MirType {
    let marker = laid_out_struct("Align32", vec![], vec![], vec![], 0, 32);
    laid_out_tuple(vec![marker, uint(8)], vec![0, 1], vec![0, 0], 32, 32)
}

fn alloca_align(b: &Builder) -> Option<u32> {
    match find_all(b, |op| matches!(op, Op::Alloca { .. }))[0].op {
        Op::Alloca { align, .. } => align,
        _ => unreachable!(),
    }
}

fn store_align(b: &Builder) -> Option<u32> {
    match find_all(b, |op| matches!(op, Op::Store { .. }))[0].op {
        Op::Store { align, .. } => align,
        _ => unreachable!(),
    }
}

#[test]
fn convert_alloca_lowers_to_llvm_alloca() {
    let mut b = body_of(&[]);
    convert_alloca(&mut b, &pointer(i32_type(), GENERIC), no_info()).unwrap();
    let allocas = find_all(&b, |op| matches!(op, Op::Alloca { .. }));
    assert_eq!(allocas.len(), 1, "expected exactly one alloca");
    assert_eq!(allocas[0].elem, LlvmType::Integer(32));
}

#[test]
fn convert_alloca_preserves_nested_array_element_alignment() {
    let outer = array(array(over_aligned_tuple(), 2), 3);
    let mut b = body_of(&[]);
    convert_alloca(&mut b, &pointer(outer, GENERIC), no_info()).unwrap();
    assert_eq!(alloca_align(&b), Some(32));
}

#[test]
fn convert_alloca_preserves_debug_local_metadata() {
    let info = DebugInfo { variable: Some(debug_variable(Some(1))), ..no_info() };
    let mut b = body_of(&[]);
    let slot = convert_alloca(&mut b, &pointer(i32_type(), GENERIC), info).unwrap();
    assert_eq!(b.notes.len(), 1);
    assert_eq!(b.notes[0].at, slot);
    assert_eq!(b.notes[0].info.variable, Some(debug_variable(Some(1))));
}

#[test]
fn convert_store_lowers_to_llvm_store() {
    let mut b = body_of(&[pointer(i32_type(), GENERIC), i32_type()]);
    let operands = vec![Value::Arg(0), Value::Arg(1)];
    convert_store(&mut b, &operands, &vec![i32_type()], None, false).unwrap();
    let stores = find_all(&b, |op| matches!(op, Op::Store { .. }));
    assert_eq!(stores.len(), 1, "expected one store");
    // The operands come as pointer and value; the store takes value and pointer.
    match stores[0].op {
        Op::Store { value, ptr, .. } => {
            assert!(matches!(b.value_type(ptr), LlvmType::Pointer(_)));
            assert_eq!(value, Value::Arg(1));
        },
        _ => unreachable!(),
    }
}

#[test]
fn convert_store_preserves_volatile() {
    let mut b = body_of(&[pointer(i32_type(), GENERIC), i32_type()]);
    let operands = vec![Value::Arg(0), Value::Arg(1)];
    convert_store(&mut b, &operands, &vec![i32_type()], None, true).unwrap();
    assert_eq!(count(&b, |op| matches!(op, Op::Store { is_volatile: true, .. })), 1);
}

#[test]
fn convert_load_lowers_to_llvm_load() {
    let mut b = body_of(&[pointer(i32_type(), GENERIC)]);
    convert_load(&mut b, Value::Arg(0), &i32_type(), None, false).unwrap();
    assert_eq!(count(&b, |op| matches!(op, Op::Load { .. })), 1);
}

#[test]
fn convert_dbg_value_lowers_to_llvm_dbg_value() {
    let location = || Location::Named("current value location".to_string());
    let info = DebugInfo {
        variable: Some(debug_variable(None)),
        source_scope: Some(42),
        declaration: Some(SourcePosition { file: "decl.rs".to_string(), line: 7, column: 3 }),
    };
    let mut b = body_of(&[i32_type()]);
    convert_dbg_value(&mut b, Value::Arg(0), location(), info);

    assert_eq!(b.insts.len(), 1);
    assert_eq!(b.insts[0].op, Op::DebugValue { value: Value::Arg(0) });
    let note = &b.notes[0];
    assert_eq!(note.at, Value::Inst(0));
    assert_eq!(note.location, location());
    assert_eq!(note.info.source_scope, Some(42));
    assert_eq!(note.info.variable, Some(debug_variable(None)));
    let declaration = note.info.declaration.as_ref().unwrap();
    assert_eq!(declaration.file, "decl.rs");
    assert_eq!(declaration.line, 7);
    assert_eq!(declaration.column, 3);
}

#[test]
fn convert_load_preserves_volatile() {
    let mut b = body_of(&[pointer(i32_type(), GENERIC)]);
    convert_load(&mut b, Value::Arg(0), &i32_type(), None, true).unwrap();
    assert_eq!(count(&b, |op| matches!(op, Op::Load { is_volatile: true, .. })), 1);
}

#[test]
fn convert_ref_lowers_to_alloca_then_store() {
    let mut b = body_of(&[i32_type()]);
    let slot =
        convert_ref(&mut b, &Operand { value: Value::Arg(0), history: &vec![i32_type()] });
    assert_eq!(count(&b, |op| matches!(op, Op::Alloca { .. })), 1);
    let stores = find_all(&b, |op| matches!(op, Op::Store { .. }));
    assert_eq!(stores.len(), 1, "ref must store the value into the alloca");
    assert!(
        matches!(stores[0].op, Op::Store { value: Value::Arg(0), ptr, .. } if ptr == slot)
    );
}

/// A reference to an undefined value of type `ty`.
fn ref_of_undef(ty: MirType) -> Builder {
    let mut b = body_of(&[]);
    let value = b.undef(convert_type(&ty).unwrap());
    convert_ref(&mut b, &Operand { value, history: &vec![ty] });
    b
}

#[test]
fn convert_ref_preserves_tuple_alignment_on_alloca_and_store() {
    let b = ref_of_undef(over_aligned_tuple());
    assert_eq!(alloca_align(&b), Some(32));
    assert_eq!(store_align(&b), Some(32));
}

#[test]
fn convert_ref_preserves_over_aligned_union_array_layout_and_alignment() {
    for abi_align in [32u64, 64] {
        let name = format!("Align{abi_align}Union");
        let union_ty = union_type(&name, vec![("word", uint(32))], abi_align, abi_align);
        let b = ref_of_undef(array(MirType::Union(union_ty), 3));
        let stored = &find_all(&b, |op| matches!(op, Op::Alloca { .. }))[0].elem;
        match stored {
            LlvmType::Array(element, 3) => {
                assert_eq!(llvm_type_size_align(element), Some((abi_align, 16)));
            },
            _ => panic!("over-aligned union array must remain an LLVM array"),
        }
        assert_eq!(llvm_type_size_align(stored), Some((abi_align * 3, 16)));
        assert_eq!(alloca_align(&b), Some(abi_align as u32));
        assert_eq!(store_align(&b), Some(abi_align as u32));
    }
}

fn offset_gep(inbounds: bool) -> Builder {
    let ptr = pointer(i32_type(), GENERIC);
    let mut b = body_of(&[pointer(i32_type(), GENERIC), i64_type()]);
    let operands = vec![Value::Arg(0), Value::Arg(1)];
    convert_ptr_offset(&mut b, &operands, &vec![ptr], inbounds).unwrap();
    b
}

#[test]
fn convert_ptr_offset_lowers_to_gep_with_pointee_elem_type() {
    let b = offset_gep(true);
    let geps = find_all(&b, |op| matches!(op, Op::GetElementPtr { .. }));
    assert_eq!(geps.len(), 1);
    assert_eq!(geps[0].elem, LlvmType::Integer(32), "the element type is the pointee");
    assert!(matches!(geps[0].op, Op::GetElementPtr { inbounds: true, .. }));
}

#[test]
fn convert_wrapping_ptr_offset_lowers_to_non_inbounds_gep() {
    let b = offset_gep(false);
    let geps = find_all(&b, |op| matches!(op, Op::GetElementPtr { .. }));
    assert!(matches!(geps[0].op, Op::GetElementPtr { inbounds: false, .. }));
}

fn fieldless(name: &str, width: u32, names: Vec<&'static str>, size: u64, align: u64) -> MirType {
    let discriminants = (0..names.len() as u64).collect();
    let variants = names.into_iter().map(unit).collect();
    MirType::Enum(tagged_enum(name, width, discriminants, variants, 0, size, align))
}

#[test]
fn enum_conversion_strides_by_rustc_size() {
    let lowered = |ty: &MirType| convert_type(ty).unwrap();
    let four = || vec!["V0", "V1", "V2", "V3"];

    let repr_u32 = lowered(&fieldless("ReprU32", 32, four(), 4, 4));
    assert_eq!(llvm_type_size_align(&repr_u32), Some((4, 4)), "repr(u32) tag");

    let repr_usize = lowered(&fieldless("ReprUsize", 64, four(), 8, 8));
    assert_eq!(llvm_type_size_align(&repr_usize), Some((8, 8)), "repr(usize) tag");

    let padded = lowered(&fieldless("Padded", 8, vec!["V0", "V1"], 8, 8));
    assert_eq!(llvm_type_size_align(&padded), Some((8, 8)), "repr(align(8)) i8 tag");

    let one_payload = lowered(&MirType::Enum(tagged_enum(
        "OnePayload",
        8,
        vec![0, 1],
        vec![payload("A", uint(64), 8, 8), unit("B")],
        0,
        16,
        8,
    )));
    assert_eq!(llvm_type_size_align(&one_payload).unwrap().0, 16);
    match &one_payload {
        LlvmType::Struct(fields) => {
            assert_eq!(fields.len(), 3, "tag, [7 x i8] filler, payload");
        },
        _ => panic!("converted enum is a struct"),
    }
}

fn multi_payload_enum() -> MirEnumType {
    tagged_enum(
        "MultiPayload",
        32,
        vec![0, 1],
        vec![payload("A", uint(32), 4, 4), payload("B", uint(32), 4, 4)],
        0,
        8,
        4,
    )
}

#[test]
fn multi_payload_enum_shares_payload_slot() {
    let map = build_enum_slot_map(&multi_payload_enum()).unwrap();
    assert_eq!(map.carrier_slot, Some(0));
    assert_eq!(
        map.field_slots,
        vec![Some(1), Some(1)],
        "A.0 and B.0 overlap at byte 4 with the same type: one shared slot"
    );
    assert_eq!(llvm_type_size_align(&map.llvm_struct_ty), Some((8, 4)));
}

#[test]
fn enum_slot_map_tag_not_at_zero() {
    let e = tagged_enum(
        "TagAtEight",
        8,
        vec![0, 1],
        vec![payload("A", uint(64), 0, 8), payload("B", uint(64), 0, 8)],
        8,
        16,
        8,
    );
    let map = build_enum_slot_map(&e).unwrap();
    assert_eq!(map.field_slots, vec![Some(0), Some(0)], "payloads share the first slot");
    assert_eq!(map.carrier_slot, Some(1), "tag claims its own slot at byte 8");
    assert_eq!(llvm_type_size_align(&map.llvm_struct_ty).unwrap().0, 16);
}

#[test]
fn device_local_multi_payload_enum_gep_and_load_lower() {
    let ptr = || pointer(MirType::Enum(multi_payload_enum()), GENERIC);
    let mut b = body_of(&[ptr(), i64_type()]);
    let operands = vec![Value::Arg(0), Value::Arg(1)];
    let element = convert_ptr_offset(&mut b, &operands, &vec![ptr()], true)
        .expect("an enum address must lower");
    let value =
        convert_load(&mut b, element, &MirType::Enum(multi_payload_enum()), None, false)
            .expect("an enum load must lower");
    let storage = LlvmType::Struct(vec![LlvmType::Integer(32), LlvmType::Integer(32)]);
    assert_eq!(*b.value_type(value), storage);
    let geps = find_all(&b, |op| matches!(op, Op::GetElementPtr { .. }));
    assert_eq!(geps[0].elem, storage, "addresses stride by eight bytes");
}

fn kernel_attrs() -> Vec<Attr> {
    vec![Attr { name: "gpu_kernel".to_string(), value: AttrValue::Text("true".to_string()) }]
}

#[test]
fn kernel_param_accepts_multi_payload_enum() {
    let param = pointer(MirType::Enum(multi_payload_enum()), GENERIC);
    assert!(is_kernel_func(&kernel_attrs()));
    assert_eq!(find_unmodeled_enum_in_abi(&param), None);
    let lowered = convert_function_type(
        &MirFunctionType { inputs: vec![param], results: vec![] },
        true,
    )
    .expect("multi-payload enum kernel param must lower");
    assert_eq!(lowered.inputs, vec![LlvmType::Pointer(GLOBAL)]);
    assert_eq!(lowered.result, LlvmType::Void);
}

#[test]
fn kernel_param_rejects_enum_with_unknown_layout() {
    let mut niched = enum_type(
        "Option",
        uint(8),
        vec![0, 1],
        vec![unit("None"), payload("Some", pointer(i32_type(), GENERIC), 0, 0)],
        EnumEncoding::default(),
    );
    niched.all_field_offsets.clear();
    niched.all_field_sizes.clear();
    let param = pointer(MirType::Enum(niched), GENERIC);
    assert!(is_kernel_func(&kernel_attrs()));
    assert_eq!(find_unmodeled_enum_in_abi(&param), Some("Option".to_string()));
}

#[test]
fn block_copies_count_elements_in_bytes() {
    for may_overlap in [false, true] {
        let ptr = || pointer(uint(32), GENERIC);
        let mut b = body_of(&[ptr(), pointer(uint(32), SHARED), i64_type()]);
        let operands = vec![Value::Arg(0), Value::Arg(1), Value::Arg(2)];
        if may_overlap {
            convert_memmove(&mut b, &operands, &vec![ptr()]).unwrap();
        } else {
            convert_memcpy(&mut b, &operands, &vec![ptr()]).unwrap();
        }
        assert_eq!(count(&b, |op| matches!(op, Op::Constant { width: 64, bits: 4 })), 1);
        let products = find_all(&b, |op| matches!(op, Op::Binary { op: BinOp::Mul, .. }));
        assert_eq!(products.len(), 1);
        let calls = find_all(&b, |op| matches!(op, Op::CallTransfer { .. }));
        assert_eq!(calls.len(), 1);
        match calls[0].op {
            Op::CallTransfer { callee, dst, src, .. } => {
                let expected = if may_overlap {
                    "llvm_memmove_p0_p3_i64"
                } else {
                    "llvm_memcpy_p0_p3_i64"
                };
                assert_eq!(callee.symbol(), expected);
                assert_eq!(dst, Value::Arg(0));
                assert_eq!(src, Value::Arg(1));
            },
            _ => unreachable!(),
        }
    }
}

#[test]
fn memory_operations_need_all_operands() {
    let mut b = body_of(&[pointer(i32_type(), GENERIC)]);
    let one = vec![Value::Arg(0)];
    assert_eq!(
        convert_store(&mut b, &one, &vec![], None, false),
        Err(LowerError::MemoryOperands { operands: 1, needed: 2 })
    );
    assert_eq!(
        convert_ptr_offset(&mut b, &one, &vec![], true),
        Err(LowerError::MemoryOperands { operands: 1, needed: 2 })
    );
    assert_eq!(
        convert_memcpy(&mut b, &one, &vec![]),
        Err(LowerError::MemoryOperands { operands: 1, needed: 3 })
    );
    assert_eq!(
        convert_alloca(&mut b, &i32_type(), no_info()),
        Err(LowerError::UnexpectedType)
    );
    assert!(b.insts.is_empty());
}

#[test]
fn offsets_without_a_known_pointee_count_bytes() {
    let mut b = body_of(&[pointer(i32_type(), GENERIC), i64_type()]);
    let operands = vec![Value::Arg(0), Value::Arg(1)];
    let address = convert_ptr_offset(&mut b, &operands, &vec![], true).unwrap();
    assert_eq!(address, Value::Inst(0));
    assert_eq!(b.insts[0].elem, LlvmType::Integer(8));
    assert_eq!(
        b.insts[0].op,
        Op::GetElementPtr {
            base: Value::Arg(0),
            path: GepPath::One(GepIndex::Value(Value::Arg(1))),
            inbounds: true,
        }
    );
}

/// The factor that a block copy of elements behind this pointer scales by.
fn copy_factor(pointee: MirType) -> Option<u128> {
    let ptr = pointer(pointee, GENERIC);
    let mut b = Builder::new(vec![
        LlvmType::Pointer(GENERIC),
        LlvmType::Pointer(GENERIC),
        LlvmType::Integer(64),
    ]);
    let operands = vec![Value::Arg(0), Value::Arg(1), Value::Arg(2)];
    convert_memcpy(&mut b, &operands, &vec![ptr]).unwrap();
    match b.insts[0].op {
        Op::Constant { width: 64, bits } => Some(bits),
        _ => None,
    }
}

#[test]
fn block_copies_scale_by_the_bytes_of_an_element() {
    assert_eq!(copy_factor(uint(8)), None, "bytes need no scaling");
    assert_eq!(copy_factor(MirType::Vector(Box::new(MirType::Fp32), 4, false)), Some(16));
    assert_eq!(copy_factor(MirType::Vector(Box::new(MirType::Fp16), 2, false)), Some(4));
    assert_eq!(copy_factor(laid_out_tuple(vec![uint(8), uint(32)], vec![], vec![], 0, 0)), Some(8));
    let packed =
        laid_out_struct("P", vec![("a", uint(8)), ("b", uint(32))], vec![0, 1], vec![0, 1], 5, 1);
    assert_eq!(copy_factor(array(packed, 2)), Some(10));
}

#[test]
fn block_copies_declare_their_intrinsic_once() {
    let ptr = || pointer(uint(32), GENERIC);
    let mut b = body_of(&[ptr(), pointer(uint(32), SHARED), i64_type()]);
    let operands = vec![Value::Arg(0), Value::Arg(1), Value::Arg(2)];
    for _ in 0..2 {
        convert_memcpy(&mut b, &operands, &vec![ptr()]).unwrap();
    }
    convert_memmove(&mut b, &operands, &vec![ptr()]).unwrap();
    let symbols: Vec<String> = b.declared.iter().map(|d| d.intrinsic.symbol()).collect();
    assert_eq!(symbols, vec!["llvm_memcpy_p0_p3_i64", "llvm_memmove_p0_p3_i64"]);
    assert_eq!(b.declared[0].signature.result, LlvmType::Void);
    assert_eq!(
        b.declared[0].signature.inputs,
        vec![
            LlvmType::Pointer(GENERIC),
            LlvmType::Pointer(SHARED),
            LlvmType::Integer(64),
            LlvmType::Integer(1),
        ]
    );
}

#[test]
fn fields_behind_a_vector_keep_their_offsets() {
    let vector = MirType::Vector(Box::new(MirType::Fp32), 4, false);
    let ty = laid_out_struct("S", vec![("v", vector), ("n", uint(32))], vec![0, 1], vec![0, 16], 32, 16);
    let floats = LlvmType::Vector(Box::new(LlvmType::Float), 4, false);
    let pad = LlvmType::Array(Box::new(LlvmType::Integer(8)), 12);
    assert_eq!(
        convert_type(&ty),
        Ok(LlvmType::Struct(vec![floats, LlvmType::Integer(32), pad]))
    );
}

#[test]
fn recursive_types_are_searched_to_the_end() {
    // struct Node { payload, next: *Node }
    let node = |payload: MirType| {
        let next = pointer(MirType::Enclosing(2), GENERIC);
        MirType::Tuple(MirTupleType {
            types: vec![next, payload],
            mem_to_decl: vec![],
            field_offsets: vec![],
            total_size: 0,
            abi_align: 0,
        })
    };
    assert_eq!(find_unmodeled_enum_in_abi(&node(uint(32))), None);
    let fields = vec![LlvmType::Pointer(GENERIC), LlvmType::Integer(32)];
    assert_eq!(convert_type(&node(uint(32))).unwrap(), LlvmType::Struct(fields));
    let unknown = enum_type(
        "Guess",
        uint(8),
        vec![0],
        vec![unit("Only")],
        EnumEncoding::default(),
    );
    let found = find_unmodeled_enum_in_abi(&node(MirType::Enum(unknown)));
    assert_eq!(found, Some("Guess".to_string()));
    // A type cannot hold itself in place.
    let holder = MirType::Array(Box::new(MirType::Enclosing(1)), 2);
    assert_eq!(convert_type(&holder).err(), Some(LowerError::UnsupportedType));
}
