use mir_lower::abi::LlvmFuncType;
use mir_lower::cast::{convert, CastKind};
use mir_lower::error::LowerError;
use mir_lower::ir::{Builder, CastOp, Inst, Op, Value};
use mir_lower::llvm::{LlvmType, CONSTANT, GENERIC, GLOBAL, LOCAL, SHARED};
use mir_lower::mir::{
    EnumCarrierKind, EnumEncoding, EnumLayoutKind, MirEnumType, MirPtrType, MirStructType,
    MirType, Signedness,
};
use mir_lower::types::convert_type;

fn uint(width: u32) -> MirType {
    MirType::Integer(width, Signedness::Unsigned)
}

fn boolean() -> MirType {
    MirType::Integer(1, Signedness::Signless)
}

fn pointer(pointee: MirType, address_space: u32) -> MirType {
    MirType::Ptr(MirPtrType { pointee: Box::new(pointee), mutable: false, address_space })
}

fn array(element: MirType, len: u64) -> MirType {
    MirType::Array(Box::new(element), len)
}

fn struct_type(
    name: &str,
    fields: Vec<(&str, MirType)>,
    mem_to_decl: Vec<usize>,
    field_offsets: Vec<u64>,
    total_size: u64,
    abi_align: u64,
) -> MirStructType {
    let mut field_names = vec![];
    let mut field_types = vec![];
    for (field_name, ty) in fields {
        field_names.push(field_name.to_string());
        field_types.push(ty);
    }
    MirStructType {
        name: name.to_string(),
        field_names,
        field_types,
        mem_to_decl,
        field_offsets,
        total_size,
        abi_align,
    }
}

fn laid_out_struct(
    name: &str,
    fields: Vec<(&str, MirType)>,
    mem_to_decl: Vec<usize>,
    field_offsets: Vec<u64>,
    total_size: u64,
    abi_align: u64,
) -> MirType {
    MirType::Struct(struct_type(name, fields, mem_to_decl, field_offsets, total_size, abi_align))
}

/// One enum variant: its name and the type, offset and size of each payload
/// field.
type Variant = (&'static str, Vec<(MirType, u64, u64)>);

fn unit(name: &'static str) -> Variant {
    (name, vec![])
}

fn payload(name: &'static str, ty: MirType, offset: u64, size: u64) -> Variant {
    (name, vec![(ty, offset, size)])
}

fn enum_type(
    name: &str,
    discriminant_ty: MirType,
    variant_discriminants: Vec<u64>,
    variants: Vec<Variant>,
    encoding: EnumEncoding,
) -> MirEnumType {
    let mut e = MirEnumType {
        name: name.to_string(),
        discriminant_ty: Box::new(discriminant_ty),
        variant_names: vec![],
        variant_discriminants,
        variant_field_counts: vec![],
        all_field_types: vec![],
        all_field_offsets: vec![],
        all_field_sizes: vec![],
        encoding,
    };
    for (variant_name, fields) in variants {
        e.variant_names.push(variant_name.to_string());
        e.variant_field_counts.push(fields.len() as u32);
        for (ty, offset, size) in fields {
            e.all_field_types.push(ty);
            e.all_field_offsets.push(offset);
            e.all_field_sizes.push(size);
        }
    }
    e
}

fn count(b: &Builder, wanted: fn(&Op) -> bool) -> usize {
    b.insts.iter().filter(|inst| wanted(&inst.op)).count()
}

fn find_all(b: &Builder, wanted: fn(&Op) -> bool) -> Vec<&Inst> {
    b.insts.iter().filter(|inst| wanted(&inst.op)).collect()
}

fn is_cast(op: &Op, expected: CastOp) -> bool {
    matches!(op, Op::Cast { kind, .. } if *kind == expected)
}

fn sint(width: u32) -> MirType {
    MirType::Integer(width, Signedness::Signed)
}

/// Lowers one cast of an argument of type `source`.
fn try_cast(source: MirType, target: &MirType, kind: CastKind) -> Result<Builder, LowerError> {
    let mut b = Builder::new(vec![convert_type(&source).unwrap()]);
    let result = convert(&mut b, &vec![Value::Arg(0)], &vec![source], Some(kind), target)?;
    assert_eq!(*b.value_type(result), convert_type(target).unwrap());
    Ok(b)
}

fn lower(source: MirType, target: MirType, kind: CastKind) -> Builder {
    try_cast(source, &target, kind).expect("lowering failed")
}

/// The one call in a body, by its symbol.
fn called_symbol(b: &Builder) -> String {
    let calls = find_all(b, |op| matches!(op, Op::CallUnary { .. }));
    assert_eq!(calls.len(), 1, "expected exactly one call");
    match calls[0].op {
        Op::CallUnary { callee, .. } => callee.symbol(),
        _ => unreachable!(),
    }
}

/// The symbol and function type of the one declared intrinsic.
fn declared(b: &Builder) -> (String, &LlvmFuncType) {
    assert_eq!(b.declared.len(), 1, "expected exactly one declaration");
    (b.declared[0].intrinsic.symbol(), &b.declared[0].signature)
}

fn integer_niche_enum() -> MirType {
    MirType::Enum(enum_type(
        "MaybeNonZero",
        uint(8),
        vec![0, 1],
        vec![unit("None"), payload("Some", uint(32), 0, 4)],
        EnumEncoding {
            tag_offset: 0,
            total_size: 4,
            abi_align: 4,
            layout_kind: EnumLayoutKind::Niche,
            carrier_kind: EnumCarrierKind::Integer,
            carrier_width: 32,
            untagged_variant: 1,
            variant_inhabited: vec![1, 1],
            ..EnumEncoding::default()
        },
    ))
}

fn pointer_niche_enum() -> MirType {
    MirType::Enum(enum_type(
        "MaybeRef",
        uint(8),
        vec![0, 1],
        vec![unit("None"), payload("Some", pointer(uint(32), GENERIC), 0, 8)],
        EnumEncoding {
            tag_offset: 0,
            total_size: 8,
            abi_align: 8,
            layout_kind: EnumLayoutKind::Niche,
            carrier_kind: EnumCarrierKind::Pointer,
            carrier_width: 64,
            untagged_variant: 1,
            variant_inhabited: vec![1, 1],
            ..EnumEncoding::default()
        },
    ))
}

fn assert_physical_transmute_round_trip(b: &Builder) {
    assert_eq!(count(b, |op| matches!(op, Op::Alloca { .. })), 1);
    assert_eq!(count(b, |op| matches!(op, Op::Store { .. })), 1);
    assert_eq!(count(b, |op| matches!(op, Op::Load { .. })), 1);
    assert_eq!(count(b, |op| matches!(op, Op::ExtractValue { .. })), 0);
    assert_eq!(count(b, |op| matches!(op, Op::InsertValue { .. })), 0);
}

#[test]
fn transmute_between_integer_and_niche_enum_preserves_physical_bytes() {
    assert_physical_transmute_round_trip(&lower(
        uint(32),
        integer_niche_enum(),
        CastKind::Transmute,
    ));
    assert_physical_transmute_round_trip(&lower(
        integer_niche_enum(),
        uint(32),
        CastKind::Transmute,
    ));
}

#[test]
fn transmute_between_pointer_and_reference_niche_enum_is_not_field_coercion() {
    assert_physical_transmute_round_trip(&lower(
        pointer(uint(32), GENERIC),
        pointer_niche_enum(),
        CastKind::Transmute,
    ));
    assert_physical_transmute_round_trip(&lower(
        pointer_niche_enum(),
        pointer(uint(32), GENERIC),
        CastKind::Transmute,
    ));
}

#[test]
fn transmute_between_bool_and_byte_uses_explicit_integer_casts() {
    for bool_to_byte in [true, false] {
        let (source, target) =
            if bool_to_byte { (boolean(), uint(8)) } else { (uint(8), boolean()) };
        let b = lower(source, target, CastKind::Transmute);
        assert_eq!(count(&b, |op| matches!(op, Op::Alloca { .. })), 0);
        assert_eq!(count(&b, |op| matches!(op, Op::Store { .. })), 0);
        assert_eq!(count(&b, |op| matches!(op, Op::Load { .. })), 0);
        assert_eq!(count(&b, |op| is_cast(op, CastOp::ZExt)), usize::from(bool_to_byte));
        assert_eq!(count(&b, |op| is_cast(op, CastOp::Trunc)), usize::from(!bool_to_byte));
    }
}

#[test]
fn transmute_between_bool_and_byte_array_materializes_the_physical_byte() {
    for bool_to_bytes in [true, false] {
        let (source, target) = if bool_to_bytes {
            (boolean(), array(uint(8), 1))
        } else {
            (array(uint(8), 1), boolean())
        };
        let b = lower(source, target, CastKind::Transmute);
        assert_eq!(count(&b, |op| matches!(op, Op::Alloca { .. })), 1);
        assert_eq!(count(&b, |op| matches!(op, Op::Store { .. })), 1);
        assert_eq!(count(&b, |op| matches!(op, Op::Load { .. })), 1);
        assert_eq!(count(&b, |op| is_cast(op, CastOp::ZExt)), usize::from(bool_to_bytes));
        assert_eq!(count(&b, |op| is_cast(op, CastOp::Trunc)), usize::from(!bool_to_bytes));

        if bool_to_bytes {
            let stores = find_all(&b, |op| matches!(op, Op::Store { .. }));
            let stored = match stores[0].op {
                Op::Store { value, .. } => b.value_type(value),
                _ => unreachable!(),
            };
            assert_eq!(*stored, LlvmType::Integer(8), "the memory store must be i8");
        } else {
            let loads = find_all(&b, |op| matches!(op, Op::Load { .. }));
            assert_eq!(loads[0].ty, LlvmType::Integer(8), "the memory load must be i8");
        }
    }
}

#[test]
fn transmute_from_bool_wrapper_rejects_unspecified_upper_byte_bits() {
    let wrapper =
        laid_out_struct("BoolWrapper", vec![("value", boolean())], vec![0], vec![0], 1, 1);
    assert_eq!(
        try_cast(wrapper, &uint(8), CastKind::Transmute),
        Err(LowerError::TransmuteNotByteFaithful)
    );
}

#[test]
fn unsupported_shared_pointer_transmutes_reject_target_dependent_width() {
    for (wrap_pointer, pointer_is_source) in [(false, false), (true, false), (true, true)] {
        let shared_pointer = pointer(uint(32), SHARED);
        let pointer_shape = if wrap_pointer {
            laid_out_struct(
                "SharedPointerWrapper",
                vec![("pointer", shared_pointer)],
                vec![0],
                vec![0],
                8,
                8,
            )
        } else {
            shared_pointer
        };
        let (source, target) =
            if pointer_is_source { (pointer_shape, uint(64)) } else { (uint(64), pointer_shape) };
        assert_eq!(
            try_cast(source, &target, CastKind::Transmute),
            Err(LowerError::TransmuteShared)
        );
    }
}

#[test]
fn shared_pointer_to_integer_transmute_genericizes_before_ptr_to_int() {
    let b = lower(pointer(uint(32), SHARED), uint(64), CastKind::Transmute);
    assert_eq!(count(&b, |op| is_cast(op, CastOp::PtrToInt)), 1);
    assert_eq!(
        count(&b, |op| is_cast(op, CastOp::AddrSpaceCast)),
        1,
        "shared pointers must become generic before ptr::addr() observes them"
    );
}

#[test]
fn int_to_int_signed_widen_lowers_to_s_ext() {
    let b = lower(sint(8), sint(32), CastKind::IntToInt);
    assert_eq!(count(&b, |op| is_cast(op, CastOp::SExt)), 1);
}

#[test]
fn int_to_int_unsigned_widen_lowers_to_z_ext() {
    let b = lower(uint(8), uint(32), CastKind::IntToInt);
    assert_eq!(count(&b, |op| is_cast(op, CastOp::ZExt)), 1);
}

#[test]
fn int_to_int_narrow_lowers_to_trunc() {
    let b = lower(sint(32), sint(8), CastKind::IntToInt);
    assert_eq!(count(&b, |op| is_cast(op, CastOp::Trunc)), 1);
}

#[test]
fn int_to_float_unsigned_lowers_to_ui_to_fp() {
    let b = lower(uint(32), MirType::Fp32, CastKind::IntToFloat);
    assert_eq!(count(&b, |op| is_cast(op, CastOp::UIToFP)), 1);
}

#[test]
fn float_to_int_signed_lowers_to_saturating_intrinsic_call() {
    let b = lower(MirType::Fp32, sint(32), CastKind::FloatToInt);
    assert_eq!(called_symbol(&b), "llvm_fptosi_sat_i32_f32");
    let signature = LlvmFuncType { result: LlvmType::Integer(32), inputs: vec![LlvmType::Float] };
    assert_eq!(declared(&b), ("llvm_fptosi_sat_i32_f32".to_string(), &signature));
}

#[test]
fn pointer_expose_address_lowers_to_ptr_to_int() {
    let b = lower(pointer(uint(32), GENERIC), uint(64), CastKind::PointerExposeAddress);
    assert_eq!(count(&b, |op| is_cast(op, CastOp::PtrToInt)), 1);
    assert_eq!(
        count(&b, |op| is_cast(op, CastOp::AddrSpaceCast)),
        0,
        "generic pointers need no address-space conversion"
    );
}

#[test]
fn named_space_pointer_expose_address_genericizes_before_ptr_to_int() {
    for address_space in [GLOBAL, SHARED, CONSTANT, LOCAL] {
        let b = lower(pointer(uint(32), address_space), uint(64), CastKind::PointerExposeAddress);
        assert_eq!(count(&b, |op| is_cast(op, CastOp::PtrToInt)), 1);
        assert_eq!(
            count(&b, |op| is_cast(op, CastOp::AddrSpaceCast)),
            1,
            "address space {address_space} must become generic before exposing its address"
        );
    }
}

#[test]
fn int_to_int_same_width_lowers_to_bitcast() {
    let b = lower(sint(32), uint(32), CastKind::IntToInt);
    assert_eq!(count(&b, |op| is_cast(op, CastOp::Bitcast)), 1);
}

#[test]
fn int_to_float_signed_lowers_to_si_to_fp() {
    let b = lower(sint(32), MirType::Fp32, CastKind::IntToFloat);
    assert_eq!(count(&b, |op| is_cast(op, CastOp::SIToFP)), 1);
}

#[test]
fn float_to_int_unsigned_lowers_to_unsigned_saturating_intrinsic_call() {
    let b = lower(MirType::Fp32, uint(32), CastKind::FloatToInt);
    assert_eq!(called_symbol(&b), "llvm_fptoui_sat_i32_f32");
    let signature = LlvmFuncType { result: LlvmType::Integer(32), inputs: vec![LlvmType::Float] };
    assert_eq!(declared(&b), ("llvm_fptoui_sat_i32_f32".to_string(), &signature));
}

#[test]
fn float_to_float_widen_lowers_to_fp_ext() {
    let b = lower(MirType::Fp32, MirType::Fp64, CastKind::FloatToFloat);
    assert_eq!(count(&b, |op| is_cast(op, CastOp::FPExt)), 1);
}

#[test]
fn float_to_float_narrow_lowers_to_fp_trunc() {
    let b = lower(MirType::Fp64, MirType::Fp32, CastKind::FloatToFloat);
    assert_eq!(count(&b, |op| is_cast(op, CastOp::FPTrunc)), 1);
}

#[test]
fn pointer_with_exposed_provenance_lowers_to_int_to_ptr() {
    let b = lower(uint(64), pointer(uint(32), GENERIC), CastKind::PointerWithExposedProvenance);
    assert_eq!(count(&b, |op| is_cast(op, CastOp::IntToPtr)), 1);
    assert_eq!(
        count(&b, |op| is_cast(op, CastOp::AddrSpaceCast)),
        0,
        "generic pointers need no address-space conversion"
    );
}

#[test]
fn named_space_pointer_with_exposed_provenance_enters_through_generic() {
    for address_space in [GLOBAL, SHARED, CONSTANT, LOCAL] {
        let b = lower(
            uint(64),
            pointer(uint(32), address_space),
            CastKind::PointerWithExposedProvenance,
        );
        let casts = find_all(&b, |op| is_cast(op, CastOp::AddrSpaceCast));
        assert_eq!(casts.len(), 1);
        assert_eq!(
            count(&b, |op| is_cast(op, CastOp::IntToPtr)),
            1,
            "address space {address_space} must re-enter through a generic inttoptr"
        );
        assert_eq!(
            casts[0].ty,
            LlvmType::Pointer(address_space),
            "the addrspacecast must land in the destination space"
        );
    }
}

#[test]
fn ptr_to_ptr_different_addrspace_lowers_to_addrspace_cast() {
    let b = lower(pointer(uint(32), GENERIC), pointer(uint(32), SHARED), CastKind::PtrToPtr);
    let casts = find_all(&b, |op| is_cast(op, CastOp::AddrSpaceCast));
    assert_eq!(casts.len(), 1);
    assert_eq!(casts[0].ty, LlvmType::Pointer(3));
}

fn unsize(address_space: u32) -> Builder {
    let source = MirType::Ptr(MirPtrType {
        pointee: Box::new(array(MirType::Fp32, 16)),
        mutable: true,
        address_space,
    });
    let slice = MirType::Slice(Box::new(MirType::Fp32));
    lower(source, slice, CastKind::PointerCoercionUnsize)
}

/// The data pointer slot of a slice is generic, so a shared array pointer is
/// converted before it goes in.
#[test]
fn shared_array_unsize_coerces_data_pointer_to_slice_addrspace() {
    let b = unsize(SHARED);
    assert_eq!(
        count(&b, |op| is_cast(op, CastOp::AddrSpaceCast)),
        1,
        "shared -> generic data pointer must be addrspacecast before insertion"
    );
    assert_eq!(
        count(&b, |op| matches!(op, Op::InsertValue { .. })),
        2,
        "fat pointer construction must insert data pointer and length"
    );
    assert_eq!(
        count(&b, |op| matches!(op, Op::Constant { width: 64, bits: 16 })),
        1,
        "the length is the array's"
    );
}

#[test]
fn generic_array_unsize_needs_no_addrspace_coercion() {
    let b = unsize(GENERIC);
    assert_eq!(
        count(&b, |op| is_cast(op, CastOp::AddrSpaceCast)),
        0,
        "matching address spaces must not introduce an addrspacecast"
    );
    assert_eq!(
        count(&b, |op| matches!(op, Op::InsertValue { .. })),
        2,
        "fat pointer construction must insert data pointer and length"
    );
}

#[test]
fn transmute_needs_equal_sizes() {
    assert_eq!(
        try_cast(uint(32), &uint(64), CastKind::Transmute),
        Err(LowerError::TransmuteSize { source: 4, target: 8 })
    );
    for space in [GENERIC, GLOBAL, SHARED] {
        assert_eq!(
            try_cast(pointer(uint(8), space), &uint(32), CastKind::Transmute),
            Err(LowerError::TransmuteSize { source: 8, target: 4 })
        );
        assert_eq!(
            try_cast(pointer(uint(8), space), &uint(128), CastKind::Transmute),
            Err(LowerError::TransmuteSize { source: 8, target: 16 })
        );
    }
}

#[test]
fn casts_need_matching_types() {
    assert_eq!(
        try_cast(MirType::Fp32, &uint(8), CastKind::IntToInt),
        Err(LowerError::CastSourceNotInteger)
    );
    assert_eq!(
        try_cast(uint(8), &MirType::Fp32, CastKind::IntToInt),
        Err(LowerError::CastTargetNotInteger)
    );
    assert_eq!(
        try_cast(MirType::Fp32, &uint(8), CastKind::FloatToFloat),
        Err(LowerError::CastNotFloat)
    );
}

#[test]
fn casts_need_one_operand_and_a_kind() {
    let mut b = Builder::new(vec![LlvmType::Integer(8)]);
    assert_eq!(
        convert(&mut b, &vec![], &vec![], Some(CastKind::IntToInt), &uint(8)),
        Err(LowerError::CastOperands { operands: 0 })
    );
    assert_eq!(
        convert(&mut b, &vec![Value::Arg(0)], &vec![uint(8)], None, &uint(8)),
        Err(LowerError::CastKindMissing)
    );
    assert!(b.insts.is_empty());
}
