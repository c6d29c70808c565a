use mir_lower::aggregate::convert_construct_tuple;
use mir_lower::cast::{convert, CastKind};
use mir_lower::enum_access::{
    contiguous_direct_enum_upper_bound, convert_enum_payload, convert_get_discriminant,
    convert_set_discriminant, is_bounded_fieldless_enum_niche_payload,
};
use mir_lower::enum_bytes::{has_top_level_pointer_field, llvm_struct_fields_at_offsets};
use mir_lower::enum_ops::{convert_construct_enum, enum_carrier_bits_for_variant};
use mir_lower::error::LowerError;
use mir_lower::field_addr::convert_field_addr;
use mir_lower::ir::{
    BinOp, Builder, CastOp, GepIndex, GepPath, Inst, Intrinsic, Op, Predicate, Value,
};
use mir_lower::llvm::{LlvmType, GENERIC, SHARED};
use mir_lower::memory::convert_load;
use mir_lower::mir::{
    EnumCarrierKind, EnumEncoding, EnumLayoutKind, MirEnumType, MirPtrType, MirStructType,
    MirTupleType, MirType, Signedness,
};
use mir_lower::operands::Operand;
use mir_lower::types::{build_enum_slot_map, convert_type};

fn uint(width: u32) -> MirType {
    MirType::Integer(width, Signedness::Unsigned)
}

fn boolean() -> MirType {
    MirType::Integer(1, Signedness::Signless)
}

fn pointer(pointee: MirType, address_space: u32) -> MirType {
    MirType::Ptr(MirPtrType { pointee: Box::new(pointee), mutable: false, address_space })
}

fn struct_type(
    name: &str,
    fields: Vec<(&str, MirType)>,
    mem_to_decl: Vec<usize>,
    field_offsets: Vec<u64>,
    total_size: u64,
    abi_align: u64,
) -> MirStructType {
    let mut field_names = vec![];
    let mut field_types = vec![];
    for (field_name, ty) in fields {
        field_names.push(field_name.to_string());
        field_types.push(ty);
    }
    MirStructType {
        name: name.to_string(),
        field_names,
        field_types,
        mem_to_decl,
        field_offsets,
        total_size,
        abi_align,
    }
}

fn laid_out_struct(
    name: &str,
    fields: Vec<(&str, MirType)>,
    mem_to_decl: Vec<usize>,
    field_offsets: Vec<u64>,
    total_size: u64,
    abi_align: u64,
) -> MirType {
    MirType::Struct(struct_type(name, fields, mem_to_decl, field_offsets, total_size, abi_align))
}

fn laid_out_tuple(
    types: Vec<MirType>,
    mem_to_decl: Vec<usize>,
    field_offsets: Vec<u64>,
    total_size: u64,
    abi_align: u64,
) -> MirType {
    MirType::Tuple(MirTupleType { types, mem_to_decl, field_offsets, total_size, abi_align })
}

fn tuple(types: Vec<MirType>) -> MirType {
    laid_out_tuple(types, vec![], vec![], 0, 0)
}

/// One enum variant: its name and the type, offset and size of each payload
/// field.
type Variant = (&'static str, Vec<(MirType, u64, u64)>);

fn unit(name: &'static str) -> Variant {
    (name, vec![])
}

fn payload(name: &'static str, ty: MirType, offset: u64, size: u64) -> Variant {
    (name, vec![(ty, offset, size)])
}

fn enum_type(
    name: &str,
    discriminant_ty: MirType,
    variant_discriminants: Vec<u64>,
    variants: Vec<Variant>,
    encoding: EnumEncoding,
) -> MirEnumType {
    let mut e = MirEnumType {
        name: name.to_string(),
        discriminant_ty: Box::new(discriminant_ty),
        variant_names: vec![],
        variant_discriminants,
        variant_field_counts: vec![],
        all_field_types: vec![],
        all_field_offsets: vec![],
        all_field_sizes: vec![],
        encoding,
    };
    for (variant_name, fields) in variants {
        e.variant_names.push(variant_name.to_string());
        e.variant_field_counts.push(fields.len() as u32);
        for (ty, offset, size) in fields {
            e.all_field_types.push(ty);
            e.all_field_offsets.push(offset);
            e.all_field_sizes.push(size);
        }
    }
    e
}

/// An enum with a tag of the discriminant type, all of whose variants can
/// exist.
fn tagged_enum(
    name: &str,
    width: u32,
    variant_discriminants: Vec<u64>,
    variants: Vec<Variant>,
    tag_offset: u64,
    total_size: u64,
    abi_align: u64,
) -> MirEnumType {
    let variant_inhabited = vec![1; variants.len()];
    enum_type(
        name,
        uint(width),
        variant_discriminants,
        variants,
        EnumEncoding {
            tag_offset,
            total_size,
            abi_align,
            layout_kind: EnumLayoutKind::Direct,
            carrier_kind: EnumCarrierKind::Integer,
            carrier_width: width,
            variant_inhabited,
            ..EnumEncoding::default()
        },
    )
}

fn count(b: &Builder, wanted: fn(&Op) -> bool) -> usize {
    b.insts.iter().filter(|inst| wanted(&inst.op)).count()
}

fn find_all(b: &Builder, wanted: fn(&Op) -> bool) -> Vec<&Inst> {
    b.insts.iter().filter(|inst| wanted(&inst.op)).collect()
}

fn is_cast(op: &Op, expected: CastOp) -> bool {
    matches!(op, Op::Cast { kind, .. } if *kind == expected)
}

/// Code whose arguments have these Rust types.
fn body_of(args: &[MirType]) -> Builder {
    Builder::new(args.iter().map(|ty| convert_type(ty).unwrap()).collect())
}

fn allocas(b: &Builder) -> usize {
    count(b, |op| matches!(op, Op::Alloca { .. }))
}

fn stores(b: &Builder) -> usize {
    count(b, |op| matches!(op, Op::Store { .. }))
}

fn loads(b: &Builder) -> usize {
    count(b, |op| matches!(op, Op::Load { .. }))
}

fn geps(b: &Builder) -> Vec<&Inst> {
    find_all(b, |op| matches!(op, Op::GetElementPtr { .. }))
}

fn direct(size: u64, align: u64, width: u32, variant_inhabited: Vec<u8>) -> EnumEncoding {
    EnumEncoding {
        tag_offset: 0,
        total_size: size,
        abi_align: align,
        layout_kind: EnumLayoutKind::Direct,
        carrier_kind: EnumCarrierKind::Integer,
        carrier_width: width,
        variant_inhabited,
        ..EnumEncoding::default()
    }
}

fn niche(
    tag_offset: u64,
    size: u64,
    align: u64,
    carrier_kind: EnumCarrierKind,
    carrier_width: u32,
) -> EnumEncoding {
    EnumEncoding {
        tag_offset,
        total_size: size,
        abi_align: align,
        layout_kind: EnumLayoutKind::Niche,
        carrier_kind,
        carrier_width,
        untagged_variant: 1,
        variant_inhabited: vec![1, 1],
        ..EnumEncoding::default()
    }
}

fn axis() -> MirEnumType {
    enum_type(
        "Axis",
        uint(64),
        vec![0, 1, 2],
        vec![unit("X"), unit("Y"), unit("Z")],
        direct(8, 8, 64, vec![1, 1, 1]),
    )
}

/// An optional [`axis`], whose empty variant is the carrier value 3.
fn optional_axis() -> MirEnumType {
    enum_type(
        "Option",
        uint(64),
        vec![0, 1],
        vec![unit("None"), payload("Some", MirType::Enum(axis()), 0, 8)],
        EnumEncoding { niche_start: 3, ..niche(0, 8, 8, EnumCarrierKind::Integer, 64) },
    )
}

#[test]
fn direct_enum_range_accepts_contiguous_fieldless_and_data_bearing_enums() {
    let axis = enum_type(
        "Axis",
        uint(32),
        vec![0, 1, 2],
        vec![unit("X"), unit("Y"), unit("Z")],
        direct(4, 4, 32, vec![1, 1, 1]),
    );
    assert_eq!(contiguous_direct_enum_upper_bound(&axis, 32), Some(3));

    let data = enum_type(
        "Payload",
        uint(32),
        vec![0, 1],
        vec![payload("First", uint(32), 4, 4), payload("Second", uint(32), 4, 4)],
        direct(8, 4, 32, vec![1, 1]),
    );
    assert_eq!(contiguous_direct_enum_upper_bound(&data, 32), Some(2));
}

#[test]
fn direct_enum_range_rejects_non_contiguous_or_partial_validity_sets() {
    for (name, discriminants, inhabited) in [
        ("Sparse", vec![0, 7], vec![1, 1]),
        ("NonZero", vec![1, 2], vec![1, 1]),
        ("Negative", vec![255, 0], vec![1, 1]),
        ("Uninhabited", vec![0, 1], vec![1, 0]),
    ] {
        let e = enum_type(
            name,
            uint(8),
            discriminants,
            vec![unit("A"), unit("B")],
            direct(1, 1, 8, inhabited),
        );
        assert_eq!(
            contiguous_direct_enum_upper_bound(&e, 8),
            None,
            "{name} must not produce a contiguous range fact"
        );
    }
}

#[test]
fn direct_enum_range_rejects_other_layouts_and_full_width_ranges() {
    let niched = enum_type(
        "Niche",
        uint(8),
        vec![0, 1],
        vec![unit("None"), payload("Some", uint(8), 0, 1)],
        EnumEncoding { niche_start: 2, ..niche(0, 1, 1, EnumCarrierKind::Integer, 8) },
    );
    assert_eq!(contiguous_direct_enum_upper_bound(&niched, 8), None);

    let single = enum_type(
        "Single",
        uint(8),
        vec![0],
        vec![unit("Only")],
        EnumEncoding {
            abi_align: 1,
            layout_kind: EnumLayoutKind::Single,
            variant_inhabited: vec![1],
            ..EnumEncoding::default()
        },
    );
    assert_eq!(contiguous_direct_enum_upper_bound(&single, 8), None);

    let full = enum_type(
        "FullU8",
        uint(8),
        (0..256).collect(),
        (0..256).map(|_| unit("V")).collect(),
        direct(1, 1, 8, vec![1; 256]),
    );
    assert_eq!(
        contiguous_direct_enum_upper_bound(&full, 8),
        None,
        "a full-width validity set has no representable exclusive upper bound"
    );
}

#[test]
fn contiguous_direct_discriminant_reads_share_one_assume_declaration() {
    let axis = || {
        MirType::Enum(enum_type(
            "Axis",
            uint(32),
            vec![0, 1, 2],
            vec![unit("X"), unit("Y"), unit("Z")],
            direct(4, 4, 32, vec![1, 1, 1]),
        ))
    };
    let data = || {
        MirType::Enum(enum_type(
            "Payload",
            uint(32),
            vec![0, 1],
            vec![payload("First", uint(32), 4, 4), payload("Second", uint(32), 4, 4)],
            direct(8, 4, 32, vec![1, 1]),
        ))
    };
    let mut b = body_of(&[axis(), data()]);
    for (arg, ty) in [axis(), data()].into_iter().enumerate() {
        let value = Value::Arg(arg);
        convert_get_discriminant(&mut b, &Operand { value, history: &vec![ty] }).unwrap();
    }
    let calls = find_all(&b, |op| matches!(op, Op::CallUnary { .. }));
    assert_eq!(calls.len(), 2);
    for call in calls {
        match call.op {
            Op::CallUnary { callee, .. } => {
                assert_eq!(callee, Intrinsic::Assume);
                assert_eq!(callee.symbol(), "llvm_assume");
            },
            _ => unreachable!(),
        }
    }
    assert_eq!(b.declared.len(), 1, "both reads share one declaration");
    assert_eq!(b.declared[0].intrinsic, Intrinsic::Assume);
    assert_eq!(b.declared[0].signature.result, LlvmType::Void);
    assert_eq!(b.declared[0].signature.inputs, vec![LlvmType::Integer(1)]);
    assert_eq!(count(&b, |op| matches!(op, Op::Compare { predicate: Predicate::Ult, .. })), 2);
    // The exclusive bounds are the numbers of variants.
    assert_eq!(count(&b, |op| matches!(op, Op::Constant { width: 32, bits: 3 })), 1);
    assert_eq!(count(&b, |op| matches!(op, Op::Constant { width: 32, bits: 2 })), 1);
}

#[test]
fn construct_enum_uses_declared_discriminant_not_variant_index() {
    let e = enum_type(
        "OrderingLike",
        MirType::Integer(8, Signedness::Signed),
        vec![255, 0, 1],
        vec![unit("Less"), unit("Equal"), unit("Greater")],
        direct(1, 1, 8, vec![1, 1, 1]),
    );
    let mut b = body_of(&[]);
    convert_construct_enum(&mut b, &MirType::Enum(e), &vec![], Some(0)).unwrap();
    let inserts = find_all(&b, |op| matches!(op, Op::InsertValue { .. }));
    assert_eq!(inserts.len(), 1, "only the tag is inserted");
    match inserts[0].op {
        Op::InsertValue { value, index, .. } => {
            assert_eq!(index, 0);
            assert_eq!(b.defining_op(value), Some(Op::Constant { width: 8, bits: 255 }));
        },
        _ => unreachable!(),
    }
}

#[test]
fn nested_pointer_niche_tuple_construct_extract_and_discriminant_lower() {
    let tuple_ty = || tuple(vec![uint(64), pointer(uint(32), GENERIC)]);
    let option = || {
        enum_type(
            "Option",
            MirType::Integer(64, Signedness::Signed),
            vec![0, 1],
            vec![unit("None"), payload("Some", tuple_ty(), 0, 16)],
            niche(8, 16, 8, EnumCarrierKind::Pointer, 64),
        )
    };
    let map = build_enum_slot_map(&option()).unwrap();
    assert_eq!(map.carrier_slot, Some(1));
    assert_eq!(map.field_slots, vec![None]);

    let mut b = body_of(&[uint(64), pointer(uint(32), GENERIC)]);
    let operands = vec![Value::Arg(0), Value::Arg(1)];
    let tuple_value = convert_construct_tuple(&mut b, &tuple_ty(), &operands).unwrap();
    let option_ty = MirType::Enum(option());
    let value =
        convert_construct_enum(&mut b, &option_ty, &vec![tuple_value], Some(1)).unwrap();
    let history = vec![option_ty];
    let operand = Operand { value, history: &history };
    convert_enum_payload(&mut b, &operand, Some(1), Some(0)).unwrap();
    convert_get_discriminant(&mut b, &operand).unwrap();

    assert_eq!(count(&b, |op| is_cast(op, CastOp::IntToPtr)), 0);
    assert_eq!(count(&b, |op| is_cast(op, CastOp::PtrToInt)), 1);
    assert_eq!(stores(&b), 2, "construction spills once and writes the tuple payload");
    assert_eq!(loads(&b), 1, "construction reloads the enum while extraction stays in SSA");

    // The payload moves as one unit, never field by field.
    let lowered = convert_type(&tuple_ty()).unwrap();
    let field_types = match &lowered {
        LlvmType::Struct(fields) => fields,
        _ => panic!("the lowered tuple is an LLVM struct"),
    };
    let mut stored_whole = 0;
    for store in find_all(&b, |op| matches!(op, Op::Store { .. })) {
        if let Op::Store { value, .. } = store.op {
            let ty = b.value_type(value);
            assert!(!field_types.contains(ty), "the payload must be stored whole");
            if *ty == lowered {
                stored_whole += 1;
            }
        }
    }
    assert!(stored_whole > 0, "at least one store must move the complete payload");
    for load in find_all(&b, |op| matches!(op, Op::Load { .. })) {
        assert!(!field_types.contains(&load.ty), "the payload must be read whole");
    }
}

#[test]
fn byte_faithful_enum_ssa_accepts_pointer_payload_without_bounded_override() {
    let integer_payload = LlvmType::Struct(vec![LlvmType::Integer(64)]);
    let pointer_payload =
        LlvmType::Struct(vec![LlvmType::Integer(64), LlvmType::Pointer(GENERIC)]);
    let (integer_fields, _) = llvm_struct_fields_at_offsets(&integer_payload).unwrap();
    let (pointer_fields, offsets) = llvm_struct_fields_at_offsets(&pointer_payload).unwrap();
    assert!(!has_top_level_pointer_field(integer_fields));
    assert!(has_top_level_pointer_field(pointer_fields));
    assert_eq!(offsets, vec![0, 8]);
}

#[test]
fn bounded_fieldless_enum_niche_payload_is_the_only_integer_override() {
    let option = optional_axis();
    assert!(is_bounded_fieldless_enum_niche_payload(&option, 1, 0));

    let mut integer_option = optional_axis();
    integer_option.all_field_types[0] = uint(64);
    assert!(
        !is_bounded_fieldless_enum_niche_payload(&integer_option, 1, 0),
        "an arbitrary integer Option payload must retain the spill path"
    );
    assert!(!is_bounded_fieldless_enum_niche_payload(&option, 0, 0));
}

#[test]
fn option_axis_payload_extraction_stays_in_ssa() {
    let map = build_enum_slot_map(&optional_axis()).unwrap();
    assert_eq!(
        map.field_slots,
        vec![None],
        "Option<Axis> shares its integer niche carrier with the Axis payload"
    );
    let option = || MirType::Enum(optional_axis());
    let mut b = body_of(&[option()]);
    let value = convert_enum_payload(
        &mut b,
        &Operand { value: Value::Arg(0), history: &vec![option()] },
        Some(1),
        Some(0),
    )
    .unwrap();
    let history = vec![MirType::Enum(axis())];
    convert_get_discriminant(&mut b, &Operand { value, history: &history }).unwrap();
    assert_eq!(allocas(&b), 0);
    assert_eq!(stores(&b), 0);
    assert_eq!(loads(&b), 0);
}

/// The constant byte offset of the one address in a body.
fn byte_offset(b: &Builder) -> u128 {
    let all = geps(b);
    assert_eq!(all.len(), 1);
    match all[0].op {
        Op::GetElementPtr { path: GepPath::One(GepIndex::Value(offset)), .. } => {
            match b.defining_op(offset) {
                Some(Op::Constant { bits, .. }) => bits,
                _ => panic!("byte offset must be constant"),
            }
        },
        _ => panic!("carrier access must use a byte-offset SSA value"),
    }
}

#[test]
fn set_discriminant_uses_tag_slot_and_preserves_shared_address_space() {
    let tag_offset = u64::from(u32::MAX) + 1;
    let ptr = || {
        pointer(
            MirType::Enum(tagged_enum(
                "TagAfterPayload",
                8,
                vec![3, 7],
                vec![payload("A", uint(64), 0, 8), payload("B", uint(64), 0, 8)],
                tag_offset,
                tag_offset + 8,
                8,
            )),
            SHARED,
        )
    };
    let mut b = body_of(&[ptr()]);
    let operand = Operand { value: Value::Arg(0), history: &vec![ptr()] };
    convert_set_discriminant(&mut b, &operand, Some(1)).unwrap();
    assert_eq!(stores(&b), 1);
    assert_eq!(byte_offset(&b), u128::from(tag_offset));
    assert_eq!(geps(&b)[0].ty, LlvmType::Pointer(SHARED));
    let gep_at = b
        .insts
        .iter()
        .position(|inst| matches!(inst.op, Op::GetElementPtr { .. }))
        .unwrap();
    match find_all(&b, |op| matches!(op, Op::Store { .. }))[0].op {
        Op::Store { value, ptr, .. } => {
            assert_eq!(b.defining_op(value), Some(Op::Constant { width: 8, bits: 7 }));
            assert_eq!(ptr, Value::Inst(gep_at), "the store must use the tag address");
        },
        _ => unreachable!(),
    }
}

fn unit_niche_enum(
    carrier: (EnumCarrierKind, u32, u32),
    niche_start: u128,
    niche_range: (u32, u32),
    untagged_variant: u32,
    inhabited: Vec<u8>,
) -> MirEnumType {
    let (carrier_kind, carrier_width, carrier_address_space) = carrier;
    let logical_width = if inhabited.len() > 255 { 16 } else { 8 };
    let carrier_size = u64::from(carrier_width).div_ceil(8);
    enum_type(
        "UnitNiche",
        uint(logical_width),
        (0..inhabited.len() as u64).collect(),
        inhabited.iter().map(|_| unit("V")).collect(),
        EnumEncoding {
            tag_offset: 0,
            total_size: carrier_size,
            abi_align: carrier_size.next_power_of_two().min(16),
            layout_kind: EnumLayoutKind::Niche,
            carrier_kind,
            carrier_width,
            carrier_address_space,
            niche_start,
            niche_variant_start: niche_range.0,
            niche_variant_end: niche_range.1,
            untagged_variant,
            variant_inhabited: inhabited,
            ..EnumEncoding::default()
        },
    )
}

#[test]
fn niche_encoding_handles_untagged_inside_range_and_u128_wrap() {
    let inside =
        unit_niche_enum((EnumCarrierKind::Integer, 8, 0), 42, (0, 1), 1, vec![1, 1]);
    assert_eq!(enum_carrier_bits_for_variant(&inside, 0), Ok(Some(42)));
    assert_eq!(
        enum_carrier_bits_for_variant(&inside, 1),
        Ok(None),
        "the untagged variant is a no-op even when its index is in the niche range"
    );

    let wrapping =
        unit_niche_enum((EnumCarrierKind::Integer, 128, 0), u128::MAX, (0, 1), 0, vec![1, 1]);
    assert_eq!(
        enum_carrier_bits_for_variant(&wrapping, 1),
        Ok(Some(0)),
        "niche arithmetic must wrap across the full u128 carrier"
    );
}

#[test]
fn set_discriminant_niche_writes_only_tagged_variant_carrier() {
    for (target, expected_stores) in [(0, 1), (1, 0)] {
        let ptr = || {
            pointer(
                MirType::Enum(unit_niche_enum(
                    (EnumCarrierKind::Integer, 8, 0),
                    0,
                    (0, 0),
                    1,
                    vec![1, 1],
                )),
                GENERIC,
            )
        };
        let mut b = body_of(&[ptr()]);
        let operand = Operand { value: Value::Arg(0), history: &vec![ptr()] };
        convert_set_discriminant(&mut b, &operand, Some(target)).unwrap();
        assert_eq!(stores(&b), expected_stores);
    }
}

#[test]
fn shared_pointer_niche_carrier_rejects_target_dependent_width() {
    let e = unit_niche_enum((EnumCarrierKind::Pointer, 64, 3), 0, (0, 0), 1, vec![1, 1]);
    assert_eq!(build_enum_slot_map(&e).err(), Some(LowerError::EnumSharedCarrier));
}

fn shared() -> MirType {
    pointer(uint(32), SHARED)
}

fn optional_shared() -> MirType {
    MirType::Enum(enum_type(
        "OptionShared",
        MirType::Integer(64, Signedness::Signed),
        vec![0, 1],
        vec![unit("None"), payload("Some", shared(), 0, 8)],
        niche(0, 8, 8, EnumCarrierKind::Pointer, 64),
    ))
}

#[test]
fn shared_pointer_niche_payload_round_trips_through_generic_storage() {
    let mut b = body_of(&[shared()]);
    let value =
        convert_construct_enum(&mut b, &optional_shared(), &vec![Value::Arg(0)], Some(1)).unwrap();
    let history = vec![optional_shared()];
    let operand = Operand { value, history: &history };
    convert_get_discriminant(&mut b, &operand).unwrap();
    let read = convert_enum_payload(&mut b, &operand, Some(1), Some(0)).unwrap();
    assert_eq!(*b.value_type(read), LlvmType::Pointer(SHARED));
    assert_eq!(
        count(&b, |op| is_cast(op, CastOp::AddrSpaceCast)),
        2,
        "construction must genericize the pointer and extraction must restore shared space"
    );
    assert_eq!(
        count(&b, |op| is_cast(op, CastOp::PtrToInt)),
        1,
        "niche discrimination must inspect the generic pointer carrier"
    );
}

#[test]
fn nested_shared_pointer_payload_round_trips_through_recursive_storage() {
    let inner = || {
        laid_out_struct(
            "SharedPointerInner",
            vec![("pointer", shared()), ("cookie", uint(32))],
            vec![0, 1],
            vec![0, 8],
            16,
            8,
        )
    };
    let outer = || {
        laid_out_struct(
            "SharedPointerOuter",
            vec![("inner", inner()), ("guard", uint(32))],
            vec![0, 1],
            vec![0, 16],
            24,
            8,
        )
    };
    let e = || {
        MirType::Enum(enum_type(
            "NestedSharedPointer",
            uint(32),
            vec![0, 1],
            vec![unit("None"), payload("Some", outer(), 8, 24)],
            direct(32, 8, 32, vec![1, 1]),
        ))
    };
    let mut b = body_of(&[outer()]);
    let value = convert_construct_enum(&mut b, &e(), &vec![Value::Arg(0)], Some(1)).unwrap();
    let history = vec![e()];
    convert_enum_payload(&mut b, &Operand { value, history: &history }, Some(1), Some(0)).unwrap();
    assert_eq!(
        count(&b, |op| is_cast(op, CastOp::AddrSpaceCast)),
        2,
        "construction and extraction must cast the nested shared pointer leaf"
    );
}

fn zero_extends_bool(b: &Builder) -> bool {
    b.insts.iter().any(|inst| match inst.op {
        Op::Cast { kind: CastOp::ZExt, value } => {
            *b.value_type(value) == LlvmType::Integer(1) && inst.ty == LlvmType::Integer(8)
        },
        _ => false,
    })
}

fn stores_byte(b: &Builder) -> bool {
    b.insts.iter().any(|inst| match inst.op {
        Op::Store { value, .. } => *b.value_type(value) == LlvmType::Integer(8),
        _ => false,
    })
}

#[test]
fn option_bool_uses_i8_carrier_and_spills_i1_payload() {
    let e = || {
        enum_type(
            "OptionBool",
            uint(8),
            vec![0, 1],
            vec![unit("None"), payload("Some", boolean(), 0, 1)],
            EnumEncoding { niche_start: 2, ..niche(0, 1, 1, EnumCarrierKind::Integer, 8) },
        )
    };
    let map = build_enum_slot_map(&e()).unwrap();
    assert_eq!(
        map.carrier_llvm_ty,
        Some(LlvmType::Integer(8)),
        "Option<bool>'s memory carrier is i8, not bool's semantic i1"
    );
    assert_eq!(map.field_slots, vec![None]);

    let mut b = body_of(&[boolean()]);
    convert_construct_enum(&mut b, &MirType::Enum(e()), &vec![Value::Arg(0)], Some(1)).unwrap();
    assert_eq!(count(&b, |op| matches!(op, Op::InsertValue { .. })), 0);
    assert!(zero_extends_bool(&b));
    assert!(stores_byte(&b));
}

fn direct_bool() -> MirEnumType {
    tagged_enum(
        "DirectBool",
        32,
        vec![0, 1],
        vec![payload("A", boolean(), 4, 1), unit("B")],
        0,
        8,
        4,
    )
}

#[test]
fn direct_bool_uses_i8_storage_and_spills_i1_payload() {
    let map = build_enum_slot_map(&direct_bool()).unwrap();
    assert_eq!(map.field_slots, vec![None]);
    match &map.llvm_struct_ty {
        LlvmType::Struct(fields) => assert_eq!(fields[1], LlvmType::Integer(8)),
        _ => panic!("enum storage must be an LLVM struct"),
    }

    let mut b = body_of(&[boolean()]);
    let ty = MirType::Enum(direct_bool());
    convert_construct_enum(&mut b, &ty, &vec![Value::Arg(0)], Some(0)).unwrap();
    assert_eq!(
        count(&b, |op| matches!(op, Op::InsertValue { .. })),
        1,
        "only the direct tag should be inserted as an SSA struct field"
    );
    assert!(zero_extends_bool(&b));
    assert!(stores_byte(&b));
}

#[test]
fn bool_payload_field_addr_fails_closed() {
    let ptr = || pointer(MirType::Enum(direct_bool()), GENERIC);
    let mut b = body_of(&[ptr()]);
    let operand = Operand { value: Value::Arg(0), history: &vec![ptr()] };
    assert_eq!(
        convert_field_addr(&mut b, &operand, Some(0)),
        Err(LowerError::PayloadAddress { member: 0 })
    );
}

#[test]
fn shared_pointer_payload_field_addr_fails_closed() {
    let ptr = || pointer(optional_shared(), GENERIC);
    let mut b = body_of(&[ptr()]);
    let operand = Operand { value: Value::Arg(0), history: &vec![ptr()] };
    assert_eq!(
        convert_field_addr(&mut b, &operand, Some(0)),
        Err(LowerError::PayloadAddress { member: 0 })
    );
}

#[test]
fn slotless_payload_field_addr_geps_original_storage_at_byte_offset() {
    let e = || {
        tagged_enum(
            "Either",
            32,
            vec![0, 1],
            vec![payload("Real", MirType::Fp32, 4, 4), payload("Bits", uint(32), 4, 4)],
            0,
            8,
            4,
        )
    };
    assert_eq!(build_enum_slot_map(&e()).unwrap().field_slots, vec![Some(1), None]);

    let ptr = || pointer(MirType::Enum(e()), GENERIC);
    let mut b = body_of(&[ptr()]);
    let operand = Operand { value: Value::Arg(0), history: &vec![ptr()] };
    convert_field_addr(&mut b, &operand, Some(1)).unwrap();
    assert_eq!(allocas(&b), 0, "an in-place payload address must not spill the enum");
    let all = geps(&b);
    assert_eq!(all.len(), 1);
    assert!(matches!(
        all[0].op,
        Op::GetElementPtr {
            base: Value::Arg(0),
            path: GepPath::One(GepIndex::Constant(4)),
            ..
        }
    ));
    assert_eq!(all[0].elem, LlvmType::Integer(8), "byte addressing must step in i8 units");
}

#[test]
fn canonical_payload_shared_read_loads_through_gep_without_copy() {
    let e = || {
        tagged_enum(
            "Slot",
            32,
            vec![0, 1],
            vec![payload("Occupied", MirType::Fp32, 4, 4), unit("Empty")],
            0,
            8,
            4,
        )
    };
    assert_eq!(build_enum_slot_map(&e()).unwrap().field_slots, vec![Some(1)]);

    let ptr = || pointer(MirType::Enum(e()), GENERIC);
    let mut b = body_of(&[ptr()]);
    let operand = Operand { value: Value::Arg(0), history: &vec![ptr()] };
    let address = convert_field_addr(&mut b, &operand, Some(0)).unwrap();
    let value = convert_load(&mut b, address, &MirType::Fp32, None, false).unwrap();
    assert_eq!(allocas(&b), 0, "a canonical payload read must not spill or copy the enum");
    let all = geps(&b);
    assert_eq!(all.len(), 1);
    assert!(matches!(
        all[0].op,
        Op::GetElementPtr {
            base: Value::Arg(0),
            path: GepPath::Two(GepIndex::Constant(0), GepIndex::Constant(1)),
            ..
        }
    ));
    assert_eq!(loads(&b), 1);
    assert!(matches!(b.defining_op(value), Some(Op::Load { ptr, .. }) if ptr == address));
    assert_eq!(*b.value_type(value), LlvmType::Float);
}

#[test]
fn later_field_niche_set_writes_exact_carrier_offset() {
    let wrapper = || {
        laid_out_struct(
            "Wrapper",
            vec![("pad", uint(32)), ("nz", uint(32))],
            vec![0, 1],
            vec![0, 4],
            8,
            4,
        )
    };
    let ptr = || {
        pointer(
            MirType::Enum(enum_type(
                "MaybeWrapper",
                uint(8),
                vec![0, 1],
                vec![unit("None"), payload("Some", wrapper(), 0, 8)],
                niche(4, 8, 4, EnumCarrierKind::Integer, 32),
            )),
            GENERIC,
        )
    };
    let mut b = body_of(&[ptr()]);
    let operand = Operand { value: Value::Arg(0), history: &vec![ptr()] };
    convert_set_discriminant(&mut b, &operand, Some(0)).unwrap();
    assert_eq!(byte_offset(&b), 4);
}

#[test]
fn get_niche_discriminant_adds_large_range_start_at_logical_width() {
    let mut inhabited = vec![0; 300];
    inhabited[0] = 1;
    inhabited[298] = 1;
    inhabited[299] = 1;
    let e = unit_niche_enum((EnumCarrierKind::Integer, 8, 0), 0, (298, 299), 0, inhabited);
    let ty = MirType::Enum(e);
    let mut b = Builder::new(vec![convert_type(&ty).unwrap()]);
    let operand = Operand { value: Value::Arg(0), history: &vec![ty] };
    let r = convert_get_discriminant(&mut b, &operand).unwrap();
    assert_eq!(*b.value_type(r), LlvmType::Integer(16));
    assert_eq!(count(&b, |op| is_cast(op, CastOp::ZExt)), 1);
    let adds = find_all(&b, |op| matches!(op, Op::Binary { op: BinOp::Add, .. }));
    assert!(!adds.is_empty());
    match adds[0].op {
        Op::Binary { lhs, rhs, .. } => {
            assert_eq!(*b.value_type(lhs), LlvmType::Integer(16));
            assert_eq!(*b.value_type(rhs), LlvmType::Integer(16));
        },
        _ => unreachable!(),
    }
}

#[test]
fn direct_negative_discriminant_read_remains_signed_for_widening() {
    let i8_ty = || MirType::Integer(8, Signedness::Signed);
    let e = || {
        MirType::Enum(enum_type(
            "Negative",
            i8_ty(),
            vec![255, 0],
            vec![unit("N"), unit("Z")],
            direct(1, 1, 8, vec![1, 1]),
        ))
    };
    let mut b = body_of(&[]);
    let value = convert_construct_enum(&mut b, &e(), &vec![], Some(0)).unwrap();
    let history = vec![e()];
    let r = convert_get_discriminant(&mut b, &Operand { value, history: &history }).unwrap();
    let i32_ty = MirType::Integer(32, Signedness::Signed);
    convert(&mut b, &vec![r], &vec![i8_ty()], Some(CastKind::IntToInt), &i32_ty).unwrap();
    assert_eq!(count(&b, |op| is_cast(op, CastOp::SExt)), 1);
    assert_eq!(count(&b, |op| is_cast(op, CastOp::ZExt)), 0);
}

#[test]
fn single_layout_preserves_large_and_negative_declared_discriminants() {
    for (width, signedness, bits, widened_width, expects_sext) in [
        (16, Signedness::Unsigned, 1_000, 16, false),
        (8, Signedness::Signed, 251, 32, true),
    ] {
        let e = || {
            MirType::Enum(enum_type(
                "Single",
                MirType::Integer(width, signedness),
                vec![bits],
                vec![unit("Only")],
                EnumEncoding {
                    abi_align: 1,
                    layout_kind: EnumLayoutKind::Single,
                    variant_inhabited: vec![1],
                    ..EnumEncoding::default()
                },
            ))
        };
        let mut b = body_of(&[]);
        let value = convert_construct_enum(&mut b, &e(), &vec![], Some(0)).unwrap();
        let history = vec![e()];
        let r = convert_get_discriminant(&mut b, &Operand { value, history: &history }).unwrap();
        if widened_width != width {
            let logical = MirType::Integer(width, signedness);
            let target = MirType::Integer(widened_width, signedness);
            convert(&mut b, &vec![r], &vec![logical], Some(CastKind::IntToInt), &target).unwrap();
        }
        assert!(
            b.insts.iter().any(|inst| {
                matches!(inst.op, Op::Constant { bits: found, .. } if found == u128::from(bits))
            }),
            "single discriminant {bits} must not be truncated"
        );
        assert_eq!(count(&b, |op| is_cast(op, CastOp::SExt)) == 1, expects_sext);
    }
}

#[test]
fn carriers_keep_only_their_own_width() {
    // The declared discriminant is wider than the tag; the tag keeps its low
    // byte.
    let e = enum_type(
        "Wide",
        uint(8),
        vec![0x1ff, 0],
        vec![unit("A"), unit("B")],
        direct(1, 1, 8, vec![1, 1]),
    );
    let mut b = body_of(&[]);
    convert_construct_enum(&mut b, &MirType::Enum(e), &vec![], Some(0)).unwrap();
    assert_eq!(count(&b, |op| matches!(op, Op::Constant { width: 8, bits: 255 })), 1);
}

#[test]
fn variants_that_cannot_exist_are_refused() {
    let e = || {
        enum_type(
            "Partly",
            uint(8),
            vec![0, 1],
            vec![unit("A"), unit("B")],
            direct(1, 1, 8, vec![1, 0]),
        )
    };
    assert_eq!(
        enum_carrier_bits_for_variant(&e(), 1),
        Err(LowerError::VariantUninhabited { variant: 1 })
    );
    assert_eq!(
        enum_carrier_bits_for_variant(&e(), 2),
        Err(LowerError::VariantUninhabited { variant: 2 })
    );
    let mut b = body_of(&[]);
    assert_eq!(
        convert_construct_enum(&mut b, &MirType::Enum(e()), &vec![], Some(1)),
        Err(LowerError::VariantUninhabited { variant: 1 })
    );
    // Without an index the first variant is built.
    assert!(convert_construct_enum(&mut b, &MirType::Enum(e()), &vec![], None).is_ok());
}
