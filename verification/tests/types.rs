use mir_lower::abi::specialize_kernel_parameter_pointers;
use mir_lower::error::LowerError;
use mir_lower::initialized::validate_initialized_global_layout;
use mir_lower::layout::llvm_type_size_align;
use mir_lower::llvm::{LlvmType, GENERIC, GLOBAL, SHARED};
use mir_lower::mir::{
    EnumCarrierKind, EnumEncoding, EnumLayoutKind, MirEnumType, MirPtrType, MirStructType,
    MirTupleType, MirType, MirUnionType, Signedness,
};
use mir_lower::storage::{
    is_zero_sized_type, llvm_type_contains_i1, llvm_type_contains_pointer_in_address_space,
    llvm_type_is_byte_faithful,
};
use mir_lower::struct_slots::{make_padding_type, StructSlotMap};
use mir_lower::types::{
    build_enum_slot_map, build_struct_slot_map, build_union_storage_type, convert_type,
    mir_type_abi_align, StructLayoutInfo,
};

fn uint(width: u32) -> MirType {
    MirType::Integer(width, Signedness::Unsigned)
}

fn boolean() -> MirType {
    MirType::Integer(1, Signedness::Signless)
}

fn pointer(pointee: MirType, address_space: u32) -> MirType {
    MirType::Ptr(MirPtrType { pointee: Box::new(pointee), mutable: false, address_space })
}

fn array(element: MirType, len: u64) -> MirType {
    MirType::Array(Box::new(element), len)
}

fn struct_type(
    name: &str,
    fields: Vec<(&str, MirType)>,
    mem_to_decl: Vec<usize>,
    field_offsets: Vec<u64>,
    total_size: u64,
    abi_align: u64,
) -> MirStructType {
    let mut field_names = vec![];
    let mut field_types = vec![];
    for (field_name, ty) in fields {
        field_names.push(field_name.to_string());
        field_types.push(ty);
    }
    MirStructType {
        name: name.to_string(),
        field_names,
        field_types,
        mem_to_decl,
        field_offsets,
        total_size,
        abi_align,
    }
}

fn laid_out_struct(
    name: &str,
    fields: Vec<(&str, MirType)>,
    mem_to_decl: Vec<usize>,
    field_offsets: Vec<u64>,
    total_size: u64,
    abi_align: u64,
) -> MirType {
    MirType::Struct(struct_type(name, fields, mem_to_decl, field_offsets, total_size, abi_align))
}

/// A zero-sized struct.
fn phantom() -> MirType {
    laid_out_struct("Phantom", vec![], vec![], vec![], 0, 0)
}

fn laid_out_tuple(
    types: Vec<MirType>,
    mem_to_decl: Vec<usize>,
    field_offsets: Vec<u64>,
    total_size: u64,
    abi_align: u64,
) -> MirType {
    MirType::Tuple(MirTupleType { types, mem_to_decl, field_offsets, total_size, abi_align })
}

fn tuple(types: Vec<MirType>) -> MirType {
    laid_out_tuple(types, vec![], vec![], 0, 0)
}

fn union_type(name: &str, fields: Vec<(&str, MirType)>, total_size: u64, abi_align: u64) -> MirUnionType {
    let mut field_names = vec![];
    let mut field_types = vec![];
    for (field_name, ty) in fields {
        field_names.push(field_name.to_string());
        field_types.push(ty);
    }
    MirUnionType { name: name.to_string(), field_names, field_types, total_size, abi_align }
}

/// One enum variant: its name and the type, offset and size of each payload
/// field.
type Variant = (&'static str, Vec<(MirType, u64, u64)>);

fn unit(name: &'static str) -> Variant {
    (name, vec![])
}

fn payload(name: &'static str, ty: MirType, offset: u64, size: u64) -> Variant {
    (name, vec![(ty, offset, size)])
}

fn enum_type(
    name: &str,
    discriminant_ty: MirType,
    variant_discriminants: Vec<u64>,
    variants: Vec<Variant>,
    encoding: EnumEncoding,
) -> MirEnumType {
    let mut e = MirEnumType {
        name: name.to_string(),
        discriminant_ty: Box::new(discriminant_ty),
        variant_names: vec![],
        variant_discriminants,
        variant_field_counts: vec![],
        all_field_types: vec![],
        all_field_offsets: vec![],
        all_field_sizes: vec![],
        encoding,
    };
    for (variant_name, fields) in variants {
        e.variant_names.push(variant_name.to_string());
        e.variant_field_counts.push(fields.len() as u32);
        for (ty, offset, size) in fields {
            e.all_field_types.push(ty);
            e.all_field_offsets.push(offset);
            e.all_field_sizes.push(size);
        }
    }
    e
}

/// An enum with a tag of the discriminant type, all of whose variants can
/// exist.
fn tagged_enum(
    name: &str,
    width: u32,
    variant_discriminants: Vec<u64>,
    variants: Vec<Variant>,
    tag_offset: u64,
    total_size: u64,
    abi_align: u64,
) -> MirEnumType {
    let variant_inhabited = vec![1; variants.len()];
    enum_type(
        name,
        uint(width),
        variant_discriminants,
        variants,
        EnumEncoding {
            tag_offset,
            total_size,
            abi_align,
            layout_kind: EnumLayoutKind::Direct,
            carrier_kind: EnumCarrierKind::Integer,
            carrier_width: width,
            variant_inhabited,
            ..EnumEncoding::default()
        },
    )
}

fn niche_encoding(
    tag_offset: u64,
    total_size: u64,
    abi_align: u64,
    carrier_kind: EnumCarrierKind,
    carrier_width: u32,
) -> EnumEncoding {
    EnumEncoding {
        tag_offset,
        total_size,
        abi_align,
        layout_kind: EnumLayoutKind::Niche,
        carrier_kind,
        carrier_width,
        untagged_variant: 1,
        variant_inhabited: vec![1, 1],
        ..EnumEncoding::default()
    }
}

fn direct_encoding(total_size: u64, abi_align: u64) -> EnumEncoding {
    EnumEncoding {
        tag_offset: 0,
        total_size,
        abi_align,
        layout_kind: EnumLayoutKind::Direct,
        carrier_kind: EnumCarrierKind::Integer,
        carrier_width: 32,
        variant_inhabited: vec![1, 1],
        ..EnumEncoding::default()
    }
}

fn i(width: u32) -> LlvmType {
    LlvmType::Integer(width)
}

fn pad(bytes: u64) -> LlvmType {
    make_padding_type(bytes)
}

fn struct_fields(ty: &LlvmType) -> &Vec<LlvmType> {
    match ty {
        LlvmType::Struct(fields) => fields,
        _ => panic!("expected an LLVM struct type"),
    }
}

fn generic() -> LlvmType {
    LlvmType::Pointer(GENERIC)
}

fn bool_wrapper() -> MirType {
    laid_out_struct("BoolWrapper", vec![("value", boolean())], vec![0], vec![0], 1, 1)
}

#[test]
fn kernel_parameter_specialization_reaches_nested_generic_pointer_leaves() {
    let inner = LlvmType::Struct(vec![generic(), LlvmType::Pointer(SHARED), i(8)]);
    let outer = LlvmType::Struct(vec![LlvmType::Array(Box::new(inner), 2), generic()]);

    let specialized = specialize_kernel_parameter_pointers(&outer);
    let outer_fields = struct_fields(&specialized);
    let element = match &outer_fields[0] {
        LlvmType::Array(element, 2) => element,
        _ => panic!("field 0 must remain an array"),
    };
    let inner_fields = struct_fields(element);
    assert_eq!(inner_fields[0], LlvmType::Pointer(GLOBAL));
    assert_eq!(inner_fields[1], LlvmType::Pointer(SHARED));
    assert_eq!(outer_fields[1], LlvmType::Pointer(GLOBAL));
}

#[test]
fn mir_abi_alignment_recurses_through_nested_arrays() {
    fn aligned_tuple() -> MirType {
        let marker = laid_out_struct("Align32", vec![], vec![], vec![], 0, 32);
        laid_out_tuple(vec![marker, uint(8)], vec![0, 1], vec![0, 0], 32, 32)
    }
    let inner = array(aligned_tuple(), 2);
    let outer = array(array(aligned_tuple(), 2), 3);
    let plain = array(uint(8), 4);

    assert_eq!(mir_type_abi_align(&aligned_tuple()), Some(32));
    assert_eq!(mir_type_abi_align(&inner), Some(32));
    assert_eq!(mir_type_abi_align(&outer), Some(32));
    assert_eq!(mir_type_abi_align(&plain), None);
}

#[test]
fn union_storage_has_exact_size_alignment_and_stride() {
    let bits = || {
        union_type("Bits", vec![("word", uint(32)), ("bytes", array(uint(8), 4))], 4, 4)
    };
    let storage = build_union_storage_type(&bits()).unwrap();
    assert_eq!(llvm_type_size_align(&storage), Some((4, 4)));

    let lowered = convert_type(&array(MirType::Union(bits()), 3)).unwrap();
    assert_eq!(llvm_type_size_align(&lowered), Some((12, 4)));
}

#[test]
fn fixed_vector_layout_uses_packed_bit_width_and_rejects_unknown_widths() {
    let v16i1 = LlvmType::Vector(Box::new(i(1)), 16, false);
    assert_eq!(
        llvm_type_size_align(&v16i1),
        Some((2, 2)),
        "<16 x i1> is 16 packed bits, not sixteen bytes"
    );

    let v3i8 = LlvmType::Vector(Box::new(i(8)), 3, false);
    assert_eq!(
        llvm_type_size_align(&v3i8),
        None,
        "the NVPTX data layout does not define a 24-bit vector alignment"
    );
}

#[test]
fn enum_array_payload_keeps_exact_size_alignment_and_stride() {
    let e = || {
        tagged_enum(
            "ArrayPayload",
            8,
            vec![0, 1],
            vec![unit("Empty"), payload("Data", array(uint(16), 3), 2, 6)],
            0,
            8,
            2,
        )
    };
    let map = build_enum_slot_map(&e()).unwrap();
    assert_eq!(llvm_type_size_align(&map.llvm_struct_ty), Some((8, 2)));

    let lowered = convert_type(&array(MirType::Enum(e()), 5)).unwrap();
    assert_eq!(llvm_type_size_align(&lowered), Some((40, 2)));
}

#[test]
fn enum_slot_map_rejects_partial_byte_integer_carriers() {
    let direct = enum_type(
        "PartialDirect",
        uint(7),
        vec![0, 1],
        vec![unit("A"), unit("B")],
        EnumEncoding {
            tag_offset: 0,
            total_size: 1,
            abi_align: 1,
            layout_kind: EnumLayoutKind::Direct,
            carrier_kind: EnumCarrierKind::Integer,
            carrier_width: 7,
            variant_inhabited: vec![1, 1],
            ..EnumEncoding::default()
        },
    );
    assert_eq!(build_enum_slot_map(&direct).err(), Some(LowerError::EnumCarrierWidth { width: 7 }));

    let niche = enum_type(
        "PartialNiche",
        uint(8),
        vec![0, 1],
        vec![unit("None"), payload("Some", uint(8), 0, 1)],
        niche_encoding(0, 1, 1, EnumCarrierKind::Integer, 7),
    );
    assert_eq!(build_enum_slot_map(&niche).err(), Some(LowerError::EnumCarrierWidth { width: 7 }));
}

#[test]
fn enum_slot_map_rejects_misaligned_inhabited_payload() {
    let e = tagged_enum(
        "PackedPayload",
        8,
        vec![0, 1],
        vec![unit("Empty"), payload("Data", uint(32), 1, 4)],
        0,
        8,
        4,
    );
    assert_eq!(
        build_enum_slot_map(&e).err(),
        Some(LowerError::EnumFieldAlign { field: 0, align: 4, offset: 1 })
    );
}

#[test]
fn enum_slot_map_uses_i8_storage_for_nonoverlapping_scalar_bool() {
    let e = tagged_enum(
        "DirectBool",
        32,
        vec![0, 1],
        vec![payload("A", boolean(), 4, 1), unit("B")],
        0,
        8,
        4,
    );
    let map = build_enum_slot_map(&e).unwrap();
    assert_eq!(map.field_slots, vec![None]);
    let fields = struct_fields(&map.llvm_struct_ty);
    assert_eq!(fields.len(), 3, "tag, canonical bool byte, tail pad");
    assert_eq!(
        fields[1],
        i(8),
        "Rust bool storage must be an i8 byte, never an LLVM i1 slot"
    );
}

#[test]
fn enum_slot_map_allows_nonoverlapping_aggregate_padding_without_bool() {
    let padded = || tuple(vec![uint(8), uint(32)]);
    let lowered_padded = convert_type(&padded()).unwrap();
    assert!(
        !llvm_type_is_byte_faithful(&lowered_padded),
        "the LLVM i8/i32 tuple has harmless implicit padding"
    );
    let e = tagged_enum(
        "PaddedPayload",
        32,
        vec![0, 1],
        vec![payload("Data", padded(), 4, 8), unit("Empty")],
        0,
        12,
        4,
    );
    let map = build_enum_slot_map(&e).unwrap();
    assert_eq!(map.field_slots, vec![Some(1)]);
    assert_eq!(llvm_type_size_align(&map.llvm_struct_ty), Some((12, 4)));
}

#[test]
fn enum_slot_map_rejects_nonoverlapping_nested_bool_storage() {
    let e = tagged_enum(
        "DirectBoolWrapper",
        32,
        vec![0, 1],
        vec![payload("A", bool_wrapper(), 4, 1), unit("B")],
        0,
        8,
        4,
    );
    // The wrapper claims its byte-faithful twin and stays without a slot.
    let map = build_enum_slot_map(&e)
        .expect("nested bool storage canonicalizes through its byte-faithful twin");
    assert_eq!(map.field_slots, vec![None]);
    assert_eq!(llvm_type_size_align(&map.llvm_struct_ty), Some((8, 4)));
    for field in struct_fields(&map.llvm_struct_ty) {
        assert!(!llvm_type_contains_i1(field), "enum storage must never contain physical i1");
    }
}

#[test]
fn enum_slot_map_rejects_bool_hidden_by_union_byte_storage() {
    let bool_or_byte = || {
        MirType::Union(union_type(
            "BoolOrByte",
            vec![("flag", boolean()), ("byte", uint(8))],
            1,
            1,
        ))
    };
    let lowered_union = convert_type(&bool_or_byte()).unwrap();
    assert!(
        !llvm_type_contains_i1(&lowered_union),
        "the union's raw-byte carrier intentionally hides its semantic bool"
    );
    let e = tagged_enum(
        "DirectUnionBool",
        32,
        vec![0, 1],
        vec![payload("A", bool_or_byte(), 4, 1), unit("B")],
        0,
        8,
        4,
    );
    assert_eq!(build_enum_slot_map(&e).err(), Some(LowerError::EnumHiddenBool { field: 0 }));
}

#[test]
fn enum_slot_map_does_not_descend_through_pointer_to_bool() {
    let e = tagged_enum(
        "PointerToBool",
        32,
        vec![0, 1],
        vec![payload("A", pointer(boolean(), GENERIC), 8, 8), unit("B")],
        0,
        16,
        8,
    );
    let map = build_enum_slot_map(&e).unwrap();
    assert!(map.field_slots[0].is_some());
}

#[test]
fn enum_slot_map_rejects_pointer_nonpointer_overlap_in_either_variant_order() {
    for pointer_first in [false, true] {
        let ptr = payload("Ptr", pointer(uint(8), GENERIC), 8, 8);
        let bits = payload("Bits", uint(64), 8, 8);
        let variants = if pointer_first { vec![ptr, bits] } else { vec![bits, ptr] };
        let e = enum_type("PointerOrBits", uint(32), vec![0, 1], variants, direct_encoding(16, 8));
        assert_eq!(
            build_enum_slot_map(&e).err(),
            Some(LowerError::EnumPointerOverlap { offset: 8 }),
            "pointer_first={pointer_first}"
        );
    }
}

#[test]
fn enum_slot_map_canonicalizes_overlapping_bool_wrapper_storage() {
    let e = enum_type(
        "MaybeBoolWrapper",
        uint(8),
        vec![0, 1],
        vec![unit("None"), payload("Some", bool_wrapper(), 0, 1)],
        EnumEncoding {
            niche_start: 2,
            ..niche_encoding(0, 1, 1, EnumCarrierKind::Integer, 8)
        },
    );
    let map = build_enum_slot_map(&e)
        .expect("a bool wrapper shares its canonical byte with the i8 carrier");
    assert_eq!(map.field_slots, vec![None]);
    assert_eq!(llvm_type_size_align(&map.llvm_struct_ty), Some((1, 1)));
    assert!(
        !llvm_type_contains_i1(&map.llvm_struct_ty),
        "enum storage must never contain physical i1"
    );
}

#[test]
fn enum_slot_map_canonicalizes_bool_wrapper_overlap_in_either_variant_order() {
    for wrapper_first in [false, true] {
        let (first, second) = if wrapper_first {
            (bool_wrapper(), uint(8))
        } else {
            (uint(8), bool_wrapper())
        };
        let e = enum_type(
            "BoolWrapperOrByte",
            uint(32),
            vec![0, 1],
            vec![payload("First", first, 4, 1), payload("Second", second, 4, 1)],
            direct_encoding(8, 4),
        );
        let map = build_enum_slot_map(&e)
            .expect("canonical bool bytes may share storage with a u8 variant");
        assert_eq!(llvm_type_size_align(&map.llvm_struct_ty), Some((8, 4)));
        assert!(
            !llvm_type_contains_i1(&map.llvm_struct_ty),
            "wrapper_first={wrapper_first}: enum storage must never contain physical i1"
        );
        let wrapper_flat = if wrapper_first { 0 } else { 1 };
        assert_eq!(map.field_slots[wrapper_flat], None);
    }
}

#[test]
fn enum_slot_map_backs_pointer_beside_integer_niche_carrier() {
    let fields = vec![("pointer", pointer(uint(32), GENERIC)), ("niche", uint(32))];
    let e = enum_type(
        "MaybePointerThenNiche",
        uint(8),
        vec![0, 1],
        vec![
            unit("None"),
            payload(
                "Some",
                laid_out_struct("PointerThenNiche", fields, vec![0, 1], vec![0, 8], 16, 8),
                0,
                16,
            ),
        ],
        niche_encoding(8, 16, 8, EnumCarrierKind::Integer, 32),
    );
    let map = build_enum_slot_map(&e).unwrap();
    assert_eq!(map.field_slots, vec![None]);
    assert_eq!(*struct_fields(&map.llvm_struct_ty), vec![generic(), i(32), i(32)]);
    assert_eq!(llvm_type_size_align(&map.llvm_struct_ty), Some((16, 8)));
}

#[test]
fn enum_slot_map_keeps_plain_pointer_niche_in_one_pointer_slot() {
    let e = enum_type(
        "MaybePointer",
        uint(8),
        vec![0, 1],
        vec![unit("None"), payload("Some", pointer(uint(32), GENERIC), 0, 8)],
        niche_encoding(0, 8, 8, EnumCarrierKind::Pointer, 64),
    );
    let map = build_enum_slot_map(&e).unwrap();
    assert_eq!(map.carrier_slot, Some(0));
    assert_eq!(map.field_slots, vec![Some(0)]);
    assert!(matches!(struct_fields(&map.llvm_struct_ty)[0], LlvmType::Pointer(_)));
}

#[test]
fn enum_slot_map_accepts_pointer_first_and_pointer_second_aggregate_niches() {
    for pointer_first in [true, false] {
        let ptr = pointer(uint(32), GENERIC);
        let types = if pointer_first { vec![ptr, uint(64)] } else { vec![uint(64), ptr] };
        let tag_offset = if pointer_first { 0 } else { 8 };
        let e = enum_type(
            "MaybeIndexedRef",
            uint(64),
            vec![0, 1],
            vec![unit("None"), payload("Some", tuple(types), 0, 16)],
            niche_encoding(tag_offset, 16, 8, EnumCarrierKind::Pointer, 64),
        );
        let map = build_enum_slot_map(&e).unwrap();
        assert_eq!(map.field_slots, vec![None]);
        assert_eq!(map.carrier_slot, Some(if pointer_first { 0 } else { 1 }));
        assert_eq!(llvm_type_size_align(&map.llvm_struct_ty), Some((16, 8)));
        let expected =
            if pointer_first { vec![generic(), i(64)] } else { vec![i(64), generic()] };
        assert_eq!(*struct_fields(&map.llvm_struct_ty), expected);
    }
}

#[test]
fn enum_slot_map_backs_each_aggregate_pointer_leaf_with_its_own_slot() {
    let fields = vec![
        ("first", pointer(uint(32), GENERIC)),
        ("second", pointer(uint(32), GENERIC)),
    ];
    let two_refs = laid_out_struct("TwoRefs", fields, vec![0, 1], vec![0, 8], 16, 8);
    let e = enum_type(
        "MaybeTwoRefs",
        uint(64),
        vec![0, 1],
        vec![unit("None"), payload("Some", two_refs, 0, 16)],
        niche_encoding(8, 16, 8, EnumCarrierKind::Pointer, 64),
    );
    let map = build_enum_slot_map(&e).unwrap();
    assert_eq!(map.field_slots, vec![None]);
    assert_eq!(*struct_fields(&map.llvm_struct_ty), vec![generic(), generic()]);
    assert_eq!(llvm_type_size_align(&map.llvm_struct_ty), Some((16, 8)));
}

#[test]
fn enum_slot_map_backs_split_at_mut_slice_pair() {
    let fields = vec![
        ("a_ptr", pointer(uint(32), GENERIC)),
        ("a_len", uint(64)),
        ("b_ptr", pointer(uint(32), GENERIC)),
        ("b_len", uint(64)),
    ];
    let pair =
        laid_out_struct("SlicePair", fields, vec![0, 1, 2, 3], vec![0, 8, 16, 24], 32, 8);
    let e = enum_type(
        "MaybeSlicePair",
        uint(64),
        vec![0, 1],
        vec![unit("None"), payload("Some", pair, 0, 32)],
        niche_encoding(0, 32, 8, EnumCarrierKind::Pointer, 64),
    );
    let map = build_enum_slot_map(&e).unwrap();
    assert_eq!(map.field_slots, vec![None]);
    assert_eq!(
        *struct_fields(&map.llvm_struct_ty),
        vec![generic(), i(64), generic(), i(64)]
    );
    assert_eq!(llvm_type_size_align(&map.llvm_struct_ty), Some((32, 8)));
}

#[test]
fn enum_slot_map_three_field_tuple_follows_recorded_offsets() {
    let types = || vec![uint(32), MirType::Fp32, pointer(uint(32), GENERIC)];
    let e = enum_type(
        "MaybeMixedTuple",
        uint(64),
        vec![0, 1],
        vec![
            unit("None"),
            payload("Some", laid_out_tuple(types(), vec![2, 0, 1], vec![8, 12, 0], 16, 8), 0, 16),
        ],
        niche_encoding(0, 16, 8, EnumCarrierKind::Pointer, 64),
    );
    let map = build_enum_slot_map(&e)
        .expect("recorded tuple offsets prove the pointer word matches the carrier");
    assert_eq!(map.carrier_slot, Some(0));
    assert_eq!(llvm_type_size_align(&map.llvm_struct_ty), Some((16, 8)));

    // Offsets that put the u32 over the pointer carrier.
    let shifted = enum_type(
        "MaybeMixedTupleShifted",
        uint(64),
        vec![0, 1],
        vec![
            unit("None"),
            payload("Some", laid_out_tuple(types(), vec![0, 1, 2], vec![0, 4, 8], 16, 8), 0, 16),
        ],
        niche_encoding(0, 16, 8, EnumCarrierKind::Pointer, 64),
    );
    assert!(matches!(
        build_enum_slot_map(&shifted).err(),
        Some(LowerError::EnumPointerOverlap { .. })
    ));
}

#[test]
fn enum_slot_map_rejects_shifted_nested_pointer_carrier() {
    let types = vec![uint(64), pointer(uint(32), GENERIC)];
    let e = enum_type(
        "ShiftedPointerCarrier",
        uint(64),
        vec![0, 1],
        vec![unit("None"), payload("Some", tuple(types), 0, 16)],
        niche_encoding(0, 16, 8, EnumCarrierKind::Pointer, 64),
    );
    assert!(matches!(
        build_enum_slot_map(&e).err(),
        Some(LowerError::EnumPointerOverlap { .. })
    ));
}

#[test]
fn enum_slot_map_rejects_nested_carrier_address_space_mismatch() {
    let types = vec![pointer(uint(32), GENERIC), uint(64)];
    let e = enum_type(
        "MismatchedPointerSpace",
        uint(64),
        vec![0, 1],
        vec![unit("None"), payload("Some", tuple(types), 0, 16)],
        EnumEncoding {
            carrier_address_space: GLOBAL,
            ..niche_encoding(0, 16, 8, EnumCarrierKind::Pointer, 64)
        },
    );
    assert!(matches!(
        build_enum_slot_map(&e).err(),
        Some(LowerError::EnumPointerOverlap { .. })
    ));
}

#[test]
fn enum_slot_map_genericizes_nonoverlapping_shared_pointer_payload() {
    let e = enum_type(
        "SharedPointerPayload",
        uint(32),
        vec![0, 1],
        vec![unit("Unit"), payload("Ptr", pointer(uint(32), SHARED), 8, 8)],
        direct_encoding(16, 8),
    );
    let map = build_enum_slot_map(&e)
        .expect("a direct shared-pointer payload should use generic physical storage");
    let slot = map.field_slots[0].expect("shared pointer field should own a slot");
    assert_eq!(
        struct_fields(&map.llvm_struct_ty)[slot as usize],
        LlvmType::Pointer(GENERIC),
        "enum storage must use a target-stable generic pointer"
    );
    assert_eq!(
        map.field_llvm_types[0],
        LlvmType::Pointer(SHARED),
        "payload operations must retain the semantic shared address space"
    );
}

#[test]
fn enum_slot_map_genericizes_nested_shared_pointer_payload() {
    let wrapper = laid_out_struct(
        "SharedPointerWrapper",
        vec![("pointer", pointer(uint(32), SHARED))],
        vec![0],
        vec![0],
        8,
        8,
    );
    let e = enum_type(
        "NestedSharedPointerPayload",
        uint(32),
        vec![0, 1],
        vec![unit("Unit"), payload("Ptr", wrapper, 8, 8)],
        direct_encoding(16, 8),
    );
    let map = build_enum_slot_map(&e)
        .expect("a struct-nested shared pointer should use generic physical storage");
    let slot = map.field_slots[0].expect("nested payload should own a slot");
    let stored = &struct_fields(&map.llvm_struct_ty)[slot as usize];
    assert!(llvm_type_contains_pointer_in_address_space(stored, GENERIC));
    assert!(!llvm_type_contains_pointer_in_address_space(stored, SHARED));
    assert!(llvm_type_contains_pointer_in_address_space(&map.field_llvm_types[0], SHARED));
}

#[test]
fn enum_slot_map_rejects_shared_pointer_array_payload() {
    let e = enum_type(
        "SharedPointerArrayPayload",
        uint(32),
        vec![0, 1],
        vec![unit("Unit"), payload("Pointers", array(pointer(uint(32), SHARED), 2), 8, 16)],
        direct_encoding(24, 8),
    );
    assert_eq!(build_enum_slot_map(&e).err(), Some(LowerError::SharedPointerArray));
}

#[test]
fn enum_slot_map_rejects_shared_pointer_vector_payload() {
    let vector = MirType::Vector(Box::new(pointer(uint(32), SHARED)), 2, false);
    let e = tagged_enum(
        "SharedPointerVector",
        32,
        vec![0, 1],
        vec![payload("Data", vector, 16, 16), unit("Empty")],
        0,
        32,
        16,
    );
    assert_eq!(build_enum_slot_map(&e).err(), Some(LowerError::SharedPointerVector));
}

#[test]
fn union_storage_prefers_pointer_carrier() {
    let fields = vec![("ptr", pointer(uint(32), GENERIC)), ("bits", uint(64))];
    let storage = build_union_storage_type(&union_type("PointerBits", fields, 8, 8)).unwrap();
    assert!(matches!(struct_fields(&storage)[1], LlvmType::Pointer(_)));
    assert_eq!(llvm_type_size_align(&storage), Some((8, 8)));
}

#[test]
fn union_storage_rejects_incompatible_pointer_address_spaces() {
    let fields =
        vec![("generic", pointer(uint(32), GENERIC)), ("shared", pointer(uint(32), SHARED))];
    let result = build_union_storage_type(&union_type("MixedPointers", fields, 8, 8));
    assert_eq!(result, Err(LowerError::UnionPointerRepresentations { field: 1 }));
}

#[test]
fn union_storage_rejects_non_byte_faithful_pointer_carrier() {
    let ptr_bool = laid_out_struct(
        "PtrBool",
        vec![("ptr", pointer(uint(32), GENERIC)), ("flag", uint(1))],
        vec![0, 1],
        vec![0, 8],
        16,
        8,
    );
    let fields = vec![("view", ptr_bool), ("bytes", array(uint(8), 16))];
    let result = build_union_storage_type(&union_type("PointerBoolBytes", fields, 16, 8));
    assert_eq!(result, Err(LowerError::UnionPointerCarrier));
}

#[test]
fn union_storage_preserves_over_aligned_size_and_stride() {
    let over_aligned = || union_type("OverAligned", vec![("word", uint(32))], 32, 32);
    let storage = build_union_storage_type(&over_aligned()).unwrap();
    assert_eq!(llvm_type_size_align(&storage), Some((32, 16)));

    let lowered = convert_type(&array(MirType::Union(over_aligned()), 3)).unwrap();
    assert_eq!(llvm_type_size_align(&lowered), Some((96, 16)));
}

#[test]
fn uninhabited_enum_lowers_to_zero_sized_storage() {
    let never = enum_type("Never", uint(8), vec![], vec![], EnumEncoding::default());
    let storage = convert_type(&MirType::Enum(never)).unwrap();
    assert!(is_zero_sized_type(&storage));
    assert_eq!(llvm_type_size_align(&storage), Some((0, 1)));
}

fn slot_map(
    field_types: &Vec<MirType>,
    mem_to_decl: Vec<usize>,
    field_offsets: Vec<u64>,
    total_size: u64,
) -> Result<StructSlotMap, LowerError> {
    build_struct_slot_map(&StructLayoutInfo {
        field_types,
        mem_to_decl,
        field_offsets: &field_offsets,
        total_size,
    })
}

#[test]
fn slot_map_reorder_only() {
    let map = slot_map(&vec![uint(8), uint(64)], vec![1, 0], vec![], 0).unwrap();
    assert_eq!(map.decl_to_llvm, vec![Some(1), Some(0)]);
    assert_eq!(*struct_fields(&map.llvm_struct_ty), vec![i(64), i(8)]);
}

#[test]
fn slot_map_padding_only() {
    let map = slot_map(&vec![uint(8), uint(64)], vec![0, 1], vec![0, 8], 16).unwrap();
    assert_eq!(map.decl_to_llvm, vec![Some(0), Some(2)]);
    assert_eq!(*struct_fields(&map.llvm_struct_ty), vec![i(8), pad(7), i(64)]);
}

#[test]
fn slot_map_reorder_plus_padding() {
    let map = slot_map(&vec![uint(8), uint(64)], vec![1, 0], vec![8, 0], 16).unwrap();
    assert_eq!(map.decl_to_llvm, vec![Some(1), Some(0)]);
    assert_eq!(*struct_fields(&map.llvm_struct_ty), vec![i(64), i(8), pad(7)]);
}

#[test]
fn slot_map_zst_interleaving() {
    let types = vec![uint(32), phantom(), uint(32)];
    let map = slot_map(&types, vec![0, 1, 2], vec![0, 4, 4], 8).unwrap();
    assert_eq!(map.decl_to_llvm, vec![Some(0), None, Some(1)]);
    assert_eq!(*struct_fields(&map.llvm_struct_ty), vec![i(32), i(32)]);
}

#[test]
fn slot_map_issue128_arena_shape() {
    let layout_enum = tagged_enum(
        "Layout",
        8,
        vec![0, 1, 2],
        vec![unit("Aos"), unit("Soa"), payload("AoSoA", uint(32), 4, 4)],
        0,
        8,
        4,
    );
    let types = vec![MirType::Enum(layout_enum), uint(32), uint(32), uint(64)];
    let map = slot_map(&types, vec![0, 3, 1, 2], vec![0, 16, 20, 8], 24).unwrap();
    assert_eq!(
        map.decl_to_llvm,
        vec![Some(0), Some(2), Some(3), Some(1)],
        "the enum's internal pad must not create an outer struct slot"
    );
    let enum_llvm = LlvmType::Struct(vec![i(8), pad(3), i(32)]);
    assert_eq!(*struct_fields(&map.llvm_struct_ty), vec![enum_llvm, i(64), i(32), i(32)]);
}

#[test]
fn slot_map_nested_struct_uses_stored_size() {
    let inner =
        laid_out_struct("Inner", vec![("x", uint(8)), ("y", uint(64))], vec![], vec![], 16, 0);
    let map = slot_map(&vec![inner, uint(8)], vec![0, 1], vec![0, 16], 24).unwrap();
    assert_eq!(map.decl_to_llvm, vec![Some(0), Some(1)]);
    let fields = struct_fields(&map.llvm_struct_ty);
    assert_eq!(fields.len(), 3, "exactly one (trailing) pad slot");
    assert_eq!(fields[2], pad(7));
}

#[test]
fn slot_map_rejects_malformed_memory_order() {
    let types = vec![uint(8), uint(64)];
    // Declaration index 0 appears twice.
    assert_eq!(
        slot_map(&types, vec![0, 0], vec![], 0).err(),
        Some(LowerError::MemoryOrderNotPermutation)
    );
    // Wrong length.
    assert_eq!(
        slot_map(&types, vec![0], vec![], 0).err(),
        Some(LowerError::MemoryOrderLength { entries: 1, fields: 2 })
    );
    // One offset is missing.
    assert_eq!(
        slot_map(&types, vec![0, 1], vec![0], 16).err(),
        Some(LowerError::FieldOffsetCount { offsets: 1, fields: 2 })
    );
}

#[test]
fn initialized_global_layout_accepts_explicit_overalignment() {
    validate_initialized_global_layout(&phantom(), 0, 1).unwrap();
    let over_aligned =
        laid_out_struct("OverAligned", vec![("byte", uint(8))], vec![0], vec![0], 16, 16);
    validate_initialized_global_layout(&over_aligned, 16, 16).unwrap();
}

#[test]
fn initialized_global_layout_rejects_packed_and_nested_packed_structs() {
    let packed = || {
        laid_out_struct(
            "Packed",
            vec![("tag", uint(8)), ("word", uint(32))],
            vec![0, 1],
            vec![0, 1],
            5,
            1,
        )
    };
    assert_eq!(
        validate_initialized_global_layout(&packed(), 5, 1),
        Err(LowerError::InitializedFieldOffset { field: 1, lowered: 4, expected: 1 })
    );

    // Nesting must not hide the incompatible packed representation.
    let outer = laid_out_struct(
        "Outer",
        vec![("packed", packed()), ("wide", uint(64))],
        vec![0, 1],
        vec![0, 8],
        16,
        8,
    );
    assert!(matches!(
        validate_initialized_global_layout(&outer, 16, 8),
        Err(LowerError::InitializedFieldOffset { .. })
    ));
}

#[test]
fn initialized_global_layout_rejects_old_union_and_tuple_models() {
    let union_as_struct = laid_out_struct(
        "UnionBeforeSharedStorageLowering",
        vec![("left", uint(32)), ("right", uint(32))],
        vec![0, 1],
        vec![0, 0],
        4,
        4,
    );
    assert_eq!(
        validate_initialized_global_layout(&union_as_struct, 4, 4),
        Err(LowerError::InitializedFieldOffset { field: 1, lowered: 4, expected: 0 })
    );

    // A tuple without recorded layout cannot prove its bytes.
    assert_eq!(
        validate_initialized_global_layout(&tuple(vec![uint(8), uint(64)]), 16, 8),
        Err(LowerError::InitializedNoSize { lowered: 16 })
    );

    // The same tuple with its real, reordered layout.
    let laid_out = laid_out_tuple(vec![uint(8), uint(64)], vec![1, 0], vec![8, 0], 16, 8);
    validate_initialized_global_layout(&laid_out, 16, 8)
        .expect("tuples with recorded offsets are provable initialized-global storage");
}

#[test]
fn initialized_global_layout_rejects_enum_with_unknown_physical_layout() {
    let mut niche = enum_type(
        "OptionNonZero",
        uint(8),
        vec![0, 1],
        vec![unit("None"), payload("Some", uint(32), 0, 0)],
        EnumEncoding::default(),
    );
    niche.all_field_offsets.clear();
    niche.all_field_sizes.clear();
    assert_eq!(
        validate_initialized_global_layout(&MirType::Enum(niche), 4, 4),
        Err(LowerError::InitializedUnknownEnum)
    );
}

#[test]
fn carriers_without_bits_take_no_bytes() {
    assert_eq!(llvm_type_size_align(&LlvmType::Integer(0)), Some((0, 1)));

    // The carrier goes in front of the payload at its byte.
    let front = enum_type(
        "Front",
        uint(8),
        vec![0, 1],
        vec![unit("None"), payload("Some", uint(8), 0, 1)],
        niche_encoding(0, 1, 1, EnumCarrierKind::Integer, 0),
    );
    let map = build_enum_slot_map(&front).unwrap();
    let fields = vec![LlvmType::Integer(0), LlvmType::Integer(8)];
    assert_eq!(map.llvm_struct_ty, LlvmType::Struct(fields));
    assert_eq!(map.carrier_slot, Some(0));
    assert_eq!(map.carrier_llvm_ty, Some(LlvmType::Integer(0)));
    assert_eq!(map.field_slots, vec![Some(1)]);

    // Inside a payload it splits the storage, and the payload has no slot.
    let inside = enum_type(
        "Inside",
        uint(8),
        vec![0, 1],
        vec![unit("None"), payload("Some", uint(64), 0, 8)],
        niche_encoding(4, 8, 8, EnumCarrierKind::Integer, 0),
    );
    let map = build_enum_slot_map(&inside).unwrap();
    let half = || LlvmType::Integer(32);
    let anchor = LlvmType::Array(Box::new(LlvmType::Integer(64)), 0);
    let fields = vec![anchor, half(), LlvmType::Integer(0), half()];
    assert_eq!(map.llvm_struct_ty, LlvmType::Struct(fields));
    assert_eq!(map.carrier_slot, Some(2));
    assert_eq!(map.field_slots, vec![None]);
    assert_eq!(llvm_type_size_align(&map.llvm_struct_ty), Some((8, 8)));
}
