use mir_lower::aggregate::{convert_extract_field, convert_insert_field};
use mir_lower::array_ops::{convert_array_element_addr, convert_extract_array_element};
use mir_lower::cast::{convert, CastKind};
use mir_lower::enum_access::{
    convert_enum_payload, convert_get_discriminant, convert_set_discriminant,
};
use mir_lower::enum_ops::{convert_construct_enum, enum_carrier_bits_for_variant};
use mir_lower::error::LowerError;
use mir_lower::field_addr::convert_field_addr;
use mir_lower::initialized::validate_initialized_global_layout;
use mir_lower::ir::{Builder, GepIndex, GepPath, Op, Value};
use mir_lower::llvm::{LlvmType, GENERIC};
use mir_lower::memory::convert_memcpy;
use mir_lower::mir::{
    EnumCarrierKind, EnumEncoding, EnumLayoutKind, MirEnumType, MirPtrType, MirStructType,
    MirTupleType, MirType, MirUnionType, Signedness,
};
use mir_lower::operands::Operand;
use mir_lower::payload_values::{canonicalize_bool_value_bytes, coerce_enum_payload_value};
use mir_lower::types::{build_enum_slot_map, build_union_storage_type, convert_type};

fn uint(width: u32) -> MirType {
    MirType::Integer(width, Signedness::Unsigned)
}

fn boolean() -> MirType {
    MirType::Integer(1, Signedness::Signless)
}

fn pointer(pointee: MirType, address_space: u32) -> MirType {
    MirType::Ptr(MirPtrType { pointee: Box::new(pointee), mutable: false, address_space })
}

fn array(element: MirType, len: u64) -> MirType {
    MirType::Array(Box::new(element), len)
}

fn struct_type(
    name: &str,
    fields: Vec<(&str, MirType)>,
    mem_to_decl: Vec<usize>,
    field_offsets: Vec<u64>,
    total_size: u64,
    abi_align: u64,
) -> MirStructType {
    let mut field_names = vec![];
    let mut field_types = vec![];
    for (field_name, ty) in fields {
        field_names.push(field_name.to_string());
        field_types.push(ty);
    }
    MirStructType {
        name: name.to_string(),
        field_names,
        field_types,
        mem_to_decl,
        field_offsets,
        total_size,
        abi_align,
    }
}

fn laid_out_struct(
    name: &str,
    fields: Vec<(&str, MirType)>,
    mem_to_decl: Vec<usize>,
    field_offsets: Vec<u64>,
    total_size: u64,
    abi_align: u64,
) -> MirType {
    MirType::Struct(struct_type(name, fields, mem_to_decl, field_offsets, total_size, abi_align))
}

fn laid_out_tuple(
    types: Vec<MirType>,
    mem_to_decl: Vec<usize>,
    field_offsets: Vec<u64>,
    total_size: u64,
    abi_align: u64,
) -> MirType {
    MirType::Tuple(MirTupleType { types, mem_to_decl, field_offsets, total_size, abi_align })
}

fn tuple(types: Vec<MirType>) -> MirType {
    laid_out_tuple(types, vec![], vec![], 0, 0)
}

fn union_type(name: &str, fields: Vec<(&str, MirType)>, total_size: u64, abi_align: u64) -> MirUnionType {
    let mut field_names = vec![];
    let mut field_types = vec![];
    for (field_name, ty) in fields {
        field_names.push(field_name.to_string());
        field_types.push(ty);
    }
    MirUnionType { name: name.to_string(), field_names, field_types, total_size, abi_align }
}

/// One enum variant: its name and the type, offset and size of each payload
/// field.
type Variant = (&'static str, Vec<(MirType, u64, u64)>);

fn unit(name: &'static str) -> Variant {
    (name, vec![])
}

fn payload(name: &'static str, ty: MirType, offset: u64, size: u64) -> Variant {
    (name, vec![(ty, offset, size)])
}

fn enum_type(
    name: &str,
    discriminant_ty: MirType,
    variant_discriminants: Vec<u64>,
    variants: Vec<Variant>,
    encoding: EnumEncoding,
) -> MirEnumType {
    let mut e = MirEnumType {
        name: name.to_string(),
        discriminant_ty: Box::new(discriminant_ty),
        variant_names: vec![],
        variant_discriminants,
        variant_field_counts: vec![],
        all_field_types: vec![],
        all_field_offsets: vec![],
        all_field_sizes: vec![],
        encoding,
    };
    for (variant_name, fields) in variants {
        e.variant_names.push(variant_name.to_string());
        e.variant_field_counts.push(fields.len() as u32);
        for (ty, offset, size) in fields {
            e.all_field_types.push(ty);
            e.all_field_offsets.push(offset);
            e.all_field_sizes.push(size);
        }
    }
    e
}

/// An enum with a tag of the discriminant type, all of whose variants can
/// exist.
fn tagged_enum(
    name: &str,
    width: u32,
    variant_discriminants: Vec<u64>,
    variants: Vec<Variant>,
    tag_offset: u64,
    total_size: u64,
    abi_align: u64,
) -> MirEnumType {
    let variant_inhabited = vec![1; variants.len()];
    enum_type(
        name,
        uint(width),
        variant_discriminants,
        variants,
        EnumEncoding {
            tag_offset,
            total_size,
            abi_align,
            layout_kind: EnumLayoutKind::Direct,
            carrier_kind: EnumCarrierKind::Integer,
            carrier_width: width,
            variant_inhabited,
            ..EnumEncoding::default()
        },
    )
}

/// Code whose arguments have these Rust types.
fn body_of(args: &[MirType]) -> Builder {
    Builder::new(args.iter().map(|ty| convert_type(ty).unwrap()).collect())
}

/// A scalable vector, which has no fixed size.
fn scalable() -> MirType {
    MirType::Vector(Box::new(uint(32)), 4, true)
}

#[test]
fn unions_must_fit_their_fields() {
    let storage = |fields, size, align| build_union_storage_type(&union_type("U", fields, size, align));
    assert_eq!(storage(vec![("a", uint(8))], 3, 3), Err(LowerError::UnionAlign { align: 3 }));
    assert_eq!(
        storage(vec![("a", uint(8))], 6, 4),
        Err(LowerError::UnionSize { size: 6, align: 4 })
    );
    assert_eq!(
        storage(vec![("a", scalable())], 16, 16),
        Err(LowerError::UnionFieldLayout { field: 0 })
    );
    assert_eq!(
        storage(vec![("a", uint(8)), ("b", uint(64))], 4, 4),
        Err(LowerError::UnionFieldSize { field: 1, field_size: 8, size: 4 })
    );
    assert_eq!(
        storage(vec![("a", uint(64))], 8, 4),
        Err(LowerError::UnionFieldAlign { field: 0, field_align: 8, align: 4 })
    );
}

#[test]
fn union_fields_are_counted() {
    let u = || union_type("U", vec![("a", uint(8))], 1, 1);
    let mut b = body_of(&[MirType::Union(u()), uint(8), pointer(MirType::Union(u()), GENERIC)]);
    let history = vec![MirType::Union(u())];
    let operand = Operand { value: Value::Arg(0), history: &history };
    let refused = Err(LowerError::UnionFieldIndex { member: 1 });
    assert_eq!(convert_extract_field(&mut b, &operand, Some(1)), refused);
    assert_eq!(convert_insert_field(&mut b, &operand, Value::Arg(1), Some(1)), refused);
    let ptr_history = vec![pointer(MirType::Union(u()), GENERIC)];
    let address = Operand { value: Value::Arg(2), history: &ptr_history };
    assert_eq!(convert_field_addr(&mut b, &address, Some(1)), refused);
    // Every field of a union starts where the union does.
    let first = convert_field_addr(&mut b, &address, Some(0)).unwrap();
    assert_eq!(
        b.defining_op(first),
        Some(Op::GetElementPtr {
            base: Value::Arg(2),
            path: GepPath::One(GepIndex::Constant(0)),
            inbounds: false,
        })
    );
}

#[test]
fn enum_carriers_must_match_and_fit() {
    let unknown = enum_type(
        "E",
        uint(8),
        vec![0],
        vec![unit("A")],
        EnumEncoding::default(),
    );
    assert_eq!(build_enum_slot_map(&unknown).err(), Some(LowerError::EnumUnknownLayout));

    let mut mismatched = tagged_enum("E", 8, vec![0], vec![unit("A")], 0, 4, 4);
    mismatched.encoding.carrier_width = 16;
    assert_eq!(build_enum_slot_map(&mismatched).err(), Some(LowerError::EnumCarrierMismatch));

    let outside = tagged_enum("E", 32, vec![0], vec![unit("A")], 4, 4, 4);
    assert_eq!(
        build_enum_slot_map(&outside).err(),
        Some(LowerError::EnumCarrierPlacement { size: 4, align: 4, offset: 4, total_size: 4 })
    );
}

#[test]
fn enum_payloads_must_fit() {
    let of = |ty: MirType, offset: u64, size: u64| {
        tagged_enum("E", 8, vec![0, 1], vec![payload("A", ty, offset, size), unit("B")], 0, 8, 4)
    };
    let refused = |e: MirEnumType| build_enum_slot_map(&e).err().unwrap();

    let mut uncounted = of(uint(32), 4, 4);
    uncounted.all_field_sizes.clear();
    assert_eq!(refused(uncounted), LowerError::EnumFieldCount { entries: 0, fields: 1 });
    assert_eq!(refused(of(scalable(), 4, 4)), LowerError::EnumFieldLayout { field: 0 });
    assert_eq!(
        refused(of(uint(16), 4, 4)),
        LowerError::EnumFieldSize { field: 0, lowered: 2, expected: 4 }
    );
    assert_eq!(
        refused(of(uint(32), 8, 4)),
        LowerError::EnumFieldBounds { field: 0, size: 4, offset: 8, total_size: 8 }
    );
    assert_eq!(
        refused(of(array(MirType::Vector(Box::new(boolean()), 8, false), 1), 4, 1)),
        LowerError::BoolVector
    );
    assert_eq!(refused(of(MirType::Opaque, 4, 4)), LowerError::UnsupportedType);
}

#[test]
fn overlapping_enum_payloads_must_keep_their_bytes() {
    let of = |first: MirType, second: MirType, size: u64| {
        tagged_enum(
            "E",
            8,
            vec![0, 1],
            vec![payload("A", first, 4, size), payload("B", second, 4, size)],
            0,
            4 + size,
            4,
        )
    };
    // Implicit padding behind a byte is not preserved.
    let padded = tuple(vec![uint(8), uint(32)]);
    let words = array(uint(32), 2);
    assert!(matches!(
        build_enum_slot_map(&of(padded, words, 8)).err(),
        Some(LowerError::EnumNotByteFaithful { .. })
    ));
    // A bool shares only an exact byte.
    let bool_and_short = tagged_enum(
        "E",
        8,
        vec![0, 1],
        vec![payload("A", uint(16), 4, 2), payload("B", boolean(), 5, 1)],
        0,
        8,
        4,
    );
    assert_eq!(
        build_enum_slot_map(&bool_and_short).err(),
        Some(LowerError::EnumBoolOverlap { field: 1 })
    );
}

#[test]
fn enum_storage_must_have_the_size_and_alignment_of_the_enum() {
    let unsized_tail = tagged_enum(
        "E",
        32,
        vec![0],
        vec![payload("A", uint(64), 0, 8)],
        8,
        12,
        4,
    );
    assert_eq!(
        build_enum_slot_map(&unsized_tail).err(),
        Some(LowerError::EnumStorageSize { lowered: 16, expected: 12 })
    );
    let narrow = tagged_enum(
        "E",
        32,
        vec![0],
        vec![payload("A", uint(64), 0, 8)],
        8,
        16,
        4,
    );
    assert_eq!(
        build_enum_slot_map(&narrow).err(),
        Some(LowerError::EnumStorageAlign { lowered: 8, expected: 4 })
    );
}

#[test]
fn variants_need_an_encoding() {
    let mut direct = tagged_enum("E", 8, vec![0], vec![unit("A"), unit("B")], 0, 1, 1);
    assert_eq!(
        enum_carrier_bits_for_variant(&direct, 1),
        Err(LowerError::VariantDiscriminant { variant: 1 })
    );
    direct.encoding.layout_kind = EnumLayoutKind::Single;
    assert_eq!(
        enum_carrier_bits_for_variant(&direct, 1),
        Err(LowerError::VariantNotSingle { variant: 1 })
    );
    assert_eq!(enum_carrier_bits_for_variant(&direct, 0), Ok(None));
    direct.encoding.layout_kind = EnumLayoutKind::Niche;
    assert_eq!(enum_carrier_bits_for_variant(&direct, 0), Ok(None));
    assert_eq!(
        enum_carrier_bits_for_variant(&direct, 1),
        Err(LowerError::VariantNotEncodable { variant: 1 })
    );
    direct.encoding.layout_kind = EnumLayoutKind::Empty;
    assert_eq!(enum_carrier_bits_for_variant(&direct, 0), Err(LowerError::EnumUninhabited));
    direct.encoding.layout_kind = EnumLayoutKind::Unknown;
    assert_eq!(enum_carrier_bits_for_variant(&direct, 0), Err(LowerError::EnumUnknownLayout));
}

#[test]
fn discriminants_need_a_carrier() {
    let read = |e: MirEnumType| {
        let ty = MirType::Enum(e);
        let mut b = body_of(&[]);
        let value = b.undef(convert_type(&ty).unwrap());
        convert_get_discriminant(&mut b, &Operand { value, history: &vec![ty] })
    };
    let encoding = |layout_kind, carrier_kind, carrier_width| EnumEncoding {
        total_size: 1,
        abi_align: 1,
        layout_kind,
        carrier_kind,
        carrier_width,
        variant_inhabited: vec![1, 1],
        ..EnumEncoding::default()
    };
    let of = |encoding| enum_type("E", uint(8), vec![0, 1], vec![unit("A"), unit("B")], encoding);

    let carrierless = || of(encoding(EnumLayoutKind::Direct, EnumCarrierKind::Absent, 0));
    assert_eq!(read(carrierless()), Err(LowerError::NoCarrier));
    let ptr = || pointer(MirType::Enum(carrierless()), GENERIC);
    let mut b = body_of(&[ptr()]);
    let address = Operand { value: Value::Arg(0), history: &vec![ptr()] };
    assert_eq!(convert_set_discriminant(&mut b, &address, Some(0)), Err(LowerError::NoCarrier));
    assert_eq!(convert_set_discriminant(&mut b, &address, None), Err(LowerError::MissingIndex));

    let mut reversed = of(encoding(EnumLayoutKind::Niche, EnumCarrierKind::Integer, 8));
    reversed.encoding.niche_variant_start = 1;
    assert_eq!(read(reversed), Err(LowerError::NicheRange));
    let empty = of(encoding(EnumLayoutKind::Empty, EnumCarrierKind::Absent, 0));
    assert_eq!(read(empty), Err(LowerError::EnumUninhabited));
}

#[test]
fn payloads_are_counted() {
    let e = || {
        MirType::Enum(tagged_enum(
            "E",
            32,
            vec![0, 1],
            vec![payload("A", uint(32), 4, 4), unit("B")],
            0,
            8,
            4,
        ))
    };
    let mut b = body_of(&[uint(32), e()]);
    let operands = vec![Value::Arg(0), Value::Arg(0)];
    assert_eq!(
        convert_construct_enum(&mut b, &e(), &operands, Some(0)),
        Err(LowerError::PayloadIndex { variant: 0, payload: 1, fields: 1 })
    );
    let history = vec![e()];
    let operand = Operand { value: Value::Arg(1), history: &history };
    assert_eq!(
        convert_enum_payload(&mut b, &operand, Some(1), Some(0)),
        Err(LowerError::PayloadIndex { variant: 1, payload: 0, fields: 1 })
    );
}

#[test]
fn payload_addresses_reach_four_gibibytes() {
    let offset = 1u64 << 32;
    // The two payloads share their bytes; the integer has no slot of its own.
    let e = tagged_enum(
        "E",
        32,
        vec![0, 1],
        vec![payload("A", MirType::Fp32, offset, 4), payload("B", uint(32), offset, 4)],
        0,
        offset + 8,
        4,
    );
    let ptr = pointer(MirType::Enum(e), GENERIC);
    let mut b = Builder::new(vec![convert_type(&ptr).unwrap()]);
    let address = Operand { value: Value::Arg(0), history: &vec![ptr] };
    assert_eq!(
        convert_field_addr(&mut b, &address, Some(1)),
        Err(LowerError::PayloadOffset { offset })
    );
}

#[test]
fn payload_values_adapt_only_to_their_storage() {
    let mut b = Builder::new(vec![
        LlvmType::Integer(16),
        LlvmType::Vector(Box::new(LlvmType::Integer(1)), 8, false),
        LlvmType::Integer(1),
    ]);
    assert_eq!(
        coerce_enum_payload_value(&mut b, Value::Arg(0), &LlvmType::Integer(8)),
        Err(LowerError::PayloadCoercion)
    );
    assert_eq!(
        canonicalize_bool_value_bytes(&mut b, Value::Arg(1)),
        Err(LowerError::BoolCanonicalization)
    );
    // Values without bool bytes stay as they are.
    assert_eq!(canonicalize_bool_value_bytes(&mut b, Value::Arg(0)), Ok(Value::Arg(0)));
    let byte = canonicalize_bool_value_bytes(&mut b, Value::Arg(2)).unwrap();
    assert_eq!(*b.value_type(byte), LlvmType::Integer(8));
    let back = coerce_enum_payload_value(&mut b, byte, &LlvmType::Integer(1)).unwrap();
    assert_eq!(*b.value_type(back), LlvmType::Integer(1));
}

#[test]
fn array_indices_are_integers() {
    let ptr = || pointer(array(uint(8), 3), GENERIC);
    let mut b = body_of(&[array(uint(8), 3), MirType::Fp32]);
    let history = vec![array(uint(8), 3)];
    let operand = Operand { value: Value::Arg(0), history: &history };
    assert_eq!(
        convert_extract_array_element(&mut b, &operand, Value::Arg(1)),
        Err(LowerError::IndexNotInteger)
    );
    assert_eq!(
        convert_array_element_addr(
            &mut b,
            &Operand { value: Value::Arg(0), history: &vec![] },
            Value::Arg(1)
        ),
        Err(LowerError::UnexpectedType)
    );
    // A local array is small enough to choose among constant addresses.
    let slot = b.stack_slot(convert_type(&array(uint(8), 3)).unwrap(), 32, None);
    let local = Operand { value: slot, history: &vec![ptr()] };
    assert_eq!(
        convert_array_element_addr(&mut b, &local, Value::Arg(1)),
        Err(LowerError::IndexNotInteger)
    );
}

#[test]
fn values_are_read_within_bounds() {
    let mut b = Builder::new(vec![
        LlvmType::Integer(8),
        LlvmType::Array(Box::new(LlvmType::Integer(8)), 2),
    ]);
    assert_eq!(b.extract(Value::Arg(0), 0), Err(LowerError::ExtractIndex { slot: 0 }));
    assert_eq!(b.extract(Value::Arg(1), 2), Err(LowerError::ExtractIndex { slot: 2 }));
    assert_eq!(b.extract(Value::Arg(1), 1), Ok(Value::Inst(0)));
}

#[test]
fn refusals_have_words() {
    assert_eq!(LowerError::NoCarrier.message(), "enum layout has no carrier");
    assert_eq!(
        LowerError::TransmuteSize { source: 8, target: 4 }.message(),
        "transmute between 8 and 4 bytes"
    );
    let carrier =
        LowerError::EnumCarrierPlacement { size: 4, align: 4, offset: 2, total_size: 8 };
    assert_eq!(carrier.message(), "carrier of 4 bytes aligned to 4 cannot sit at byte 2 of 8");
}

#[test]
fn transmutes_need_layouts() {
    let lower = |source: MirType, target: MirType| {
        let mut b = body_of(&[]);
        let value = b.undef(convert_type(&source).unwrap());
        convert(&mut b, &vec![value], &vec![source], Some(CastKind::Transmute), &target)
    };
    assert_eq!(lower(scalable(), uint(64)), Err(LowerError::TransmuteLayout));
    assert_eq!(lower(uint(64), scalable()), Err(LowerError::TransmuteLayout));
}

#[test]
fn sizes_must_be_known_and_fit() {
    let huge = || array(array(uint(64), 1 << 40), 1 << 40);
    let mut b = body_of(&[pointer(uint(8), GENERIC), uint(64)]);
    let operands = vec![Value::Arg(0), Value::Arg(0), Value::Arg(1)];
    assert_eq!(
        convert_memcpy(&mut b, &operands, &vec![pointer(huge(), GENERIC)]),
        Err(LowerError::SizeUnknown)
    );
    assert_eq!(
        convert_memcpy(&mut b, &operands, &vec![pointer(scalable(), GENERIC)]),
        Err(LowerError::SizeUnknown)
    );
    let holder = laid_out_struct("V", vec![("v", scalable())], vec![0], vec![0], 16, 16);
    assert_eq!(convert_type(&holder), Err(LowerError::SizeUnknown));
    let nested = laid_out_struct("S", vec![("a", uint(8))], vec![0], vec![0], 1 << 40, 1);
    let wrapping = laid_out_struct(
        "T",
        vec![("a", array(nested, 1 << 40))],
        vec![0],
        vec![0],
        16,
        1,
    );
    assert_eq!(convert_type(&wrapping), Err(LowerError::LayoutOverflow));
}

#[test]
fn initialized_globals_must_have_a_known_layout() {
    let check = validate_initialized_global_layout;
    assert_eq!(check(&uint(8), 1, 3), Err(LowerError::InitializedAlign { align: 3 }));
    assert_eq!(check(&scalable(), 16, 16), Err(LowerError::InitializedLayout));
    let unplaced = laid_out_struct("S", vec![("a", uint(8))], vec![], vec![], 1, 1);
    assert_eq!(check(&unplaced, 1, 1), Err(LowerError::InitializedNoOffsets));
    let unsized_field = laid_out_struct(
        "S",
        vec![("a", laid_out_struct("I", vec![("v", scalable())], vec![], vec![], 16, 16))],
        vec![0],
        vec![0],
        16,
        16,
    );
    assert!(check(&unsized_field, 16, 16).is_err());
    assert_eq!(
        check(&uint(32), 8, 4),
        Err(LowerError::InitializedMismatch {
            size: 4,
            align: 4,
            expected_size: 8,
            expected_align: 4,
        })
    );
    assert_eq!(
        check(&uint(32), 4, 2),
        Err(LowerError::InitializedMismatch {
            size: 4,
            align: 4,
            expected_size: 4,
            expected_align: 2,
        })
    );
    let pair = laid_out_tuple(vec![uint(8), uint(8)], vec![0, 1], vec![0, 1], 2, 1);
    assert_eq!(check(&pair, 2, 1), Ok(()));
}
