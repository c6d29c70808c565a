use mir_lower::aggregate::{
    convert_construct_array, convert_construct_disjoint_slice, convert_construct_slice,
    convert_construct_struct, convert_construct_tuple, convert_extract_field,
    convert_insert_field, resolve_aggregate_slots, AggregateSlots,
};
use mir_lower::array_ops::{
    convert_array_element_addr, convert_extract_array_element, MAX_SSA_ARRAY_ELEMENTS,
};
use mir_lower::error::LowerError;
use mir_lower::field_addr::convert_field_addr;
use mir_lower::ir::{BinOp, Builder, CastOp, DebugInfo, GepIndex, GepPath, Inst, Op, Value};
use mir_lower::llvm::{LlvmType, GENERIC};
use mir_lower::memory::{convert_alloca, convert_load, convert_store};
use mir_lower::mir::{
    MirDisjointSliceType, MirPtrType, MirStructType, MirTupleType, MirType, MirUnionType,
    Signedness,
};
use mir_lower::operands::Operand;
use mir_lower::storage::is_zero_sized_type;
use mir_lower::types::{convert_type, make_disjoint_slice_struct};

fn uint(width: u32) -> MirType {
    MirType::Integer(width, Signedness::Unsigned)
}

fn pointer(pointee: MirType, address_space: u32) -> MirType {
    MirType::Ptr(MirPtrType { pointee: Box::new(pointee), mutable: false, address_space })
}

fn array(element: MirType, len: u64) -> MirType {
    MirType::Array(Box::new(element), len)
}

fn struct_type(
    name: &str,
    fields: Vec<(&str, MirType)>,
    mem_to_decl: Vec<usize>,
    field_offsets: Vec<u64>,
    total_size: u64,
    abi_align: u64,
) -> MirStructType {
    let mut field_names = vec![];
    let mut field_types = vec![];
    for (field_name, ty) in fields {
        field_names.push(field_name.to_string());
        field_types.push(ty);
    }
    MirStructType {
        name: name.to_string(),
        field_names,
        field_types,
        mem_to_decl,
        field_offsets,
        total_size,
        abi_align,
    }
}

fn laid_out_struct(
    name: &str,
    fields: Vec<(&str, MirType)>,
    mem_to_decl: Vec<usize>,
    field_offsets: Vec<u64>,
    total_size: u64,
    abi_align: u64,
) -> MirType {
    MirType::Struct(struct_type(name, fields, mem_to_decl, field_offsets, total_size, abi_align))
}

fn laid_out_tuple(
    types: Vec<MirType>,
    mem_to_decl: Vec<usize>,
    field_offsets: Vec<u64>,
    total_size: u64,
    abi_align: u64,
) -> MirType {
    MirType::Tuple(MirTupleType { types, mem_to_decl, field_offsets, total_size, abi_align })
}

fn tuple(types: Vec<MirType>) -> MirType {
    laid_out_tuple(types, vec![], vec![], 0, 0)
}

fn union_type(name: &str, fields: Vec<(&str, MirType)>, total_size: u64, abi_align: u64) -> MirUnionType {
    let mut field_names = vec![];
    let mut field_types = vec![];
    for (field_name, ty) in fields {
        field_names.push(field_name.to_string());
        field_types.push(ty);
    }
    MirUnionType { name: name.to_string(), field_names, field_types, total_size, abi_align }
}

fn count(b: &Builder, wanted: fn(&Op) -> bool) -> usize {
    b.insts.iter().filter(|inst| wanted(&inst.op)).count()
}

fn find_all(b: &Builder, wanted: fn(&Op) -> bool) -> Vec<&Inst> {
    b.insts.iter().filter(|inst| wanted(&inst.op)).collect()
}

fn is_cast(op: &Op, expected: CastOp) -> bool {
    matches!(op, Op::Cast { kind, .. } if *kind == expected)
}

/// Code whose arguments have these Rust types.
fn body_of(args: &[MirType]) -> Builder {
    Builder::new(args.iter().map(|ty| convert_type(ty).unwrap()).collect())
}

fn allocas(b: &Builder) -> usize {
    count(b, |op| matches!(op, Op::Alloca { .. }))
}

fn stores(b: &Builder) -> usize {
    count(b, |op| matches!(op, Op::Store { .. }))
}

fn loads(b: &Builder) -> usize {
    count(b, |op| matches!(op, Op::Load { .. }))
}

fn geps(b: &Builder) -> Vec<&Inst> {
    find_all(b, |op| matches!(op, Op::GetElementPtr { .. }))
}

fn extracts(b: &Builder) -> usize {
    count(b, |op| matches!(op, Op::ExtractValue { .. }))
}

fn compares(b: &Builder) -> usize {
    count(b, |op| matches!(op, Op::Compare { .. }))
}

fn selects(b: &Builder) -> usize {
    count(b, |op| matches!(op, Op::Select { .. }))
}

/// Aggregate, value and slot of each insertion, with the insertion itself.
fn inserts(b: &Builder) -> Vec<(Value, Value, u32, Value)> {
    let mut out = vec![];
    for (at, inst) in b.insts.iter().enumerate() {
        if let Op::InsertValue { aggregate, value, index } = inst.op {
            out.push((aggregate, value, index, Value::Inst(at)));
        }
    }
    out
}

fn insert_slots(b: &Builder) -> Vec<u32> {
    inserts(b).into_iter().map(|(_, _, slot, _)| slot).collect()
}

fn mutable_pointer(pointee: MirType) -> MirType {
    MirType::Ptr(MirPtrType { pointee: Box::new(pointee), mutable: true, address_space: GENERIC })
}

fn no_info() -> DebugInfo {
    DebugInfo { variable: None, source_scope: None, declaration: None }
}

/// Builds an array from arguments and reads it at an index.
fn array_extract(size: u64) -> Builder {
    let n = size as usize;
    let mut args: Vec<MirType> = (0..n).map(|_| uint(32)).collect();
    args.push(uint(64));
    let mut b = body_of(&args);
    let operands: Vec<Value> = (0..n).map(Value::Arg).collect();
    let ty = array(uint(32), size);
    let value = convert_construct_array(&mut b, &ty, &operands).unwrap();
    convert_extract_array_element(&mut b, &Operand { value, history: &vec![ty] }, Value::Arg(n))
        .expect("lowering failed");
    b
}

#[test]
fn small_runtime_array_extract_stays_in_ssa() {
    let b = array_extract(3);
    assert_eq!(extracts(&b), 3);
    assert_eq!(compares(&b), 2);
    assert_eq!(selects(&b), 2);
    assert_eq!(allocas(&b), 0);
    assert_eq!(geps(&b).len(), 0);
    assert_eq!(loads(&b), 0);
    assert_eq!(stores(&b), 0);
}

#[test]
fn large_runtime_array_extract_uses_bounded_memory_lowering() {
    let b = array_extract(MAX_SSA_ARRAY_ELEMENTS + 1);
    assert_eq!(allocas(&b), 1);
    assert_eq!(geps(&b).len(), 1);
    assert_eq!(loads(&b), 1);
    assert_eq!(stores(&b), 1);
    assert_eq!(selects(&b), 0);
}

/// Reads or writes an element of a local array at a run-time index.
fn local_array_access(size: u64, write: bool) -> Builder {
    let mut b = body_of(&[uint(64), uint(32)]);
    let array_ptr = mutable_pointer(array(uint(32), size));
    let value = convert_alloca(&mut b, &array_ptr, no_info()).unwrap();
    let address = convert_array_element_addr(
        &mut b,
        &Operand { value, history: &vec![array_ptr] },
        Value::Arg(0),
    )
    .unwrap();
    if write {
        let operands = vec![address, Value::Arg(1)];
        convert_store(&mut b, &operands, &vec![uint(32)], None, false).unwrap();
    } else {
        convert_load(&mut b, address, &uint(32), None, false).unwrap();
    }
    b
}

#[test]
fn small_runtime_array_address_uses_constant_pointer_selection() {
    let b = local_array_access(3, false);
    assert_eq!(geps(&b).len(), 3);
    assert_eq!(compares(&b), 2);
    assert_eq!(selects(&b), 4);
    assert_eq!(loads(&b), 3);
}

#[test]
fn small_runtime_array_store_updates_constant_pointer_candidates() {
    let b = local_array_access(3, true);
    assert_eq!(geps(&b).len(), 3);
    assert_eq!(compares(&b), 2);
    assert_eq!(loads(&b), 3);
    assert_eq!(stores(&b), 3);
}

/// Reads an element of an array behind an argument.
fn external_array_read(size: u64) -> Builder {
    let array_ptr = || pointer(array(uint(32), size), GENERIC);
    let mut b = body_of(&[array_ptr(), uint(64)]);
    let address = convert_array_element_addr(
        &mut b,
        &Operand { value: Value::Arg(0), history: &vec![array_ptr()] },
        Value::Arg(1),
    )
    .unwrap();
    convert_load(&mut b, address, &uint(32), None, false).unwrap();
    b
}

#[test]
fn small_external_array_address_keeps_single_dynamic_gep() {
    let b = external_array_read(3);
    assert_eq!(geps(&b).len(), 1);
    assert_eq!(compares(&b), 0);
    assert_eq!(selects(&b), 0);
    assert_eq!(loads(&b), 1);
}

#[test]
fn large_runtime_array_address_keeps_single_dynamic_gep() {
    let b = external_array_read(MAX_SSA_ARRAY_ELEMENTS + 1);
    assert_eq!(geps(&b).len(), 1);
    assert_eq!(compares(&b), 0);
    assert_eq!(selects(&b), 0);
    assert_eq!(loads(&b), 1);
}

/// Reads an element of an array inside a struct behind an argument.
fn aggregate_array_read(size: u64, mutable: bool) -> Builder {
    let to = |pointee: MirType| {
        MirType::Ptr(MirPtrType { pointee: Box::new(pointee), mutable, address_space: GENERIC })
    };
    let owner = || {
        let fields = vec![("values", array(uint(32), size))];
        to(laid_out_struct("ArrayOwner", fields, vec![], vec![], 0, 0))
    };
    let mut b = body_of(&[owner(), uint(64)]);
    let value = convert_field_addr(
        &mut b,
        &Operand { value: Value::Arg(0), history: &vec![owner()] },
        Some(0),
    )
    .unwrap();
    let address = convert_array_element_addr(
        &mut b,
        &Operand { value, history: &vec![to(array(uint(32), size))] },
        Value::Arg(1),
    )
    .unwrap();
    convert_load(&mut b, address, &uint(32), None, false).unwrap();
    b
}

#[test]
fn small_readonly_aggregate_array_address_uses_constant_pointer_selection() {
    let b = aggregate_array_read(3, false);
    assert_eq!(geps(&b).len(), 4);
    assert_eq!(compares(&b), 2);
    assert_eq!(selects(&b), 4);
    assert_eq!(loads(&b), 3);
}

#[test]
fn small_mutable_aggregate_array_address_keeps_single_dynamic_gep() {
    let b = aggregate_array_read(3, true);
    assert_eq!(geps(&b).len(), 2);
    assert_eq!(compares(&b), 0);
    assert_eq!(selects(&b), 0);
    assert_eq!(loads(&b), 1);
}

#[test]
fn float_array_union_bitcast_stays_in_ssa() {
    let pair = || array(MirType::Fp32, 2);
    let union_ty = || {
        MirType::Union(union_type(
            "FloatPairBits",
            vec![("floats", pair()), ("bits", uint(64))],
            8,
            8,
        ))
    };
    let mut b = body_of(&[pair()]);
    let value = b.undef(convert_type(&union_ty()).unwrap());
    let value = convert_insert_field(
        &mut b,
        &Operand { value, history: &vec![union_ty()] },
        Value::Arg(0),
        Some(0),
    )
    .unwrap();
    convert_extract_field(&mut b, &Operand { value, history: &vec![union_ty()] }, Some(0))
        .unwrap();
    assert_eq!(allocas(&b), 0);
    assert_eq!(loads(&b), 0);
    assert_eq!(stores(&b), 0);
    assert_eq!(count(&b, |op| is_cast(op, CastOp::Bitcast)), 4);
    assert_eq!(count(&b, |op| matches!(op, Op::Binary { op: BinOp::Shl, .. })), 1);
}

#[test]
fn construct_slice_lowers_to_ptr_len_insert_values() {
    let mut b = body_of(&[pointer(uint(8), GENERIC), uint(64)]);
    let slice = MirType::Slice(Box::new(uint(8)));
    let r = convert_construct_slice(&mut b, &slice, Value::Arg(0), Value::Arg(1)).unwrap();
    let inserted = inserts(&b);
    assert_eq!(insert_slots(&b), vec![0, 1]);
    assert_eq!(inserted[0].1, Value::Arg(0), "slot 0 receives the data pointer");
    assert_eq!(inserted[1].0, inserted[0].3, "the length goes into the first result");
    assert_eq!(inserted[1].1, Value::Arg(1), "slot 1 receives the length");
    assert_eq!(r, inserted[1].3);
    assert_eq!(count(&b, |op| matches!(op, Op::Undef)), 1);
}

fn disjoint_slice(space_tys: Vec<MirType>) -> MirType {
    MirType::DisjointSlice(MirDisjointSliceType { element_ty: Box::new(MirType::Fp32), space_tys })
}

#[test]
fn construct_disjoint_slice_lowers_to_ptr_len_insert_values() {
    let mut b = body_of(&[mutable_pointer(MirType::Fp32), uint(64)]);
    let operands = vec![Value::Arg(0), Value::Arg(1)];
    convert_construct_disjoint_slice(&mut b, &disjoint_slice(vec![]), &operands).unwrap();
    assert_eq!(insert_slots(&b), vec![0, 1]);
    assert_eq!(inserts(&b)[0].1, Value::Arg(0));
    assert_eq!(inserts(&b)[1].1, Value::Arg(1));
    assert_eq!(count(&b, |op| matches!(op, Op::Undef)), 1);
}

#[test]
fn construct_disjoint_slice_places_the_row_width_after_ptr_and_len() {
    let mut b = body_of(&[mutable_pointer(MirType::Fp32), uint(64), uint(32)]);
    let operands = vec![Value::Arg(0), Value::Arg(1), Value::Arg(2)];
    convert_construct_disjoint_slice(&mut b, &disjoint_slice(vec![uint(32)]), &operands).unwrap();
    assert_eq!(insert_slots(&b), vec![0, 1, 2]);
    assert_eq!(inserts(&b)[2].1, Value::Arg(2), "slot 2 receives the row width");
    assert_eq!(inserts(&b)[1].1, Value::Arg(1), "slot 1 still receives the length");
}

fn signless(width: u32) -> MirType {
    MirType::Integer(width, Signedness::Signless)
}

fn marker() -> MirType {
    laid_out_struct("Marker", vec![], vec![], vec![], 0, 0)
}

fn padded_struct_with_zst() -> MirType {
    let fields = vec![("a", signless(8)), ("marker", marker()), ("b", signless(64))];
    laid_out_struct("Padded", fields, vec![0, 1, 2], vec![0, 1, 8], 16, 8)
}

/// Builds a padded struct with a zero-sized field from two arguments.
fn padded_value() -> (Builder, Value) {
    let mut b = body_of(&[signless(8), signless(64)]);
    let zst = convert_construct_struct(&mut b, &marker(), &vec![]).unwrap();
    let operands = vec![Value::Arg(0), zst, Value::Arg(1)];
    let value = convert_construct_struct(&mut b, &padded_struct_with_zst(), &operands).unwrap();
    (b, value)
}

#[test]
fn construct_struct_uses_layout_slots_and_skips_zst() {
    let (b, _) = padded_value();
    let inserted = inserts(&b);
    assert_eq!(insert_slots(&b), vec![0, 2], "insertions skip padding and zero-sized fields");
    assert_eq!(inserted[0].1, Value::Arg(0), "slot 0 receives field `a`");
    assert_eq!(inserted[1].0, inserted[0].3, "`b` goes into the aggregate that holds `a`");
    assert_eq!(inserted[1].1, Value::Arg(1), "slot 2 receives field `b`");
}

#[test]
fn extract_zst_field_lowers_to_undef_without_extract_value() {
    let (mut b, value) = padded_value();
    let history = vec![padded_struct_with_zst()];
    convert_extract_field(&mut b, &Operand { value, history: &history }, Some(1)).unwrap();
    assert_eq!(extracts(&b), 0, "a stripped field is not read");
    let zero_sized = find_all(&b, |op| matches!(op, Op::Undef))
        .into_iter()
        .filter(|inst| is_zero_sized_type(&inst.ty))
        .count();
    assert_eq!(zero_sized, 2, "one to build the value and one for the extracted field");
}

#[test]
fn sibling_zst_field_addrs_lower_to_distinct_zero_offset_geps() {
    let zst = |name: &'static str| laid_out_struct(name, vec![], vec![], vec![], 0, 0);
    let composed = || {
        let fields =
            vec![("f", zst("MapClosure")), ("g", zst("SumClosure")), ("acc", signless(64))];
        mutable_pointer(laid_out_struct("Composed", fields, vec![0, 1, 2], vec![0, 0, 0], 8, 8))
    };
    let mut b = body_of(&[composed()]);
    let mut addresses = vec![];
    for field in 0..3 {
        let base = Operand { value: Value::Arg(0), history: &vec![composed()] };
        addresses.push(convert_field_addr(&mut b, &base, Some(field)).unwrap());
    }
    let all = geps(&b);
    assert_eq!(all.len(), 3, "each field_addr must lower to its own GEP");
    for inst in &all[0..2] {
        assert_eq!(inst.elem, LlvmType::Integer(8));
        assert!(matches!(
            inst.op,
            Op::GetElementPtr {
                base: Value::Arg(0),
                path: GepPath::One(GepIndex::Constant(0)),
                ..
            }
        ));
    }
    assert_ne!(addresses[0], addresses[1]);
    assert!(!addresses.contains(&Value::Arg(0)));
    assert!(matches!(
        all[2].op,
        Op::GetElementPtr {
            path: GepPath::Two(GepIndex::Constant(0), GepIndex::Constant(0)),
            ..
        }
    ));
}

#[test]
fn field_addr_tuple_pointee_resolves_memory_order_gep_index() {
    let tuple_ptr = || {
        pointer(
            laid_out_tuple(vec![uint(8), uint(32)], vec![1, 0], vec![4, 0], 8, 4),
            GENERIC,
        )
    };
    let mut b = body_of(&[tuple_ptr()]);
    for field in 0..2 {
        let base = Operand { value: Value::Arg(0), history: &vec![tuple_ptr()] };
        convert_field_addr(&mut b, &base, Some(field)).unwrap();
    }
    let all = geps(&b);
    assert_eq!(all.len(), 2);
    let slot = |inst: &Inst| match inst.op {
        Op::GetElementPtr { path: GepPath::Two(GepIndex::Constant(0), index), .. } => index,
        _ => panic!("expected a struct address"),
    };
    assert_eq!(slot(all[0]), GepIndex::Constant(1), "field 0 lives in memory slot 1");
    assert_eq!(slot(all[1]), GepIndex::Constant(0), "field 1 lives in memory slot 0");
}

/// Reads an undefined array at an index, taken modulo a constant where there is
/// one.
fn array_extract_case(size: u64, divisor: Option<u128>) -> Builder {
    let mut b = body_of(&[uint(64)]);
    let ty = array(uint(32), size);
    let value = b.undef(convert_type(&ty).unwrap());
    let index = match divisor {
        Some(divisor) => {
            let rhs = b.constant(64, divisor);
            b.binary(BinOp::URem, Value::Arg(0), rhs)
        },
        None => Value::Arg(0),
    };
    convert_extract_array_element(&mut b, &Operand { value, history: &vec![ty] }, index).unwrap();
    b
}

#[test]
fn bounded_urem_array_extract_stays_in_ssa() {
    let b = array_extract_case(3, Some(3));
    assert_eq!(extracts(&b), 3);
    assert_eq!(compares(&b), 2);
    assert_eq!(selects(&b), 2);
    assert_eq!(allocas(&b), 0);
    assert_eq!(stores(&b), 0);
    assert_eq!(geps(&b).len(), 0);
    assert_eq!(loads(&b), 0);
}

#[test]
fn oversized_urem_array_extract_keeps_memory_fallback() {
    let b = array_extract_case(17, Some(17));
    assert_eq!(allocas(&b), 1);
    assert_eq!(stores(&b), 1);
    assert_eq!(geps(&b).len(), 1);
    assert_eq!(loads(&b), 1);
    assert_eq!(selects(&b), 0);
}

#[test]
fn large_dynamic_array_extract_preserves_recursive_element_alignment() {
    let over_aligned = {
        let align32 = laid_out_struct("Align32", vec![], vec![], vec![], 0, 32);
        laid_out_tuple(vec![align32, uint(8)], vec![0, 1], vec![0, 0], 32, 32)
    };
    let outer = array(array(over_aligned, 2), MAX_SSA_ARRAY_ELEMENTS + 1);
    let mut b = body_of(&[uint(64)]);
    let value = b.undef(convert_type(&outer).unwrap());
    convert_extract_array_element(
        &mut b,
        &Operand { value, history: &vec![outer] },
        Value::Arg(0),
    )
    .unwrap();
    assert_eq!(count(&b, |op| matches!(op, Op::Alloca { align: Some(32), .. })), 1);
    assert_eq!(count(&b, |op| matches!(op, Op::Store { align: Some(32), .. })), 1);
    assert_eq!(count(&b, |op| matches!(op, Op::Load { align: Some(32), .. })), 1);
}

#[test]
fn no_history_fallback_resolves_row_width_slice_shape_and_stays_closed_otherwise() {
    let row_width = make_disjoint_slice_struct(&vec![uint(32)])
        .expect("building the row-width slice struct must succeed");
    let foreign = LlvmType::Struct(vec![
        LlvmType::Pointer(GENERIC),
        LlvmType::Integer(64),
        LlvmType::Integer(64),
    ]);
    let b = Builder::new(vec![row_width, foreign]);
    let none = vec![];
    let resolved =
        resolve_aggregate_slots(&b, &Operand { value: Value::Arg(0), history: &none });
    assert!(
        matches!(resolved, Ok(AggregateSlots::Identity)),
        "the row-width shape is index-preserving and must map identically"
    );
    let refused =
        resolve_aggregate_slots(&b, &Operand { value: Value::Arg(1), history: &none });
    assert!(
        matches!(refused, Err(LowerError::NoFieldMapping)),
        "any other shape without history must fail closed"
    );
}

#[test]
fn built_fields_are_read_from_the_slots_they_went_to() {
    // Memory order is (wide, byte).
    let ty = || laid_out_tuple(vec![uint(8), uint(64)], vec![1, 0], vec![8, 0], 16, 8);
    let mut b = body_of(&[uint(8), uint(64)]);
    let operands = vec![Value::Arg(0), Value::Arg(1)];
    let value = convert_construct_tuple(&mut b, &ty(), &operands).unwrap();
    assert_eq!(insert_slots(&b), vec![1, 0]);
    for (field, slot) in [(0, 1), (1, 0)] {
        let read =
            convert_extract_field(&mut b, &Operand { value, history: &vec![ty()] }, Some(field))
                .unwrap();
        assert_eq!(b.defining_op(read), Some(Op::ExtractValue { aggregate: value, index: slot }));
    }
}

#[test]
fn aggregate_operations_need_valid_indices() {
    let mut b = body_of(&[uint(8), uint(64)]);
    let ty = || tuple(vec![uint(8), uint(64)]);
    let operands = vec![Value::Arg(0), Value::Arg(1)];
    let value = convert_construct_tuple(&mut b, &ty(), &operands).unwrap();
    let history = vec![ty()];
    assert_eq!(
        convert_extract_field(&mut b, &Operand { value, history: &history }, None),
        Err(LowerError::MissingIndex)
    );
    assert_eq!(
        convert_extract_field(&mut b, &Operand { value, history: &history }, Some(2)),
        Err(LowerError::FieldIndex { member: 2, fields: 2 })
    );
    assert_eq!(
        convert_construct_tuple(&mut b, &ty(), &vec![Value::Arg(0)]),
        Err(LowerError::OperandCount { operands: 1, fields: 2 })
    );
    assert_eq!(
        convert_construct_struct(&mut b, &ty(), &operands),
        Err(LowerError::UnexpectedType)
    );
}
