use mir_lower::abi::{
    convert_function_type, is_kernel_func, specialize_kernel_parameter_pointers, Attr, AttrValue,
    MirFunctionType,
};
use mir_lower::aggregate::{
    convert_construct_array, convert_construct_struct, convert_construct_tuple,
    convert_extract_field, convert_insert_field,
};
use mir_lower::array_ops::{
    convert_array_element_addr, convert_extract_array_element, is_small_array_address_select,
};
use mir_lower::cast::{convert, emit_int_to_ptr, emit_ptr_to_int, CastKind};
use mir_lower::enum_access::{
    convert_enum_payload, convert_get_discriminant, convert_set_discriminant,
};
use mir_lower::enum_bytes::llvm_struct_fields_at_offsets;
use mir_lower::enum_ops::convert_construct_enum;
use mir_lower::field_addr::convert_field_addr;
use mir_lower::ir::{
    BinOp, Builder, CastOp, DebugInfo, GepIndex, GepPath, Op, Predicate, Value,
};
use mir_lower::layout::llvm_type_size_align;
use mir_lower::llvm::{LlvmType, GENERIC, GLOBAL, SHARED};
use mir_lower::memory::{
    convert_alloca, convert_load, convert_memcpy, convert_memmove, convert_ref, convert_store,
};
use mir_lower::mir::{
    EnumCarrierKind, EnumEncoding, EnumLayoutKind, MirEnumType, MirPtrType, MirStructType,
    MirTupleType, MirType, MirUnionType, Signedness,
};
use mir_lower::names::decimal_text;
use mir_lower::operands::Operand;
use mir_lower::storage::{
    enum_payload_storage_type, is_zero_sized_type, llvm_byte_faithful_twin,
    llvm_type_is_byte_faithful,
};
use mir_lower::types::{build_enum_slot_map, convert_type};
use mir_lower::union_ops::{try_pack_float_array_union, try_unpack_float_array_union};

fn uint(width: u32) -> MirType {
    MirType::Integer(width, Signedness::Unsigned)
}

fn boolean() -> MirType {
    MirType::Integer(1, Signedness::Signless)
}

fn pointer(pointee: MirType, address_space: u32) -> MirType {
    MirType::Ptr(MirPtrType { pointee: Box::new(pointee), mutable: false, address_space })
}

fn array(element: MirType, len: u64) -> MirType {
    MirType::Array(Box::new(element), len)
}

fn struct_type(
    name: &str,
    fields: Vec<(&str, MirType)>,
    mem_to_decl: Vec<usize>,
    field_offsets: Vec<u64>,
    total_size: u64,
    abi_align: u64,
) -> MirStructType {
    let mut field_names = vec![];
    let mut field_types = vec![];
    for (field_name, ty) in fields {
        field_names.push(field_name.to_string());
        field_types.push(ty);
    }
    MirStructType {
        name: name.to_string(),
        field_names,
        field_types,
        mem_to_decl,
        field_offsets,
        total_size,
        abi_align,
    }
}

fn laid_out_struct(
    name: &str,
    fields: Vec<(&str, MirType)>,
    mem_to_decl: Vec<usize>,
    field_offsets: Vec<u64>,
    total_size: u64,
    abi_align: u64,
) -> MirType {
    MirType::Struct(struct_type(name, fields, mem_to_decl, field_offsets, total_size, abi_align))
}

/// A zero-sized struct.
fn phantom() -> MirType {
    laid_out_struct("Phantom", vec![], vec![], vec![], 0, 0)
}

fn laid_out_tuple(
    types: Vec<MirType>,
    mem_to_decl: Vec<usize>,
    field_offsets: Vec<u64>,
    total_size: u64,
    abi_align: u64,
) -> MirType {
    MirType::Tuple(MirTupleType { types, mem_to_decl, field_offsets, total_size, abi_align })
}

fn tuple(types: Vec<MirType>) -> MirType {
    laid_out_tuple(types, vec![], vec![], 0, 0)
}

fn union_type(name: &str, fields: Vec<(&str, MirType)>, total_size: u64, abi_align: u64) -> MirUnionType {
    let mut field_names = vec![];
    let mut field_types = vec![];
    for (field_name, ty) in fields {
        field_names.push(field_name.to_string());
        field_types.push(ty);
    }
    MirUnionType { name: name.to_string(), field_names, field_types, total_size, abi_align }
}

/// One enum variant: its name and the type, offset and size of each payload
/// field.
type Variant = (&'static str, Vec<(MirType, u64, u64)>);

fn unit(name: &'static str) -> Variant {
    (name, vec![])
}

fn payload(name: &'static str, ty: MirType, offset: u64, size: u64) -> Variant {
    (name, vec![(ty, offset, size)])
}

fn enum_type(
    name: &str,
    discriminant_ty: MirType,
    variant_discriminants: Vec<u64>,
    variants: Vec<Variant>,
    encoding: EnumEncoding,
) -> MirEnumType {
    let mut e = MirEnumType {
        name: name.to_string(),
        discriminant_ty: Box::new(discriminant_ty),
        variant_names: vec![],
        variant_discriminants,
        variant_field_counts: vec![],
        all_field_types: vec![],
        all_field_offsets: vec![],
        all_field_sizes: vec![],
        encoding,
    };
    for (variant_name, fields) in variants {
        e.variant_names.push(variant_name.to_string());
        e.variant_field_counts.push(fields.len() as u32);
        for (ty, offset, size) in fields {
            e.all_field_types.push(ty);
            e.all_field_offsets.push(offset);
            e.all_field_sizes.push(size);
        }
    }
    e
}

/// An enum with a tag of the discriminant type, all of whose variants can
/// exist.
fn tagged_enum(
    name: &str,
    width: u32,
    variant_discriminants: Vec<u64>,
    variants: Vec<Variant>,
    tag_offset: u64,
    total_size: u64,
    abi_align: u64,
) -> MirEnumType {
    let variant_inhabited = vec![1; variants.len()];
    enum_type(
        name,
        uint(width),
        variant_discriminants,
        variants,
        EnumEncoding {
            tag_offset,
            total_size,
            abi_align,
            layout_kind: EnumLayoutKind::Direct,
            carrier_kind: EnumCarrierKind::Integer,
            carrier_width: width,
            variant_inhabited,
            ..EnumEncoding::default()
        },
    )
}

// A machine that runs the emitted code.

#[derive(Clone, Debug, PartialEq)]
enum Val {
    Undef,
    Int(u128),
    Aggregate(Vec<Val>),
    /// A place and an offset in it.
    Address(usize, i128),
}

#[derive(Clone, Debug, PartialEq)]
enum Byte {
    Undef,
    Known(u8),
    Part(usize, i128, usize),
}

fn num(bits: u128) -> Val {
    Val::Int(bits)
}

fn size_of(ty: &LlvmType) -> usize {
    llvm_type_size_align(ty).unwrap().0 as usize
}

fn low(bits: u128, width: u32) -> u128 {
    if width >= 128 {
        bits
    } else {
        bits & ((1 << width) - 1)
    }
}

fn encode(x: &Val, ty: &LlvmType) -> Vec<Byte> {
    let mut bytes = vec![Byte::Undef; size_of(ty)];
    match (x, ty) {
        (Val::Aggregate(xs), LlvmType::Array(elem, _)) => {
            for (i, x) in xs.iter().enumerate() {
                let part = encode(x, elem);
                let start = i * part.len();
                bytes.splice(start..start + part.len(), part);
            }
        },
        (Val::Aggregate(xs), LlvmType::Struct(_)) => {
            let (fields, offsets) = llvm_struct_fields_at_offsets(ty).unwrap();
            for (i, x) in xs.iter().enumerate() {
                let part = encode(x, &fields[i]);
                let start = offsets[i] as usize;
                bytes.splice(start..start + part.len(), part);
            }
        },
        (Val::Int(n), _) => {
            for (i, byte) in bytes.iter_mut().enumerate() {
                *byte = Byte::Known((n >> (8 * i)) as u8);
            }
        },
        (Val::Address(place, offset), _) => {
            for (i, byte) in bytes.iter_mut().enumerate() {
                *byte = Byte::Part(*place, *offset, i);
            }
        },
        _ => {},
    }
    bytes
}

fn decode(bytes: &[Byte], ty: &LlvmType) -> Val {
    match ty {
        LlvmType::Array(elem, n) => {
            let size = size_of(elem);
            Val::Aggregate(
                (0..*n as usize).map(|i| decode(&bytes[i * size..(i + 1) * size], elem)).collect(),
            )
        },
        LlvmType::Struct(_) => {
            let (fields, offsets) = llvm_struct_fields_at_offsets(ty).unwrap();
            let field = |i: usize| {
                let start = offsets[i] as usize;
                decode(&bytes[start..start + size_of(&fields[i])], &fields[i])
            };
            Val::Aggregate((0..fields.len()).map(field).collect())
        },
        _ => {
            if let Byte::Part(place, offset, 0) = bytes[0] {
                return Val::Address(place, offset);
            }
            let mut n: u128 = 0;
            for (i, byte) in bytes.iter().enumerate() {
                match byte {
                    Byte::Known(b) => n |= u128::from(*b) << (8 * i),
                    _ => return Val::Undef,
                }
            }
            match ty {
                LlvmType::Integer(width) => Val::Int(low(n, *width)),
                _ => Val::Int(n),
            }
        },
    }
}

struct Machine {
    args: Vec<Val>,
    results: Vec<Val>,
    places: Vec<Vec<Byte>>,
}

impl Machine {
    fn value(&self, v: Value) -> Val {
        match v {
            Value::Arg(i) => self.args[i].clone(),
            Value::Inst(i) => self.results[i].clone(),
        }
    }

    fn number(&self, v: Value) -> Option<u128> {
        match self.value(v) {
            Val::Int(n) => Some(n),
            _ => None,
        }
    }

    fn index(&self, index: GepIndex) -> i128 {
        match index {
            GepIndex::Constant(n) => i128::from(n),
            GepIndex::Value(v) => self.number(v).unwrap() as i128,
        }
    }

    fn cast(&self, kind: CastOp, value: Value, from: &LlvmType, to: &LlvmType) -> Val {
        let x = self.value(value);
        match (kind, x, from, to) {
            (CastOp::AddrSpaceCast, x, _, _) => x,
            (CastOp::SExt, Val::Int(n), LlvmType::Integer(w), LlvmType::Integer(m)) => {
                let negative = n >> (w - 1) == 1;
                num(if negative { low(!0, *m) - low(!0, *w) + n } else { n })
            },
            (CastOp::Trunc, Val::Int(n), _, LlvmType::Integer(m)) => num(low(n, *m)),
            (CastOp::ZExt | CastOp::Bitcast | CastOp::IntToPtr, Val::Int(n), _, _) => num(n),
            (CastOp::PtrToInt, Val::Int(n), _, LlvmType::Integer(m)) => num(low(n, *m)),
            _ => Val::Undef,
        }
    }

    fn binary(&self, op: BinOp, lhs: Value, rhs: Value, ty: &LlvmType) -> Val {
        let width = match ty {
            LlvmType::Integer(width) => *width,
            _ => return Val::Undef,
        };
        match (self.number(lhs), self.number(rhs)) {
            (Some(m), Some(n)) => num(low(
                match op {
                    BinOp::Add => m.wrapping_add(n),
                    BinOp::Sub => m.wrapping_sub(n),
                    BinOp::Mul => m.wrapping_mul(n),
                    BinOp::URem => m % n,
                    BinOp::Shl => m << n,
                    BinOp::LShr => m >> n,
                    BinOp::Or => m | n,
                },
                width,
            )),
            _ => Val::Undef,
        }
    }

    fn step(&mut self, b: &Builder, at: usize) -> Val {
        let inst = &b.insts[at];
        match inst.op {
            Op::Constant { bits, .. } => num(bits),
            Op::Undef => match &inst.ty {
                LlvmType::Struct(fields) => Val::Aggregate(vec![Val::Undef; fields.len()]),
                LlvmType::Array(_, n) => Val::Aggregate(vec![Val::Undef; *n as usize]),
                _ => Val::Undef,
            },
            Op::ExtractValue { aggregate, index } => match self.value(aggregate) {
                Val::Aggregate(xs) => xs[index as usize].clone(),
                _ => Val::Undef,
            },
            Op::InsertValue { aggregate, value, index } => match self.value(aggregate) {
                Val::Aggregate(mut xs) => {
                    xs[index as usize] = self.value(value);
                    Val::Aggregate(xs)
                },
                _ => Val::Undef,
            },
            Op::Alloca { .. } => {
                self.places.push(vec![Byte::Undef; size_of(&inst.elem)]);
                Val::Address(self.places.len() - 1, 0)
            },
            Op::Store { value, ptr, .. } => {
                let bytes = encode(&self.value(value), b.value_type(value));
                match self.value(ptr) {
                    Val::Address(place, offset) => {
                        let start = offset as usize;
                        self.places[place].splice(start..start + bytes.len(), bytes);
                    },
                    other => panic!("store through {other:?}"),
                }
                Val::Undef
            },
            Op::Load { ptr, .. } => match self.value(ptr) {
                Val::Address(place, offset) => {
                    let start = offset as usize;
                    decode(&self.places[place][start..start + size_of(&inst.ty)], &inst.ty)
                },
                other => panic!("load through {other:?}"),
            },
            Op::GetElementPtr { base, path, .. } => match self.value(base) {
                Val::Address(place, offset) => {
                    let whole = size_of(&inst.elem) as i128;
                    let distance = match path {
                        GepPath::One(i) => self.index(i) * whole,
                        GepPath::Two(i, j) => {
                            let inner = self.index(j);
                            self.index(i) * whole
                                + match &inst.elem {
                                    LlvmType::Array(elem, _) => inner * size_of(elem) as i128,
                                    ty => {
                                        let (_, offsets) =
                                            llvm_struct_fields_at_offsets(ty).unwrap();
                                        i128::from(offsets[inner as usize])
                                    },
                                }
                        },
                    };
                    Val::Address(place, offset + distance)
                },
                _ => Val::Undef,
            },
            Op::Cast { kind, value } => self.cast(kind, value, b.value_type(value), &inst.ty),
            Op::Binary { op, lhs, rhs } => self.binary(op, lhs, rhs, &inst.ty),
            Op::Compare { predicate, lhs, rhs } => match (self.number(lhs), self.number(rhs)) {
                (Some(m), Some(n)) => num(u128::from(match predicate {
                    Predicate::Eq => m == n,
                    Predicate::Ult => m < n,
                    Predicate::Ule => m <= n,
                })),
                _ => Val::Undef,
            },
            Op::Select { condition, on_true, on_false, .. } => match self.number(condition) {
                Some(0) => self.value(on_false),
                Some(_) => self.value(on_true),
                None => Val::Undef,
            },
            Op::CallTransfer { dst, src, length, .. } => {
                let count = self.number(length).unwrap() as usize;
                match (self.value(dst), self.value(src)) {
                    (Val::Address(to, at), Val::Address(from, start)) => {
                        let start = start as usize;
                        let bytes = self.places[from][start..start + count].to_vec();
                        let at = at as usize;
                        self.places[to].splice(at..at + count, bytes);
                    },
                    other => panic!("transfer between {other:?}"),
                }
                Val::Undef
            },
            Op::CallUnary { arg, .. } => {
                assert_eq!(self.value(arg), num(1), "an assumption must hold");
                Val::Undef
            },
            _ => Val::Undef,
        }
    }
}

/// Runs code on arguments, with one place of `size` bytes that arguments may
/// point to.
fn run_with_place(b: &Builder, args: Vec<Val>, size: usize) -> Machine {
    let places = vec![vec![Byte::Undef; size]];
    let mut machine = Machine { args, results: vec![], places };
    for at in 0..b.insts.len() {
        let result = machine.step(b, at);
        machine.results.push(result);
    }
    machine
}

fn run(b: &Builder, args: Vec<Val>) -> Machine {
    run_with_place(b, args, 0)
}

/// Code whose arguments have these Rust types.
fn body_of(args: &[MirType]) -> Builder {
    Builder::new(args.iter().map(|ty| convert_type(ty).unwrap()).collect())
}

fn no_info() -> DebugInfo {
    DebugInfo { variable: None, source_scope: None, declaration: None }
}

fn sint(width: u32) -> MirType {
    MirType::Integer(width, Signedness::Signed)
}

fn niche_encoding(
    tag_offset: u64,
    size: u64,
    align: u64,
    carrier_kind: EnumCarrierKind,
    carrier_width: u32,
) -> EnumEncoding {
    EnumEncoding {
        tag_offset,
        total_size: size,
        abi_align: align,
        layout_kind: EnumLayoutKind::Niche,
        carrier_kind,
        carrier_width,
        untagged_variant: 1,
        variant_inhabited: vec![1, 1],
        ..EnumEncoding::default()
    }
}

/// Four variants: the second holds a byte below 200, the others are the carrier
/// values 254, 0 and 1, which wrap around.
fn wrapping_niche() -> MirEnumType {
    enum_type(
        "Wrapping",
        uint(16),
        vec![0, 1, 2, 3],
        vec![unit("A"), payload("B", uint(8), 0, 1), unit("C"), unit("D")],
        EnumEncoding {
            niche_start: 254,
            niche_variant_start: 0,
            niche_variant_end: 3,
            variant_inhabited: vec![1, 1, 1, 1],
            ..niche_encoding(0, 1, 1, EnumCarrierKind::Integer, 8)
        },
    )
}

#[test]
fn niche_variants_read_back() {
    for variant in [0u32, 2, 3] {
        let ty = MirType::Enum(wrapping_niche());
        let mut b = body_of(&[]);
        let value = convert_construct_enum(&mut b, &ty, &vec![], Some(variant)).unwrap();
        let r = convert_get_discriminant(&mut b, &Operand { value, history: &vec![ty] }).unwrap();
        let machine = run(&b, vec![]);
        assert_eq!(machine.value(r), num(u128::from(variant)));
        let carrier = (254 + u128::from(variant)) % 256;
        assert_eq!(machine.value(value), Val::Aggregate(vec![num(carrier)]));
    }
    // Any other carrier value is the untagged variant.
    let ty = MirType::Enum(wrapping_niche());
    let mut b = body_of(&[uint(8)]);
    let value = convert_construct_enum(&mut b, &ty, &vec![Value::Arg(0)], Some(1)).unwrap();
    let history = vec![ty];
    let operand = Operand { value, history: &history };
    let r = convert_get_discriminant(&mut b, &operand).unwrap();
    let read = convert_enum_payload(&mut b, &operand, Some(1), Some(0)).unwrap();
    let machine = run(&b, vec![num(199)]);
    assert_eq!(machine.value(r), num(1));
    assert_eq!(machine.value(read), num(199));
}

#[test]
fn direct_variants_read_back_with_their_payloads() {
    // The bool goes through memory; the word has a slot of its own.
    let e = || {
        MirType::Enum(tagged_enum(
            "Mixed",
            32,
            vec![7, 9],
            vec![
                ("A", vec![(boolean(), 4, 1), (uint(32), 8, 4)]),
                ("B", vec![(uint(8), 4, 1)]),
            ],
            0,
            12,
            4,
        ))
    };
    for flag in [0, 1] {
        let mut b = body_of(&[boolean(), uint(32)]);
        let operands = vec![Value::Arg(0), Value::Arg(1)];
        let value = convert_construct_enum(&mut b, &e(), &operands, Some(0)).unwrap();
        let history = vec![e()];
        let operand = Operand { value, history: &history };
        let tag = convert_get_discriminant(&mut b, &operand).unwrap();
        let first = convert_enum_payload(&mut b, &operand, Some(0), Some(0)).unwrap();
        let second = convert_enum_payload(&mut b, &operand, Some(0), Some(1)).unwrap();
        let machine = run(&b, vec![num(flag), num(0xdead_beef)]);
        assert_eq!(machine.value(tag), num(7));
        assert_eq!(machine.value(first), num(flag));
        assert_eq!(machine.value(second), num(0xdead_beef));
    }
}

#[test]
fn pointer_payloads_are_rebuilt_without_memory() {
    let tuple_ty = || tuple(vec![uint(64), pointer(uint(32), GENERIC)]);
    let option = || {
        MirType::Enum(enum_type(
            "Option",
            uint(64),
            vec![0, 1],
            vec![unit("None"), payload("Some", tuple_ty(), 0, 16)],
            niche_encoding(8, 16, 8, EnumCarrierKind::Pointer, 64),
        ))
    };
    let mut b = body_of(&[uint(64), pointer(uint(32), GENERIC)]);
    let operands = vec![Value::Arg(0), Value::Arg(1)];
    let pair = convert_construct_tuple(&mut b, &tuple_ty(), &operands).unwrap();
    let value = convert_construct_enum(&mut b, &option(), &vec![pair], Some(1)).unwrap();
    let history = vec![option()];
    let operand = Operand { value, history: &history };
    let read = convert_enum_payload(&mut b, &operand, Some(1), Some(0)).unwrap();
    let machine = run(&b, vec![num(77), Val::Address(0, 24)]);
    assert_eq!(
        machine.value(read),
        Val::Aggregate(vec![num(77), Val::Address(0, 24)])
    );
}

#[test]
fn shared_pointers_come_back_from_generic_storage() {
    let shared = || pointer(uint(32), SHARED);
    let e = || {
        MirType::Enum(tagged_enum(
            "Shared",
            32,
            vec![0, 1],
            vec![unit("None"), payload("Some", shared(), 8, 8)],
            0,
            16,
            8,
        ))
    };
    let mut b = body_of(&[shared()]);
    let value = convert_construct_enum(&mut b, &e(), &vec![Value::Arg(0)], Some(1)).unwrap();
    let history = vec![e()];
    let operand = Operand { value, history: &history };
    let read = convert_enum_payload(&mut b, &operand, Some(1), Some(0)).unwrap();
    let machine = run(&b, vec![Val::Address(0, 8)]);
    assert_eq!(machine.value(read), Val::Address(0, 8));
}

#[test]
fn variants_selected_in_memory_read_back() {
    for variant in [0u32, 2, 3] {
        let ptr = || pointer(MirType::Enum(wrapping_niche()), GENERIC);
        let mut b = body_of(&[ptr()]);
        let history = vec![ptr()];
        let operand = Operand { value: Value::Arg(0), history: &history };
        convert_set_discriminant(&mut b, &operand, Some(variant)).unwrap();
        let ty = MirType::Enum(wrapping_niche());
        let value = convert_load(&mut b, Value::Arg(0), &ty, None, false).unwrap();
        let r = convert_get_discriminant(&mut b, &Operand { value, history: &vec![ty] }).unwrap();
        let machine = run_with_place(&b, vec![Val::Address(0, 0)], 1);
        assert_eq!(machine.value(r), num(u128::from(variant)));
    }
}

#[test]
fn array_reads_give_the_element() {
    // Five elements stay in registers, twenty pass through memory.
    for size in [5u64, 20] {
        let n = size as usize;
        let mut args: Vec<MirType> = (0..n).map(|_| uint(32)).collect();
        args.push(uint(64));
        let mut b = body_of(&args);
        let operands: Vec<Value> = (0..n).map(Value::Arg).collect();
        let ty = array(uint(32), size);
        let value = convert_construct_array(&mut b, &ty, &operands).unwrap();
        let history = vec![ty];
        let operand = Operand { value, history: &history };
        let read = convert_extract_array_element(&mut b, &operand, Value::Arg(n)).unwrap();
        for i in 0..size {
            let mut values: Vec<Val> = (0..size).map(|j| num(u128::from(100 + j))).collect();
            values.push(num(u128::from(i)));
            assert_eq!(run(&b, values).value(read), num(u128::from(100 + i)));
        }
    }
}

#[test]
fn bounded_array_reads_give_the_element() {
    let mut b = body_of(&[array(uint(32), 4), uint(64)]);
    let three = b.constant(64, 3);
    let index = b.binary(BinOp::URem, Value::Arg(1), three);
    let history = vec![array(uint(32), 4)];
    let operand = Operand { value: Value::Arg(0), history: &history };
    let read = convert_extract_array_element(&mut b, &operand, index).unwrap();
    let values = Val::Aggregate((0..4).map(|j| num(100 + j)).collect());
    for i in 0..9 {
        let machine = run(&b, vec![values.clone(), num(i)]);
        assert_eq!(machine.value(read), num(100 + i % 3));
    }
}

#[test]
fn stores_to_a_local_array_change_one_element() {
    let array_ptr = || {
        MirType::Ptr(MirPtrType {
            pointee: Box::new(array(uint(32), 3)),
            mutable: true,
            address_space: GENERIC,
        })
    };
    let mut b = body_of(&[uint(64), uint(32), array(uint(32), 3)]);
    let slot = convert_alloca(&mut b, &array_ptr(), no_info()).unwrap();
    b.store(Value::Arg(2), slot, None);
    let history = vec![array_ptr()];
    let operand = Operand { value: slot, history: &history };
    let address = convert_array_element_addr(&mut b, &operand, Value::Arg(0)).unwrap();
    assert!(is_small_array_address_select(&b, address));
    let operands = vec![address, Value::Arg(1)];
    convert_store(&mut b, &operands, &vec![uint(32)], None, false).unwrap();
    let read = convert_load(&mut b, address, &uint(32), None, false).unwrap();
    let all = b.load(slot, convert_type(&array(uint(32), 3)).unwrap(), None);
    for i in 0..3usize {
        let before: Vec<Val> = (0..3).map(|j| num(10 + j)).collect();
        let mut after = before.clone();
        after[i] = num(99);
        let machine = run(&b, vec![num(i as u128), num(99), Val::Aggregate(before)]);
        assert_eq!(machine.value(read), num(99));
        assert_eq!(machine.value(all), Val::Aggregate(after));
    }
}

#[test]
fn references_hold_their_value() {
    let ty = tuple(vec![uint(8), uint(64)]);
    let mut b = body_of(&[tuple(vec![uint(8), uint(64)])]);
    let history = vec![tuple(vec![uint(8), uint(64)])];
    let slot = convert_ref(&mut b, &Operand { value: Value::Arg(0), history: &history });
    let read = convert_load(&mut b, slot, &ty, None, false).unwrap();
    let x = Val::Aggregate(vec![num(5), num(6)]);
    assert_eq!(run(&b, vec![x.clone()]).value(read), x);
}

#[test]
fn union_fields_read_back() {
    let bytes = || array(uint(8), 4);
    let u = || {
        MirType::Union(union_type("U", vec![("word", uint(64)), ("bytes", bytes())], 8, 8))
    };
    let mut b = body_of(&[u(), bytes()]);
    let history = vec![u()];
    let before = Operand { value: Value::Arg(0), history: &history };
    let value = convert_insert_field(&mut b, &before, Value::Arg(1), Some(1)).unwrap();
    let after = Operand { value, history: &history };
    let read = convert_extract_field(&mut b, &after, Some(1)).unwrap();
    let word = convert_extract_field(&mut b, &after, Some(0)).unwrap();
    let storage = convert_type(&u()).unwrap();
    let known: Vec<Byte> = (0..8).map(|_| Byte::Known(0x11)).collect();
    let new = Val::Aggregate(vec![num(1), num(2), num(3), num(4)]);
    let machine = run(&b, vec![decode(&known, &storage), new.clone()]);
    assert_eq!(machine.value(read), new);
    // The bytes behind the field are kept.
    assert_eq!(machine.value(word), num(0x1111_1111_0403_0201));
}

#[test]
fn packed_floats_read_back() {
    let pair = || array(MirType::Fp32, 2);
    let u = || {
        MirType::Union(union_type("U", vec![("floats", pair()), ("bits", uint(64))], 8, 8))
    };
    let mut b = body_of(&[u(), pair()]);
    let history = vec![u()];
    let before = Operand { value: Value::Arg(0), history: &history };
    let value = convert_insert_field(&mut b, &before, Value::Arg(1), Some(0)).unwrap();
    let after = Operand { value, history: &history };
    let read = convert_extract_field(&mut b, &after, Some(0)).unwrap();
    let bits = convert_extract_field(&mut b, &after, Some(1)).unwrap();
    let one = u128::from(1.0f32.to_bits());
    let two = u128::from((-2.5f32).to_bits());
    let floats = Val::Aggregate(vec![num(one), num(two)]);
    let machine = run(&b, vec![Val::Undef, floats.clone()]);
    assert_eq!(machine.value(read), floats);
    assert_eq!(machine.value(bits), num(two << 32 | one));
}

#[test]
fn transmutes_keep_bytes() {
    let pair = || array(uint(16), 2);
    let mut b = body_of(&[uint(32)]);
    let there =
        convert(&mut b, &vec![Value::Arg(0)], &vec![uint(32)], Some(CastKind::Transmute), &pair())
            .unwrap();
    let back = convert(&mut b, &vec![there], &vec![pair()], Some(CastKind::Transmute), &uint(32))
        .unwrap();
    let machine = run(&b, vec![num(0x1234_5678)]);
    assert_eq!(machine.value(there), Val::Aggregate(vec![num(0x5678), num(0x1234)]));
    assert_eq!(machine.value(back), num(0x1234_5678));

    let byte = || array(uint(8), 1);
    let mut b = body_of(&[boolean()]);
    let there =
        convert(&mut b, &vec![Value::Arg(0)], &vec![boolean()], Some(CastKind::Transmute), &byte())
            .unwrap();
    assert_eq!(run(&b, vec![num(1)]).value(there), Val::Aggregate(vec![num(1)]));
}

#[test]
fn integer_casts_keep_the_number() {
    for (from, to, bits, expected) in [
        (sint(8), sint(32), 0xff, 0xffff_ffff),
        (sint(8), uint(32), 0x80, 0xffff_ff80),
        (uint(8), sint(32), 0xff, 0xff),
        (sint(32), sint(8), 0x1234_5687, 0x87),
        (sint(32), uint(32), 0xffff_ffff, 0xffff_ffff),
    ] {
        let mut b = body_of(&[]);
        let width = match from {
            MirType::Integer(width, _) => width,
            _ => unreachable!(),
        };
        let v = b.constant(width, bits);
        let r = convert(&mut b, &vec![v], &vec![from], Some(CastKind::IntToInt), &to).unwrap();
        assert_eq!(run(&b, vec![]).value(r), num(expected));
    }
}

#[test]
fn struct_fields_read_back_and_are_replaced() {
    let ty = || {
        let fields = vec![("a", uint(8)), ("z", phantom()), ("b", uint(64))];
        laid_out_struct("S", fields, vec![2, 0, 1], vec![8, 9, 0], 16, 8)
    };
    let mut b = body_of(&[uint(8), uint(64), uint(8)]);
    let zst = b.undef(LlvmType::Struct(vec![]));
    let operands = vec![Value::Arg(0), zst, Value::Arg(1)];
    let value = convert_construct_struct(&mut b, &ty(), &operands).unwrap();
    let history = vec![ty()];
    let operand = Operand { value, history: &history };
    let a = convert_extract_field(&mut b, &operand, Some(0)).unwrap();
    let wide = convert_extract_field(&mut b, &operand, Some(2)).unwrap();
    let value = convert_insert_field(&mut b, &operand, Value::Arg(2), Some(0)).unwrap();
    let replaced = Operand { value, history: &history };
    let new_a = convert_extract_field(&mut b, &replaced, Some(0)).unwrap();
    let same_wide = convert_extract_field(&mut b, &replaced, Some(2)).unwrap();
    let machine = run(&b, vec![num(1), num(2), num(3)]);
    assert_eq!(machine.value(a), num(1));
    assert_eq!(machine.value(wide), num(2));
    assert_eq!(machine.value(new_a), num(3));
    assert_eq!(machine.value(same_wide), num(2));
}

/// How far the address of a field lies behind the address of the whole.
fn field_distance(ty: MirType, index: u32) -> i128 {
    let history = vec![pointer(ty, GENERIC)];
    let mut b = body_of(&history);
    let operand = Operand { value: Value::Arg(0), history: &history };
    let r = convert_field_addr(&mut b, &operand, Some(index)).unwrap();
    match run(&b, vec![Val::Address(0, 64)]).value(r) {
        Val::Address(0, offset) => offset - 64,
        other => panic!("no address: {other:?}"),
    }
}

#[test]
fn field_addresses_lie_at_their_offset() {
    let fields = || vec![("a", uint(8)), ("z", phantom()), ("b", uint(64))];
    let ty = || laid_out_struct("S", fields(), vec![2, 0, 1], vec![8, 9, 0], 16, 8);
    assert_eq!(field_distance(ty(), 0), 8);
    assert_eq!(field_distance(ty(), 2), 0);

    let types = || vec![uint(8), uint(32)];
    let ty = || laid_out_tuple(types(), vec![1, 0], vec![4, 0], 8, 4);
    assert_eq!(field_distance(ty(), 0), 4);
    assert_eq!(field_distance(ty(), 1), 0);

    let ty = || MirType::Union(union_type("U", vec![("n", uint(32)), ("b", uint(8))], 4, 4));
    assert_eq!(field_distance(ty(), 0), 0);
    assert_eq!(field_distance(ty(), 1), 0);

    let variants = || vec![payload("A", uint(32), 4, 4), payload("B", uint(8), 2, 1)];
    let ty = || MirType::Enum(tagged_enum("E", 8, vec![0, 1], variants(), 0, 8, 4));
    assert_eq!(field_distance(ty(), 0), 4);
    assert_eq!(field_distance(ty(), 1), 2);
}

#[test]
fn twins_and_payload_storage_keep_the_layout() {
    let i1 = || LlvmType::Integer(1);
    let ty = LlvmType::Struct(vec![
        LlvmType::Integer(32),
        LlvmType::Array(Box::new(i1()), 3),
        LlvmType::Pointer(SHARED),
    ]);
    let twin = llvm_byte_faithful_twin(&ty).unwrap();
    assert_eq!(llvm_type_size_align(&twin), llvm_type_size_align(&ty));
    assert!(!llvm_type_is_byte_faithful(&i1()));
    assert!(llvm_type_is_byte_faithful(&llvm_byte_faithful_twin(&i1()).unwrap()));
    let storage = enum_payload_storage_type(&ty).unwrap();
    assert_eq!(llvm_type_size_align(&storage), llvm_type_size_align(&ty));
    assert_eq!(
        storage,
        LlvmType::Struct(vec![
            LlvmType::Integer(32),
            LlvmType::Array(Box::new(LlvmType::Integer(8)), 3),
            LlvmType::Pointer(GENERIC),
        ])
    );
}

#[test]
fn specialized_parameters_keep_their_layout() {
    let ty = LlvmType::Struct(vec![LlvmType::Pointer(GENERIC), LlvmType::Integer(8)]);
    let once = specialize_kernel_parameter_pointers(&ty);
    assert_eq!(once, LlvmType::Struct(vec![LlvmType::Pointer(GLOBAL), LlvmType::Integer(8)]));
    assert_eq!(specialize_kernel_parameter_pointers(&once), once);
    assert_eq!(llvm_type_size_align(&once), llvm_type_size_align(&ty));
}

#[test]
fn signatures_drop_zero_sized_types() {
    let lowered = convert_function_type(
        &MirFunctionType {
            inputs: vec![
                phantom(),
                uint(32),
                MirType::Slice(Box::new(uint(8))),
                laid_out_tuple(vec![phantom()], vec![0], vec![0], 0, 1),
            ],
            results: vec![phantom()],
        },
        false,
    )
    .unwrap();
    assert!(lowered.inputs.iter().all(|ty| !is_zero_sized_type(ty)));
    assert_eq!(
        lowered.inputs,
        vec![LlvmType::Integer(32), LlvmType::Pointer(GENERIC), LlvmType::Integer(64)]
    );
}

#[test]
fn kernels_are_marked_by_name() {
    assert!(!is_kernel_func(&vec![]));
    let other = Attr { name: "gpu_kernels".to_string(), value: AttrValue::Unit };
    assert!(!is_kernel_func(&vec![other]));
}

#[test]
fn decimals_are_numbers_without_leading_zeros() {
    assert_eq!(decimal_text(0), "0");
    assert_eq!(decimal_text(1090), "1090");
    assert_eq!(decimal_text(u64::MAX), "18446744073709551615");
}

#[test]
fn exposed_addresses_come_back() {
    for space in [GENERIC, GLOBAL, SHARED] {
        let ptr = || pointer(uint(8), space);
        let mut b = body_of(&[ptr()]);
        let expose = Some(CastKind::PointerExposeAddress);
        let word = convert(&mut b, &vec![Value::Arg(0)], &vec![ptr()], expose, &uint(64)).unwrap();
        let back = Some(CastKind::PointerWithExposedProvenance);
        let r = convert(&mut b, &vec![word], &vec![uint(64)], back, &ptr()).unwrap();
        assert_eq!(run(&b, vec![num(0x1234)]).value(r), num(0x1234));
    }
}

#[test]
fn union_storage_is_exact() {
    for (align, natural) in [(8, 8), (16, 16), (64, 16)] {
        let fields = vec![("p", pointer(uint(8), GENERIC)), ("b", uint(8))];
        let ty = MirType::Union(union_type("U", fields, 64, align));
        let storage = convert_type(&ty).unwrap();
        assert_eq!(llvm_type_size_align(&storage), Some((64, natural)));
        match storage {
            LlvmType::Struct(fields) => {
                assert!(matches!(fields[0], LlvmType::Array(_, 0)));
                assert_eq!(fields[1], LlvmType::Pointer(GENERIC));
            },
            _ => unreachable!(),
        }
    }
}

#[test]
fn fields_of_impossible_variants_change_nothing() {
    let of = |offset: u64, size: u64| {
        let variants = vec![
            payload("A", uint(32), 4, 4),
            payload("Never", uint(64), offset, size),
            payload("Flag", boolean(), 1, 1),
        ];
        let mut e = tagged_enum("E", 8, vec![0, 1, 2], variants, 0, 8, 4);
        e.encoding.variant_inhabited = vec![1, 0, 1];
        build_enum_slot_map(&e).unwrap()
    };
    let map = of(0, 8);
    let other = of(1000, 3);
    assert_eq!(map.llvm_struct_ty, other.llvm_struct_ty);
    assert_eq!(map.carrier_slot, other.carrier_slot);
    assert_eq!(map.field_slots, other.field_slots);
    assert!(map.field_slots[0].is_some());
    assert_eq!(map.field_slots[1], None, "the variant cannot exist");
    assert_eq!(map.field_slots[2], None, "a bool has no slot");
}

fn mutable(pointee: MirType) -> MirType {
    MirType::Ptr(MirPtrType {
        pointee: Box::new(pointee),
        mutable: true,
        address_space: GENERIC,
    })
}

#[test]
fn transfers_move_their_elements() {
    for overlap_allowed in [false, true] {
        let words = || array(uint(32), 3);
        let mut b = body_of(&[words(), uint(64)]);
        let from = convert_alloca(&mut b, &mutable(words()), no_info()).unwrap();
        let to = convert_alloca(&mut b, &mutable(words()), no_info()).unwrap();
        b.store(Value::Arg(0), from, None);
        let operands = vec![to, from, Value::Arg(1)];
        let history = vec![mutable(uint(32))];
        if overlap_allowed {
            convert_memmove(&mut b, &operands, &history).unwrap();
        } else {
            convert_memcpy(&mut b, &operands, &history).unwrap();
        }
        let read = b.load(to, convert_type(&words()).unwrap(), None);
        for count in 0..4usize {
            let source: Vec<Val> = (0..3).map(|j| num(10 + j)).collect();
            let mut expected = source.clone();
            for x in &mut expected[count..] {
                *x = Val::Undef;
            }
            let machine = run(&b, vec![Val::Aggregate(source), num(count as u128)]);
            assert_eq!(machine.value(read), Val::Aggregate(expected));
        }
    }
}

#[test]
fn stores_of_padded_values_change_one_element() {
    let element = || tuple(vec![uint(8), uint(32)]);
    let elements = || array(element(), 2);
    assert!(!llvm_type_is_byte_faithful(&convert_type(&element()).unwrap()));
    let mut b = body_of(&[uint(64), element(), elements()]);
    let slot = convert_alloca(&mut b, &mutable(elements()), no_info()).unwrap();
    b.store(Value::Arg(2), slot, None);
    let history = vec![mutable(elements())];
    let operand = Operand { value: slot, history: &history };
    let address = convert_array_element_addr(&mut b, &operand, Value::Arg(0)).unwrap();
    assert!(is_small_array_address_select(&b, address));
    let operands = vec![address, Value::Arg(1)];
    convert_store(&mut b, &operands, &vec![element()], None, false).unwrap();
    let all = b.load(slot, convert_type(&elements()).unwrap(), None);
    let of = |x: u128| Val::Aggregate(vec![num(x), num(1000 + x)]);
    for i in 0..2usize {
        let before = vec![of(1), of(2)];
        let mut after = before.clone();
        after[i] = of(9);
        let machine = run(&b, vec![num(i as u128), of(9), Val::Aggregate(before)]);
        assert_eq!(machine.value(all), Val::Aggregate(after));
    }
}

#[test]
fn every_kind_of_payload_reads_back() {
    // A padded tuple with a flag goes through memory, a word has a slot, and
    // nothing takes no bytes.
    let flagged = || tuple(vec![boolean(), uint(32)]);
    let e = || {
        MirType::Enum(tagged_enum(
            "E",
            8,
            vec![0, 1],
            vec![
                ("A", vec![(flagged(), 4, 8), (uint(64), 16, 8), (phantom(), 24, 0)]),
                ("B", vec![(uint(16), 2, 2)]),
            ],
            0,
            24,
            8,
        ))
    };
    let MirType::Enum(plain) = e() else { unreachable!() };
    let map = build_enum_slot_map(&plain).unwrap();
    assert_eq!(map.field_slots[0], None);
    assert!(map.field_slots[1].is_some());
    assert_eq!(map.field_slots[2], None);
    let mut b = body_of(&[flagged(), uint(64), phantom()]);
    let operands = vec![Value::Arg(0), Value::Arg(1), Value::Arg(2)];
    let value = convert_construct_enum(&mut b, &e(), &operands, Some(0)).unwrap();
    let history = vec![e()];
    let operand = Operand { value, history: &history };
    let first = convert_enum_payload(&mut b, &operand, Some(0), Some(0)).unwrap();
    let second = convert_enum_payload(&mut b, &operand, Some(0), Some(1)).unwrap();
    let third = convert_enum_payload(&mut b, &operand, Some(0), Some(2)).unwrap();
    let pair = Val::Aggregate(vec![num(1), num(0xfeed)]);
    let machine = run(&b, vec![pair.clone(), num(u128::from(u64::MAX)), Val::Aggregate(vec![])]);
    assert_eq!(machine.value(first), pair);
    assert_eq!(*b.value_type(first), convert_type(&flagged()).unwrap());
    assert_eq!(machine.value(second), num(u128::from(u64::MAX)));
    assert_eq!(machine.value(third), Val::Aggregate(vec![]));
}

#[test]
fn payloads_that_share_a_place_read_back() {
    // Two variants keep the same padded tuple at the same place.
    let flagged = || tuple(vec![boolean(), uint(32)]);
    let e = || {
        MirType::Enum(tagged_enum(
            "E",
            8,
            vec![0, 1],
            vec![payload("A", flagged(), 4, 8), payload("B", flagged(), 4, 8)],
            0,
            12,
            4,
        ))
    };
    for variant in [0, 1] {
        let mut b = body_of(&[flagged()]);
        let operands = vec![Value::Arg(0)];
        let value = convert_construct_enum(&mut b, &e(), &operands, Some(variant)).unwrap();
        let history = vec![e()];
        let operand = Operand { value, history: &history };
        let read = convert_enum_payload(&mut b, &operand, Some(variant), Some(0)).unwrap();
        let tag = convert_get_discriminant(&mut b, &operand).unwrap();
        let pair = Val::Aggregate(vec![num(0), num(0xbeef)]);
        let machine = run(&b, vec![pair.clone()]);
        assert_eq!(machine.value(read), pair);
        assert_eq!(machine.value(tag), num(u128::from(variant)));
    }
}

#[test]
fn pointers_are_made_through_the_generic_space() {
    for space in [GENERIC, GLOBAL, SHARED] {
        let ty = || LlvmType::Pointer(space);
        let mut b = Builder::new(vec![ty()]);
        let word = emit_ptr_to_int(&mut b, Value::Arg(0), LlvmType::Integer(64));
        let exposed = b.insts.len();
        assert_eq!(exposed, if space == GENERIC { 1 } else { 2 });
        let r = emit_int_to_ptr(&mut b, word, ty());
        assert_eq!(b.insts.len() - exposed, if space == GENERIC { 1 } else { 2 });
        assert_eq!(b.insts[exposed].op, Op::Cast { kind: CastOp::IntToPtr, value: word });
        assert_eq!(b.insts[exposed].ty, LlvmType::Pointer(GENERIC));
        if space != GENERIC {
            let value = Value::Inst(exposed);
            assert_eq!(b.insts[exposed + 1].op, Op::Cast { kind: CastOp::AddrSpaceCast, value });
        }
        assert_eq!(*b.value_type(r), ty());
        assert_eq!(run(&b, vec![num(0x77)]).value(r), num(0x77));
    }
}

#[test]
fn packed_float_arrays_unpack() {
    let field = || convert_type(&array(MirType::Fp32, 2)).unwrap();
    let storage = LlvmType::Struct(vec![LlvmType::Integer(64)]);
    let mut b = Builder::new(vec![field()]);
    let packed = try_pack_float_array_union(&mut b, Value::Arg(0), &field(), &storage, 8).unwrap();
    let read = try_unpack_float_array_union(&mut b, packed, &field(), &storage, 8).unwrap();
    let memory = |op: &Op| {
        matches!(op, Op::Alloca { .. } | Op::Load { .. } | Op::Store { .. })
    };
    assert!(!b.insts.iter().any(|inst| memory(&inst.op)));
    let one = u128::from(1.0f32.to_bits());
    let two = u128::from(2.0f32.to_bits());
    let floats = Val::Aggregate(vec![num(one), num(two)]);
    let machine = run(&b, vec![floats.clone()]);
    assert_eq!(machine.value(packed), Val::Aggregate(vec![num(0x4000_0000_3f80_0000)]));
    assert_eq!(machine.value(read), floats);
    // Elements that do not fill the integer are left to memory.
    let longer = convert_type(&array(MirType::Fp32, 3)).unwrap();
    let mut b = Builder::new(vec![convert_type(&array(MirType::Fp32, 3)).unwrap()]);
    assert_eq!(try_pack_float_array_union(&mut b, Value::Arg(0), &longer, &storage, 8), None);
}
