//! The straight-line LLVM code that operations lower to.
//!
//! A [`Builder`] holds the instructions emitted so far. Its view is a [`Body`],
//! and each `with_*` function says what one emission adds to it and which value
//! it gives.

use crate::abi::{FuncShape, LlvmFuncType};
use crate::error::LowerError;
use crate::llvm::{shapes, LlvmShape, LlvmType, GENERIC};
use crate::names::opt_text;
use pliron::utils::apint::APInt;
use std::num::NonZeroUsize;
use vstd::arithmetic::power2::pow2;
use vstd::prelude::*;

verus! {

/// A value: an argument or the result of an instruction.
#[derive(Clone, Copy, Debug, PartialEq, Eq, Structural)]
pub enum Value {
    Arg(usize),
    Inst(usize),
}

/// One index of an address computation.
#[derive(Clone, Copy, Debug, PartialEq, Eq, Structural)]
pub enum GepIndex {
    Constant(u32),
    Value(Value),
}

/// The indices of an address computation.
#[derive(Clone, Copy, Debug, PartialEq, Eq, Structural)]
pub enum GepPath {
    One(GepIndex),
    Two(GepIndex, GepIndex),
}

/// A conversion between scalar types.
#[derive(Clone, Copy, Debug, PartialEq, Eq, Structural)]
pub enum CastOp {
    SExt,
    /// Zero extension that does not claim a non-negative operand.
    ZExt,
    Trunc,
    Bitcast,
    SIToFP,
    UIToFP,
    FPExt,
    FPTrunc,
    PtrToInt,
    IntToPtr,
    AddrSpaceCast,
}

/// A binary integer operation, wrapping where it can overflow.
#[derive(Clone, Copy, Debug, PartialEq, Eq, Structural)]
pub enum BinOp {
    Add,
    Sub,
    Mul,
    URem,
    Shl,
    LShr,
    Or,
}

/// An integer comparison.
#[derive(Clone, Copy, Debug, PartialEq, Eq, Structural)]
pub enum Predicate {
    Eq,
    Ult,
    Ule,
}

/// An LLVM intrinsic function.
#[derive(Clone, Copy, Debug, PartialEq, Eq, Structural)]
pub enum Intrinsic {
    /// `llvm.assume`.
    Assume,
    /// `llvm.fptosi.sat` or `llvm.fptoui.sat`.
    FloatToIntSat { signed: bool, int_width: u32, float_width: u32 },
    /// `llvm.memcpy`, or `llvm.memmove` where the ranges may overlap.
    MemTransfer { may_overlap: bool, dst_space: u32, src_space: u32, length_bits: u32 },
}

/// An instruction without its types.
#[derive(Clone, Copy, Debug, PartialEq, Eq, Structural)]
pub enum Op {
    /// An integer constant.
    Constant { width: u32, bits: u128 },
    Undef,
    ExtractValue { aggregate: Value, index: u32 },
    InsertValue { aggregate: Value, value: Value, index: u32 },
    Alloca { count: Value, align: Option<u32> },
    Store { value: Value, ptr: Value, align: Option<u32>, is_volatile: bool },
    Load { ptr: Value, align: Option<u32>, is_volatile: bool },
    GetElementPtr { base: Value, path: GepPath, inbounds: bool },
    Cast { kind: CastOp, value: Value },
    Binary { op: BinOp, lhs: Value, rhs: Value },
    Compare { predicate: Predicate, lhs: Value, rhs: Value },
    /// `array_address` marks a choice between addresses of one small array.
    Select { condition: Value, on_true: Value, on_false: Value, array_address: bool },
    /// A call of an intrinsic with one argument.
    CallUnary { callee: Intrinsic, arg: Value },
    /// A call of a memory transfer intrinsic.
    CallTransfer { callee: Intrinsic, dst: Value, src: Value, length: Value, volatile_flag: Value },
    DebugValue { value: Value },
    /// The address of the global variable that the instruction names.
    AddressOf,
}

/// An instruction.
#[derive(Debug, PartialEq, Eq)]
pub struct Inst {
    pub op: Op,
    /// Type of the result; `void` where there is none.
    pub ty: LlvmType,
    /// Allocated type of an `alloca`, source element type of a
    /// `getelementptr`; `void` elsewhere.
    pub elem: LlvmType,
    /// Global variable that an `AddressOf` is about; nothing elsewhere.
    pub symbol: Option<String>,
}

/// The model of an [`Inst`].
pub ghost struct InstShape {
    pub op: Op,
    pub ty: LlvmShape,
    pub elem: LlvmShape,
    pub symbol: Option<Seq<char>>,
}

impl View for Inst {
    type V = InstShape;

    open spec fn view(&self) -> InstShape {
        InstShape {
            op: self.op,
            ty: self.ty@,
            elem: self.elem@,
            symbol: opt_text(self.symbol),
        }
    }
}

/// A place in the program's source.
#[derive(Debug, PartialEq, Eq)]
pub enum Location {
    Unknown,
    Named(String),
    Source(SourcePosition),
}

/// A position in a source file.
#[derive(Debug, PartialEq, Eq)]
pub struct SourcePosition {
    pub file: String,
    pub line: u32,
    pub column: u32,
}

/// A local variable as a debugger shows it.
#[derive(Debug, PartialEq, Eq)]
pub struct DebugVariable {
    pub name: String,
    /// Number of the argument that the variable is, counted from one.
    pub argument_index: Option<u32>,
    pub ty: String,
    pub size_bits: u64,
    /// DWARF encoding of the type.
    pub encoding: String,
}

/// What is recorded of a local variable.
#[derive(Debug, PartialEq, Eq)]
pub struct DebugInfo {
    pub variable: Option<DebugVariable>,
    pub source_scope: Option<u32>,
    pub declaration: Option<SourcePosition>,
}

/// Debug information on the instruction that gives a value.
#[derive(Debug, PartialEq, Eq)]
pub struct DebugNote {
    pub at: Value,
    pub location: Location,
    pub info: DebugInfo,
}

/// The declaration of an intrinsic function.
#[derive(Debug, PartialEq, Eq)]
pub struct Declaration {
    pub intrinsic: Intrinsic,
    pub signature: LlvmFuncType,
}

/// The model of a [`Declaration`].
pub ghost struct DeclarationShape {
    pub intrinsic: Intrinsic,
    pub signature: FuncShape,
}

impl View for Declaration {
    type V = DeclarationShape;

    open spec fn view(&self) -> DeclarationShape {
        DeclarationShape { intrinsic: self.intrinsic, signature: self.signature@ }
    }
}

/// The models of a list of declarations.
pub open spec fn declaration_shapes(declared: Seq<Declaration>) -> Seq<DeclarationShape> {
    Seq::new(declared.len(), |i: int| declared[i]@)
}

/// The model of a [`Builder`].
pub ghost struct Body {
    pub args: Seq<LlvmShape>,
    pub insts: Seq<InstShape>,
    pub notes: Seq<DebugNote>,
    pub declared: Seq<DeclarationShape>,
}

/// Code under construction.
#[derive(Debug, PartialEq, Eq)]
pub struct Builder {
    pub args: Vec<LlvmType>,
    pub insts: Vec<Inst>,
    /// Debug information, in the order in which it was attached.
    pub notes: Vec<DebugNote>,
    /// The intrinsic functions that the code calls, each once.
    pub declared: Vec<Declaration>,
}

/// The models of a list of instructions.
pub open spec fn inst_shapes(insts: Seq<Inst>) -> Seq<InstShape> {
    Seq::new(insts.len(), |i: int| insts[i]@)
}

impl View for Builder {
    type V = Body;

    open spec fn view(&self) -> Body {
        Body {
            args: shapes(self.args@),
            insts: inst_shapes(self.insts@),
            notes: self.notes@,
            declared: declaration_shapes(self.declared@),
        }
    }
}

/// Whether `v` is a value of `b`.
pub open spec fn valid(b: Body, v: Value) -> bool {
    match v {
        Value::Arg(i) => i < b.args.len(),
        Value::Inst(i) => i < b.insts.len(),
    }
}

/// The type of a value.
pub open spec fn value_type(b: Body, v: Value) -> LlvmShape {
    match v {
        Value::Arg(i) => b.args[i as int],
        Value::Inst(i) => b.insts[i as int].ty,
    }
}

/// How late a value is defined; operands come before what uses them.
pub open spec fn rank(v: Value) -> int {
    match v {
        Value::Arg(_) => 0,
        Value::Inst(i) => i + 1,
    }
}

/// The operation that defines a value; nothing for an argument.
pub open spec fn defining_op(b: Body, v: Value) -> Option<Op> {
    match v {
        Value::Arg(_) => None,
        Value::Inst(i) => if i < b.insts.len() {
            Some(b.insts[i as int].op)
        } else {
            None
        },
    }
}

/// The low `width` bits of `bits`.
pub open spec fn truncated(bits: u128, width: u32) -> u128 {
    if width >= 128 {
        bits
    } else {
        (bits as int % pow2(width as nat) as int) as u128
    }
}

/// `b` with one more instruction, and its value.
pub open spec fn with_inst(b: Body, op: Op, ty: LlvmShape, elem: LlvmShape) -> (Body, Value) {
    (
        Body { insts: b.insts.push(InstShape { op, ty, elem, symbol: None }), ..b },
        Value::Inst(b.insts.len() as usize),
    )
}

/// `b` with one more instruction that touches no element type.
pub open spec fn with_op(b: Body, op: Op, ty: LlvmShape) -> (Body, Value) {
    with_inst(b, op, ty, LlvmShape::Void)
}

/// `b` with the address of global variable `symbol` in address space `space`.
pub open spec fn with_address_of(b: Body, symbol: Seq<char>, space: u32) -> (Body, Value) {
    let inst = InstShape {
        op: Op::AddressOf,
        ty: LlvmShape::Pointer(space),
        elem: LlvmShape::Void,
        symbol: Some(symbol),
    };
    (Body { insts: b.insts.push(inst), ..b }, Value::Inst(b.insts.len() as usize))
}

/// Whether an intrinsic is declared.
pub open spec fn is_declared(declared: Seq<DeclarationShape>, intrinsic: Intrinsic) -> bool {
    exists|i: int| 0 <= i < declared.len() && #[trigger] declared[i].intrinsic == intrinsic
}

/// `b` with a declaration of an intrinsic, where it has none yet.
pub open spec fn with_declared(b: Body, intrinsic: Intrinsic, signature: FuncShape) -> Body {
    if is_declared(b.declared, intrinsic) {
        b
    } else {
        Body { declared: b.declared.push(DeclarationShape { intrinsic, signature }), ..b }
    }
}

/// `b` with a call of an intrinsic with one argument, and its declaration.
pub open spec fn with_unary_call(b: Body, callee: Intrinsic, arg: Value, ty: LlvmShape) -> (
    Body,
    Value,
) {
    let signature = FuncShape { result: ty, inputs: seq![value_type(b, arg)] };
    with_op(with_declared(b, callee, signature), Op::CallUnary { callee, arg }, ty)
}

/// `b` with a call of a memory transfer intrinsic, and its declaration.
pub open spec fn with_transfer_call(
    b: Body,
    callee: Intrinsic,
    dst: Value,
    src: Value,
    length: Value,
    volatile_flag: Value,
) -> Body {
    let signature = FuncShape {
        result: LlvmShape::Void,
        inputs: seq![
            value_type(b, dst),
            value_type(b, src),
            value_type(b, length),
            value_type(b, volatile_flag),
        ],
    };
    with_op(
        with_declared(b, callee, signature),
        Op::CallTransfer { callee, dst, src, length, volatile_flag },
        LlvmShape::Void,
    ).0
}

/// `b` with debug information on the instruction that gives `at`.
pub open spec fn with_note(b: Body, at: Value, location: Location, info: DebugInfo) -> Body {
    Body { notes: b.notes.push(DebugNote { at, location, info }), ..b }
}

/// An integer constant.
pub open spec fn with_constant(b: Body, width: u32, bits: u128) -> (Body, Value) {
    with_op(b, Op::Constant { width, bits: truncated(bits, width) }, LlvmShape::Integer(width))
}

/// An undefined value.
pub open spec fn with_undef(b: Body, ty: LlvmShape) -> (Body, Value) {
    with_op(b, Op::Undef, ty)
}

/// The type of field or element `index` of an aggregate type.
pub open spec fn element_type(ty: LlvmShape, index: u32) -> Option<LlvmShape> {
    match ty {
        LlvmShape::Struct(fields) => if index < fields.len() {
            Some(fields[index as int])
        } else {
            None
        },
        LlvmShape::Array(elem, n) => if index < n {
            Some(*elem)
        } else {
            None
        },
        _ => None,
    }
}

/// Reads one field or element of an aggregate.
pub open spec fn with_extract(b: Body, aggregate: Value, index: u32) -> (
    Body,
    Result<Value, LowerError>,
) {
    match element_type(value_type(b, aggregate), index) {
        None => (b, Err(LowerError::ExtractIndex { slot: index })),
        Some(ty) => {
            let (next, v) = with_op(b, Op::ExtractValue { aggregate, index }, ty);
            (next, Ok(v))
        },
    }
}

/// Replaces one field or element of an aggregate.
pub open spec fn with_insert(b: Body, aggregate: Value, value: Value, index: u32) -> (Body, Value) {
    with_op(b, Op::InsertValue { aggregate, value, index }, value_type(b, aggregate))
}

/// Reserves stack memory for one value of type `elem`, with a count constant of
/// the given width.
pub open spec fn with_stack_slot(b: Body, elem: LlvmShape, width: u32, align: Option<u32>) -> (
    Body,
    Value,
) {
    let (b1, count) = with_constant(b, width, 1);
    with_inst(b1, Op::Alloca { count, align }, LlvmShape::Pointer(GENERIC), elem)
}

/// Writes a value to memory.
pub open spec fn with_store(b: Body, value: Value, ptr: Value, align: Option<u32>) -> Body {
    with_op(b, Op::Store { value, ptr, align, is_volatile: false }, LlvmShape::Void).0
}

/// Reads a value from memory.
pub open spec fn with_load(b: Body, ptr: Value, ty: LlvmShape, align: Option<u32>) -> (
    Body,
    Value,
) {
    with_op(b, Op::Load { ptr, align, is_volatile: false }, ty)
}

/// Computes an address; the result points into the same address space.
pub open spec fn with_gep(b: Body, base: Value, path: GepPath, elem: LlvmShape) -> (Body, Value) {
    with_inst(b, Op::GetElementPtr { base, path, inbounds: false }, value_type(b, base), elem)
}

/// Converts a scalar.
pub open spec fn with_cast(b: Body, kind: CastOp, value: Value, ty: LlvmShape) -> (Body, Value) {
    with_op(b, Op::Cast { kind, value }, ty)
}

/// Combines two integers.
pub open spec fn with_binary(b: Body, op: BinOp, lhs: Value, rhs: Value) -> (Body, Value) {
    with_op(b, Op::Binary { op, lhs, rhs }, value_type(b, lhs))
}

/// Compares two integers.
pub open spec fn with_compare(b: Body, predicate: Predicate, lhs: Value, rhs: Value) -> (
    Body,
    Value,
) {
    with_op(b, Op::Compare { predicate, lhs, rhs }, LlvmShape::Integer(1))
}

/// Chooses between two values.
pub open spec fn with_select(
    b: Body,
    condition: Value,
    on_true: Value,
    on_false: Value,
    array_address: bool,
) -> (Body, Value) {
    with_op(
        b,
        Op::Select { condition, on_true, on_false, array_address },
        value_type(b, on_true),
    )
}

/// Whether `operand` is a value that comes before `v`.
pub open spec fn comes_before(b: Body, operand: Value, v: Value) -> bool {
    rank(operand) < rank(v) && valid(b, operand)
}

/// How late a value is defined.
pub fn value_rank(v: Value) -> (r: u128)
    ensures
        r == rank(v),
{
    match v {
        Value::Arg(_) => 0,
        Value::Inst(i) => i as u128 + 1,
    }
}

/// Whether `c` is `b` with more instructions behind it.
pub open spec fn extends(b: Body, c: Body) -> bool {
    &&& c.args == b.args
    &&& b.insts.len() <= c.insts.len()
    &&& forall|i: int| 0 <= i < b.insts.len() ==> #[trigger] c.insts[i] == b.insts[i]
}

/// A value keeps its type as code is added behind it.
pub proof fn lemma_extends_value(b: Body, c: Body, v: Value)
    requires
        extends(b, c),
        valid(b, v),
    ensures
        valid(c, v),
        value_type(c, v) == value_type(b, v),
{
}

/// Adding code twice is adding code.
pub proof fn lemma_extends_transitive(a: Body, b: Body, c: Body)
    requires
        extends(a, b),
        extends(b, c),
    ensures
        extends(a, c),
{
    assert forall|i: int| 0 <= i < a.insts.len() implies #[trigger] c.insts[i] == a.insts[i] by {
        assert(b.insts[i] == a.insts[i]);
    }
}

/// The low `width` bits of `bits`, as pliron's `APInt` keeps them.
///
/// `APInt::from_u128` truncates to `width` bits, or extends with zeros beyond
/// 128, and `to_u128` gives the low 128 bits back.
#[verifier::external_body]
fn apint_bits(bits: u128, width: u32) -> (r: u128)
    requires
        width > 0,
    ensures
        r == truncated(bits, width),
{
    APInt::from_u128(bits, NonZeroUsize::new(width as usize).unwrap()).to_u128()
}

/// The low `width` bits of `bits`.
pub fn low_bits(bits: u128, width: u32) -> (r: u128)
    ensures
        r == truncated(bits, width),
{
    if width > 0 {
        apint_bits(bits, width)
    } else {
        proof {
            vstd::arithmetic::power2::lemma2_to64();
        }
        0
    }
}

impl Builder {
    /// Code with these arguments and no instruction.
    pub fn new(args: Vec<LlvmType>) -> (r: Builder)
        ensures
            r@.args == shapes(args@),
            r@.insts.len() == 0,
            r@.notes.len() == 0,
            r@.declared.len() == 0,
    {
        Builder { args, insts: Vec::new(), notes: Vec::new(), declared: Vec::new() }
    }

    /// The type of a value.
    pub fn value_type(&self, v: Value) -> (r: &LlvmType)
        requires
            valid(self@, v),
        ensures
            r@ == value_type(self@, v),
    {
        match v {
            Value::Arg(i) => &self.args[i],
            Value::Inst(i) => &self.insts[i].ty,
        }
    }

    /// Whether `operand` is a value that comes before `v`.
    pub fn precedes(&self, operand: Value, v: Value) -> (r: bool)
        ensures
            r == comes_before(self@, operand, v),
    {
        let known: bool = match operand {
            Value::Arg(i) => i < self.args.len(),
            Value::Inst(i) => i < self.insts.len(),
        };
        value_rank(operand) < value_rank(v) && known
    }

    /// The operation that defines a value; nothing for an argument.
    pub fn defining_op(&self, v: Value) -> (r: Option<Op>)
        ensures
            r == defining_op(self@, v),
    {
        match v {
            Value::Arg(_) => None,
            Value::Inst(i) => if i < self.insts.len() {
                Some(self.insts[i].op)
            } else {
                None
            },
        }
    }

    /// Adds one instruction.
    pub fn emit(&mut self, op: Op, ty: LlvmType, elem: LlvmType) -> (r: Value)
        ensures
            (final(self)@, r) == with_inst(old(self)@, op, ty@, elem@),
            extends(old(self)@, final(self)@),
            valid(final(self)@, r),
            value_type(final(self)@, r) == ty@,
    {
        let at: usize = self.insts.len();
        let ghost before = self.insts@;
        let inst = Inst { op, ty, elem, symbol: None };
        let ghost model = inst@;
        self.insts.push(inst);
        assert(inst_shapes(self.insts@) =~= inst_shapes(before).push(model));
        Value::Inst(at)
    }

    /// Adds an instruction that touches no element type.
    pub fn emit_op(&mut self, op: Op, ty: LlvmType) -> (r: Value)
        ensures
            (final(self)@, r) == with_op(old(self)@, op, ty@),
            extends(old(self)@, final(self)@),
            valid(final(self)@, r),
            value_type(final(self)@, r) == ty@,
    {
        self.emit(op, ty, LlvmType::Void)
    }

    /// Adds the address of a global variable.
    pub fn address_of(&mut self, symbol: String, space: u32) -> (r: Value)
        ensures
            (final(self)@, r) == with_address_of(old(self)@, symbol@, space),
            extends(old(self)@, final(self)@),
            valid(final(self)@, r),
            value_type(final(self)@, r) == LlvmShape::Pointer(space),
    {
        let at: usize = self.insts.len();
        let ghost before = self.insts@;
        let inst = Inst {
            op: Op::AddressOf,
            ty: LlvmType::Pointer(space),
            elem: LlvmType::Void,
            symbol: Some(symbol),
        };
        let ghost model = inst@;
        self.insts.push(inst);
        assert(inst_shapes(self.insts@) =~= inst_shapes(before).push(model));
        Value::Inst(at)
    }

    /// Declares an intrinsic, unless it is declared.
    fn declare(&mut self, intrinsic: Intrinsic, signature: LlvmFuncType)
        ensures
            final(self)@ == with_declared(old(self)@, intrinsic, signature@),
            extends(old(self)@, final(self)@),
    {
        let ghost known = declaration_shapes(self.declared@);
        for i in 0..self.declared.len()
            invariant
                self@ == old(self)@,
                known == declaration_shapes(self.declared@),
                forall|j: int| 0 <= j < i ==> (#[trigger] known[j]).intrinsic != intrinsic,
        {
            assert(known[i as int] == self.declared@[i as int]@);
            if self.declared[i].intrinsic == intrinsic {
                assert(is_declared(known, intrinsic));
                return;
            }
        }
        let ghost before = self.declared@;
        let declaration = Declaration { intrinsic, signature };
        let ghost model = declaration@;
        self.declared.push(declaration);
        assert(declaration_shapes(self.declared@) =~= declaration_shapes(before).push(model));
    }

    /// Adds a call of an intrinsic with one argument.
    pub fn call_unary(&mut self, callee: Intrinsic, arg: Value, ty: LlvmType) -> (r: Value)
        requires
            valid(old(self)@, arg),
        ensures
            (final(self)@, r) == with_unary_call(old(self)@, callee, arg, ty@),
            extends(old(self)@, final(self)@),
            valid(final(self)@, r),
            value_type(final(self)@, r) == ty@,
    {
        let mut inputs: Vec<LlvmType> = Vec::new();
        inputs.push(self.value_type(arg).duplicate());
        assert(shapes(inputs@) =~= seq![value_type(self@, arg)]);
        let result = ty.duplicate();
        self.declare(callee, LlvmFuncType { result, inputs });
        self.emit_op(Op::CallUnary { callee, arg }, ty)
    }

    /// Adds a call of a memory transfer intrinsic.
    pub fn call_transfer(
        &mut self,
        callee: Intrinsic,
        dst: Value,
        src: Value,
        length: Value,
        volatile_flag: Value,
    )
        requires
            valid(old(self)@, dst),
            valid(old(self)@, src),
            valid(old(self)@, length),
            valid(old(self)@, volatile_flag),
        ensures
            final(self)@ == with_transfer_call(
                old(self)@,
                callee,
                dst,
                src,
                length,
                volatile_flag,
            ),
            extends(old(self)@, final(self)@),
    {
        let mut inputs: Vec<LlvmType> = Vec::new();
        inputs.push(self.value_type(dst).duplicate());
        inputs.push(self.value_type(src).duplicate());
        inputs.push(self.value_type(length).duplicate());
        inputs.push(self.value_type(volatile_flag).duplicate());
        assert(shapes(inputs@) =~= seq![
            value_type(self@, dst),
            value_type(self@, src),
            value_type(self@, length),
            value_type(self@, volatile_flag),
        ]);
        self.declare(callee, LlvmFuncType { result: LlvmType::Void, inputs });
        let _ = self.emit_op(
            Op::CallTransfer { callee, dst, src, length, volatile_flag },
            LlvmType::Void,
        );
    }

    /// Attaches debug information to the instruction that gives `at`.
    pub fn note(&mut self, at: Value, location: Location, info: DebugInfo)
        ensures
            final(self)@ == with_note(old(self)@, at, location, info),
            extends(old(self)@, final(self)@),
    {
        self.notes.push(DebugNote { at, location, info });
    }

    /// Adds an integer constant.
    pub fn constant(&mut self, width: u32, bits: u128) -> (r: Value)
        ensures
            (final(self)@, r) == with_constant(old(self)@, width, bits),
            extends(old(self)@, final(self)@),
            valid(final(self)@, r),
            value_type(final(self)@, r) == LlvmShape::Integer(width),
    {
        let low: u128 = low_bits(bits, width);
        self.emit_op(Op::Constant { width, bits: low }, LlvmType::Integer(width))
    }

    /// Adds an undefined value.
    pub fn undef(&mut self, ty: LlvmType) -> (r: Value)
        ensures
            (final(self)@, r) == with_undef(old(self)@, ty@),
            extends(old(self)@, final(self)@),
            valid(final(self)@, r),
            value_type(final(self)@, r) == ty@,
    {
        self.emit_op(Op::Undef, ty)
    }

    /// Adds a read of one field or element of an aggregate.
    pub fn extract(&mut self, aggregate: Value, index: u32) -> (r: Result<Value, LowerError>)
        requires
            valid(old(self)@, aggregate),
        ensures
            (final(self)@, r) == with_extract(old(self)@, aggregate, index),
            extends(old(self)@, final(self)@),
            r is Ok ==> valid(final(self)@, r->Ok_0) && Some(value_type(final(self)@, r->Ok_0))
                == element_type(value_type(old(self)@, aggregate), index),
    {
        let ty = match self.value_type(aggregate) {
            LlvmType::Struct(fields) => {
                proof {
                    LlvmType::lemma_struct_view(*fields);
                }
                if (index as usize) < fields.len() {
                    fields[index as usize].duplicate()
                } else {
                    return Err(LowerError::ExtractIndex { slot: index });
                }
            },
            LlvmType::Array(elem, n) => {
                if (index as u64) < *n {
                    elem.duplicate()
                } else {
                    return Err(LowerError::ExtractIndex { slot: index });
                }
            },
            _ => {
                return Err(LowerError::ExtractIndex { slot: index });
            },
        };
        Ok(self.emit_op(Op::ExtractValue { aggregate, index }, ty))
    }

    /// Adds a replacement of one field or element of an aggregate.
    pub fn insert(&mut self, aggregate: Value, value: Value, index: u32) -> (r: Value)
        requires
            valid(old(self)@, aggregate),
        ensures
            (final(self)@, r) == with_insert(old(self)@, aggregate, value, index),
            extends(old(self)@, final(self)@),
            valid(final(self)@, r),
            value_type(final(self)@, r) == value_type(old(self)@, aggregate),
    {
        let ty = self.value_type(aggregate).duplicate();
        self.emit_op(Op::InsertValue { aggregate, value, index }, ty)
    }

    /// Adds a stack slot for one value.
    pub fn stack_slot(&mut self, elem: LlvmType, width: u32, align: Option<u32>) -> (r: Value)
        ensures
            (final(self)@, r) == with_stack_slot(old(self)@, elem@, width, align),
            extends(old(self)@, final(self)@),
            valid(final(self)@, r),
            value_type(final(self)@, r) == LlvmShape::Pointer(GENERIC),
    {
        let ghost before = self@;
        let count = self.constant(width, 1);
        let ghost middle = self@;
        let r = self.emit(Op::Alloca { count, align }, LlvmType::Pointer(GENERIC), elem);
        proof {
            lemma_extends_transitive(before, middle, self@);
        }
        r
    }

    /// Adds a write to memory.
    pub fn store(&mut self, value: Value, ptr: Value, align: Option<u32>)
        ensures
            final(self)@ == with_store(old(self)@, value, ptr, align),
            extends(old(self)@, final(self)@),
    {
        let _ = self.emit_op(
            Op::Store { value, ptr, align, is_volatile: false },
            LlvmType::Void,
        );
    }

    /// Adds a read from memory.
    pub fn load(&mut self, ptr: Value, ty: LlvmType, align: Option<u32>) -> (r: Value)
        ensures
            (final(self)@, r) == with_load(old(self)@, ptr, ty@, align),
            extends(old(self)@, final(self)@),
            valid(final(self)@, r),
            value_type(final(self)@, r) == ty@,
    {
        self.emit_op(Op::Load { ptr, align, is_volatile: false }, ty)
    }

    /// Adds an address computation.
    pub fn gep(&mut self, base: Value, path: GepPath, elem: LlvmType) -> (r: Value)
        requires
            valid(old(self)@, base),
        ensures
            (final(self)@, r) == with_gep(old(self)@, base, path, elem@),
            extends(old(self)@, final(self)@),
            valid(final(self)@, r),
            value_type(final(self)@, r) == value_type(old(self)@, base),
    {
        let ty = self.value_type(base).duplicate();
        self.emit(Op::GetElementPtr { base, path, inbounds: false }, ty, elem)
    }

    /// Adds a scalar conversion.
    pub fn cast(&mut self, kind: CastOp, value: Value, ty: LlvmType) -> (r: Value)
        ensures
            (final(self)@, r) == with_cast(old(self)@, kind, value, ty@),
            extends(old(self)@, final(self)@),
            valid(final(self)@, r),
            value_type(final(self)@, r) == ty@,
    {
        self.emit_op(Op::Cast { kind, value }, ty)
    }

    /// Adds an integer operation.
    pub fn binary(&mut self, op: BinOp, lhs: Value, rhs: Value) -> (r: Value)
        requires
            valid(old(self)@, lhs),
        ensures
            (final(self)@, r) == with_binary(old(self)@, op, lhs, rhs),
            extends(old(self)@, final(self)@),
            valid(final(self)@, r),
            value_type(final(self)@, r) == value_type(old(self)@, lhs),
    {
        let ty = self.value_type(lhs).duplicate();
        self.emit_op(Op::Binary { op, lhs, rhs }, ty)
    }

    /// Adds an integer comparison.
    pub fn compare(&mut self, predicate: Predicate, lhs: Value, rhs: Value) -> (r: Value)
        ensures
            (final(self)@, r) == with_compare(old(self)@, predicate, lhs, rhs),
            extends(old(self)@, final(self)@),
            valid(final(self)@, r),
            value_type(final(self)@, r) == LlvmShape::Integer(1),
    {
        self.emit_op(Op::Compare { predicate, lhs, rhs }, LlvmType::Integer(1))
    }

    /// Adds a choice between two values.
    pub fn select(
        &mut self,
        condition: Value,
        on_true: Value,
        on_false: Value,
        array_address: bool,
    ) -> (r: Value)
        requires
            valid(old(self)@, on_true),
        ensures
            (final(self)@, r) == with_select(
                old(self)@,
                condition,
                on_true,
                on_false,
                array_address,
            ),
            extends(old(self)@, final(self)@),
            valid(final(self)@, r),
            value_type(final(self)@, r) == value_type(old(self)@, on_true),
    {
        let ty = self.value_type(on_true).duplicate();
        self.emit_op(Op::Select { condition, on_true, on_false, array_address }, ty)
    }
}

} // verus!
