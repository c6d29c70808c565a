//! Function signatures at kernel boundaries and between device functions.

use crate::collect::all_ok;
use crate::error::LowerError;
use crate::layout::{lemma_struct_size_align, size_align, size_aligns};
use crate::llvm::{shapes, LlvmShape, LlvmType, GENERIC, GLOBAL};
use crate::mir::{expand_memory_order, memory_order, EnumLayoutKind, MirStructType, MirType};
use crate::names::opt_text;
use crate::storage::{is_zero_sized_type, zero_sized};
use crate::types::{lowered, convert_all, convert_type, lowered_all, slice_fields};
use vstd::prelude::*;

verus! {

// ---------------------------------------------------------------------------
// Kernel entry points
// ---------------------------------------------------------------------------

/// The value of an operation's attribute.
#[derive(Debug, PartialEq, Eq)]
pub enum AttrValue {
    Text(String),
    Number(u64),
    Type(MirType),
    Unit,
}

/// A named attribute of an operation.
#[derive(Debug, PartialEq, Eq)]
pub struct Attr {
    pub name: String,
    pub value: AttrValue,
}

/// Whether `attrs` hold the text attribute `gpu_kernel`.
pub open spec fn marks_kernel(attrs: Seq<Attr>) -> bool {
    exists|i: int|
        0 <= i < attrs.len() && (#[trigger] attrs[i]).name@ == "gpu_kernel"@
            && attrs[i].value is Text
}

/// Whether a function with these attributes is a GPU kernel entry point.
pub fn is_kernel_func(attrs: &Vec<Attr>) -> (r: bool)
    ensures
        r == marks_kernel(attrs@),
{
    let key: String = "gpu_kernel".to_owned();
    for i in 0..attrs.len()
        invariant
            key@ == "gpu_kernel"@,
            forall|j: int|
                0 <= j < i ==> !((#[trigger] attrs@[j]).name@ == "gpu_kernel"@
                    && attrs@[j].value is Text),
    {
        if attrs[i].name == key {
            if let AttrValue::Text(_) = &attrs[i].value {
                return true;
            }
        }
    }
    false
}

// ---------------------------------------------------------------------------
// Kernel parameters
// ---------------------------------------------------------------------------

/// The type with every generic pointer leaf moved to global memory, through
/// structs and arrays.
pub open spec fn specialize(t: LlvmShape) -> LlvmShape
    decreases t,
{
    match t {
        LlvmShape::Pointer(space) => if space == GENERIC {
            LlvmShape::Pointer(GLOBAL)
        } else {
            t
        },
        LlvmShape::Array(elem, n) => LlvmShape::Array(Box::new(specialize(*elem)), n),
        LlvmShape::Struct(fields) => LlvmShape::Struct(specialize_all(fields)),
        _ => t,
    }
}

/// The specialized types of a list.
pub open spec fn specialize_all(fields: Seq<LlvmShape>) -> Seq<LlvmShape>
    decreases fields,
{
    Seq::new(
        fields.len(),
        |i: int|
            if 0 <= i < fields.len() {
                specialize(fields[i])
            } else {
                LlvmShape::Void
            },
    )
}

/// Gives the pointer leaves of a by-value kernel parameter their physical
/// address space.
///
/// The host fills launch arguments, so a pointer in one names device memory.
pub fn specialize_kernel_parameter_pointers(ty: &LlvmType) -> (r: LlvmType)
    ensures
        r@ == specialize(ty@),
    decreases ty, 0int,
{
    match ty {
        LlvmType::Pointer(space) => if *space == GENERIC {
            LlvmType::Pointer(GLOBAL)
        } else {
            LlvmType::Pointer(*space)
        },
        LlvmType::Array(elem, n) => LlvmType::array(
            specialize_kernel_parameter_pointers(elem),
            *n,
        ),
        LlvmType::Struct(fields) => {
            proof {
                LlvmType::lemma_struct_view(*fields);
            }
            LlvmType::structure(specialize_fields(fields))
        },
        _ => ty.duplicate(),
    }
}

fn specialize_fields(fields: &Vec<LlvmType>) -> (r: Vec<LlvmType>)
    ensures
        shapes(r@) == specialize_all(shapes(fields@)),
    decreases fields, 1int,
{
    let ghost wanted = specialize_all(shapes(fields@));
    let mut out: Vec<LlvmType> = Vec::new();
    for i in 0..fields.len()
        invariant
            wanted == specialize_all(shapes(fields@)),
            out@.len() == i,
            forall|j: int| 0 <= j < i ==> (#[trigger] out@[j])@ == wanted[j],
    {
        assert(wanted[i as int] == specialize(fields@[i as int]@));
        out.push(specialize_kernel_parameter_pointers(&fields[i]));
    }
    assert(shapes(out@) =~= wanted);
    out
}

/// Specializing a parameter keeps its size and alignment, so the host's bytes
/// still fit, and keeps it zero-sized or not.
pub proof fn law_specializing_keeps_layout(t: LlvmShape)
    ensures
        size_align(specialize(t)) == size_align(t),
        zero_sized(specialize(t)) == zero_sized(t),
    decreases t,
{
    match t {
        LlvmShape::Array(elem, _) => law_specializing_keeps_layout(*elem),
        LlvmShape::Struct(fields) => {
            let fs = specialize_all(fields);
            let u = specialize(t);
            assert(u->Struct_0 == fs);
            assert forall|i: int| 0 <= i < fields.len() implies size_align(#[trigger] fs[i])
                == size_align(fields[i]) && zero_sized(fs[i]) == zero_sized(fields[i]) by {
                law_specializing_keeps_layout(fields[i]);
            }
            assert(size_aligns(fs) =~= size_aligns(fields));
            lemma_struct_size_align(fs);
            lemma_struct_size_align(fields);
            if zero_sized(t) {
                assert forall|i: int| 0 <= i < fs.len() implies zero_sized(#[trigger] fs[i]) by {
                    assert(zero_sized(t->Struct_0[i]));
                }
            }
            if zero_sized(u) {
                assert forall|i: int| 0 <= i < fields.len() implies zero_sized(
                    #[trigger] fields[i],
                ) by {
                    assert(zero_sized(u->Struct_0[i]));
                }
            }
        },
        _ => {},
    }
}

/// Specializing twice is specializing once.
pub proof fn law_specializing_is_idempotent(t: LlvmShape)
    ensures
        specialize(specialize(t)) == specialize(t),
    decreases t,
{
    match t {
        LlvmShape::Array(elem, _) => law_specializing_is_idempotent(*elem),
        LlvmShape::Struct(fields) => {
            let fs = specialize_all(fields);
            assert forall|i: int| 0 <= i < fields.len() implies specialize(#[trigger] fs[i])
                == fs[i] by {
                law_specializing_is_idempotent(fields[i]);
            }
            assert(specialize_all(fs) =~= fs);
        },
        _ => {},
    }
}

// ---------------------------------------------------------------------------
// Function types
// ---------------------------------------------------------------------------

/// A Rust-level function type.
#[derive(Debug, PartialEq, Eq)]
pub struct MirFunctionType {
    pub inputs: Vec<MirType>,
    pub results: Vec<MirType>,
}

/// An LLVM function type.
#[derive(Debug, PartialEq, Eq)]
pub struct LlvmFuncType {
    pub result: LlvmType,
    pub inputs: Vec<LlvmType>,
}

/// The model of an [`LlvmFuncType`].
pub ghost struct FuncShape {
    pub result: LlvmShape,
    pub inputs: Seq<LlvmShape>,
}

impl View for LlvmFuncType {
    type V = FuncShape;

    open spec fn view(&self) -> FuncShape {
        FuncShape { result: self.result@, inputs: shapes(self.inputs@) }
    }
}

/// The types that take bytes.
pub open spec fn keep_sized(types: Seq<LlvmShape>) -> Seq<LlvmShape> {
    types.filter(|t: LlvmShape| !zero_sized(t))
}

/// The first `k` fields of a struct in memory order, converted.
pub open spec fn fields_in_memory_order(
    fields: Seq<MirType>,
    order: Seq<usize>,
    k: int,
) -> Result<Seq<LlvmShape>, LowerError>
    decreases k,
{
    if k <= 0 {
        Ok(Seq::empty())
    } else {
        match fields_in_memory_order(fields, order, k - 1) {
            Err(error) => Err(error),
            Ok(types) => if order[k - 1] >= fields.len() {
                Err(LowerError::MemoryOrderNotPermutation)
            } else {
                match lowered(fields[order[k - 1] as int]) {
                    Err(error) => Err(error),
                    Ok(t) => Ok(types.push(t)),
                }
            },
        }
    }
}

/// The parameters that a struct argument is passed as between device
/// functions: its fields in memory order.
pub open spec fn flattened_struct(s: MirStructType) -> Result<Seq<LlvmShape>, LowerError> {
    let n = s.field_types@.len();
    let order = memory_order(s.mem_to_decl@, n);
    if order.len() < n {
        Err(LowerError::MemoryOrderLength { entries: order.len() as usize, fields: n as usize })
    } else {
        match fields_in_memory_order(s.field_types@, order, n as int) {
            Err(error) => Err(error),
            Ok(types) => Ok(keep_sized(types)),
        }
    }
}

/// The LLVM parameters that one argument is passed as.
///
/// A slice is a pointer and a length. A struct is one value at a kernel entry
/// and its fields elsewhere. Zero-sized values are not passed.
pub open spec fn parameters(t: MirType, is_kernel_entry: bool) -> Result<
    Seq<LlvmShape>,
    LowerError,
> {
    match t {
        MirType::Slice(_) => Ok(slice_fields()),
        MirType::DisjointSlice(d) => match all_ok(lowered_all(d.space_tys@)) {
            Err(error) => Err(error),
            Ok(spaces) => Ok(slice_fields() + keep_sized(spaces)),
        },
        _ => if t is Struct && !is_kernel_entry {
            flattened_struct(t->Struct_0)
        } else {
            match lowered(t) {
                Err(error) => Err(error),
                Ok(converted) => {
                    let passed = if is_kernel_entry {
                        specialize(converted)
                    } else {
                        converted
                    };
                    if zero_sized(passed) {
                        Ok(Seq::empty())
                    } else {
                        Ok(seq![passed])
                    }
                },
            }
        },
    }
}

/// The LLVM parameters of the first `k` arguments.
pub open spec fn all_parameters(inputs: Seq<MirType>, is_kernel_entry: bool, k: int) -> Result<
    Seq<LlvmShape>,
    LowerError,
>
    decreases k,
{
    if k <= 0 {
        Ok(Seq::empty())
    } else {
        match all_parameters(inputs, is_kernel_entry, k - 1) {
            Err(error) => Err(error),
            Ok(before) => match parameters(inputs[k - 1], is_kernel_entry) {
                Err(error) => Err(error),
                Ok(more) => Ok(before + more),
            },
        }
    }
}

/// The LLVM result type: `void` for no result or a zero-sized one.
pub open spec fn result_type(results: Seq<MirType>) -> Result<LlvmShape, LowerError> {
    if results.len() == 0 {
        Ok(LlvmShape::Void)
    } else {
        match lowered(results[0]) {
            Err(error) => Err(error),
            Ok(t) => if zero_sized(t) {
                Ok(LlvmShape::Void)
            } else {
                Ok(t)
            },
        }
    }
}

/// The LLVM equivalent of a function type.
pub open spec fn function_type(f: MirFunctionType, is_kernel_entry: bool) -> Result<
    FuncShape,
    LowerError,
> {
    match all_parameters(f.inputs@, is_kernel_entry, f.inputs@.len() as int) {
        Err(error) => Err(error),
        Ok(inputs) => match result_type(f.results@) {
            Err(error) => Err(error),
            Ok(result) => Ok(FuncShape { result, inputs }),
        },
    }
}

proof fn lemma_parameters_error(inputs: Seq<MirType>, is_kernel_entry: bool, k: int, n: int)
    requires
        0 <= k <= n,
        all_parameters(inputs, is_kernel_entry, k) is Err,
    ensures
        all_parameters(inputs, is_kernel_entry, n) == all_parameters(inputs, is_kernel_entry, k),
    decreases n - k,
{
    if k < n {
        lemma_parameters_error(inputs, is_kernel_entry, k + 1, n);
    }
}

proof fn lemma_memory_order_error(fields: Seq<MirType>, order: Seq<usize>, k: int, n: int)
    requires
        0 <= k <= n,
        fields_in_memory_order(fields, order, k) is Err,
    ensures
        fields_in_memory_order(fields, order, n) == fields_in_memory_order(fields, order, k),
    decreases n - k,
{
    if k < n {
        lemma_memory_order_error(fields, order, k + 1, n);
    }
}

proof fn lemma_keep_sized_push(types: Seq<LlvmShape>, t: LlvmShape)
    ensures
        keep_sized(types.push(t)) == if zero_sized(t) {
            keep_sized(types)
        } else {
            keep_sized(types).push(t)
        },
{
    reveal(Seq::filter);
    assert(types.push(t).drop_last() =~= types);
}

/// The types of `types` that take bytes.
fn drop_zero_sized(types: Vec<LlvmType>) -> (r: Vec<LlvmType>)
    ensures
        shapes(r@) == keep_sized(shapes(types@)),
{
    let ghost all = shapes(types@);
    let mut out: Vec<LlvmType> = Vec::new();
    proof {
        reveal(Seq::filter);
        assert(shapes(out@) =~= Seq::empty());
        assert(all.take(0) =~= Seq::empty());
    }
    for i in 0..types.len()
        invariant
            all == shapes(types@),
            shapes(out@) == keep_sized(all.take(i as int)),
    {
        proof {
            assert(all.take(i + 1) =~= all.take(i as int).push(all[i as int]));
            lemma_keep_sized_push(all.take(i as int), all[i as int]);
        }
        if !is_zero_sized_type(&types[i]) {
            let t = types[i].duplicate();
            let ghost before = out@;
            out.push(t);
            assert(shapes(out@) =~= shapes(before).push(t@));
        }
    }
    assert(all.take(types@.len() as int) =~= all);
    out
}

fn flatten_struct(s: &MirStructType) -> (r: Result<Vec<LlvmType>, LowerError>)
    ensures
        match r {
            Ok(types) => flattened_struct(*s) == Ok::<Seq<LlvmShape>, LowerError>(
                shapes(types@),
            ),
            Err(error) => flattened_struct(*s) == Err::<Seq<LlvmShape>, LowerError>(error),
        },
{
    let n: usize = s.field_types.len();
    let order = expand_memory_order(&s.mem_to_decl, n);
    if order.len() < n {
        return Err(LowerError::MemoryOrderLength { entries: order.len(), fields: n });
    }
    let mut types: Vec<LlvmType> = Vec::new();
    assert(shapes(types@) =~= Seq::empty());
    for i in 0..n
        invariant
            n == s.field_types@.len(),
            n <= order@.len(),
            order@ == memory_order(s.mem_to_decl@, n as nat),
            fields_in_memory_order(s.field_types@, order@, i as int) == Ok::<
                Seq<LlvmShape>,
                LowerError,
            >(shapes(types@)),
    {
        proof {
            if fields_in_memory_order(s.field_types@, order@, i + 1) is Err {
                lemma_memory_order_error(s.field_types@, order@, i + 1, n as int);
            }
        }
        let decl: usize = order[i];
        if decl >= n {
            return Err(LowerError::MemoryOrderNotPermutation);
        }
        match convert_type(&s.field_types[decl]) {
            Err(error) => {
                return Err(error);
            },
            Ok(t) => {
                let ghost before = types@;
                types.push(t);
                assert(shapes(types@) =~= shapes(before).push(t@));
            },
        }
    }
    Ok(drop_zero_sized(types))
}

#[verifier::rlimit(80)]
fn convert_parameter(t: &MirType, is_kernel_entry: bool) -> (r: Result<Vec<LlvmType>, LowerError>)
    ensures
        match r {
            Ok(types) => parameters(*t, is_kernel_entry) == Ok::<Seq<LlvmShape>, LowerError>(
                shapes(types@),
            ),
            Err(error) => parameters(*t, is_kernel_entry) == Err::<Seq<LlvmShape>, LowerError>(
                error,
            ),
        },
{
    match t {
        MirType::Slice(_) => {
            let mut out: Vec<LlvmType> = Vec::new();
            out.push(LlvmType::pointer(GENERIC));
            out.push(LlvmType::integer(64));
            assert(shapes(out@) =~= slice_fields());
            return Ok(out);
        },
        MirType::DisjointSlice(d) => {
            return match convert_all(&d.space_tys) {
                Err(error) => Err(error),
                Ok(spaces) => {
                    let mut rest = drop_zero_sized(spaces);
                    let ghost tail = shapes(rest@);
                    let mut out: Vec<LlvmType> = Vec::new();
                    out.push(LlvmType::pointer(GENERIC));
                    out.push(LlvmType::integer(64));
                    out.append(&mut rest);
                    assert(shapes(out@) =~= slice_fields() + tail);
                    Ok(out)
                },
            };
        },
        MirType::Struct(s) => {
            if !is_kernel_entry {
                return flatten_struct(s);
            }
        },
        _ => {},
    }
    match convert_type(t) {
        Err(error) => Err(error),
        Ok(converted) => {
            let passed = if is_kernel_entry {
                specialize_kernel_parameter_pointers(&converted)
            } else {
                converted
            };
            let mut out: Vec<LlvmType> = Vec::new();
            if is_zero_sized_type(&passed) {
                assert(shapes(out@) =~= Seq::empty());
            } else {
                let ghost model = passed@;
                out.push(passed);
                assert(shapes(out@) =~= seq![model]);
            }
            Ok(out)
        },
    }
}

/// Converts a function type.
///
/// At a kernel entry a struct arrives as the one value that the host pushed;
/// between device functions it is flattened to its fields in memory order.
pub fn convert_function_type(func_type: &MirFunctionType, is_kernel_entry: bool) -> (r: Result<
    LlvmFuncType,
    LowerError,
>)
    ensures
        match r {
            Ok(f) => function_type(*func_type, is_kernel_entry) == Ok::<FuncShape, LowerError>(f@),
            Err(error) => function_type(*func_type, is_kernel_entry) == Err::<
                FuncShape,
                LowerError,
            >(error),
        },
{
    let mut inputs: Vec<LlvmType> = Vec::new();
    assert(shapes(inputs@) =~= Seq::empty());
    for i in 0..func_type.inputs.len()
        invariant
            all_parameters(func_type.inputs@, is_kernel_entry, i as int) == Ok::<
                Seq<LlvmShape>,
                LowerError,
            >(shapes(inputs@)),
    {
        proof {
            if all_parameters(func_type.inputs@, is_kernel_entry, i + 1) is Err {
                lemma_parameters_error(
                    func_type.inputs@,
                    is_kernel_entry,
                    i + 1,
                    func_type.inputs@.len() as int,
                );
            }
        }
        match convert_parameter(&func_type.inputs[i], is_kernel_entry) {
            Err(error) => {
                return Err(error);
            },
            Ok(mut more) => {
                let ghost before = inputs@;
                let ghost added = more@;
                inputs.append(&mut more);
                assert(shapes(inputs@) =~= shapes(before) + shapes(added));
            },
        }
    }
    if func_type.results.len() == 0 {
        return Ok(LlvmFuncType { result: LlvmType::Void, inputs });
    }
    match convert_type(&func_type.results[0]) {
        Err(error) => Err(error),
        Ok(t) => {
            let result = if is_zero_sized_type(&t) {
                LlvmType::Void
            } else {
                t
            };
            Ok(LlvmFuncType { result, inputs })
        },
    }
}

/// Whether no type of a list is zero-sized.
pub open spec fn none_zero_sized(types: Seq<LlvmShape>) -> bool {
    forall|i: int| 0 <= i < types.len() ==> !zero_sized(#[trigger] types[i])
}

proof fn lemma_keep_sized(types: Seq<LlvmShape>)
    ensures
        none_zero_sized(keep_sized(types)),
    decreases types.len(),
{
    reveal(Seq::filter);
    if types.len() > 0 {
        lemma_keep_sized(types.drop_last());
    }
}

proof fn lemma_parameters_sized(inputs: Seq<MirType>, is_kernel_entry: bool, k: int)
    requires
        all_parameters(inputs, is_kernel_entry, k) is Ok,
    ensures
        none_zero_sized(all_parameters(inputs, is_kernel_entry, k)->Ok_0),
    decreases k,
{
    if k > 0 {
        lemma_parameters_sized(inputs, is_kernel_entry, k - 1);
        let t = inputs[k - 1];
        match t {
            MirType::DisjointSlice(d) => {
                let spaces = all_ok(lowered_all(d.space_tys@))->Ok_0;
                lemma_keep_sized(spaces);
            },
            MirType::Struct(s) => {
                if !is_kernel_entry {
                    let order = memory_order(s.mem_to_decl@, s.field_types@.len());
                    lemma_keep_sized(
                        fields_in_memory_order(
                            s.field_types@,
                            order,
                            s.field_types@.len() as int,
                        )->Ok_0,
                    );
                }
            },
            _ => {},
        }
        let more = parameters(t, is_kernel_entry)->Ok_0;
        assert(none_zero_sized(more)) by {
            assert(none_zero_sized(slice_fields()));
        }
    }
}

/// No converted signature has a zero-sized parameter or result, which the
/// backend would reject.
pub proof fn law_signatures_hold_no_zero_sized_types(f: MirFunctionType, is_kernel_entry: bool)
    requires
        function_type(f, is_kernel_entry) is Ok,
    ensures
        none_zero_sized(function_type(f, is_kernel_entry)->Ok_0.inputs),
        !zero_sized(function_type(f, is_kernel_entry)->Ok_0.result),
{
    lemma_parameters_sized(f.inputs@, is_kernel_entry, f.inputs@.len() as int);
}

// ---------------------------------------------------------------------------
// Enums without a known layout
// ---------------------------------------------------------------------------

/// The name of the first enum with an unknown layout that host data of type
/// `t` can reach: through pointers, slices, arrays, fields and payloads. The search
/// does not enter an enclosing type again.
pub open spec fn unmodeled_enum(t: MirType) -> Option<Seq<char>>
    decreases t, 0int,
{
    match t {
        MirType::Ptr(p) => unmodeled_enum(*p.pointee),
        MirType::Slice(elem) => unmodeled_enum(*elem),
        MirType::DisjointSlice(d) => match unmodeled_enum(*d.element_ty) {
            Some(name) => Some(name),
            None => first_unmodeled(d.space_tys@, 0),
        },
        MirType::Array(elem, _) => unmodeled_enum(*elem),
        MirType::Struct(s) => first_unmodeled(s.field_types@, 0),
        MirType::Union(u) => first_unmodeled(u.field_types@, 0),
        MirType::Tuple(s) => first_unmodeled(s.types@, 0),
        MirType::Enum(e) => if e.encoding.layout_kind == EnumLayoutKind::Unknown {
            Some(e.name@)
        } else {
            first_unmodeled(e.all_field_types@, 0)
        },
        _ => None,
    }
}

/// The first such enum that one of `fields` from `from` on can reach.
pub open spec fn first_unmodeled(fields: Seq<MirType>, from: int) -> Option<Seq<char>>
    decreases fields, fields.len() - from,
{
    if from < 0 || from >= fields.len() {
        None
    } else {
        match unmodeled_enum(fields[from]) {
            Some(name) => Some(name),
            None => first_unmodeled(fields, from + 1),
        }
    }
}

/// The name of an enum whose physical layout is unknown; nothing for other
/// types.
pub fn enum_unmodeled_in_memory(ty: &MirType) -> (r: Option<String>)
    ensures
        opt_text(r) == match *ty {
            MirType::Enum(e) => if e.encoding.layout_kind == EnumLayoutKind::Unknown {
                Some(e.name@)
            } else {
                None
            },
            _ => None,
        },
{
    match ty {
        MirType::Enum(e) => if e.encoding.layout_kind == EnumLayoutKind::Unknown {
            Some(e.name.clone())
        } else {
            None
        },
        _ => None,
    }
}

/// Searches a kernel parameter's type for an enum that host and device would
/// disagree about, and names the first. The search ends also on recursive types: it
/// does not enter an enclosing type again.
pub fn find_unmodeled_enum_in_abi(ty: &MirType) -> (r: Option<String>)
    ensures
        opt_text(r) == unmodeled_enum(*ty),
    decreases ty, 0int,
{
    match ty {
        MirType::Ptr(p) => find_unmodeled_enum_in_abi(&p.pointee),
        MirType::Slice(elem) => find_unmodeled_enum_in_abi(elem),
        MirType::DisjointSlice(d) => match find_unmodeled_enum_in_abi(&d.element_ty) {
            Some(name) => Some(name),
            None => find_unmodeled_in(&d.space_tys),
        },
        MirType::Array(elem, _) => find_unmodeled_enum_in_abi(elem),
        MirType::Struct(s) => find_unmodeled_in(&s.field_types),
        MirType::Union(u) => find_unmodeled_in(&u.field_types),
        MirType::Tuple(s) => find_unmodeled_in(&s.types),
        MirType::Enum(e) => {
            match enum_unmodeled_in_memory(ty) {
                Some(name) => Some(name),
                None => find_unmodeled_in(&e.all_field_types),
            }
        },
        _ => None,
    }
}

fn find_unmodeled_in(fields: &Vec<MirType>) -> (r: Option<String>)
    ensures
        opt_text(r) == first_unmodeled(fields@, 0),
    decreases fields, 1int,
{
    for i in 0..fields.len()
        invariant
            first_unmodeled(fields@, 0) == first_unmodeled(fields@, i as int),
    {
        match find_unmodeled_enum_in_abi(&fields[i]) {
            Some(name) => {
                return Some(name);
            },
            None => {},
        }
    }
    None
}

// ---------------------------------------------------------------------------
// Recursive types
// ---------------------------------------------------------------------------

/// Whether `u` is `t` with `whole` in place of each reference to the type `depth`
/// levels out of `t`.
pub open spec fn unrolls(t: MirType, u: MirType, depth: int, whole: MirType) -> bool
    decreases t,
{
    match (t, u) {
        (MirType::Enclosing(level), _) => if level == depth {
            u == whole
        } else {
            u == t
        },
        (MirType::Ptr(p), MirType::Ptr(q)) => {
            &&& p.mutable == q.mutable
            &&& p.address_space == q.address_space
            &&& unrolls(*p.pointee, *q.pointee, depth + 1, whole)
        },
        (MirType::Slice(a), MirType::Slice(b)) => unrolls(*a, *b, depth + 1, whole),
        (MirType::DisjointSlice(a), MirType::DisjointSlice(b)) => {
            &&& unrolls(*a.element_ty, *b.element_ty, depth + 1, whole)
            &&& all_unroll(a.space_tys@, b.space_tys@, depth + 1, whole)
        },
        (MirType::Array(a, n), MirType::Array(b, m)) => n == m && unrolls(*a, *b, depth + 1, whole),
        (MirType::Struct(a), MirType::Struct(b)) => {
            &&& a.name@ == b.name@
            &&& all_unroll(a.field_types@, b.field_types@, depth + 1, whole)
        },
        (MirType::Union(a), MirType::Union(b)) => {
            &&& a.name@ == b.name@
            &&& all_unroll(a.field_types@, b.field_types@, depth + 1, whole)
        },
        (MirType::Tuple(a), MirType::Tuple(b)) => all_unroll(a.types@, b.types@, depth + 1, whole),
        (MirType::Enum(a), MirType::Enum(b)) => {
            &&& a.name@ == b.name@
            &&& a.encoding == b.encoding
            &&& all_unroll(a.all_field_types@, b.all_field_types@, depth + 1, whole)
        },
        _ => t == u,
    }
}

/// Whether each of `us` is the type at its position in `ts`, unrolled.
pub open spec fn all_unroll(
    ts: Seq<MirType>,
    us: Seq<MirType>,
    depth: int,
    whole: MirType,
) -> bool
    decreases ts,
{
    &&& ts.len() == us.len()
    &&& forall|i: int| 0 <= i < ts.len() ==> unrolls(#[trigger] ts[i], us[i], depth, whole)
}

/// Whether a search that finds nothing or `all` where nothing is unrolled finds
/// nothing or `all` where something is, and not nothing where it found `all`.
spec fn finds_alike(
    plain: Option<Seq<char>>,
    unrolled: Option<Seq<char>>,
    all: Option<Seq<char>>,
) -> bool {
    plain is None || plain == all ==> {
        &&& unrolled is None || unrolled == all
        &&& plain is Some ==> unrolled == all
    }
}

proof fn lemma_unrolled_search(t: MirType, u: MirType, depth: int, whole: MirType)
    requires
        unrolls(t, u, depth, whole),
    ensures
        finds_alike(unmodeled_enum(t), unmodeled_enum(u), unmodeled_enum(whole)),
    decreases t, 0int, 0int,
{
    match (t, u) {
        (MirType::Ptr(p), MirType::Ptr(q)) => {
            lemma_unrolled_search(*p.pointee, *q.pointee, depth + 1, whole);
        },
        (MirType::Slice(a), MirType::Slice(b)) => {
            lemma_unrolled_search(*a, *b, depth + 1, whole);
        },
        (MirType::DisjointSlice(a), MirType::DisjointSlice(b)) => {
            lemma_unrolled_search(*a.element_ty, *b.element_ty, depth + 1, whole);
            lemma_unrolled_searches(a.space_tys@, b.space_tys@, depth + 1, whole, 0);
        },
        (MirType::Array(a, _), MirType::Array(b, _)) => {
            lemma_unrolled_search(*a, *b, depth + 1, whole);
        },
        (MirType::Struct(a), MirType::Struct(b)) => {
            lemma_unrolled_searches(a.field_types@, b.field_types@, depth + 1, whole, 0);
        },
        (MirType::Union(a), MirType::Union(b)) => {
            lemma_unrolled_searches(a.field_types@, b.field_types@, depth + 1, whole, 0);
        },
        (MirType::Tuple(a), MirType::Tuple(b)) => {
            lemma_unrolled_searches(a.types@, b.types@, depth + 1, whole, 0);
        },
        (MirType::Enum(a), MirType::Enum(b)) => {
            lemma_unrolled_searches(a.all_field_types@, b.all_field_types@, depth + 1, whole, 0);
        },
        _ => {},
    }
}

proof fn lemma_unrolled_searches(
    ts: Seq<MirType>,
    us: Seq<MirType>,
    depth: int,
    whole: MirType,
    from: int,
)
    requires
        all_unroll(ts, us, depth, whole),
        0 <= from <= ts.len(),
    ensures
        finds_alike(
            first_unmodeled(ts, from),
            first_unmodeled(us, from),
            unmodeled_enum(whole),
        ),
    decreases ts, 1int, ts.len() - from,
{
    if from < ts.len() {
        assert(unrolls(ts[from], us[from], depth, whole));
        lemma_unrolled_search(ts[from], us[from], depth, whole);
        lemma_unrolled_searches(ts, us, depth, whole, from + 1);
    }
}

/// A recursive type is searched to the end: entering it again, through its
/// references to itself, finds nothing else.
pub proof fn law_recursive_types_are_searched(whole: MirType, unrolled: MirType)
    requires
        unrolls(whole, unrolled, 0, whole),
    ensures
        unmodeled_enum(unrolled) == unmodeled_enum(whole),
{
    lemma_unrolled_search(whole, unrolled, 0, whole);
}

} // verus!
