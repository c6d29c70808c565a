//! How the values of a function are passed.

use crate::abi::{
    all_parameters, fields_in_memory_order, first_unmodeled, function_type,
    law_specializing_keeps_layout, marks_kernel, parameters, specialize, specialize_all,
    unmodeled_enum, Attr, MirFunctionType,
};
use crate::collect::{all_ok, lemma_all_ok_succeeds, lemma_all_ok_values};
use crate::error::LowerError;
use crate::llvm::{LlvmShape, GENERIC, GLOBAL};
use crate::mir::{memory_order, EnumLayoutKind, MirDisjointSliceType, MirStructType, MirType};
use crate::storage::zero_sized;
use crate::types::{lowered, lowered_all};
use vstd::prelude::*;

verus! {

/// A function returns the LLVM equivalent of its first result, and nothing where it has
/// no result or one without bytes.
pub proof fn law_results_are_returned(f: MirFunctionType, is_kernel_entry: bool)
    requires
        function_type(f, is_kernel_entry) is Ok,
    ensures
        ({
            let result = function_type(f, is_kernel_entry)->Ok_0.result;
            &&& f.results@.len() > 0 ==> lowered(f.results@[0]) is Ok
            &&& f.results@.len() > 0 && !zero_sized(lowered(f.results@[0])->Ok_0) ==> result
                == lowered(f.results@[0])->Ok_0
            &&& result is Void <==> f.results@.len() == 0 || zero_sized(
                lowered(f.results@[0])->Ok_0,
            )
        }),
{
}

/// Whether a function is converted: exactly where each of its arguments can be passed on
/// its own, and its first result has an LLVM equivalent.
///
/// Its parameters are those of its arguments, one argument after the other.
pub proof fn law_arguments_are_passed_in_order(
    f: MirFunctionType,
    before: MirFunctionType,
    after: MirFunctionType,
    is_kernel_entry: bool,
)
    requires
        f.inputs@ == before.inputs@ + after.inputs@,
        before.results@ == f.results@,
        after.results@ == f.results@,
    ensures
        function_type(f, is_kernel_entry) is Ok <==> function_type(before, is_kernel_entry) is Ok
            && function_type(after, is_kernel_entry) is Ok,
        function_type(f, is_kernel_entry) is Ok ==> function_type(f, is_kernel_entry)->Ok_0.inputs
            == function_type(before, is_kernel_entry)->Ok_0.inputs + function_type(
            after,
            is_kernel_entry,
        )->Ok_0.inputs,
{
    lemma_parameters_join(
        f.inputs@,
        before.inputs@,
        after.inputs@,
        is_kernel_entry,
        after.inputs@.len() as int,
    );
}

proof fn lemma_parameters_same(
    inputs: Seq<MirType>,
    before: Seq<MirType>,
    is_kernel_entry: bool,
    k: int,
)
    requires
        k <= before.len() <= inputs.len(),
        forall|i: int| 0 <= i < before.len() ==> #[trigger] before[i] == inputs[i],
    ensures
        all_parameters(inputs, is_kernel_entry, k) == all_parameters(before, is_kernel_entry, k),
    decreases k,
{
    if k > 0 {
        lemma_parameters_same(inputs, before, is_kernel_entry, k - 1);
        assert(before[k - 1] == inputs[k - 1]);
    }
}

proof fn lemma_parameters_join(
    inputs: Seq<MirType>,
    before: Seq<MirType>,
    after: Seq<MirType>,
    is_kernel_entry: bool,
    k: int,
)
    requires
        inputs == before + after,
        0 <= k <= after.len(),
    ensures
        ({
            let n = before.len() as int;
            let whole = all_parameters(inputs, is_kernel_entry, n + k);
            let first = all_parameters(before, is_kernel_entry, n);
            let rest = all_parameters(after, is_kernel_entry, k);
            &&& whole is Ok <==> first is Ok && rest is Ok
            &&& whole is Ok ==> whole->Ok_0 == first->Ok_0 + rest->Ok_0
        }),
    decreases k,
{
    let n = before.len() as int;
    if k == 0 {
        lemma_parameters_same(inputs, before, is_kernel_entry, n);
        let first = all_parameters(before, is_kernel_entry, n);
        if first is Ok {
            assert(first->Ok_0 + Seq::<LlvmShape>::empty() =~= first->Ok_0);
        }
    } else {
        lemma_parameters_join(inputs, before, after, is_kernel_entry, k - 1);
        assert(inputs[n + k - 1] == after[k - 1]);
        let first = all_parameters(before, is_kernel_entry, n);
        let rest = all_parameters(after, is_kernel_entry, k - 1);
        let more = parameters(after[k - 1], is_kernel_entry);
        if first is Ok && rest is Ok && more is Ok {
            assert((first->Ok_0 + rest->Ok_0) + more->Ok_0 =~= first->Ok_0 + (rest->Ok_0
                + more->Ok_0));
        }
    }
}

/// What the parameters of a function with one argument are.
proof fn lemma_one_argument(f: MirFunctionType, is_kernel_entry: bool)
    requires
        f.inputs@.len() == 1,
        f.results@.len() == 0,
    ensures
        function_type(f, is_kernel_entry) is Ok <==> parameters(f.inputs@[0], is_kernel_entry) is Ok,
        function_type(f, is_kernel_entry) is Ok ==> function_type(f, is_kernel_entry)->Ok_0.inputs
            == parameters(f.inputs@[0], is_kernel_entry)->Ok_0,
{
    reveal_with_fuel(all_parameters, 2);
    let more = parameters(f.inputs@[0], is_kernel_entry);
    if more is Ok {
        assert(Seq::<LlvmShape>::empty() + more->Ok_0 =~= more->Ok_0);
    }
}

/// A function without arguments has no parameters.
pub proof fn law_no_arguments_no_parameters(f: MirFunctionType, is_kernel_entry: bool)
    requires
        f.inputs@.len() == 0,
        f.results@.len() > 0 ==> lowered(f.results@[0]) is Ok,
    ensures
        function_type(f, is_kernel_entry) is Ok,
        function_type(f, is_kernel_entry)->Ok_0.inputs.len() == 0,
{
}

/// A slice is passed as a generic pointer and a count of 64 bits.
pub proof fn law_slices_are_passed_as_pointer_and_count(
    f: MirFunctionType,
    elem: MirType,
    is_kernel_entry: bool,
)
    requires
        f.inputs@ == seq![MirType::Slice(Box::new(elem))],
        f.results@.len() == 0,
    ensures
        function_type(f, is_kernel_entry) is Ok,
        function_type(f, is_kernel_entry)->Ok_0.inputs == seq![
            LlvmShape::Pointer(GENERIC),
            LlvmShape::Integer(64),
        ],
{
    lemma_one_argument(f, is_kernel_entry);
}

/// A slice of uniquely owned elements is passed as a generic pointer, a count of 64 bits
/// and what its index space holds, without what takes no bytes.
pub proof fn law_disjoint_slices_are_passed_in_parts(
    f: MirFunctionType,
    d: MirDisjointSliceType,
    spaces: Seq<LlvmShape>,
    is_kernel_entry: bool,
)
    requires
        f.inputs@ == seq![MirType::DisjointSlice(d)],
        f.results@.len() == 0,
        spaces.len() == d.space_tys@.len(),
        forall|i: int|
            0 <= i < spaces.len() ==> lowered(#[trigger] d.space_tys@[i]) == Ok::<
                LlvmShape,
                LowerError,
            >(spaces[i]),
    ensures
        function_type(f, is_kernel_entry) is Ok,
        function_type(f, is_kernel_entry)->Ok_0.inputs == seq![
            LlvmShape::Pointer(GENERIC),
            LlvmShape::Integer(64),
        ] + spaces.filter(|t: LlvmShape| !zero_sized(t)),
{
    lemma_one_argument(f, is_kernel_entry);
    let found = lowered_all(d.space_tys@);
    assert forall|i: int| 0 <= i < found.len() implies #[trigger] found[i] is Ok by {
        assert(lowered(d.space_tys@[i]) is Ok);
    }
    lemma_all_ok_succeeds(found, found.len() as int);
    lemma_all_ok_values(found, found.len() as int);
    assert(all_ok(found)->Ok_0 =~= spaces) by {
        assert forall|i: int| 0 <= i < spaces.len() implies all_ok(found)->Ok_0[i]
            == spaces[i] by {
            assert(found[i] is Ok);
            assert(lowered(d.space_tys@[i]) is Ok);
        }
    }
}

/// Whether field `j` of a struct has the LLVM equivalent `t`.
pub open spec fn stands_at(fields: Seq<MirType>, j: int, t: LlvmShape) -> bool {
    &&& 0 <= j < fields.len()
    &&& lowered(fields[j]) == Ok::<LlvmShape, LowerError>(t)
}

/// Between device functions a struct is passed as its fields in memory order, without
/// those that take no bytes.
pub proof fn law_structs_are_passed_by_fields(
    f: MirFunctionType,
    s: MirStructType,
    types: Seq<LlvmShape>,
)
    requires
        f.inputs@ == seq![MirType::Struct(s)],
        f.results@.len() == 0,
        types.len() == s.field_types@.len(),
        s.mem_to_decl@.len() == 0 || s.mem_to_decl@.len() == types.len(),
        forall|i: int|
            0 <= i < types.len() ==> stands_at(
                s.field_types@,
                if s.mem_to_decl@.len() == 0 {
                    i
                } else {
                    s.mem_to_decl@[i] as int
                },
                #[trigger] types[i],
            ),
    ensures
        function_type(f, false) is Ok,
        function_type(f, false)->Ok_0.inputs == types.filter(|t: LlvmShape| !zero_sized(t)),
{
    lemma_one_argument(f, false);
    assert(s.field_types@.len() == s.field_types.len());
    let n = types.len() as int;
    let order = memory_order(s.mem_to_decl@, s.field_types@.len());
    assert forall|i: int| 0 <= i < types.len() implies #[trigger] stands_at(
        s.field_types@,
        order[i] as int,
        types[i],
    ) by {
        let j = if s.mem_to_decl@.len() == 0 {
            i
        } else {
            s.mem_to_decl@[i] as int
        };
        assert(stands_at(s.field_types@, j, types[i]));
        assert(order[i] == j);
    }
    lemma_fields_found(s.field_types@, order, types, n);
    assert(types.take(n) =~= types);
}

proof fn lemma_fields_found(
    fields: Seq<MirType>,
    order: Seq<usize>,
    types: Seq<LlvmShape>,
    k: int,
)
    requires
        0 <= k <= types.len(),
        types.len() <= order.len(),
        forall|i: int|
            0 <= i < types.len() ==> #[trigger] stands_at(fields, order[i] as int, types[i]),
    ensures
        fields_in_memory_order(fields, order, k) == Ok::<Seq<LlvmShape>, LowerError>(
            types.take(k),
        ),
    decreases k,
{
    if k > 0 {
        lemma_fields_found(fields, order, types, k - 1);
        assert(stands_at(fields, order[k - 1] as int, types[k - 1]));
        assert(types.take(k) =~= types.take(k - 1).push(types[k - 1]));
    } else {
        assert(types.take(0) =~= Seq::empty());
    }
}

/// Any other argument, and a struct at a kernel entry, is passed as one value of its LLVM
/// equivalent, or not at all where it takes no bytes. At a kernel entry its generic
/// pointers are global ones.
pub proof fn law_other_arguments_are_passed_whole(
    f: MirFunctionType,
    t: MirType,
    is_kernel_entry: bool,
)
    requires
        f.inputs@ == seq![t],
        f.results@.len() == 0,
        !(t is Slice) && !(t is DisjointSlice),
        t is Struct ==> is_kernel_entry,
    ensures
        function_type(f, is_kernel_entry) is Ok <==> lowered(t) is Ok,
        lowered(t) is Ok ==> ({
            let inputs = function_type(f, is_kernel_entry)->Ok_0.inputs;
            if zero_sized(lowered(t)->Ok_0) {
                inputs.len() == 0
            } else {
                &&& inputs.len() == 1
                &&& !is_kernel_entry ==> inputs[0] == lowered(t)->Ok_0
                &&& is_kernel_entry ==> forall|path: Seq<int>|
                    #[trigger] leaf(inputs[0], path) == match leaf(lowered(t)->Ok_0, path) {
                        Some(LlvmShape::Pointer(space)) => if space == GENERIC {
                            Some(LlvmShape::Pointer(GLOBAL))
                        } else {
                            Some(LlvmShape::Pointer(space))
                        },
                        other => other,
                    }
            }
        }),
{
    lemma_one_argument(f, is_kernel_entry);
    if lowered(t) is Ok {
        let u = lowered(t)->Ok_0;
        law_specializing_keeps_layout(u);
        assert forall|path: Seq<int>| #[trigger]
            leaf(specialize(u), path) == match leaf(u, path) {
            Some(LlvmShape::Pointer(space)) => if space == GENERIC {
                Some(LlvmShape::Pointer(GLOBAL))
            } else {
                Some(LlvmShape::Pointer(space))
            },
            other => other,
        } by {
            law_generic_pointers_become_global(u, path);
        }
    }
}

/// The scalar that `path` leads to in a type: through the fields of structs and the
/// elements of arrays.
pub open spec fn leaf(t: LlvmShape, path: Seq<int>) -> Option<LlvmShape>
    decreases t,
{
    match t {
        LlvmShape::Struct(fields) => if path.len() > 0 && 0 <= path[0] < fields.len() {
            leaf(fields[path[0]], path.drop_first())
        } else {
            None
        },
        LlvmShape::Array(elem, n) => if path.len() > 0 && 0 <= path[0] < n {
            leaf(*elem, path.drop_first())
        } else {
            None
        },
        _ => if path.len() == 0 {
            Some(t)
        } else {
            None
        },
    }
}

/// Specializing a kernel parameter makes its generic pointers global, wherever they
/// stand, and keeps every other scalar where it is.
pub proof fn law_generic_pointers_become_global(t: LlvmShape, path: Seq<int>)
    ensures
        leaf(specialize(t), path) == match leaf(t, path) {
            Some(LlvmShape::Pointer(space)) => if space == GENERIC {
                Some(LlvmShape::Pointer(GLOBAL))
            } else {
                Some(LlvmShape::Pointer(space))
            },
            other => other,
        },
    decreases t,
{
    match t {
        LlvmShape::Struct(fields) => {
            let u = specialize(t);
            assert(u->Struct_0 == specialize_all(fields));
            if path.len() > 0 && 0 <= path[0] < fields.len() {
                law_generic_pointers_become_global(fields[path[0]], path.drop_first());
                assert(u->Struct_0[path[0]] == specialize(fields[path[0]]));
            }
        },
        LlvmShape::Array(elem, _) => {
            if path.len() > 0 {
                law_generic_pointers_become_global(*elem, path.drop_first());
            }
        },
        _ => {},
    }
}

/// A function is a kernel exactly where one of its attributes is the text `gpu_kernel`:
/// without attributes it is none, and each attribute can make it one.
pub proof fn law_one_attribute_marks_a_kernel(attrs: Seq<Attr>, a: Attr)
    ensures
        !marks_kernel(Seq::empty()),
        marks_kernel(attrs.push(a)) <==> marks_kernel(attrs) || (a.name@ == "gpu_kernel"@
            && a.value is Text),
{
    let more = attrs.push(a);
    if marks_kernel(attrs) {
        let i = choose|i: int|
            0 <= i < attrs.len() && (#[trigger] attrs[i]).name@ == "gpu_kernel"@
                && attrs[i].value is Text;
        assert(more[i] == attrs[i]);
    }
    if a.name@ == "gpu_kernel"@ && a.value is Text {
        assert(more[attrs.len() as int] == a);
    }
    if marks_kernel(more) {
        let i = choose|i: int|
            0 <= i < more.len() && (#[trigger] more[i]).name@ == "gpu_kernel"@
                && more[i].value is Text;
        if i < attrs.len() {
            assert(attrs[i] == more[i]);
        }
    }
}

// ---------------------------------------------------------------------------
// Enums that cannot be passed
// ---------------------------------------------------------------------------

/// The types that a value of type `t` holds or leads to, as they are listed.
pub open spec fn parts_of(t: MirType) -> Seq<MirType> {
    match t {
        MirType::Ptr(p) => seq![*p.pointee],
        MirType::Slice(elem) => seq![*elem],
        MirType::Array(elem, _) => seq![*elem],
        MirType::DisjointSlice(d) => seq![*d.element_ty] + d.space_tys@,
        MirType::Struct(s) => s.field_types@,
        MirType::Tuple(s) => s.types@,
        MirType::Union(u) => u.field_types@,
        MirType::Enum(e) => e.all_field_types@,
        _ => Seq::empty(),
    }
}

/// Whether a type is an enum whose physical layout is unknown.
pub open spec fn is_unknown_enum(t: MirType) -> bool {
    t is Enum && t->Enum_0.encoding.layout_kind == EnumLayoutKind::Unknown
}

/// An enum of unknown layout is named, wherever a type holds it or leads to it. Of several,
/// the one that comes first is named. No other enum is.
pub proof fn law_unknown_enums_are_found(t: MirType, i: int)
    ensures
        is_unknown_enum(t) ==> unmodeled_enum(t) == Some(t->Enum_0.name@),
        !is_unknown_enum(t) && 0 <= i < parts_of(t).len() && unmodeled_enum(parts_of(t)[i]) is Some
            && (forall|j: int| 0 <= j < i ==> unmodeled_enum(#[trigger] parts_of(t)[j]) is None)
            ==> unmodeled_enum(t) == unmodeled_enum(parts_of(t)[i]),
        !is_unknown_enum(t) && (forall|j: int|
            0 <= j < parts_of(t).len() ==> unmodeled_enum(#[trigger] parts_of(t)[j]) is None)
            ==> unmodeled_enum(t) is None,
{
    let parts = parts_of(t);
    match t {
        MirType::DisjointSlice(d) => {
            assert(parts[0] == *d.element_ty);
            assert forall|j: int| 0 <= j < d.space_tys@.len() implies #[trigger] d.space_tys@[j]
                == parts[j + 1] by {}
            if i > 0 {
                lemma_first_unmodeled(d.space_tys@, 0, i - 1);
            } else {
                lemma_first_unmodeled(d.space_tys@, 0, 0);
            }
        },
        MirType::Ptr(_) | MirType::Slice(_) | MirType::Array(_, _) => {
            assert(parts.len() == 1);
            assert(unmodeled_enum(t) == unmodeled_enum(parts[0]));
        },
        _ => {
            lemma_first_unmodeled(parts, 0, i);
        },
    }
}

proof fn lemma_first_unmodeled(fields: Seq<MirType>, from: int, i: int)
    requires
        0 <= from <= fields.len(),
    ensures
        from <= i < fields.len() && unmodeled_enum(fields[i]) is Some && (forall|j: int|
            from <= j < i ==> unmodeled_enum(#[trigger] fields[j]) is None) ==> first_unmodeled(
            fields,
            from,
        ) == unmodeled_enum(fields[i]),
        (forall|j: int|
            from <= j < fields.len() ==> unmodeled_enum(#[trigger] fields[j]) is None)
            ==> first_unmodeled(fields, from) is None,
    decreases fields.len() - from,
{
    if from < fields.len() {
        lemma_first_unmodeled(fields, from + 1, i);
        let head = fields[from];
        if unmodeled_enum(head) is Some {
            assert(first_unmodeled(fields, from) == unmodeled_enum(head));
        }
    }
}

} // verus!
