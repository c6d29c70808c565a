//! Operands and the Rust-level types that their values had before.

use crate::ir::Value;
use crate::mir::MirType;
use vstd::prelude::*;

verus! {

/// A kind of Rust-level type.
#[derive(Clone, Copy, Debug, PartialEq, Eq, Structural)]
pub enum TypeKind {
    Scalar,
    Ptr,
    Slice,
    DisjointSlice,
    Array,
    Vector,
    Tuple,
    Struct,
    Union,
    Enum,
    Opaque,
}

/// The kind of a Rust-level type.
pub open spec fn kind_of(t: MirType) -> TypeKind {
    match t {
        MirType::Integer(_, _) => TypeKind::Scalar,
        MirType::Fp16 => TypeKind::Scalar,
        MirType::Fp32 => TypeKind::Scalar,
        MirType::Fp64 => TypeKind::Scalar,
        MirType::Ptr(_) => TypeKind::Ptr,
        MirType::Slice(_) => TypeKind::Slice,
        MirType::DisjointSlice(_) => TypeKind::DisjointSlice,
        MirType::Array(_, _) => TypeKind::Array,
        MirType::Vector(_, _, _) => TypeKind::Vector,
        MirType::Tuple(_) => TypeKind::Tuple,
        MirType::Struct(_) => TypeKind::Struct,
        MirType::Union(_) => TypeKind::Union,
        MirType::Enum(_) => TypeKind::Enum,
        MirType::Enclosing(_) => TypeKind::Opaque,
        MirType::Opaque => TypeKind::Opaque,
    }
}

fn type_kind(t: &MirType) -> (r: TypeKind)
    ensures
        r == kind_of(*t),
{
    match t {
        MirType::Integer(_, _) => TypeKind::Scalar,
        MirType::Fp16 => TypeKind::Scalar,
        MirType::Fp32 => TypeKind::Scalar,
        MirType::Fp64 => TypeKind::Scalar,
        MirType::Ptr(_) => TypeKind::Ptr,
        MirType::Slice(_) => TypeKind::Slice,
        MirType::DisjointSlice(_) => TypeKind::DisjointSlice,
        MirType::Array(_, _) => TypeKind::Array,
        MirType::Vector(_, _, _) => TypeKind::Vector,
        MirType::Tuple(_) => TypeKind::Tuple,
        MirType::Struct(_) => TypeKind::Struct,
        MirType::Union(_) => TypeKind::Union,
        MirType::Enum(_) => TypeKind::Enum,
        MirType::Enclosing(_) => TypeKind::Opaque,
        MirType::Opaque => TypeKind::Opaque,
    }
}

/// An operand of an operation that is being lowered.
pub struct Operand<'a> {
    pub value: Value,
    /// The types that the value had before its current one, newest last.
    pub history: &'a Vec<MirType>,
}

/// The newest of the first `k` types of `history` that is of the given kind.
pub open spec fn recent(history: Seq<MirType>, kind: TypeKind, k: int) -> Option<MirType>
    decreases k,
{
    if k <= 0 {
        None
    } else if kind_of(history[k - 1]) == kind {
        Some(history[k - 1])
    } else {
        recent(history, kind, k - 1)
    }
}

/// The newest type of the given kind that a value had before.
pub open spec fn newest(history: Seq<MirType>, kind: TypeKind) -> Option<MirType> {
    recent(history, kind, history.len() as int)
}

/// The newest type of the given kind in a history.
pub fn most_recent_of_kind<'a>(history: &'a Vec<MirType>, kind: TypeKind) -> (r: Option<
    &'a MirType,
>)
    ensures
        match r {
            None => newest(history@, kind) is None,
            Some(t) => newest(history@, kind) == Some(*t) && kind_of(*t) == kind,
        },
{
    let mut k: usize = history.len();
    while k > 0
        invariant
            k <= history@.len(),
            newest(history@, kind) == recent(history@, kind, k as int),
        decreases k,
    {
        k = k - 1;
        if type_kind(&history[k]) == kind {
            return Some(&history[k]);
        }
    }
    None
}

proof fn lemma_recent(history: Seq<MirType>, kind: TypeKind, at: int, k: int)
    requires
        -1 <= at < k <= history.len(),
        at >= 0 ==> kind_of(history[at]) == kind,
        forall|j: int| at < j < k ==> kind_of(#[trigger] history[j]) != kind,
    ensures
        recent(history, kind, k) == if at >= 0 {
            Some(history[at])
        } else {
            None
        },
    decreases k,
{
    if k - 1 > at {
        assert(kind_of(history[k - 1]) != kind);
        lemma_recent(history, kind, at, k - 1);
    }
}

/// The newest type of a kind is the last one in the history that is of it: types of other
/// kinds behind it do not count.
pub proof fn law_newest_is_the_last_of_its_kind(
    history: Seq<MirType>,
    t: MirType,
    later: Seq<MirType>,
)
    requires
        forall|j: int| 0 <= j < later.len() ==> kind_of(#[trigger] later[j]) != kind_of(t),
    ensures
        newest(history.push(t) + later, kind_of(t)) == Some(t),
        newest(later, kind_of(t)) is None,
{
    let all = history.push(t) + later;
    let at = history.len() as int;
    assert(all[at] == t);
    assert forall|j: int| at < j < all.len() implies kind_of(#[trigger] all[j]) != kind_of(t) by {
        assert(all[j] == later[j - at - 1]);
    }
    lemma_recent(all, kind_of(t), at, all.len() as int);
    lemma_none_recent(later, kind_of(t), later.len() as int);
}

proof fn lemma_none_recent(history: Seq<MirType>, kind: TypeKind, k: int)
    requires
        k <= history.len(),
        forall|j: int| 0 <= j < history.len() ==> kind_of(#[trigger] history[j]) != kind,
    ensures
        recent(history, kind, k) is None,
    decreases k,
{
    if k > 0 {
        assert(kind_of(history[k - 1]) != kind);
        lemma_none_recent(history, kind, k - 1);
    }
}

/// Kinds tell types by their outermost form: numbers are scalars, and each other form is
/// a kind of its own.
pub proof fn law_kinds_tell_forms(t: MirType)
    ensures
        kind_of(t) == TypeKind::Scalar <==> t is Integer || t is Fp16 || t is Fp32 || t is Fp64,
        kind_of(t) == TypeKind::Ptr <==> t is Ptr,
        kind_of(t) == TypeKind::Slice <==> t is Slice,
        kind_of(t) == TypeKind::DisjointSlice <==> t is DisjointSlice,
        kind_of(t) == TypeKind::Array <==> t is Array,
        kind_of(t) == TypeKind::Vector <==> t is Vector,
        kind_of(t) == TypeKind::Tuple <==> t is Tuple,
        kind_of(t) == TypeKind::Struct <==> t is Struct,
        kind_of(t) == TypeKind::Union <==> t is Union,
        kind_of(t) == TypeKind::Enum <==> t is Enum,
{
}

} // verus!
