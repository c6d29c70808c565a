//! Adapting a payload to its storage and back gives the payload.

use crate::collect::{all_ok, all_some, lemma_all_ok_values};
use crate::error::LowerError;
use crate::ir::{
    extends, lemma_extends_transitive, lemma_extends_value, valid, value_type, with_extract,
    with_undef, Body, CastOp, Op, Value,
};
use crate::llvm::LlvmShape;
use crate::payload_values::{
    coerced, coerced_elements, coerced_fields, lemma_coerced_elements_grow,
    lemma_coerced_fields_grow, lemma_coerced_grows,
};
use crate::semantics::{
    lemma_extract_value, lemma_insert_value, lemma_operand_of_new, lemma_value_stable, undefined,
    value_of, Env,
};
use crate::storage::{contains_bool, payload_storage, payload_storages, twin, twins};
use crate::values::{all_well_typed, well_typed, Val};
use vstd::arithmetic::div_mod::lemma_small_mod;
use vstd::arithmetic::power2::{lemma2_to64, pow2};
use vstd::prelude::*;

verus! {

/// What adapting `x` from type `from` to type `to` gives.
pub open spec fn adapted(x: Val, from: LlvmShape, to: LlvmShape) -> Val
    decreases from,
{
    if from == to {
        x
    } else {
        match (from, to, x) {
            (LlvmShape::Integer(_), LlvmShape::Integer(m), Val::Int(n)) => Val::Int(
                n % pow2(m as nat),
            ),
            (LlvmShape::Pointer(_), _, _) => x,
            (LlvmShape::Struct(fs), LlvmShape::Struct(gs), Val::Aggregate(s)) => Val::Aggregate(
                all_adapted(s, fs, gs),
            ),
            (LlvmShape::Array(e, _), LlvmShape::Array(f, _), Val::Aggregate(s)) => Val::Aggregate(
                Seq::new(s.len(), |i: int| adapted(s[i], *e, *f)),
            ),
            _ => Val::Undef,
        }
    }
}

/// What adapting each of `s` gives.
pub open spec fn all_adapted(s: Seq<Val>, from: Seq<LlvmShape>, to: Seq<LlvmShape>) -> Seq<Val>
    decreases from,
{
    Seq::new(
        s.len(),
        |i: int|
            if 0 <= i < from.len() {
                adapted(s[i], from[i], to[i])
            } else {
                Val::Undef
            },
    )
}

/// `s` with its first `k` values adapted and the others undefined.
spec fn partly_adapted(s: Seq<Val>, from: Seq<LlvmShape>, to: Seq<LlvmShape>, k: int) -> Seq<Val> {
    Seq::new(
        s.len(),
        |i: int|
            if i < k {
                adapted(s[i], from[i], to[i])
            } else {
                Val::Undef
            },
    )
}

/// `s` with its first `k` values adapted alike and the others undefined.
spec fn partly_adapted_alike(s: Seq<Val>, from: LlvmShape, to: LlvmShape, k: int) -> Seq<Val> {
    Seq::new(
        s.len(),
        |i: int|
            if i < k {
                adapted(s[i], from, to)
            } else {
                Val::Undef
            },
    )
}

/// The code for adapting a value adapts it.
pub proof fn lemma_coerced_value(b: Body, env: Env, v: Value, from: LlvmShape, to: LlvmShape)
    requires
        valid(b, v),
        value_type(b, v) == from,
        well_typed(value_of(b, env, v), from),
        coerced(b, v, from, to).1 is Ok,
        coerced(b, v, from, to).0.insts.len() < usize::MAX,
    ensures
        ({
            let (c, r) = coerced(b, v, from, to);
            &&& extends(b, c)
            &&& valid(c, r->Ok_0)
            &&& value_of(c, env, r->Ok_0) == adapted(value_of(b, env, v), from, to)
        }),
    decreases from, 0int,
{
    lemma_coerced_grows(b, v, from, to);
    lemma_extends_value(b, coerced(b, v, from, to).0, v);
    if from != to {
        match (from, to) {
            (LlvmShape::Integer(w), LlvmShape::Integer(x)) => {
                lemma2_to64();
                let kind = if w == 1 {
                    CastOp::ZExt
                } else {
                    CastOp::Trunc
                };
                lemma_operand_of_new(b, env, Op::Cast { kind, value: v }, to, v);
                if value_of(b, env, v) is Int {
                    let n = value_of(b, env, v)->Int_0;
                    if w == 1 {
                        lemma_small_mod(n, pow2(8));
                    }
                }
            },
            (LlvmShape::Pointer(_), LlvmShape::Pointer(_)) => {
                let op = Op::Cast { kind: CastOp::AddrSpaceCast, value: v };
                lemma_operand_of_new(b, env, op, to, v);
            },
            (LlvmShape::Struct(fs), LlvmShape::Struct(gs)) => {
                let n = fs.len() as int;
                let (c, start) = with_undef(b, to);
                assert(extends(b, c));
                lemma_coerced_fields_grow(c, v, start, fs, gs, n);
                lemma_value_stable(b, c, env, v);
                let s = value_of(b, env, v)->Aggregate_0;
                assert(all_well_typed(s, fs));
                assert(value_of(c, env, start) == undefined(to));
                assert(undefined(to)->Aggregate_0 =~= partly_adapted(s, fs, gs, 0));
                lemma_coerced_fields_value(c, env, v, start, fs, gs, n, s);
                assert(partly_adapted(s, fs, gs, n) =~= all_adapted(s, fs, gs));
            },
            (LlvmShape::Array(e, n), LlvmShape::Array(f, m)) => {
                let (c, start) = with_undef(b, to);
                assert(extends(b, c));
                lemma_coerced_elements_grow(c, v, start, *e, *f, n as int);
                lemma_value_stable(b, c, env, v);
                let s = value_of(b, env, v)->Aggregate_0;
                assert(value_of(c, env, start) == undefined(to));
                assert(undefined(to)->Aggregate_0 =~= partly_adapted_alike(s, *e, *f, 0));
                lemma_coerced_elements_value(c, env, v, start, *e, *f, n as int, s);
                assert(partly_adapted_alike(s, *e, *f, n as int) =~= adapted(
                    Val::Aggregate(s),
                    from,
                    to,
                )->Aggregate_0);
            },
            _ => {},
        }
    }
}

proof fn lemma_coerced_fields_value(
    b: Body,
    env: Env,
    v: Value,
    start: Value,
    from: Seq<LlvmShape>,
    to: Seq<LlvmShape>,
    k: int,
    s: Seq<Val>,
)
    requires
        0 <= k <= from.len() <= u32::MAX,
        from.len() == to.len(),
        valid(b, v),
        valid(b, start),
        value_type(b, v) == LlvmShape::Struct(from),
        value_of(b, env, v) == Val::Aggregate(s),
        all_well_typed(s, from),
        value_of(b, env, start) == Val::Aggregate(partly_adapted(s, from, to, 0)),
        coerced_fields(b, v, start, from, to, k).1 is Ok,
        coerced_fields(b, v, start, from, to, k).0.insts.len() < usize::MAX,
    ensures
        ({
            let (c, r) = coerced_fields(b, v, start, from, to, k);
            &&& extends(b, c)
            &&& valid(c, r->Ok_0)
            &&& value_of(c, env, r->Ok_0) == Val::Aggregate(partly_adapted(s, from, to, k))
        }),
    decreases from, k,
{
    lemma_coerced_fields_grow(b, v, start, from, to, k);
    if k > 0 {
        let (b1, before) = coerced_fields(b, v, start, from, to, k - 1);
        let current = before->Ok_0;
        let (b2, extracted) = with_extract(b1, v, (k - 1) as u32);
        let x = extracted->Ok_0;
        assert(extends(b1, b2));
        let (b3, converted) = coerced(b2, x, from[k - 1], to[k - 1]);
        lemma_coerced_grows(b2, x, from[k - 1], to[k - 1]);
        lemma_coerced_fields_value(b, env, v, start, from, to, k - 1, s);
        lemma_extends_value(b, b1, v);
        lemma_value_stable(b, b1, env, v);
        lemma_extract_value(b1, env, v, (k - 1) as u32, s);
        assert(well_typed(s[k - 1], from[k - 1]));
        lemma_coerced_value(b2, env, x, from[k - 1], to[k - 1]);
        lemma_extends_transitive(b1, b2, b3);
        lemma_extends_value(b1, b3, current);
        lemma_value_stable(b1, b3, env, current);
        let past = partly_adapted(s, from, to, k - 1);
        lemma_insert_value(b3, env, current, converted->Ok_0, (k - 1) as u32, past);
        assert(past.update(k - 1, adapted(s[k - 1], from[k - 1], to[k - 1])) =~= partly_adapted(
            s,
            from,
            to,
            k,
        ));
    }
}

proof fn lemma_coerced_elements_value(
    b: Body,
    env: Env,
    v: Value,
    start: Value,
    from: LlvmShape,
    to: LlvmShape,
    k: int,
    s: Seq<Val>,
)
    requires
        0 <= k <= s.len() <= u32::MAX,
        valid(b, v),
        valid(b, start),
        value_type(b, v) == LlvmShape::Array(Box::new(from), s.len() as u64),
        value_of(b, env, v) == Val::Aggregate(s),
        forall|i: int| 0 <= i < s.len() ==> well_typed(#[trigger] s[i], from),
        value_of(b, env, start) == Val::Aggregate(partly_adapted_alike(s, from, to, 0)),
        coerced_elements(b, v, start, from, to, k).1 is Ok,
        coerced_elements(b, v, start, from, to, k).0.insts.len() < usize::MAX,
    ensures
        ({
            let (c, r) = coerced_elements(b, v, start, from, to, k);
            &&& extends(b, c)
            &&& valid(c, r->Ok_0)
            &&& value_of(c, env, r->Ok_0) == Val::Aggregate(
                partly_adapted_alike(s, from, to, k),
            )
        }),
    decreases from, k,
{
    lemma_coerced_elements_grow(b, v, start, from, to, k);
    if k > 0 {
        let (b1, before) = coerced_elements(b, v, start, from, to, k - 1);
        let current = before->Ok_0;
        let (b2, extracted) = with_extract(b1, v, (k - 1) as u32);
        let x = extracted->Ok_0;
        assert(extends(b1, b2));
        let (b3, converted) = coerced(b2, x, from, to);
        lemma_coerced_grows(b2, x, from, to);
        lemma_coerced_elements_value(b, env, v, start, from, to, k - 1, s);
        lemma_extends_value(b, b1, v);
        lemma_value_stable(b, b1, env, v);
        lemma_extract_value(b1, env, v, (k - 1) as u32, s);
        assert(well_typed(s[k - 1], from));
        lemma_coerced_value(b2, env, x, from, to);
        lemma_extends_transitive(b1, b2, b3);
        lemma_extends_value(b1, b3, current);
        lemma_value_stable(b1, b3, env, current);
        let past = partly_adapted_alike(s, from, to, k - 1);
        lemma_insert_value(b3, env, current, converted->Ok_0, (k - 1) as u32, past);
        assert(past.update(k - 1, adapted(s[k - 1], from, to)) =~= partly_adapted_alike(
            s,
            from,
            to,
            k,
        ));
    }
}

// ---------------------------------------------------------------------------
// There and back
// ---------------------------------------------------------------------------

/// Whether `to` keeps values of type `from`: each `bool` as a byte, pointers in
/// any address space.
pub open spec fn stored_as(from: LlvmShape, to: LlvmShape) -> bool
    decreases from,
{
    from == to || match (from, to) {
        (LlvmShape::Integer(w), LlvmShape::Integer(x)) => w == 1 && x == 8,
        (LlvmShape::Pointer(_), LlvmShape::Pointer(_)) => true,
        (LlvmShape::Struct(fs), LlvmShape::Struct(gs)) => all_stored_as(fs, gs),
        (LlvmShape::Array(e, n), LlvmShape::Array(f, m)) => n == m && stored_as(*e, *f),
        _ => false,
    }
}

/// Whether each of `to` keeps values of the type at its position in `from`.
pub open spec fn all_stored_as(from: Seq<LlvmShape>, to: Seq<LlvmShape>) -> bool
    decreases from,
{
    &&& from.len() == to.len()
    &&& forall|i: int| 0 <= i < from.len() ==> stored_as(#[trigger] from[i], to[i])
}

pub proof fn lemma_twin_stores(t: LlvmShape)
    requires
        twin(t) is Some,
    ensures
        stored_as(t, twin(t)->Some_0),
    decreases t,
{
    if contains_bool(t) {
        match t {
            LlvmShape::Array(elem, _) => {
                lemma_twin_stores(*elem);
            },
            LlvmShape::Struct(fields) => {
                lemma_twins_store(fields);
            },
            _ => {},
        }
    }
}

proof fn lemma_twins_store(fields: Seq<LlvmShape>)
    requires
        all_some(twins(fields)) is Some,
    ensures
        all_stored_as(fields, all_some(twins(fields))->Some_0),
    decreases fields,
{
    assert forall|i: int| 0 <= i < fields.len() implies stored_as(
        #[trigger] fields[i],
        all_some(twins(fields))->Some_0[i],
    ) by {
        assert(twins(fields)[i] is Some);
        lemma_twin_stores(fields[i]);
    }
}

/// The storage of a payload keeps its values.
pub proof fn lemma_payload_storage_stores(t: LlvmShape)
    requires
        payload_storage(t) is Ok,
    ensures
        stored_as(t, payload_storage(t)->Ok_0),
    decreases t,
{
    match t {
        LlvmShape::Array(_, _) => {
            lemma_twin_stores(t);
        },
        LlvmShape::Struct(fields) => {
            lemma_payload_storages_store(fields);
        },
        _ => {},
    }
}

proof fn lemma_payload_storages_store(fields: Seq<LlvmShape>)
    requires
        all_ok(payload_storages(fields)) is Ok,
    ensures
        all_stored_as(fields, all_ok(payload_storages(fields))->Ok_0),
    decreases fields,
{
    let found = payload_storages(fields);
    lemma_all_ok_values(found, found.len() as int);
    assert forall|i: int| 0 <= i < fields.len() implies stored_as(
        #[trigger] fields[i],
        all_ok(found)->Ok_0[i],
    ) by {
        assert(found[i] is Ok);
        lemma_payload_storage_stores(fields[i]);
    }
}

/// Adapting a value to a type that keeps it, and back, gives the value.
pub proof fn lemma_adapted_back(x: Val, from: LlvmShape, to: LlvmShape)
    requires
        well_typed(x, from),
        stored_as(from, to),
    ensures
        well_typed(adapted(x, from, to), to),
        adapted(adapted(x, from, to), to, from) == x,
    decreases from,
{
    if from != to {
        match (from, to) {
            (LlvmShape::Integer(_), LlvmShape::Integer(_)) => {
                lemma2_to64();
                if x is Int {
                    lemma_small_mod(x->Int_0, pow2(8));
                    lemma_small_mod(x->Int_0, pow2(1));
                }
            },
            (LlvmShape::Struct(fs), LlvmShape::Struct(gs)) => {
                let s = x->Aggregate_0;
                lemma_all_adapted_back(s, fs, gs);
                assert(adapted(x, from, to) == Val::Aggregate(all_adapted(s, fs, gs)));
            },
            (LlvmShape::Array(e, _), LlvmShape::Array(f, _)) => {
                let s = x->Aggregate_0;
                let y = adapted(x, from, to)->Aggregate_0;
                assert forall|i: int| 0 <= i < y.len() implies well_typed(
                    #[trigger] y[i],
                    *f,
                ) && adapted(y[i], *f, *e) == s[i] by {
                    assert(well_typed(s[i], *e));
                    lemma_adapted_back(s[i], *e, *f);
                }
                assert(adapted(Val::Aggregate(y), to, from)->Aggregate_0 =~= s);
            },
            _ => {},
        }
    }
}

proof fn lemma_all_adapted_back(s: Seq<Val>, from: Seq<LlvmShape>, to: Seq<LlvmShape>)
    requires
        all_well_typed(s, from),
        all_stored_as(from, to),
    ensures
        all_well_typed(all_adapted(s, from, to), to),
        all_adapted(all_adapted(s, from, to), to, from) == s,
    decreases from,
{
    let y = all_adapted(s, from, to);
    assert forall|i: int| 0 <= i < to.len() implies well_typed(#[trigger] y[i], to[i]) && adapted(
        y[i],
        to[i],
        from[i],
    ) == s[i] by {
        assert(well_typed(s[i], from[i]));
        assert(stored_as(from[i], to[i]));
        lemma_adapted_back(s[i], from[i], to[i]);
    }
    assert(all_adapted(y, to, from) =~= s);
}

/// Whether values of type `from` can be adapted to type `to`.
pub open spec fn adaptable(from: LlvmShape, to: LlvmShape) -> bool
    decreases from,
{
    from == to || match (from, to) {
        (LlvmShape::Integer(w), LlvmShape::Integer(x)) => (w == 1 && x == 8) || (w == 8 && x == 1),
        (LlvmShape::Pointer(_), LlvmShape::Pointer(_)) => true,
        (LlvmShape::Struct(fs), LlvmShape::Struct(gs)) => all_adaptable(fs, gs),
        (LlvmShape::Array(e, n), LlvmShape::Array(f, m)) => {
            &&& n == m <= u32::MAX
            &&& n == 0 || adaptable(*e, *f)
        },
        _ => false,
    }
}

/// Whether values of each type of `from` can be adapted to the type at its
/// position in `to`.
pub open spec fn all_adaptable(from: Seq<LlvmShape>, to: Seq<LlvmShape>) -> bool
    decreases from,
{
    &&& from.len() == to.len() <= u32::MAX
    &&& forall|i: int| 0 <= i < from.len() ==> adaptable(#[trigger] from[i], to[i])
}

pub proof fn lemma_adaptable_back(from: LlvmShape, to: LlvmShape)
    requires
        adaptable(from, to),
    ensures
        adaptable(to, from),
    decreases from,
{
    if from != to {
        match (from, to) {
            (LlvmShape::Struct(fs), LlvmShape::Struct(gs)) => {
                lemma_all_adaptable_back(fs, gs);
            },
            (LlvmShape::Array(e, n), LlvmShape::Array(f, _)) => {
                if n > 0 {
                    lemma_adaptable_back(*e, *f);
                }
            },
            _ => {},
        }
    }
}

proof fn lemma_all_adaptable_back(from: Seq<LlvmShape>, to: Seq<LlvmShape>)
    requires
        all_adaptable(from, to),
    ensures
        all_adaptable(to, from),
    decreases from,
{
    assert forall|i: int| 0 <= i < to.len() implies adaptable(#[trigger] to[i], from[i]) by {
        assert(adaptable(from[i], to[i]));
        lemma_adaptable_back(from[i], to[i]);
    }
}

/// What was adapted can be adapted.
pub proof fn lemma_coerced_adaptable(b: Body, v: Value, from: LlvmShape, to: LlvmShape)
    requires
        coerced(b, v, from, to).1 is Ok,
    ensures
        adaptable(from, to),
    decreases from, 0int,
{
    if from != to {
        match (from, to) {
            (LlvmShape::Struct(fs), LlvmShape::Struct(gs)) => {
                let (c, start) = with_undef(b, to);
                lemma_coerced_fields_adaptable(c, v, start, fs, gs, fs.len() as int);
                assert(all_adaptable(fs, gs));
            },
            (LlvmShape::Array(e, n), LlvmShape::Array(f, m)) => {
                let (c, start) = with_undef(b, to);
                if n > 0 {
                    let (b1, before) = coerced_elements(c, v, start, *e, *f, n - 1);
                    let (b2, x) = with_extract(b1, v, (n - 1) as u32);
                    lemma_coerced_adaptable(b2, x->Ok_0, *e, *f);
                }
            },
            _ => {},
        }
    }
}

proof fn lemma_coerced_fields_adaptable(
    b: Body,
    v: Value,
    start: Value,
    from: Seq<LlvmShape>,
    to: Seq<LlvmShape>,
    k: int,
)
    requires
        0 <= k <= from.len(),
        coerced_fields(b, v, start, from, to, k).1 is Ok,
    ensures
        forall|i: int| 0 <= i < k ==> adaptable(#[trigger] from[i], to[i]),
    decreases from, k,
{
    if k > 0 {
        lemma_coerced_fields_adaptable(b, v, start, from, to, k - 1);
        let (b1, before) = coerced_fields(b, v, start, from, to, k - 1);
        let (b2, x) = with_extract(b1, v, (k - 1) as u32);
        lemma_coerced_adaptable(b2, x->Ok_0, from[k - 1], to[k - 1]);
    }
}

/// What can be adapted is.
pub proof fn lemma_adaptable_succeeds(c: Body, w: Value, from: LlvmShape, to: LlvmShape)
    requires
        adaptable(from, to),
        valid(c, w),
        value_type(c, w) == from,
        coerced(c, w, from, to).0.insts.len() < usize::MAX,
    ensures
        coerced(c, w, from, to).1 is Ok,
    decreases from, 0int,
{
    if from != to {
        match (from, to) {
            (LlvmShape::Struct(fs), LlvmShape::Struct(gs)) => {
                assert(all_adaptable(fs, gs));
                let (c1, back) = with_undef(c, to);
                assert(extends(c, c1));
                lemma_extends_value(c, c1, w);
                lemma_adaptable_fields(c1, w, back, fs, gs, fs.len() as int);
            },
            (LlvmShape::Array(e, n), LlvmShape::Array(f, m)) => {
                let (c1, back) = with_undef(c, to);
                assert(extends(c, c1));
                lemma_extends_value(c, c1, w);
                lemma_adaptable_elements(c1, w, back, *e, *f, n, n as int);
            },
            _ => {},
        }
    }
}

proof fn lemma_adaptable_fields(
    c: Body,
    w: Value,
    back: Value,
    from: Seq<LlvmShape>,
    to: Seq<LlvmShape>,
    k: int,
)
    requires
        0 <= k <= from.len(),
        all_adaptable(from, to),
        valid(c, w),
        value_type(c, w) == LlvmShape::Struct(from),
        coerced_fields(c, w, back, from, to, k).0.insts.len() < usize::MAX,
    ensures
        coerced_fields(c, w, back, from, to, k).1 is Ok,
    decreases from, k,
{
    if k > 0 {
        lemma_coerced_fields_grow(c, w, back, from, to, k - 1);
        let (c1, past) = coerced_fields(c, w, back, from, to, k - 1);
        let (c2, extracted) = with_extract(c1, w, (k - 1) as u32);
        lemma_extends_value(c, c1, w);
        assert(extends(c1, c2));
        if past is Err {
            lemma_adaptable_fields(c, w, back, from, to, k - 1);
        }
        lemma_coerced_grows(c2, extracted->Ok_0, from[k - 1], to[k - 1]);
        lemma_adaptable_fields(c, w, back, from, to, k - 1);
        assert(adaptable(from[k - 1], to[k - 1]));
        lemma_adaptable_succeeds(c2, extracted->Ok_0, from[k - 1], to[k - 1]);
    }
}

proof fn lemma_adaptable_elements(
    c: Body,
    w: Value,
    back: Value,
    from: LlvmShape,
    to: LlvmShape,
    n: u64,
    k: int,
)
    requires
        0 <= k <= n <= u32::MAX,
        n == 0 || adaptable(from, to),
        valid(c, w),
        value_type(c, w) == LlvmShape::Array(Box::new(from), n),
        coerced_elements(c, w, back, from, to, k).0.insts.len() < usize::MAX,
    ensures
        coerced_elements(c, w, back, from, to, k).1 is Ok,
    decreases from, k,
{
    if k > 0 {
        lemma_coerced_elements_grow(c, w, back, from, to, k - 1);
        let (c1, past) = coerced_elements(c, w, back, from, to, k - 1);
        let (c2, extracted) = with_extract(c1, w, (k - 1) as u32);
        lemma_extends_value(c, c1, w);
        assert(extends(c1, c2));
        if past is Err {
            lemma_adaptable_elements(c, w, back, from, to, n, k - 1);
        }
        lemma_coerced_grows(c2, extracted->Ok_0, from, to);
        lemma_adaptable_elements(c, w, back, from, to, n, k - 1);
        lemma_adaptable_succeeds(c2, extracted->Ok_0, from, to);
    }
}

/// What was adapted one way can be adapted back.
pub proof fn lemma_back_succeeds(
    b: Body,
    v: Value,
    c: Body,
    w: Value,
    from: LlvmShape,
    to: LlvmShape,
)
    requires
        coerced(b, v, from, to).1 is Ok,
        valid(c, w),
        value_type(c, w) == to,
        coerced(c, w, to, from).0.insts.len() < usize::MAX,
    ensures
        coerced(c, w, to, from).1 is Ok,
{
    lemma_coerced_adaptable(b, v, from, to);
    lemma_adaptable_back(from, to);
    lemma_adaptable_succeeds(c, w, to, from);
}

/// Adapting a payload value to its storage and back gives the value: a `bool`
/// survives as a byte, a shared-memory pointer as a generic one.
pub proof fn law_adapted_payloads_come_back(b: Body, env: Env, v: Value, storage: LlvmShape)
    requires
        valid(b, v),
        payload_storage(value_type(b, v)) == Ok::<LlvmShape, LowerError>(storage),
        well_typed(value_of(b, env, v), value_type(b, v)),
        coerced(b, v, value_type(b, v), storage).1 is Ok,
        ({
            let (c, w) = coerced(b, v, value_type(b, v), storage);
            coerced(c, w->Ok_0, storage, value_type(b, v)).0.insts.len() < usize::MAX
        }),
    ensures
        ({
            let (c, w) = coerced(b, v, value_type(b, v), storage);
            let (d, r) = coerced(c, w->Ok_0, storage, value_type(b, v));
            &&& r is Ok
            &&& value_of(d, env, r->Ok_0) == value_of(b, env, v)
        }),
{
    let from = value_type(b, v);
    let x = value_of(b, env, v);
    let (c, w) = coerced(b, v, from, storage);
    lemma_coerced_grows(c, w->Ok_0, storage, from);
    lemma_coerced_value(b, env, v, from, storage);
    lemma_coerced_type(b, v, from, storage);
    lemma_payload_storage_stores(from);
    lemma_adapted_back(x, from, storage);
    lemma_back_succeeds(b, v, c, w->Ok_0, from, storage);
    lemma_coerced_value(c, env, w->Ok_0, storage, from);
}

/// What an adapted value's type is.
pub proof fn lemma_coerced_type(b: Body, v: Value, from: LlvmShape, to: LlvmShape)
    requires
        valid(b, v),
        value_type(b, v) == from,
        coerced(b, v, from, to).1 is Ok,
        coerced(b, v, from, to).0.insts.len() < usize::MAX,
    ensures
        value_type(coerced(b, v, from, to).0, coerced(b, v, from, to).1->Ok_0) == to,
{
    if from != to {
        match (from, to) {
            (LlvmShape::Struct(fs), LlvmShape::Struct(gs)) => {
                let (c, start) = with_undef(b, to);
                lemma_coerced_fields_grow(c, v, start, fs, gs, fs.len() as int);
                lemma_coerced_fields_type(c, v, start, fs, gs, fs.len() as int);
            },
            (LlvmShape::Array(e, n), LlvmShape::Array(f, m)) => {
                let (c, start) = with_undef(b, to);
                lemma_coerced_elements_grow(c, v, start, *e, *f, n as int);
                lemma_coerced_elements_type(c, v, start, *e, *f, n as int);
            },
            _ => {},
        }
    }
}

proof fn lemma_coerced_fields_type(
    b: Body,
    v: Value,
    start: Value,
    from: Seq<LlvmShape>,
    to: Seq<LlvmShape>,
    k: int,
)
    requires
        0 <= k <= from.len(),
        valid(b, start),
        coerced_fields(b, v, start, from, to, k).1 is Ok,
        coerced_fields(b, v, start, from, to, k).0.insts.len() < usize::MAX,
    ensures
        ({
            let (c, r) = coerced_fields(b, v, start, from, to, k);
            &&& valid(c, r->Ok_0)
            &&& value_type(c, r->Ok_0) == value_type(b, start)
        }),
    decreases k,
{
    if k > 0 {
        let (b1, before) = coerced_fields(b, v, start, from, to, k - 1);
        let (b2, x) = with_extract(b1, v, (k - 1) as u32);
        assert(extends(b1, b2));
        let (b3, y) = coerced(b2, x->Ok_0, from[k - 1], to[k - 1]);
        lemma_coerced_grows(b2, x->Ok_0, from[k - 1], to[k - 1]);
        lemma_extends_transitive(b1, b2, b3);
        lemma_coerced_fields_type(b, v, start, from, to, k - 1);
        lemma_extends_value(b1, b3, before->Ok_0);
    }
}

proof fn lemma_coerced_elements_type(
    b: Body,
    v: Value,
    start: Value,
    from: LlvmShape,
    to: LlvmShape,
    k: int,
)
    requires
        0 <= k,
        valid(b, start),
        coerced_elements(b, v, start, from, to, k).1 is Ok,
        coerced_elements(b, v, start, from, to, k).0.insts.len() < usize::MAX,
    ensures
        ({
            let (c, r) = coerced_elements(b, v, start, from, to, k);
            &&& valid(c, r->Ok_0)
            &&& value_type(c, r->Ok_0) == value_type(b, start)
        }),
    decreases k,
{
    if k > 0 {
        let (b1, before) = coerced_elements(b, v, start, from, to, k - 1);
        let (b2, x) = with_extract(b1, v, (k - 1) as u32);
        assert(extends(b1, b2));
        let (b3, y) = coerced(b2, x->Ok_0, from, to);
        lemma_coerced_grows(b2, x->Ok_0, from, to);
        lemma_extends_transitive(b1, b2, b3);
        lemma_coerced_elements_type(b, v, start, from, to, k - 1);
        lemma_extends_value(b1, b3, before->Ok_0);
    }
}

} // verus!
