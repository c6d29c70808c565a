//! Making the `bool` bytes of a value canonical adapts it to its byte-faithful
//! twin.

use crate::collect::all_some;
use crate::ir::{
    extends, lemma_extends_transitive, lemma_extends_value, valid, value_type, with_extract,
    with_insert, with_undef, Body, CastOp, Op, Value,
};
use crate::llvm::LlvmShape;
use crate::payload_laws::{adaptable, adapted, all_adaptable, all_adapted, all_stored_as, stored_as};
use crate::payload_values::{canonical, canonical_elements, canonical_fields};
use crate::semantics::{
    lemma_extract_value, lemma_insert_value, lemma_operand_of_new, lemma_value_stable, undefined,
    value_of, Env,
};
use crate::storage::{contains_bool, twin, twins};
use crate::values::{all_well_typed, well_typed, Val};
use vstd::arithmetic::div_mod::lemma_small_mod;
use vstd::arithmetic::power2::{lemma2_to64, pow2};
use vstd::prelude::*;

verus! {

pub proof fn lemma_canonical_grows(b: Body, v: Value, ty: LlvmShape)
    ensures
        extends(b, canonical(b, v, ty).0),
    decreases ty, 0int,
{
    if contains_bool(ty) {
        match ty {
            LlvmShape::Struct(fields) => {
                if twin(ty) is Some && fields.len() <= u32::MAX {
                    let (c, start) = with_undef(b, twin(ty)->Some_0);
                    lemma_canonical_fields_grow(c, v, start, fields, fields.len() as int);
                    lemma_extends_transitive(b, c, canonical(b, v, ty).0);
                }
            },
            LlvmShape::Array(elem, n) => {
                if twin(ty) is Some && n <= u32::MAX {
                    let (c, start) = with_undef(b, twin(ty)->Some_0);
                    lemma_canonical_elements_grow(c, v, start, *elem, n as int);
                    lemma_extends_transitive(b, c, canonical(b, v, ty).0);
                }
            },
            _ => {},
        }
    }
}

proof fn lemma_canonical_fields_grow(
    b: Body,
    v: Value,
    start: Value,
    fields: Seq<LlvmShape>,
    k: int,
)
    ensures
        extends(b, canonical_fields(b, v, start, fields, k).0),
    decreases fields, k,
{
    if 0 < k <= fields.len() {
        lemma_canonical_fields_grow(b, v, start, fields, k - 1);
        let (b1, before) = canonical_fields(b, v, start, fields, k - 1);
        if before is Ok {
            let (b2, extracted) = with_extract(b1, v, (k - 1) as u32);
            lemma_extends_transitive(b, b1, b2);
            if extracted is Ok {
                lemma_canonical_grows(b2, extracted->Ok_0, fields[k - 1]);
                let (b3, converted) = canonical(b2, extracted->Ok_0, fields[k - 1]);
                lemma_extends_transitive(b, b2, b3);
                if converted is Ok {
                    let (b4, z) = with_insert(
                        b3,
                        before->Ok_0,
                        converted->Ok_0,
                        (k - 1) as u32,
                    );
                    assert(extends(b3, b4));
                    lemma_extends_transitive(b, b3, b4);
                }
            }
        }
    }
}

proof fn lemma_canonical_elements_grow(
    b: Body,
    v: Value,
    start: Value,
    elem: LlvmShape,
    k: int,
)
    ensures
        extends(b, canonical_elements(b, v, start, elem, k).0),
    decreases elem, k,
{
    if k > 0 {
        lemma_canonical_elements_grow(b, v, start, elem, k - 1);
        let (b1, before) = canonical_elements(b, v, start, elem, k - 1);
        if before is Ok {
            let (b2, extracted) = with_extract(b1, v, (k - 1) as u32);
            lemma_extends_transitive(b, b1, b2);
            if extracted is Ok {
                lemma_canonical_grows(b2, extracted->Ok_0, elem);
                let (b3, converted) = canonical(b2, extracted->Ok_0, elem);
                lemma_extends_transitive(b, b2, b3);
                if converted is Ok {
                    let (b4, z) = with_insert(
                        b3,
                        before->Ok_0,
                        converted->Ok_0,
                        (k - 1) as u32,
                    );
                    assert(extends(b3, b4));
                    lemma_extends_transitive(b, b3, b4);
                }
            }
        }
    }
}

/// `s` with its first `k` values made canonical and the others undefined.
spec fn partly_canonical(s: Seq<Val>, fields: Seq<LlvmShape>, to: Seq<LlvmShape>, k: int) -> Seq<
    Val,
> {
    Seq::new(
        s.len(),
        |i: int|
            if i < k {
                adapted(s[i], fields[i], to[i])
            } else {
                Val::Undef
            },
    )
}

/// `s` with its first `k` values made canonical alike and the others undefined.
spec fn partly_canonical_alike(s: Seq<Val>, elem: LlvmShape, to: LlvmShape, k: int) -> Seq<Val> {
    Seq::new(
        s.len(),
        |i: int|
            if i < k {
                adapted(s[i], elem, to)
            } else {
                Val::Undef
            },
    )
}

/// The code for making a value canonical adapts it to its type's twin.
pub proof fn lemma_canonical_value(b: Body, env: Env, v: Value, ty: LlvmShape)
    requires
        valid(b, v),
        value_type(b, v) == ty,
        well_typed(value_of(b, env, v), ty),
        canonical(b, v, ty).1 is Ok,
        canonical(b, v, ty).0.insts.len() < usize::MAX,
    ensures
        ({
            let (c, r) = canonical(b, v, ty);
            &&& extends(b, c)
            &&& valid(c, r->Ok_0)
            &&& twin(ty) is Some
            &&& adaptable(ty, twin(ty)->Some_0)
            &&& value_type(c, r->Ok_0) == twin(ty)->Some_0
            &&& value_of(c, env, r->Ok_0) == adapted(value_of(b, env, v), ty, twin(ty)->Some_0)
        }),
    decreases ty, 0int,
{
    lemma_canonical_grows(b, v, ty);
    lemma_extends_value(b, canonical(b, v, ty).0, v);
    if contains_bool(ty) {
        let to = twin(ty)->Some_0;
        match ty {
            LlvmShape::Integer(_) => {
                lemma2_to64();
                let kind = CastOp::ZExt;
                lemma_operand_of_new(b, env, Op::Cast { kind, value: v }, to, v);
                if value_of(b, env, v) is Int {
                    lemma_small_mod(value_of(b, env, v)->Int_0, pow2(8));
                }
            },
            LlvmShape::Struct(fields) => {
                let n = fields.len() as int;
                let gs = to->Struct_0;
                let (c, start) = with_undef(b, to);
                assert(extends(b, c));
                lemma_canonical_fields_grow(c, v, start, fields, n);
                lemma_value_stable(b, c, env, v);
                let s = value_of(b, env, v)->Aggregate_0;
                assert(all_well_typed(s, fields));
                assert(all_some(twins(fields)) == Some(gs));
                assert(twins(fields).len() == fields.len());
                assert(value_of(c, env, start) == undefined(to));
                assert(undefined(to)->Aggregate_0 =~= partly_canonical(s, fields, gs, 0));
                lemma_canonical_fields_value(c, env, v, start, fields, gs, n, s);
                assert(all_adaptable(fields, gs));
                assert(partly_canonical(s, fields, gs, n) =~= all_adapted(s, fields, gs));
                if ty == to {
                    assert(all_adapted(s, fields, gs) =~= s);
                }
            },
            LlvmShape::Array(elem, n) => {
                let g = *to->Array_0;
                let (c, start) = with_undef(b, to);
                assert(extends(b, c));
                lemma_canonical_elements_grow(c, v, start, *elem, n as int);
                lemma_value_stable(b, c, env, v);
                let s = value_of(b, env, v)->Aggregate_0;
                assert(value_of(c, env, start) == undefined(to));
                assert(undefined(to)->Aggregate_0 =~= partly_canonical_alike(s, *elem, g, 0));
                lemma_canonical_elements_value(c, env, v, start, *elem, g, n as int, s);
                let all = partly_canonical_alike(s, *elem, g, n as int);
                if ty == to {
                    assert(all =~= s);
                } else {
                    assert(all =~= adapted(Val::Aggregate(s), ty, to)->Aggregate_0);
                }
            },
            _ => {},
        }
    }
}

proof fn lemma_canonical_fields_value(
    b: Body,
    env: Env,
    v: Value,
    start: Value,
    fields: Seq<LlvmShape>,
    to: Seq<LlvmShape>,
    k: int,
    s: Seq<Val>,
)
    requires
        0 <= k <= fields.len() <= u32::MAX,
        all_some(twins(fields)) == Some(to),
        valid(b, v),
        valid(b, start),
        value_type(b, v) == LlvmShape::Struct(fields),
        value_of(b, env, v) == Val::Aggregate(s),
        all_well_typed(s, fields),
        value_of(b, env, start) == Val::Aggregate(partly_canonical(s, fields, to, 0)),
        canonical_fields(b, v, start, fields, k).1 is Ok,
        canonical_fields(b, v, start, fields, k).0.insts.len() < usize::MAX,
    ensures
        ({
            let (c, r) = canonical_fields(b, v, start, fields, k);
            &&& extends(b, c)
            &&& valid(c, r->Ok_0)
            &&& value_type(c, r->Ok_0) == value_type(b, start)
            &&& value_of(c, env, r->Ok_0) == Val::Aggregate(partly_canonical(s, fields, to, k))
        }),
        forall|i: int| 0 <= i < k ==> adaptable(#[trigger] fields[i], to[i]),
    decreases fields, k,
{
    lemma_canonical_fields_grow(b, v, start, fields, k);
    if k > 0 {
        let (b1, before) = canonical_fields(b, v, start, fields, k - 1);
        let current = before->Ok_0;
        let (b2, extracted) = with_extract(b1, v, (k - 1) as u32);
        let x = extracted->Ok_0;
        assert(extends(b1, b2));
        let (b3, converted) = canonical(b2, x, fields[k - 1]);
        lemma_canonical_grows(b2, x, fields[k - 1]);
        lemma_canonical_fields_value(b, env, v, start, fields, to, k - 1, s);
        lemma_extends_value(b, b1, v);
        lemma_value_stable(b, b1, env, v);
        lemma_extract_value(b1, env, v, (k - 1) as u32, s);
        assert(well_typed(s[k - 1], fields[k - 1]));
        lemma_canonical_value(b2, env, x, fields[k - 1]);
        assert(twins(fields)[k - 1] == twin(fields[k - 1]));
        lemma_extends_transitive(b1, b2, b3);
        lemma_extends_value(b1, b3, current);
        lemma_value_stable(b1, b3, env, current);
        let past = partly_canonical(s, fields, to, k - 1);
        lemma_insert_value(b3, env, current, converted->Ok_0, (k - 1) as u32, past);
        assert(past.update(k - 1, adapted(s[k - 1], fields[k - 1], to[k - 1]))
            =~= partly_canonical(s, fields, to, k));
    }
}

proof fn lemma_canonical_elements_value(
    b: Body,
    env: Env,
    v: Value,
    start: Value,
    elem: LlvmShape,
    to: LlvmShape,
    k: int,
    s: Seq<Val>,
)
    requires
        0 <= k <= s.len() <= u32::MAX,
        twin(elem) == Some(to),
        valid(b, v),
        valid(b, start),
        value_type(b, v) == LlvmShape::Array(Box::new(elem), s.len() as u64),
        value_of(b, env, v) == Val::Aggregate(s),
        forall|i: int| 0 <= i < s.len() ==> well_typed(#[trigger] s[i], elem),
        value_of(b, env, start) == Val::Aggregate(partly_canonical_alike(s, elem, to, 0)),
        canonical_elements(b, v, start, elem, k).1 is Ok,
        canonical_elements(b, v, start, elem, k).0.insts.len() < usize::MAX,
    ensures
        ({
            let (c, r) = canonical_elements(b, v, start, elem, k);
            &&& extends(b, c)
            &&& valid(c, r->Ok_0)
            &&& value_type(c, r->Ok_0) == value_type(b, start)
            &&& value_of(c, env, r->Ok_0) == Val::Aggregate(
                partly_canonical_alike(s, elem, to, k),
            )
        }),
        k > 0 ==> adaptable(elem, to),
    decreases elem, k,
{
    lemma_canonical_elements_grow(b, v, start, elem, k);
    if k > 0 {
        let (b1, before) = canonical_elements(b, v, start, elem, k - 1);
        let current = before->Ok_0;
        let (b2, extracted) = with_extract(b1, v, (k - 1) as u32);
        let x = extracted->Ok_0;
        assert(extends(b1, b2));
        let (b3, converted) = canonical(b2, x, elem);
        lemma_canonical_grows(b2, x, elem);
        lemma_canonical_elements_value(b, env, v, start, elem, to, k - 1, s);
        lemma_extends_value(b, b1, v);
        lemma_value_stable(b, b1, env, v);
        lemma_extract_value(b1, env, v, (k - 1) as u32, s);
        assert(well_typed(s[k - 1], elem));
        lemma_canonical_value(b2, env, x, elem);
        lemma_extends_transitive(b1, b2, b3);
        lemma_extends_value(b1, b3, current);
        lemma_value_stable(b1, b3, env, current);
        let past = partly_canonical_alike(s, elem, to, k - 1);
        lemma_insert_value(b3, env, current, converted->Ok_0, (k - 1) as u32, past);
        assert(past.update(k - 1, adapted(s[k - 1], elem, to)) =~= partly_canonical_alike(
            s,
            elem,
            to,
            k,
        ));
    }
}

// ---------------------------------------------------------------------------
// Two adaptations in turn
// ---------------------------------------------------------------------------

/// Adapting twice to types that keep the value is adapting once, and what was
/// adapted twice can be adapted back at once.
pub proof fn lemma_adapted_twice(x: Val, from: LlvmShape, by: LlvmShape, to: LlvmShape)
    requires
        well_typed(x, from),
        stored_as(from, by),
        stored_as(by, to),
        stored_as(from, to),
        adaptable(from, by),
        adaptable(by, to),
    ensures
        adapted(adapted(x, from, by), by, to) == adapted(x, from, to),
        adaptable(from, to),
    decreases from,
{
    if from != by && by != to {
        match (from, by, to) {
            (LlvmShape::Integer(_), _, _) => {},
            (LlvmShape::Struct(fs), LlvmShape::Struct(gs), LlvmShape::Struct(hs)) => {
                let s = x->Aggregate_0;
                assert(all_well_typed(s, fs));
                lemma_all_adapted_twice(s, fs, gs, hs);
                assert(adapted(x, from, by) == Val::Aggregate(all_adapted(s, fs, gs)));
                assert(adapted(x, from, to) == Val::Aggregate(all_adapted(s, fs, hs))) by {
                    if from == to {
                        assert(all_adapted(s, fs, hs) =~= s);
                    }
                }
            },
            (LlvmShape::Array(e, n), LlvmShape::Array(f, _), LlvmShape::Array(g, _)) => {
                let s = x->Aggregate_0;
                let y = adapted(x, from, by)->Aggregate_0;
                let once = adapted(x, from, to)->Aggregate_0;
                let twice = adapted(adapted(x, from, by), by, to)->Aggregate_0;
                assert forall|i: int| 0 <= i < s.len() implies #[trigger] twice[i] == once[i] by {
                    assert(well_typed(s[i], *e));
                    lemma_adapted_twice(s[i], *e, *f, *g);
                    assert(y[i] == adapted(s[i], *e, *f));
                }
                assert(twice =~= once);
                if n > 0 {
                    assert(well_typed(s[0], *e));
                    lemma_adapted_twice(s[0], *e, *f, *g);
                }
            },
            _ => {},
        }
    }
}

proof fn lemma_all_adapted_twice(
    s: Seq<Val>,
    from: Seq<LlvmShape>,
    by: Seq<LlvmShape>,
    to: Seq<LlvmShape>,
)
    requires
        all_well_typed(s, from),
        all_stored_as(from, by),
        all_stored_as(by, to),
        all_stored_as(from, to) || from == to,
        all_adaptable(from, by),
        all_adaptable(by, to),
    ensures
        all_adapted(all_adapted(s, from, by), by, to) == all_adapted(s, from, to),
        all_adaptable(from, to),
    decreases from,
{
    let y = all_adapted(s, from, by);
    assert forall|i: int| 0 <= i < from.len() implies adaptable(#[trigger] from[i], to[i])
        && adapted(y[i], by[i], to[i]) == adapted(s[i], from[i], to[i]) by {
        assert(well_typed(s[i], from[i]));
        assert(stored_as(from[i], by[i]));
        assert(stored_as(by[i], to[i]));
        assert(stored_as(from[i], to[i]));
        assert(adaptable(from[i], by[i]));
        assert(adaptable(by[i], to[i]));
        lemma_adapted_twice(s[i], from[i], by[i], to[i]);
    }
    assert(all_adapted(y, by, to) =~= all_adapted(s, from, to));
}

} // verus!
