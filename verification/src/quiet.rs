//! Code that leaves memory alone.

use crate::ir::{
    extends, lemma_extends_transitive, with_extract, with_insert, with_undef, Body, Op, Value,
};
use crate::llvm::LlvmShape;
use crate::payload_values::{
    canonical, canonical_elements, canonical_fields, coerced, coerced_elements, coerced_fields,
};
use crate::semantics::{lemma_memory_stable, memory_after, memory_before, Env};
use crate::storage::{contains_bool, twin};
use vstd::prelude::*;

verus! {

/// Whether `op` leaves memory alone.
pub open spec fn is_quiet(op: Op) -> bool {
    !(op is Store) && !(op is CallTransfer)
}

/// Whether `c` is `b` with code behind it that leaves memory alone.
pub open spec fn quiet(b: Body, c: Body) -> bool {
    &&& extends(b, c)
    &&& forall|i: int|
        b.insts.len() <= i < c.insts.len() ==> is_quiet((#[trigger] c.insts[i]).op)
}

pub proof fn lemma_quiet_transitive(a: Body, b: Body, c: Body)
    requires
        quiet(a, b),
        quiet(b, c),
    ensures
        quiet(a, c),
{
    lemma_extends_transitive(a, b, c);
    assert forall|i: int| a.insts.len() <= i < c.insts.len() implies is_quiet(
        (#[trigger] c.insts[i]).op,
    ) by {
        if i < b.insts.len() {
            assert(c.insts[i] == b.insts[i]);
        }
    }
}

/// Code that leaves memory alone does.
pub proof fn lemma_quiet_memory(b: Body, c: Body, env: Env)
    requires
        quiet(b, c),
        c.insts.len() <= usize::MAX,
    ensures
        memory_after(c, env) == memory_after(b, env),
{
    lemma_memory_stable(b, c, env, b.insts.len() as usize);
    lemma_quiet_steps(b, c, env, c.insts.len() as usize);
}

proof fn lemma_quiet_steps(b: Body, c: Body, env: Env, k: usize)
    requires
        quiet(b, c),
        b.insts.len() <= k <= c.insts.len(),
        c.insts.len() <= usize::MAX,
    ensures
        memory_before(c, env, k) == memory_before(c, env, b.insts.len() as usize),
    decreases k,
{
    if k > b.insts.len() {
        lemma_quiet_steps(b, c, env, (k - 1) as usize);
        assert(is_quiet(c.insts[k - 1].op));
    }
}

/// Adapting a value leaves memory alone.
pub proof fn lemma_coerced_quiet(b: Body, v: Value, from: LlvmShape, to: LlvmShape)
    ensures
        quiet(b, coerced(b, v, from, to).0),
    decreases from, 0int,
{
    if from != to {
        match (from, to) {
            (LlvmShape::Struct(fs), LlvmShape::Struct(gs)) => {
                if fs.len() == gs.len() && fs.len() <= u32::MAX {
                    let (c, start) = with_undef(b, to);
                    assert(quiet(b, c));
                    lemma_coerced_fields_quiet(c, v, start, fs, gs, fs.len() as int);
                    lemma_quiet_transitive(b, c, coerced(b, v, from, to).0);
                }
            },
            (LlvmShape::Array(e, n), LlvmShape::Array(f, m)) => {
                if n == m && n <= u32::MAX {
                    let (c, start) = with_undef(b, to);
                    assert(quiet(b, c));
                    lemma_coerced_elements_quiet(c, v, start, *e, *f, n as int);
                    lemma_quiet_transitive(b, c, coerced(b, v, from, to).0);
                }
            },
            _ => {},
        }
    }
}

proof fn lemma_coerced_fields_quiet(
    b: Body,
    v: Value,
    start: Value,
    from: Seq<LlvmShape>,
    to: Seq<LlvmShape>,
    k: int,
)
    ensures
        quiet(b, coerced_fields(b, v, start, from, to, k).0),
    decreases from, k,
{
    if 0 < k <= from.len() {
        lemma_coerced_fields_quiet(b, v, start, from, to, k - 1);
        let (b1, before) = coerced_fields(b, v, start, from, to, k - 1);
        if before is Ok {
            let (b2, extracted) = with_extract(b1, v, (k - 1) as u32);
            assert(quiet(b1, b2));
            lemma_quiet_transitive(b, b1, b2);
            if extracted is Ok {
                lemma_coerced_quiet(b2, extracted->Ok_0, from[k - 1], to[k - 1]);
                let (b3, converted) = coerced(b2, extracted->Ok_0, from[k - 1], to[k - 1]);
                lemma_quiet_transitive(b, b2, b3);
                if converted is Ok {
                    let (b4, z) = with_insert(
                        b3,
                        before->Ok_0,
                        converted->Ok_0,
                        (k - 1) as u32,
                    );
                    assert(quiet(b3, b4));
                    lemma_quiet_transitive(b, b3, b4);
                }
            }
        }
    }
}

proof fn lemma_coerced_elements_quiet(
    b: Body,
    v: Value,
    start: Value,
    from: LlvmShape,
    to: LlvmShape,
    k: int,
)
    ensures
        quiet(b, coerced_elements(b, v, start, from, to, k).0),
    decreases from, k,
{
    if k > 0 {
        lemma_coerced_elements_quiet(b, v, start, from, to, k - 1);
        let (b1, before) = coerced_elements(b, v, start, from, to, k - 1);
        if before is Ok {
            let (b2, extracted) = with_extract(b1, v, (k - 1) as u32);
            assert(quiet(b1, b2));
            lemma_quiet_transitive(b, b1, b2);
            if extracted is Ok {
                lemma_coerced_quiet(b2, extracted->Ok_0, from, to);
                let (b3, converted) = coerced(b2, extracted->Ok_0, from, to);
                lemma_quiet_transitive(b, b2, b3);
                if converted is Ok {
                    let (b4, z) = with_insert(
                        b3,
                        before->Ok_0,
                        converted->Ok_0,
                        (k - 1) as u32,
                    );
                    assert(quiet(b3, b4));
                    lemma_quiet_transitive(b, b3, b4);
                }
            }
        }
    }
}

/// Making a value canonical leaves memory alone.
pub proof fn lemma_canonical_quiet(b: Body, v: Value, ty: LlvmShape)
    ensures
        quiet(b, canonical(b, v, ty).0),
    decreases ty, 0int,
{
    if contains_bool(ty) {
        match ty {
            LlvmShape::Struct(fields) => {
                if twin(ty) is Some && fields.len() <= u32::MAX {
                    let (c, start) = with_undef(b, twin(ty)->Some_0);
                    assert(quiet(b, c));
                    lemma_canonical_fields_quiet(c, v, start, fields, fields.len() as int);
                    lemma_quiet_transitive(b, c, canonical(b, v, ty).0);
                }
            },
            LlvmShape::Array(elem, n) => {
                if twin(ty) is Some && n <= u32::MAX {
                    let (c, start) = with_undef(b, twin(ty)->Some_0);
                    assert(quiet(b, c));
                    lemma_canonical_elements_quiet(c, v, start, *elem, n as int);
                    lemma_quiet_transitive(b, c, canonical(b, v, ty).0);
                }
            },
            _ => {},
        }
    }
}

proof fn lemma_canonical_fields_quiet(
    b: Body,
    v: Value,
    start: Value,
    fields: Seq<LlvmShape>,
    k: int,
)
    ensures
        quiet(b, canonical_fields(b, v, start, fields, k).0),
    decreases fields, k,
{
    if 0 < k <= fields.len() {
        lemma_canonical_fields_quiet(b, v, start, fields, k - 1);
        let (b1, before) = canonical_fields(b, v, start, fields, k - 1);
        if before is Ok {
            let (b2, extracted) = with_extract(b1, v, (k - 1) as u32);
            assert(quiet(b1, b2));
            lemma_quiet_transitive(b, b1, b2);
            if extracted is Ok {
                lemma_canonical_quiet(b2, extracted->Ok_0, fields[k - 1]);
                let (b3, converted) = canonical(b2, extracted->Ok_0, fields[k - 1]);
                lemma_quiet_transitive(b, b2, b3);
                if converted is Ok {
                    let (b4, z) = with_insert(
                        b3,
                        before->Ok_0,
                        converted->Ok_0,
                        (k - 1) as u32,
                    );
                    assert(quiet(b3, b4));
                    lemma_quiet_transitive(b, b3, b4);
                }
            }
        }
    }
}

proof fn lemma_canonical_elements_quiet(
    b: Body,
    v: Value,
    start: Value,
    elem: LlvmShape,
    k: int,
)
    ensures
        quiet(b, canonical_elements(b, v, start, elem, k).0),
    decreases elem, k,
{
    if k > 0 {
        lemma_canonical_elements_quiet(b, v, start, elem, k - 1);
        let (b1, before) = canonical_elements(b, v, start, elem, k - 1);
        if before is Ok {
            let (b2, extracted) = with_extract(b1, v, (k - 1) as u32);
            assert(quiet(b1, b2));
            lemma_quiet_transitive(b, b1, b2);
            if extracted is Ok {
                lemma_canonical_quiet(b2, extracted->Ok_0, elem);
                let (b3, converted) = canonical(b2, extracted->Ok_0, elem);
                lemma_quiet_transitive(b, b2, b3);
                if converted is Ok {
                    let (b4, z) = with_insert(
                        b3,
                        before->Ok_0,
                        converted->Ok_0,
                        (k - 1) as u32,
                    );
                    assert(quiet(b3, b4));
                    lemma_quiet_transitive(b, b3, b4);
                }
            }
        }
    }
}

} // verus!
