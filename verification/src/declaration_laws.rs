//! Every intrinsic function that is called is declared, once and under a name of
//! its own.

use crate::abi::FuncShape;
use crate::cast::{float_bits, float_to_int};
use crate::ir::{
    is_declared, value_type, with_declared, with_transfer_call, with_unary_call, Body,
    DeclarationShape, Intrinsic, Op, Value,
};
use crate::llvm::LlvmShape;
use crate::mir::{MirType, Signedness};
use crate::names::{decimal, intrinsic_symbol, law_decimals_differ, lemma_decimal_digits};
use vstd::prelude::*;

verus! {

/// The intrinsic that an operation calls, if it calls one.
pub open spec fn callee_of(op: Op) -> Option<Intrinsic> {
    match op {
        Op::CallUnary { callee, arg } => Some(callee),
        Op::CallTransfer { callee, dst, src, length, volatile_flag } => Some(callee),
        _ => None,
    }
}

/// Whether every intrinsic that is called is declared, and none twice.
pub open spec fn declares_its_calls(b: Body) -> bool {
    &&& forall|i: int|
        0 <= i < b.insts.len() && callee_of((#[trigger] b.insts[i]).op) is Some ==> is_declared(
            b.declared,
            callee_of(b.insts[i].op)->Some_0,
        )
    &&& forall|i: int, j: int|
        0 <= i < j < b.declared.len() ==> (#[trigger] b.declared[i]).intrinsic != (
        #[trigger] b.declared[j]).intrinsic
}

/// Declaring an intrinsic keeps what is declared.
proof fn lemma_declared(b: Body, intrinsic: Intrinsic, signature: FuncShape)
    requires
        declares_its_calls(b),
    ensures
        declares_its_calls(with_declared(b, intrinsic, signature)),
        is_declared(with_declared(b, intrinsic, signature).declared, intrinsic),
        with_declared(b, intrinsic, signature).insts == b.insts,
{
    let c = with_declared(b, intrinsic, signature);
    if !is_declared(b.declared, intrinsic) {
        assert(c.declared[b.declared.len() as int].intrinsic == intrinsic);
        assert forall|i: int|
            0 <= i < c.insts.len() && callee_of((#[trigger] c.insts[i]).op) is Some implies
            is_declared(c.declared, callee_of(c.insts[i].op)->Some_0) by {
            let callee = callee_of(b.insts[i].op)->Some_0;
            let k = choose|k: int|
                0 <= k < b.declared.len() && #[trigger] b.declared[k].intrinsic == callee;
            assert(c.declared[k].intrinsic == callee);
        }
        assert forall|i: int, j: int| 0 <= i < j < c.declared.len() implies (
        #[trigger] c.declared[i]).intrinsic != (#[trigger] c.declared[j]).intrinsic by {
            assert(c.declared[i] == b.declared[i]);
            if j < b.declared.len() {
                assert(c.declared[j] == b.declared[j]);
            }
        }
    }
}

/// A call of an intrinsic leaves every call declared, once.
pub proof fn law_calls_are_declared_once(b: Body, callee: Intrinsic, arg: Value, ty: LlvmShape)
    requires
        declares_its_calls(b),
    ensures
        declares_its_calls(with_unary_call(b, callee, arg, ty).0),
        is_declared(with_unary_call(b, callee, arg, ty).0.declared, callee),
        !is_declared(b.declared, callee) ==> with_unary_call(b, callee, arg, ty).0.declared
            == b.declared.push(
            DeclarationShape {
                intrinsic: callee,
                signature: FuncShape { result: ty, inputs: seq![value_type(b, arg)] },
            },
        ),
{
    let signature = FuncShape { result: ty, inputs: seq![value_type(b, arg)] };
    lemma_declared(b, callee, signature);
}

/// A block transfer leaves every call declared, once.
pub proof fn law_transfers_are_declared_once(
    b: Body,
    callee: Intrinsic,
    dst: Value,
    src: Value,
    length: Value,
    volatile_flag: Value,
)
    requires
        declares_its_calls(b),
    ensures
        declares_its_calls(with_transfer_call(b, callee, dst, src, length, volatile_flag)),
        is_declared(
            with_transfer_call(b, callee, dst, src, length, volatile_flag).declared,
            callee,
        ),
{
    let signature = FuncShape {
        result: LlvmShape::Void,
        inputs: seq![
            value_type(b, dst),
            value_type(b, src),
            value_type(b, length),
            value_type(b, volatile_flag),
        ],
    };
    lemma_declared(b, callee, signature);
}

/// A float-to-integer cast is one call of the saturating intrinsic for its types
/// and sign, and that function is declared.
pub proof fn law_float_to_int_is_a_declared_call(
    b: Body,
    v: Value,
    sign: Signedness,
    width: u32,
)
    requires
        declares_its_calls(b),
        float_bits(value_type(b, v)) is Some,
    ensures
        ({
            let from = value_type(b, v);
            let to = LlvmShape::Integer(width);
            let (c, r) = float_to_int(b, v, MirType::Integer(width, sign), to);
            let callee = Intrinsic::FloatToIntSat {
                signed: sign == Signedness::Signed,
                int_width: width,
                float_width: float_bits(from)->Some_0,
            };
            &&& r is Ok
            &&& c.insts.len() == b.insts.len() + 1
            &&& c.insts[b.insts.len() as int].op == (Op::CallUnary { callee, arg: v })
            &&& declares_its_calls(c)
            &&& is_declared(c.declared, callee)
            &&& !is_declared(b.declared, callee) ==> c.declared == b.declared.push(
                DeclarationShape {
                    intrinsic: callee,
                    signature: FuncShape { result: to, inputs: seq![from] },
                },
            )
        }),
{
    let callee = Intrinsic::FloatToIntSat {
        signed: sign == Signedness::Signed,
        int_width: width,
        float_width: float_bits(value_type(b, v))->Some_0,
    };
    law_calls_are_declared_once(b, callee, v, LlvmShape::Integer(width));
}

/// Digits in front of an underscore are read off a text.
proof fn lemma_digits_end(a: Seq<char>, s: Seq<char>, b: Seq<char>, t: Seq<char>)
    requires
        forall|i: int| 0 <= i < a.len() ==> #[trigger] a[i] != '_',
        forall|i: int| 0 <= i < b.len() ==> #[trigger] b[i] != '_',
        s.len() > 0,
        t.len() > 0,
        s[0] == '_',
        t[0] == '_',
        a + s == b + t,
    ensures
        a == b,
        s == t,
{
    let x = a + s;
    if a.len() < b.len() {
        assert(x[a.len() as int] == '_');
        assert((b + t)[a.len() as int] == b[a.len() as int]);
    }
    if b.len() < a.len() {
        assert((b + t)[b.len() as int] == '_');
        assert(x[b.len() as int] == a[b.len() as int]);
    }
    assert(a =~= x.take(a.len() as int));
    assert(b =~= (b + t).take(b.len() as int));
    assert(s =~= x.skip(a.len() as int));
    assert(t =~= (b + t).skip(b.len() as int));
}

/// What stands behind a common start is read off a text.
proof fn lemma_same_start(p: Seq<char>, s: Seq<char>, t: Seq<char>)
    requires
        p + s == p + t,
    ensures
        s == t,
{
    assert(s =~= (p + s).skip(p.len() as int));
    assert(t =~= (p + t).skip(p.len() as int));
}

proof fn lemma_starts_differ(p: Seq<char>, s: Seq<char>, q: Seq<char>, t: Seq<char>, at: int)
    requires
        0 <= at < p.len(),
        at < q.len(),
        p[at] != q[at],
    ensures
        p + s != q + t,
{
    assert((p + s)[at] == p[at]);
    assert((q + t)[at] == q[at]);
}

/// The start of an intrinsic's symbol, and the rest.
spec fn symbol_parts(i: Intrinsic) -> (Seq<char>, Seq<char>) {
    match i {
        Intrinsic::Assume => ("llvm_assume"@, Seq::empty()),
        Intrinsic::FloatToIntSat { signed, int_width, float_width } => (
            if signed {
                "llvm_fptosi_sat_i"@
            } else {
                "llvm_fptoui_sat_i"@
            },
            decimal(int_width as nat) + ("_f"@ + decimal(float_width as nat)),
        ),
        Intrinsic::MemTransfer { may_overlap, dst_space, src_space, length_bits } => (
            if may_overlap {
                "llvm_memmove_p"@
            } else {
                "llvm_memcpy_p"@
            },
            decimal(dst_space as nat) + ("_p"@ + (decimal(src_space as nat) + ("_i"@ + decimal(
                length_bits as nat,
            )))),
        ),
    }
}

proof fn lemma_symbol_parts(i: Intrinsic)
    ensures
        intrinsic_symbol(i) == symbol_parts(i).0 + symbol_parts(i).1,
{
    let (p, s) = symbol_parts(i);
    assert(intrinsic_symbol(i) =~= p + s);
}

/// Different intrinsics have different symbols.
pub proof fn law_intrinsic_symbols_differ(i: Intrinsic, j: Intrinsic)
    requires
        intrinsic_symbol(i) == intrinsic_symbol(j),
    ensures
        i == j,
{
    reveal_strlit("llvm_assume");
    reveal_strlit("llvm_fptosi_sat_i");
    reveal_strlit("llvm_fptoui_sat_i");
    reveal_strlit("llvm_memmove_p");
    reveal_strlit("llvm_memcpy_p");
    reveal_strlit("_f");
    reveal_strlit("_p");
    reveal_strlit("_i");
    lemma_symbol_parts(i);
    lemma_symbol_parts(j);
    let (p, s) = symbol_parts(i);
    let (q, t) = symbol_parts(j);
    if p == q {
        lemma_same_start(p, s, t);
        match (i, j) {
            (
                Intrinsic::FloatToIntSat { signed, int_width, float_width },
                Intrinsic::FloatToIntSat { signed: g, int_width: m, float_width: n },
            ) => {
                lemma_decimal_digits(int_width as nat);
                lemma_decimal_digits(m as nat);
                let x = "_f"@ + decimal(float_width as nat);
                let y = "_f"@ + decimal(n as nat);
                lemma_digits_end(decimal(int_width as nat), x, decimal(m as nat), y);
                lemma_same_start("_f"@, decimal(float_width as nat), decimal(n as nat));
                law_decimals_differ(int_width as nat, m as nat);
                law_decimals_differ(float_width as nat, n as nat);
                assert("llvm_fptosi_sat_i"@[9] != "llvm_fptoui_sat_i"@[9]);
            },
            (
                Intrinsic::MemTransfer { may_overlap, dst_space, src_space, length_bits },
                Intrinsic::MemTransfer {
                    may_overlap: o,
                    dst_space: d,
                    src_space: e,
                    length_bits: l,
                },
            ) => {
                lemma_decimal_digits(dst_space as nat);
                lemma_decimal_digits(d as nat);
                lemma_decimal_digits(src_space as nat);
                lemma_decimal_digits(e as nat);
                let u = "_i"@ + decimal(length_bits as nat);
                let w = "_i"@ + decimal(l as nat);
                let x = decimal(src_space as nat) + u;
                let y = decimal(e as nat) + w;
                lemma_digits_end(
                    decimal(dst_space as nat),
                    "_p"@ + x,
                    decimal(d as nat),
                    "_p"@ + y,
                );
                lemma_same_start("_p"@, x, y);
                lemma_digits_end(decimal(src_space as nat), u, decimal(e as nat), w);
                lemma_same_start("_i"@, decimal(length_bits as nat), decimal(l as nat));
                law_decimals_differ(dst_space as nat, d as nat);
                law_decimals_differ(src_space as nat, e as nat);
                law_decimals_differ(length_bits as nat, l as nat);
                assert("llvm_memmove_p"@[8] != "llvm_memcpy_p"@[8]);
            },
            (Intrinsic::Assume, Intrinsic::Assume) => {},
            (Intrinsic::Assume, _) => {
                assert(p[5] != q[5]);
            },
            (_, Intrinsic::Assume) => {
                assert(p[5] != q[5]);
            },
            _ => {
                assert(p[5] != q[5]);
            },
        }
    } else {
        let at = if i is Assume || j is Assume || (i is MemTransfer) != (j is MemTransfer) {
            5
        } else if i is MemTransfer {
            8
        } else {
            9
        };
        lemma_starts_differ(p, s, q, t, at);
    }
}

} // verus!
