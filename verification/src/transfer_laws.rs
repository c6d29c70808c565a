//! Block transfers move the elements that they count.

use crate::enum_laws::{lemma_any_constant, lemma_binary};
use crate::ir::{
    extends, lemma_extends_transitive, lemma_extends_value, valid, value_type, with_binary,
    with_constant, with_transfer_call, BinOp, Body, Intrinsic, Value,
};
use crate::llvm::LlvmShape;
use crate::memory::{element_bytes, scaled_count, space_of, transfer_of, width_of};
use crate::mir::MirType;
use crate::operands::{newest, TypeKind};
use crate::quiet::{lemma_quiet_memory, quiet};
use crate::semantics::{
    lemma_constant_value, lemma_memory_stable, lemma_value_stable, memory_after, memory_before,
    operand_value, transferred, value_of, Env,
};
use crate::types::lowered;
use crate::values::Val;
use vstd::arithmetic::div_mod::*;
use vstd::arithmetic::power2::*;
use vstd::prelude::*;

verus! {

/// A scaled count is the count in bytes, where that fits the count's type.
proof fn lemma_scaled_count(b: Body, env: Env, count: Value, size: u64, width: u32, n: nat)
    requires
        b.insts.len() + 2 < usize::MAX,
        valid(b, count),
        value_type(b, count) == LlvmShape::Integer(width),
        value_of(b, env, count) == Val::Int(n),
        n * size < pow2(width as nat),
    ensures
        ({
            let (c, r) = scaled_count(b, count, size);
            &&& quiet(b, c)
            &&& c.insts.len() <= b.insts.len() + 2
            &&& valid(c, r)
            &&& value_of(c, env, r) == Val::Int((n * size) as nat)
        }),
{
    if size != 1 {
        lemma_any_constant(b, env, width, size as u128);
        if n > 0 {
            assert(size <= n * size) by (nonlinear_arith)
                requires
                    n > 0,
            ;
            lemma_constant_value(b, env, width, size as u128);
        }
        let (b1, factor) = with_constant(b, width, size as u128);
        assert(extends(b, b1));
        lemma_extends_value(b, b1, count);
        lemma_value_stable(b, b1, env, count);
        lemma_binary(b1, env, BinOp::Mul, count, factor, width);
        let f = value_of(b1, env, factor)->Int_0;
        if n == 0 {
            assert(n * f == 0 && n * size == 0) by (nonlinear_arith)
                requires
                    n == 0,
            ;
        }
        lemma_small_mod((n * size) as nat, pow2(width as nat));
        let c = with_binary(b1, BinOp::Mul, count, factor).0;
        lemma_extends_transitive(b, b1, c);
    }
}

/// A transfer of `n` elements moves `n` times as many bytes as one element takes
/// in memory, from its source to its destination, and changes nothing else.
///
/// The number of bytes fits the count's type.
pub proof fn law_transfers_move_their_elements(
    b: Body,
    env: Env,
    operands: Seq<Value>,
    history: Seq<MirType>,
    may_overlap: bool,
    width: u32,
    n: nat,
)
    requires
        b.insts.len() + 4 < usize::MAX,
        transfer_of(b, operands, history, may_overlap).1 is Ok,
        forall|i: int| 0 <= i < operands.len() ==> valid(b, #[trigger] operands[i]),
        value_type(b, operands[2]) == LlvmShape::Integer(width),
        value_of(b, env, operands[2]) == Val::Int(n),
        ({
            let pointee = *newest(history, TypeKind::Ptr)->Some_0->Ptr_0.pointee;
            let size = element_bytes(pointee, lowered(pointee)->Ok_0)->Ok_0;
            n * size < pow2(width as nat)
        }),
    ensures
        ({
            let pointee = *newest(history, TypeKind::Ptr)->Some_0->Ptr_0.pointee;
            let size = element_bytes(pointee, lowered(pointee)->Ok_0)->Ok_0;
            memory_after(transfer_of(b, operands, history, may_overlap).0, env) == transferred(
                memory_after(b, env),
                value_of(b, env, operands[0]),
                value_of(b, env, operands[1]),
                Val::Int((n * size) as nat),
                may_overlap,
            )
        }),
{
    let pointee = *newest(history, TypeKind::Ptr)->Some_0->Ptr_0.pointee;
    let size = element_bytes(pointee, lowered(pointee)->Ok_0)->Ok_0;
    let (dst, src, count) = (operands[0], operands[1], operands[2]);
    assert(valid(b, dst) && valid(b, src) && valid(b, count));
    lemma_scaled_count(b, env, count, size, width, n);
    let (b1, length) = scaled_count(b, count, size);
    lemma_any_constant(b1, env, 1, 0);
    let (b2, flag) = with_constant(b1, 1, 0);
    lemma_extends_transitive(b, b1, b2);
    lemma_quiet_memory(b, b2, env);
    let callee = Intrinsic::MemTransfer {
        may_overlap,
        dst_space: space_of(value_type(b, dst)),
        src_space: space_of(value_type(b, src)),
        length_bits: width_of(value_type(b, count)),
    };
    let c = with_transfer_call(b2, callee, dst, src, length, flag);
    assert(extends(b2, c));
    lemma_extends_value(b, b2, dst);
    lemma_extends_value(b, b2, src);
    lemma_extends_value(b1, b2, length);
    lemma_value_stable(b, b2, env, dst);
    lemma_value_stable(b, b2, env, src);
    lemma_value_stable(b1, b2, env, length);
    lemma_value_stable(b2, c, env, dst);
    lemma_value_stable(b2, c, env, src);
    lemma_value_stable(b2, c, env, length);
    lemma_memory_stable(b2, c, env, b2.insts.len() as usize);
    let k = b2.insts.len() as usize;
    assert(memory_before(c, env, (k + 1) as usize) == transferred(
        memory_before(c, env, k),
        operand_value(c, env, dst, Value::Inst(k)),
        operand_value(c, env, src, Value::Inst(k)),
        operand_value(c, env, length, Value::Inst(k)),
        may_overlap,
    ));
}

} // verus!
