//! Payloads rebuilt from an enum's storage are what was stored.

use crate::enum_bytes::{
    any_pointer_field, bytes_of_integer, copied_field, copied_fields, field_with_bytes, has_offsets,
    integer_from_bytes, joined_bytes, placed_byte, rebuilt_payload,
};
use crate::ir::{
    extends, lemma_extends_transitive, lemma_extends_value, valid, value_type, with_binary,
    with_cast, with_constant, with_extract, with_insert, with_undef, BinOp, Body, CastOp, Op, Value,
};
use crate::layout::{fits, natural_offset, size_align};
use crate::llvm::LlvmShape;
use crate::semantics::{
    lemma_bit_or_adds, lemma_constant_value, lemma_extract_value, lemma_insert_value,
    lemma_operand_of_new, lemma_value_stable, undefined, value_of, Env,
};
use crate::values::{
    all_known, all_well_typed, byte_size, decoded, decoded_fields, encoded, field_bytes,
    lemma_decoded_encoded, lemma_encoded_field, lemma_encoded_len, lemma_field_place,
    lemma_little_endian, lemma_number_of, number_of, undef_bytes, well_typed, Byte, Val,
};
use vstd::arithmetic::div_mod::lemma_small_mod;
use vstd::arithmetic::power2::{
    lemma2_to64, lemma_pow2_adds, lemma_pow2_pos, lemma_pow2_strictly_increases, pow2,
};
use vstd::prelude::*;

verus! {

// ---------------------------------------------------------------------------
// Growth
// ---------------------------------------------------------------------------

/// Rebuilding a payload only adds code.
pub proof fn lemma_rebuilt_grows(
    b: Body,
    v: Value,
    storage: LlvmShape,
    payload: LlvmShape,
    base: u64,
    allow_integer_only: bool,
)
    ensures
        extends(b, rebuilt_payload(b, v, storage, payload, base, allow_integer_only).0),
{
    match (storage, payload) {
        (LlvmShape::Struct(sf), LlvmShape::Struct(pf)) => {
            if has_offsets(sf) && has_offsets(pf) && (allow_integer_only || any_pointer_field(
                pf,
            )) {
                let (b1, start) = with_undef(b, payload);
                assert(extends(b, b1));
                lemma_copied_fields_grow(b1, v, sf, pf, base, start, pf.len() as int);
                lemma_extends_transitive(
                    b,
                    b1,
                    copied_fields(b1, v, sf, pf, base, start, pf.len() as int).0,
                );
            }
        },
        _ => {},
    }
}

pub proof fn lemma_copied_fields_grow(
    b: Body,
    v: Value,
    storage: Seq<LlvmShape>,
    fields: Seq<LlvmShape>,
    base: u64,
    start: Value,
    k: int,
)
    ensures
        extends(b, copied_fields(b, v, storage, fields, base, start, k).0),
    decreases k,
{
    if k > 0 {
        lemma_copied_fields_grow(b, v, storage, fields, base, start, k - 1);
        let (b1, before) = copied_fields(b, v, storage, fields, base, start, k - 1);
        if before is Some {
            lemma_copied_field_grows(b1, v, storage, fields, base, before->Some_0, k - 1);
            let c = copied_field(b1, v, storage, fields, base, before->Some_0, k - 1).0;
            lemma_extends_transitive(b, b1, c);
        }
    }
}

pub proof fn lemma_copied_field_grows(
    b: Body,
    v: Value,
    storage: Seq<LlvmShape>,
    fields: Seq<LlvmShape>,
    base: u64,
    payload: Value,
    k: int,
)
    ensures
        extends(b, copied_field(b, v, storage, fields, base, payload, k).0),
{
    if let Some(offset) = fits(base + natural_offset(fields, k)) {
        let found = field_with_bytes(storage, offset, size_align(fields[k])->Some_0.0, 0);
        if let Some(at) = found {
            let (b1, field) = if storage[at] == fields[k] {
                match with_extract(b, v, at as u32) {
                    (c, Ok(x)) => (c, Some(x)),
                    (c, Err(_)) => (c, None),
                }
            } else {
                integer_from_bytes(b, v, at as u32, storage[at], fields[k])
            };
            lemma_integer_from_bytes_grows(b, v, at as u32, storage[at], fields[k]);
            assert(extends(b, b1));
            if let Some(x) = field {
                let (b2, r) = with_insert(b1, payload, x, k as u32);
                assert(extends(b1, b2));
                lemma_extends_transitive(b, b1, b2);
            }
        }
    }
}

proof fn lemma_integer_from_bytes_grows(
    b: Body,
    aggregate: Value,
    slot: u32,
    storage: LlvmShape,
    integer: LlvmShape,
)
    ensures
        extends(b, integer_from_bytes(b, aggregate, slot, storage, integer).0),
{
    if let Some(n) = bytes_of_integer(storage, integer) {
        let (b1, extracted) = with_extract(b, aggregate, slot);
        assert(extends(b, b1));
        if let Ok(bytes) = extracted {
            let width = integer->Integer_0;
            lemma_joined_grows(b1, bytes, width, n as int);
            lemma_extends_transitive(b, b1, joined_bytes(b1, bytes, width, n as int).0);
        }
    }
}

proof fn lemma_joined_grows(b: Body, bytes: Value, width: u32, k: int)
    ensures
        extends(b, joined_bytes(b, bytes, width, k).0),
    decreases k,
{
    if k > 0 {
        lemma_joined_grows(b, bytes, width, k - 1);
        let (b1, before) = joined_bytes(b, bytes, width, k - 1);
        if let Ok(joined) = before {
            let (b2, placed) = placed_byte(b1, bytes, width, (k - 1) as u32);
            assert(extends(b1, b2));
            lemma_extends_transitive(b, b1, b2);
            if let Ok(x) = placed {
                if let Some(previous) = joined {
                    let (b3, both) = with_binary(b2, BinOp::Or, previous, x);
                    assert(extends(b2, b3));
                    lemma_extends_transitive(b, b2, b3);
                }
            }
        }
    }
}

// ---------------------------------------------------------------------------
// Joining bytes
// ---------------------------------------------------------------------------

/// The values of known bytes.
pub open spec fn octets(bytes: Seq<Byte>) -> Seq<Val> {
    Seq::new(bytes.len(), |i: int| Val::Int(bytes[i]->Known_0))
}

/// One more byte adds its number, shifted to its place.
pub proof fn lemma_number_of_more(bytes: Seq<Byte>, k: int)
    requires
        all_known(bytes),
        0 <= k < bytes.len(),
    ensures
        number_of(bytes.take(k)) < pow2((8 * k) as nat),
        number_of(bytes.take(k + 1)) == number_of(bytes.take(k)) + bytes[k]->Known_0 * pow2(
            (8 * k) as nat,
        ),
    decreases k,
{
    lemma2_to64();
    let front = bytes.take(k);
    let more = bytes.take(k + 1);
    assert(all_known(front));
    lemma_number_of(front);
    if k == 0 {
        assert(more.skip(1) =~= Seq::empty());
        assert(number_of(more.skip(1)) == 0);
        assert(front =~= Seq::empty());
    } else {
        let rest = bytes.skip(1);
        assert forall|i: int| 0 <= i < rest.len() implies (#[trigger] rest[i]) is Known
            && rest[i]->Known_0 < 256 by {
            assert(rest[i] == bytes[i + 1]);
        }
        lemma_number_of_more(rest, k - 1);
        assert(front.skip(1) =~= rest.take(k - 1));
        assert(more.skip(1) =~= rest.take(k));
        lemma_pow2_adds(8, (8 * (k - 1)) as nat);
        let low = bytes[0]->Known_0;
        let d = bytes[k]->Known_0;
        let p = pow2((8 * (k - 1)) as nat);
        assert(256 * (number_of(rest.take(k - 1)) + d * p) == 256 * number_of(rest.take(k - 1)) + d
            * (256 * p)) by (nonlinear_arith);
    }
}

/// The code for one byte puts it at its place.
proof fn lemma_placed_byte(
    b: Body,
    env: Env,
    v: Value,
    width: u32,
    n: u64,
    index: u32,
    bytes: Seq<Byte>,
)
    requires
        b.insts.len() + 4 < usize::MAX,
        valid(b, v),
        value_type(b, v) == LlvmShape::Array(Box::new(LlvmShape::Integer(8)), n),
        value_of(b, env, v) == Val::Aggregate(octets(bytes)),
        all_known(bytes),
        bytes.len() == n,
        n * 8 == width,
        index < n,
    ensures
        ({
            let (c, r) = placed_byte(b, v, width, index);
            &&& r is Ok
            &&& extends(b, c)
            &&& valid(c, r->Ok_0)
            &&& value_type(c, r->Ok_0) == LlvmShape::Integer(width)
            &&& value_of(c, env, r->Ok_0) == Val::Int(
                bytes[index as int]->Known_0 * pow2((8 * index) as nat),
            )
        }),
{
    lemma2_to64();
    let ty = LlvmShape::Integer(width);
    let d = bytes[index as int]->Known_0;
    lemma_extract_value(b, env, v, index, octets(bytes));
    let (b1, octet) = with_extract(b, v, index);
    let (b2, wide) = with_cast(b1, CastOp::ZExt, octet->Ok_0, ty);
    assert(extends(b1, b2));
    lemma_operand_of_new(
        b1,
        env,
        Op::Cast { kind: CastOp::ZExt, value: octet->Ok_0 },
        ty,
        octet->Ok_0,
    );
    lemma_extends_value(b1, b2, octet->Ok_0);
    lemma_extends_transitive(b, b1, b2);
    assert(value_of(b2, env, wide) == Val::Int(d));
    if index > 0 {
        let amount_bits = (index * 8) as u128;
        lemma_index_fits(width, index);
        lemma_constant_value(b2, env, width, amount_bits);
        let (b3, amount) = with_constant(b2, width, amount_bits);
        lemma_extends_transitive(b, b2, b3);
        lemma_extends_value(b2, b3, wide);
        lemma_value_stable(b2, b3, env, wide);
        let (c, r) = with_binary(b3, BinOp::Shl, wide, amount);
        assert(extends(b3, c));
        lemma_extends_transitive(b, b3, c);
        let op = Op::Binary { op: BinOp::Shl, lhs: wide, rhs: amount };
        lemma_operand_of_new(b3, env, op, ty, wide);
        lemma_operand_of_new(b3, env, op, ty, amount);
        // The byte stays below the top of the integer.
        let place = (8 * index) as nat;
        lemma_pow2_adds(8, place);
        lemma_pow2_pos(place);
        assert(d * pow2(place) < 256 * pow2(place)) by (nonlinear_arith)
            requires
                d < 256,
                pow2(place) > 0,
        ;
        if place + 8 < width {
            lemma_pow2_strictly_increases(place + 8, width as nat);
        }
        lemma_small_mod(d * pow2(place), pow2(width as nat));
    } else {
        assert(d * pow2(0) == d) by (nonlinear_arith)
            requires
                pow2(0) == 1,
        ;
    }
}

/// A shift distance fits in the integer it shifts.
proof fn lemma_index_fits(width: u32, index: u32)
    requires
        index * 8 < width,
    ensures
        index * 8 < pow2(width as nat),
{
    lemma_below_pow2(width as nat);
}

proof fn lemma_below_pow2(n: nat)
    ensures
        n < pow2(n),
    decreases n,
{
    lemma2_to64();
    if n > 0 {
        lemma_below_pow2((n - 1) as nat);
        lemma_pow2_adds(1, (n - 1) as nat);
    }
}

/// The code for joining bytes gives the number that they make up.
pub proof fn lemma_joined_value(
    b: Body,
    env: Env,
    v: Value,
    width: u32,
    n: u64,
    k: int,
    bytes: Seq<Byte>,
)
    requires
        valid(b, v),
        value_type(b, v) == LlvmShape::Array(Box::new(LlvmShape::Integer(8)), n),
        value_of(b, env, v) == Val::Aggregate(octets(bytes)),
        all_known(bytes),
        bytes.len() == n,
        n * 8 == width,
        0 < k <= n,
        joined_bytes(b, v, width, k).0.insts.len() + 8 < usize::MAX,
    ensures
        ({
            let (c, r) = joined_bytes(b, v, width, k);
            &&& extends(b, c)
            &&& r is Ok
            &&& r->Ok_0 is Some
            &&& valid(c, r->Ok_0->Some_0)
            &&& value_type(c, r->Ok_0->Some_0) == LlvmShape::Integer(width)
            &&& value_of(c, env, r->Ok_0->Some_0) == Val::Int(number_of(bytes.take(k)))
        }),
    decreases k,
{
    lemma_joined_grows(b, v, width, k);
    lemma_joined_grows(b, v, width, k - 1);
    let (b1, before) = joined_bytes(b, v, width, k - 1);
    lemma_extends_value(b, b1, v);
    lemma_value_stable(b, b1, env, v);
    lemma_placed_byte(b1, env, v, width, n, (k - 1) as u32, bytes);
    let (b2, placed) = placed_byte(b1, v, width, (k - 1) as u32);
    lemma_number_of_more(bytes, k - 1);
    lemma_extends_transitive(b, b1, b2);
    if k == 1 {
        assert(bytes.take(0) =~= Seq::empty());
    } else {
        lemma_joined_value(b, env, v, width, n, k - 1, bytes);
        let previous = before->Ok_0->Some_0;
        lemma_extends_value(b1, b2, previous);
        lemma_value_stable(b1, b2, env, previous);
        let x = placed->Ok_0;
        let (c, both) = with_binary(b2, BinOp::Or, previous, x);
        assert(extends(b2, c));
        lemma_extends_transitive(b, b2, c);
        let op = Op::Binary { op: BinOp::Or, lhs: previous, rhs: x };
        lemma_operand_of_new(b2, env, op, LlvmShape::Integer(width), previous);
        lemma_operand_of_new(b2, env, op, LlvmShape::Integer(width), x);
        lemma_bit_or_adds(
            number_of(bytes.take(k - 1)),
            bytes[k - 1]->Known_0,
            (8 * (k - 1)) as nat,
        );
    }
}

/// The code for an undefined byte gives an undefined integer.
proof fn lemma_placed_undefined(
    b: Body,
    env: Env,
    v: Value,
    width: u32,
    n: u64,
    index: u32,
    s: Seq<Val>,
)
    requires
        b.insts.len() + 4 < usize::MAX,
        valid(b, v),
        value_type(b, v) == LlvmShape::Array(Box::new(LlvmShape::Integer(8)), n),
        value_of(b, env, v) == Val::Aggregate(s),
        s.len() == n,
        index < n,
        s[index as int] is Undef,
    ensures
        ({
            let (c, r) = placed_byte(b, v, width, index);
            &&& r is Ok
            &&& extends(b, c)
            &&& valid(c, r->Ok_0)
            &&& value_type(c, r->Ok_0) == LlvmShape::Integer(width)
            &&& value_of(c, env, r->Ok_0) is Undef
        }),
{
    let ty = LlvmShape::Integer(width);
    lemma_extract_value(b, env, v, index, s);
    let (b1, octet) = with_extract(b, v, index);
    let (b2, wide) = with_cast(b1, CastOp::ZExt, octet->Ok_0, ty);
    assert(extends(b1, b2));
    let cast = Op::Cast { kind: CastOp::ZExt, value: octet->Ok_0 };
    lemma_operand_of_new(b1, env, cast, ty, octet->Ok_0);
    lemma_extends_value(b1, b2, octet->Ok_0);
    lemma_extends_transitive(b, b1, b2);
    assert(value_of(b2, env, wide) is Undef);
    if index > 0 {
        let (b3, amount) = with_constant(b2, width, (index * 8) as u128);
        assert(extends(b2, b3));
        lemma_extends_transitive(b, b2, b3);
        lemma_extends_value(b2, b3, wide);
        lemma_value_stable(b2, b3, env, wide);
        let (c, r) = with_binary(b3, BinOp::Shl, wide, amount);
        assert(extends(b3, c));
        lemma_extends_transitive(b, b3, c);
        let op = Op::Binary { op: BinOp::Shl, lhs: wide, rhs: amount };
        lemma_operand_of_new(b3, env, op, ty, wide);
    }
}

/// The code for joining undefined bytes gives an undefined integer.
proof fn lemma_joined_undefined(
    b: Body,
    env: Env,
    v: Value,
    width: u32,
    n: u64,
    k: int,
    s: Seq<Val>,
)
    requires
        valid(b, v),
        value_type(b, v) == LlvmShape::Array(Box::new(LlvmShape::Integer(8)), n),
        value_of(b, env, v) == Val::Aggregate(s),
        s.len() == n,
        n <= u32::MAX,
        forall|i: int| 0 <= i < s.len() ==> (#[trigger] s[i]) is Undef,
        0 < k <= n,
        joined_bytes(b, v, width, k).0.insts.len() + 8 < usize::MAX,
    ensures
        ({
            let (c, r) = joined_bytes(b, v, width, k);
            &&& extends(b, c)
            &&& r is Ok
            &&& r->Ok_0 is Some
            &&& valid(c, r->Ok_0->Some_0)
            &&& value_type(c, r->Ok_0->Some_0) == LlvmShape::Integer(width)
            &&& value_of(c, env, r->Ok_0->Some_0) is Undef
        }),
    decreases k,
{
    lemma_joined_grows(b, v, width, k);
    lemma_joined_grows(b, v, width, k - 1);
    let (b1, before) = joined_bytes(b, v, width, k - 1);
    lemma_extends_value(b, b1, v);
    lemma_value_stable(b, b1, env, v);
    lemma_placed_undefined(b1, env, v, width, n, (k - 1) as u32, s);
    let (b2, placed) = placed_byte(b1, v, width, (k - 1) as u32);
    lemma_extends_transitive(b, b1, b2);
    if k > 1 {
        lemma_joined_undefined(b, env, v, width, n, k - 1, s);
        let previous = before->Ok_0->Some_0;
        lemma_extends_value(b1, b2, previous);
        lemma_value_stable(b1, b2, env, previous);
        let x = placed->Ok_0;
        let (c, both) = with_binary(b2, BinOp::Or, previous, x);
        assert(extends(b2, c));
        lemma_extends_transitive(b, b2, c);
        let op = Op::Binary { op: BinOp::Or, lhs: previous, rhs: x };
        lemma_operand_of_new(b2, env, op, LlvmShape::Integer(width), previous);
    }
}

// ---------------------------------------------------------------------------
// Copying fields
// ---------------------------------------------------------------------------

pub proof fn lemma_field_with_bytes(fields: Seq<LlvmShape>, offset: u64, size: u64, from: int)
    requires
        0 <= from,
        field_with_bytes(fields, offset, size, from) is Some,
    ensures
        ({
            let at = field_with_bytes(fields, offset, size, from)->Some_0;
            &&& 0 <= at < fields.len()
            &&& natural_offset(fields, at) == offset
            &&& byte_size(fields[at]) == size
        }),
    decreases fields.len() - from,
{
    if !(natural_offset(fields, from) == offset && size_align(fields[from])->Some_0.0 == size) {
        lemma_field_with_bytes(fields, offset, size, from + 1);
    }
}

/// Whether the bytes from `base` on are those of a struct with these fields.
pub open spec fn hold_struct(bytes: Seq<Byte>, base: int, xs: Seq<Val>, fields: Seq<LlvmShape>) -> bool {
    let t = LlvmShape::Struct(fields);
    &&& 0 <= base
    &&& base + byte_size(t) <= bytes.len()
    &&& bytes.subrange(base, base + byte_size(t)) == encoded(Val::Aggregate(xs), t)
}

/// An integer whose bytes an array of bytes holds.
proof fn lemma_integer_from_bytes(
    b: Body,
    env: Env,
    v: Value,
    sf: Seq<LlvmShape>,
    at: int,
    width: u32,
    bytes: Seq<Byte>,
    x: Val,
)
    requires
        valid(b, v),
        value_type(b, v) == LlvmShape::Struct(sf),
        size_align(LlvmShape::Struct(sf)) is Some,
        bytes.len() == byte_size(LlvmShape::Struct(sf)),
        value_of(b, env, v) == decoded(bytes, LlvmShape::Struct(sf)),
        0 <= at < sf.len() <= u32::MAX,
        bytes_of_integer(sf[at], LlvmShape::Integer(width)) is Some,
        width > 0,
        x is Int || x is Undef,
        x is Int ==> x->Int_0 < pow2(width as nat),
        field_bytes(bytes, sf, at) == encoded(x, LlvmShape::Integer(width)),
        integer_from_bytes(
            b,
            v,
            at as u32,
            sf[at],
            LlvmShape::Integer(width),
        ).0.insts.len() + 8 < usize::MAX,
    ensures
        ({
            let ty = LlvmShape::Integer(width);
            let (c, r) = integer_from_bytes(b, v, at as u32, sf[at], ty);
            &&& extends(b, c)
            &&& r is Some
            &&& valid(c, r->Some_0)
            &&& value_of(c, env, r->Some_0) == x
        }),
{
    let ty = LlvmShape::Integer(width);
    let count = bytes_of_integer(sf[at], ty)->Some_0;
    let part = field_bytes(bytes, sf, at);
    lemma_field_place(sf, at);
    let (b1, extracted) = with_extract(b, v, at as u32);
    let w = extracted->Ok_0;
    assert(extends(b, b1));
    lemma_joined_grows(b1, w, width, count as int);
    let s = decoded_fields(bytes, sf);
    lemma_extract_value(b, env, v, at as u32, s);
    let byte = LlvmShape::Integer(8);
    assert(byte_size(byte) == 1);
    assert(s[at] == decoded(part, sf[at]));
    let elements = s[at]->Aggregate_0;
    lemma2_to64();
    if x is Int {
        lemma_little_endian(x->Int_0, count as nat);
    }
    assert forall|i: int| 0 <= i < count implies #[trigger] elements[i] == if x is Int {
        octets(part)[i]
    } else {
        Val::Undef
    } by {
        let one = part.subrange(i * byte_size(byte), (i + 1) * byte_size(byte));
        assert(i * byte_size(byte) == i && (i + 1) * byte_size(byte) == i + 1) by (nonlinear_arith)
            requires
                byte_size(byte) == 1,
        ;
        assert(one =~= seq![part[i]]);
        if x is Int {
            assert(all_known(one)) by {
                assert(part[i] is Known);
            }
            assert(one.skip(1) =~= Seq::empty());
            assert(number_of(one.skip(1)) == 0);
            assert(number_of(one) == part[i]->Known_0);
            lemma_small_mod(part[i]->Known_0, pow2(8));
        } else {
            assert(part[i] is Undef);
            assert(one =~= undef_bytes(1));
            assert(!all_known(one)) by {
                assert(one[0] is Undef);
            }
        }
        assert(elements[i] == decoded(one, byte));
    }
    if x is Int {
        assert(elements =~= octets(part));
        lemma_joined_value(b1, env, w, width, count, count as int, part);
        assert(part.take(count as int) =~= part);
    } else {
        lemma_joined_undefined(b1, env, w, width, count, count as int, elements);
    }
    lemma_extends_transitive(b, b1, joined_bytes(b1, w, width, count as int).0);
}

/// The storage field that a payload field is copied from holds its bytes.
proof fn lemma_copied_field_bytes(
    sf: Seq<LlvmShape>,
    pf: Seq<LlvmShape>,
    base: u64,
    k: int,
    bytes: Seq<Byte>,
    xs: Seq<Val>,
)
    requires
        size_align(LlvmShape::Struct(sf)) is Some,
        size_align(LlvmShape::Struct(pf)) is Some,
        bytes.len() == byte_size(LlvmShape::Struct(sf)),
        sf.len() <= u32::MAX,
        0 <= k < pf.len(),
        all_well_typed(xs, pf),
        hold_struct(bytes, base as int, xs, pf),
        fits(base + natural_offset(pf, k)) is Some,
        field_with_bytes(
            sf,
            fits(base + natural_offset(pf, k))->Some_0,
            size_align(pf[k])->Some_0.0,
            0,
        ) is Some,
    ensures
        ({
            let at = field_with_bytes(
                sf,
                fits(base + natural_offset(pf, k))->Some_0,
                size_align(pf[k])->Some_0.0,
                0,
            )->Some_0;
            &&& 0 <= at < sf.len()
            &&& size_align(sf[at]) is Some
            &&& byte_size(sf[at]) == byte_size(pf[k])
            &&& field_bytes(bytes, sf, at) == encoded(xs[k], pf[k])
        }),
{
    let offset = fits(base + natural_offset(pf, k))->Some_0;
    let size = size_align(pf[k])->Some_0.0;
    lemma_field_with_bytes(sf, offset, size, 0);
    let at = field_with_bytes(sf, offset, size, 0)->Some_0;
    lemma_field_place(sf, at);
    lemma_field_place(pf, k);
    let whole = encoded(Val::Aggregate(xs), LlvmShape::Struct(pf));
    lemma_encoded_field(xs, pf, k);
    lemma_encoded_len(Val::Aggregate(xs), LlvmShape::Struct(pf));
    let part = field_bytes(bytes, sf, at);
    assert(part =~= field_bytes(whole, pf, k)) by {
        let span = bytes.subrange(base as int, base + byte_size(LlvmShape::Struct(pf)));
        assert forall|i: int| 0 <= i < size implies #[trigger] part[i] == field_bytes(
            whole,
            pf,
            k,
        )[i] by {
            assert(span[natural_offset(pf, k) + i] == bytes[offset + i]);
        }
    }
}

/// A copied field is the field that was stored.
#[verifier::rlimit(80)]
proof fn lemma_copied_field_value(
    b: Body,
    env: Env,
    v: Value,
    sf: Seq<LlvmShape>,
    pf: Seq<LlvmShape>,
    base: u64,
    payload: Value,
    k: int,
    bytes: Seq<Byte>,
    xs: Seq<Val>,
    t: Seq<Val>,
)
    requires
        valid(b, v),
        valid(b, payload),
        value_type(b, v) == LlvmShape::Struct(sf),
        size_align(LlvmShape::Struct(sf)) is Some,
        size_align(LlvmShape::Struct(pf)) is Some,
        bytes.len() == byte_size(LlvmShape::Struct(sf)),
        value_of(b, env, v) == decoded(bytes, LlvmShape::Struct(sf)),
        sf.len() <= u32::MAX,
        pf.len() <= u32::MAX,
        0 <= k < pf.len(),
        all_well_typed(xs, pf),
        pf[k] is Integer ==> xs[k] is Int || xs[k] is Undef,
        hold_struct(bytes, base as int, xs, pf),
        value_of(b, env, payload) == Val::Aggregate(t),
        t.len() == pf.len(),
        copied_field(b, v, sf, pf, base, payload, k).1 is Some,
        copied_field(b, v, sf, pf, base, payload, k).0.insts.len() + 8 < usize::MAX,
    ensures
        ({
            let (c, r) = copied_field(b, v, sf, pf, base, payload, k);
            &&& extends(b, c)
            &&& valid(c, r->Some_0)
            &&& value_type(c, r->Some_0) == value_type(b, payload)
            &&& value_of(c, env, r->Some_0) == Val::Aggregate(t.update(k, xs[k]))
        }),
{
    lemma_copied_field_grows(b, v, sf, pf, base, payload, k);
    let offset = fits(base + natural_offset(pf, k))->Some_0;
    let size = size_align(pf[k])->Some_0.0;
    lemma_copied_field_bytes(sf, pf, base, k, bytes, xs);
    let at = field_with_bytes(sf, offset, size, 0)->Some_0;
    let part = field_bytes(bytes, sf, at);
    let s = decoded_fields(bytes, sf);
    assert(s[at] == decoded(part, sf[at]));
    assert(well_typed(xs[k], pf[k]));
    let (b1, field) = if sf[at] == pf[k] {
        match with_extract(b, v, at as u32) {
            (c, Ok(x)) => (c, Some(x)),
            (c, Err(_)) => (c, None),
        }
    } else {
        integer_from_bytes(b, v, at as u32, sf[at], pf[k])
    };
    let (c, r) = with_insert(b1, payload, field->Some_0, k as u32);
    assert(extends(b1, c));
    if sf[at] == pf[k] {
        lemma_extract_value(b, env, v, at as u32, s);
        lemma_decoded_encoded(xs[k], pf[k]);
    } else {
        lemma_integer_from_bytes(b, env, v, sf, at, pf[k]->Integer_0, bytes, xs[k]);
    }
    lemma_extends_value(b, b1, payload);
    lemma_value_stable(b, b1, env, payload);
    lemma_insert_value(b1, env, payload, field->Some_0, k as u32, t);
}

/// `xs` as far as the first `k` fields go, and undefined fields behind them.
spec fn copied_so_far(xs: Seq<Val>, k: int) -> Seq<Val> {
    Seq::new(
        xs.len(),
        |i: int|
            if i < k {
                xs[i]
            } else {
                Val::Undef
            },
    )
}

#[verifier::rlimit(80)]
proof fn lemma_copied_fields_value(
    b: Body,
    env: Env,
    v: Value,
    sf: Seq<LlvmShape>,
    pf: Seq<LlvmShape>,
    base: u64,
    start: Value,
    k: int,
    bytes: Seq<Byte>,
    xs: Seq<Val>,
)
    requires
        valid(b, v),
        valid(b, start),
        value_type(b, v) == LlvmShape::Struct(sf),
        size_align(LlvmShape::Struct(sf)) is Some,
        size_align(LlvmShape::Struct(pf)) is Some,
        bytes.len() == byte_size(LlvmShape::Struct(sf)),
        value_of(b, env, v) == decoded(bytes, LlvmShape::Struct(sf)),
        sf.len() <= u32::MAX,
        pf.len() <= u32::MAX,
        0 <= k <= pf.len(),
        all_well_typed(xs, pf),
        forall|i: int|
            0 <= i < pf.len() && #[trigger] pf[i] is Integer ==> xs[i] is Int || xs[i] is Undef,
        hold_struct(bytes, base as int, xs, pf),
        value_of(b, env, start) == Val::Aggregate(copied_so_far(xs, 0)),
        copied_fields(b, v, sf, pf, base, start, k).1 is Some,
        copied_fields(b, v, sf, pf, base, start, k).0.insts.len() + 8 < usize::MAX,
    ensures
        ({
            let (c, r) = copied_fields(b, v, sf, pf, base, start, k);
            &&& extends(b, c)
            &&& valid(c, r->Some_0)
            &&& value_type(c, r->Some_0) == value_type(b, start)
            &&& value_of(c, env, r->Some_0) == Val::Aggregate(copied_so_far(xs, k))
        }),
    decreases k,
{
    lemma_copied_fields_grow(b, v, sf, pf, base, start, k);
    if k > 0 {
        let (b1, before) = copied_fields(b, v, sf, pf, base, start, k - 1);
        let payload = before->Some_0;
        lemma_copied_field_grows(b1, v, sf, pf, base, payload, k - 1);
        lemma_copied_fields_value(b, env, v, sf, pf, base, start, k - 1, bytes, xs);
        lemma_extends_value(b, b1, v);
        lemma_value_stable(b, b1, env, v);
        let t = copied_so_far(xs, k - 1);
        assert(pf[k - 1] is Integer ==> xs[k - 1] is Int || xs[k - 1] is Undef);
        lemma_copied_field_value(b1, env, v, sf, pf, base, payload, k - 1, bytes, xs, t);
        assert(t.update(k - 1, xs[k - 1]) =~= copied_so_far(xs, k));
        let c = copied_fields(b, v, sf, pf, base, start, k).0;
        lemma_extends_transitive(b, b1, c);
    }
}

/// A rebuilt payload is the struct whose bytes the storage holds, where its
/// integer fields are numbers or undefined.
pub proof fn lemma_rebuilt_value(
    b: Body,
    env: Env,
    v: Value,
    sf: Seq<LlvmShape>,
    pf: Seq<LlvmShape>,
    base: u64,
    allow_integer_only: bool,
    bytes: Seq<Byte>,
    xs: Seq<Val>,
)
    requires
        valid(b, v),
        value_type(b, v) == LlvmShape::Struct(sf),
        size_align(LlvmShape::Struct(sf)) is Some,
        size_align(LlvmShape::Struct(pf)) is Some,
        bytes.len() == byte_size(LlvmShape::Struct(sf)),
        value_of(b, env, v) == decoded(bytes, LlvmShape::Struct(sf)),
        sf.len() <= u32::MAX,
        pf.len() <= u32::MAX,
        all_well_typed(xs, pf),
        forall|i: int|
            0 <= i < pf.len() && #[trigger] pf[i] is Integer ==> xs[i] is Int || xs[i] is Undef,
        hold_struct(bytes, base as int, xs, pf),
        rebuilt_payload(
            b,
            v,
            LlvmShape::Struct(sf),
            LlvmShape::Struct(pf),
            base,
            allow_integer_only,
        ).1 is Some,
        rebuilt_payload(
            b,
            v,
            LlvmShape::Struct(sf),
            LlvmShape::Struct(pf),
            base,
            allow_integer_only,
        ).0.insts.len() + 8 < usize::MAX,
    ensures
        ({
            let (c, r) = rebuilt_payload(
                b,
                v,
                LlvmShape::Struct(sf),
                LlvmShape::Struct(pf),
                base,
                allow_integer_only,
            );
            &&& valid(c, r->Some_0)
            &&& value_type(c, r->Some_0) == LlvmShape::Struct(pf)
            &&& value_of(c, env, r->Some_0) == Val::Aggregate(xs)
        }),
{
    let n = pf.len() as int;
    let payload = LlvmShape::Struct(pf);
    let (b1, start) = with_undef(b, payload);
    assert(extends(b, b1));
    lemma_copied_fields_grow(b1, v, sf, pf, base, start, n);
    lemma_extends_value(b, b1, v);
    lemma_value_stable(b, b1, env, v);
    assert(value_of(b1, env, start) == undefined(payload));
    assert(undefined(payload)->Aggregate_0 =~= copied_so_far(xs, 0));
    lemma_copied_fields_value(b1, env, v, sf, pf, base, start, n, bytes, xs);
    assert(copied_so_far(xs, n) =~= xs);
}

} // verus!
