//! Run-time values and the bytes that memory holds for them.
//!
//! Integers and floating-point numbers are their bits. A scalar whose bytes are
//! not all known numbers keeps its bytes, so that loading and storing a
//! byte-faithful type loses nothing.

use crate::layout::{
    lemma_align_up, lemma_is_align, lemma_prefix_none, natural_offset, prefix_extent, size_align,
    size_aligns, struct_extent,
};
use crate::llvm::LlvmShape;
use crate::storage::{byte_faithful, gap_free, starts_at_end};
use vstd::arithmetic::div_mod::*;
use vstd::arithmetic::power2::*;
use vstd::prelude::*;

verus! {

/// What a value is at run time.
pub ghost enum Val {
    /// Undefined, or not described here.
    Undef,
    /// The bits of an integer, of a floating-point number, or of a pointer made
    /// from an integer.
    Int(nat),
    Aggregate(Seq<Val>),
    /// The address of the stack slot that an instruction reserves.
    Slot(nat),
    /// The address of the global variable with this name.
    Global(Seq<char>),
    /// The address computed from a base by indices into an element type.
    Address(Box<Val>, Seq<Val>, LlvmShape),
    /// A scalar with these bytes, which make up neither a number nor a pointer.
    Raw(Seq<Byte>),
}

/// What a byte of memory holds.
pub ghost enum Byte {
    Undef,
    Known(nat),
    /// A byte of a scalar that is no number, by its position among so many.
    Part(Box<Val>, nat, nat),
}

// ---------------------------------------------------------------------------
// Scalars
// ---------------------------------------------------------------------------

/// The low bytes of `n`, the lowest first.
pub open spec fn little_endian(n: nat, size: nat) -> Seq<Byte>
    decreases size,
{
    if size == 0 {
        Seq::empty()
    } else {
        seq![Byte::Known(n % 256)] + little_endian(n / 256, (size - 1) as nat)
    }
}

/// The number that these bytes make up, the lowest first.
pub open spec fn number_of(bytes: Seq<Byte>) -> nat
    decreases bytes.len(),
{
    if bytes.len() == 0 {
        0
    } else {
        bytes[0]->Known_0 + 256 * number_of(bytes.skip(1))
    }
}

/// Whether all bytes are known numbers.
pub open spec fn all_known(bytes: Seq<Byte>) -> bool {
    forall|i: int| 0 <= i < bytes.len() ==> (#[trigger] bytes[i]) is Known && bytes[i]->Known_0 < 256
}

/// `size` undefined bytes.
pub open spec fn undef_bytes(size: int) -> Seq<Byte> {
    Seq::new(size as nat, |i: int| Byte::Undef)
}

/// The bytes of a scalar that is no number.
pub open spec fn parts(x: Val, size: nat) -> Seq<Byte> {
    Seq::new(size, |i: int| Byte::Part(Box::new(x), i as nat, size))
}

/// Whether `x` is the address of a place.
pub open spec fn is_place(x: Val) -> bool {
    x is Slot || x is Global || x is Address
}

/// Whether these bytes are those of one address.
pub open spec fn are_parts(bytes: Seq<Byte>) -> bool {
    &&& bytes.len() > 0
    &&& bytes[0] is Part
    &&& is_place(*bytes[0]->Part_0)
    &&& bytes == parts(*bytes[0]->Part_0, bytes.len())
}

/// The bytes of a scalar.
pub open spec fn scalar_bytes(x: Val, size: nat) -> Seq<Byte> {
    match x {
        Val::Int(n) => little_endian(n, size),
        Val::Raw(bytes) => if bytes.len() == size {
            bytes
        } else {
            undef_bytes(size as int)
        },
        Val::Slot(_) => parts(x, size),
        Val::Global(_) => parts(x, size),
        Val::Address(_, _, _) => parts(x, size),
        _ => undef_bytes(size as int),
    }
}

/// The scalar that these bytes make up.
pub open spec fn scalar_value(bytes: Seq<Byte>) -> Val {
    if all_known(bytes) {
        Val::Int(number_of(bytes))
    } else if bytes == undef_bytes(bytes.len() as int) {
        Val::Undef
    } else if are_parts(bytes) {
        *bytes[0]->Part_0
    } else {
        Val::Raw(bytes)
    }
}

/// The low `width` bits of a scalar, where it is a number.
pub open spec fn narrowed(x: Val, width: nat) -> Val {
    match x {
        Val::Int(n) => Val::Int(n % pow2(width)),
        _ => x,
    }
}

pub proof fn lemma_little_endian(n: nat, size: nat)
    ensures
        little_endian(n, size).len() == size,
        all_known(little_endian(n, size)),
        n < pow2(8 * size) ==> number_of(little_endian(n, size)) == n,
    decreases size,
{
    lemma2_to64();
    if size > 0 {
        let rest = little_endian(n / 256, (size - 1) as nat);
        lemma_little_endian(n / 256, (size - 1) as nat);
        lemma_mod_bound(n as int, 256);
        let all = little_endian(n, size);
        assert(all.skip(1) =~= rest);
        assert forall|i: int| 0 <= i < all.len() implies (#[trigger] all[i]) is Known
            && all[i]->Known_0 < 256 by {
            if i > 0 {
                assert(all[i] == rest[i - 1]);
            }
        }
        if n < pow2(8 * size) {
            lemma_pow2_adds(8, (8 * (size - 1)) as nat);
            assert(n / 256 < pow2((8 * (size - 1)) as nat)) by (nonlinear_arith)
                requires
                    n < 256 * pow2((8 * (size - 1)) as nat),
            ;
            lemma_fundamental_div_mod(n as int, 256);
        }
    }
}

pub proof fn lemma_number_of(bytes: Seq<Byte>)
    requires
        all_known(bytes),
    ensures
        number_of(bytes) < pow2(8 * bytes.len()),
        little_endian(number_of(bytes), bytes.len()) == bytes,
    decreases bytes.len(),
{
    lemma2_to64();
    if bytes.len() > 0 {
        let rest = bytes.skip(1);
        assert forall|i: int| 0 <= i < rest.len() implies (#[trigger] rest[i]) is Known
            && rest[i]->Known_0 < 256 by {
            assert(rest[i] == bytes[i + 1]);
        }
        lemma_number_of(rest);
        let low = bytes[0]->Known_0;
        let high = number_of(rest);
        lemma_pow2_adds(8, 8 * rest.len());
        assert(low + 256 * high < 256 * pow2(8 * rest.len())) by (nonlinear_arith)
            requires
                low < 256,
                high < pow2(8 * rest.len()),
        ;
        assert(8 + 8 * rest.len() == 8 * bytes.len());
        lemma_fundamental_div_mod_converse(
            (low + 256 * high) as int,
            256,
            high as int,
            low as int,
        );
        assert(little_endian(number_of(bytes), bytes.len()) =~= bytes) by {
            assert(seq![Byte::Known(low)] + rest =~= bytes);
        }
    } else {
        assert(little_endian(0, 0) =~= bytes);
    }
}

/// Storing a scalar's bytes after loading them changes none.
pub proof fn lemma_scalar_bytes_of_value(bytes: Seq<Byte>)
    ensures
        scalar_bytes(scalar_value(bytes), bytes.len()) == bytes,
{
    if all_known(bytes) {
        lemma_number_of(bytes);
    }
}

/// Loading a scalar's bytes after storing them gives the scalar.
pub proof fn lemma_scalar_value_of_bytes(x: Val, size: nat)
    requires
        size > 0,
        match x {
            Val::Int(n) => n < pow2(8 * size),
            Val::Raw(bytes) => bytes.len() == size && scalar_value(bytes) == x,
            Val::Aggregate(_) => false,
            _ => true,
        },
    ensures
        scalar_value(scalar_bytes(x, size)) == x,
{
    let bytes = scalar_bytes(x, size);
    match x {
        Val::Int(n) => {
            lemma_little_endian(n, size);
        },
        Val::Undef => {
            assert(!(bytes[0] is Known));
        },
        Val::Slot(_) => {
            assert(!(bytes[0] is Known));
            assert(undef_bytes(size as int)[0] is Undef);
        },
        Val::Global(_) => {
            assert(!(bytes[0] is Known));
            assert(undef_bytes(size as int)[0] is Undef);
        },
        Val::Address(_, _, _) => {
            assert(!(bytes[0] is Known));
            assert(undef_bytes(size as int)[0] is Undef);
        },
        _ => {},
    }
}

// ---------------------------------------------------------------------------
// Values of any type
// ---------------------------------------------------------------------------

/// Size in bytes of a type with a layout.
pub open spec fn byte_size(t: LlvmShape) -> int {
    size_align(t)->Some_0.0 as int
}

/// The bytes of a value of type `t`.
pub open spec fn encoded(x: Val, t: LlvmShape) -> Seq<Byte>
    decreases t, 0int,
{
    match (t, x) {
        (LlvmShape::Array(elem, n), Val::Aggregate(s)) => if s.len() == n {
            array_bytes(s, *elem, n as int)
        } else {
            undef_bytes(byte_size(t))
        },
        (LlvmShape::Struct(fields), Val::Aggregate(s)) => if s.len() == fields.len() {
            let front = struct_bytes(s, fields, fields.len() as int);
            front + undef_bytes(byte_size(t) - front.len())
        } else {
            undef_bytes(byte_size(t))
        },
        (LlvmShape::Array(_, _), _) => undef_bytes(byte_size(t)),
        (LlvmShape::Struct(_), _) => undef_bytes(byte_size(t)),
        _ => scalar_bytes(x, byte_size(t) as nat),
    }
}

/// The bytes of the first `k` elements of an array.
pub open spec fn array_bytes(s: Seq<Val>, elem: LlvmShape, k: int) -> Seq<Byte>
    decreases elem, k,
{
    if k <= 0 {
        Seq::empty()
    } else {
        array_bytes(s, elem, k - 1) + encoded(s[k - 1], elem)
    }
}

/// The bytes of the first `k` fields of a struct, with undefined gaps.
pub open spec fn struct_bytes(s: Seq<Val>, fields: Seq<LlvmShape>, k: int) -> Seq<Byte>
    decreases fields, k,
{
    if k <= 0 || k > fields.len() {
        Seq::empty()
    } else {
        let front = struct_bytes(s, fields, k - 1);
        front + undef_bytes(natural_offset(fields, k - 1) - front.len()) + encoded(
            s[k - 1],
            fields[k - 1],
        )
    }
}

/// The value of type `t` that these bytes make up.
pub open spec fn decoded(bytes: Seq<Byte>, t: LlvmShape) -> Val
    decreases t,
{
    match t {
        LlvmShape::Integer(width) => narrowed(scalar_value(bytes), width as nat),
        LlvmShape::Array(elem, n) => Val::Aggregate(
            Seq::new(
                n as nat,
                |i: int|
                    decoded(
                        bytes.subrange(i * byte_size(*elem), (i + 1) * byte_size(*elem)),
                        *elem,
                    ),
            ),
        ),
        LlvmShape::Struct(fields) => Val::Aggregate(decoded_fields(bytes, fields)),
        _ => scalar_value(bytes),
    }
}

/// The fields of a struct that these bytes make up.
pub open spec fn decoded_fields(bytes: Seq<Byte>, fields: Seq<LlvmShape>) -> Seq<Val>
    decreases fields,
{
    Seq::new(
        fields.len(),
        |i: int|
            if 0 <= i < fields.len() {
                decoded(field_bytes(bytes, fields, i), fields[i])
            } else {
                Val::Undef
            },
    )
}

/// The bytes of field `i` among those of a struct.
pub open spec fn field_bytes(bytes: Seq<Byte>, fields: Seq<LlvmShape>, i: int) -> Seq<Byte> {
    let start = natural_offset(fields, i);
    bytes.subrange(start, start + byte_size(fields[i]))
}

/// Whether `x` is a scalar of `size` bytes and `bits` bits.
pub open spec fn is_scalar(x: Val, bits: nat, size: nat) -> bool {
    match x {
        Val::Undef => true,
        Val::Int(n) => n < pow2(bits),
        Val::Raw(bytes) => bits == 8 * size && bytes.len() == size && scalar_value(bytes) == x,
        _ => false,
    }
}

/// Whether `x` is a value of type `t` with its numbers in range; scalars may be
/// undefined.
pub open spec fn well_typed(x: Val, t: LlvmShape) -> bool
    decreases t,
{
    match t {
        LlvmShape::Integer(width) => width > 0 && is_scalar(
            x,
            width as nat,
            ((width + 7) / 8) as nat,
        ),
        LlvmShape::Half => is_scalar(x, 16, 2),
        LlvmShape::Float => is_scalar(x, 32, 4),
        LlvmShape::Double => is_scalar(x, 64, 8),
        LlvmShape::Pointer(_) => is_place(x) || is_scalar(x, 64, 8),
        LlvmShape::Struct(fields) => match x {
            Val::Aggregate(s) => all_well_typed(s, fields),
            _ => false,
        },
        LlvmShape::Array(elem, n) => match x {
            Val::Aggregate(s) => s.len() == n && forall|i: int|
                0 <= i < s.len() ==> well_typed(#[trigger] s[i], *elem),
            _ => false,
        },
        LlvmShape::Vector(_, _, _) => size_align(t) is Some && is_scalar(
            x,
            (8 * byte_size(t)) as nat,
            byte_size(t) as nat,
        ),
        LlvmShape::Void => false,
    }
}

/// Whether each of `s` is a value of the type at its position.
pub open spec fn all_well_typed(s: Seq<Val>, fields: Seq<LlvmShape>) -> bool
    decreases fields,
{
    &&& s.len() == fields.len()
    &&& forall|i: int| 0 <= i < fields.len() ==> well_typed(#[trigger] s[i], fields[i])
}

/// Where the fields of a struct with a layout are.
pub proof fn lemma_field_place(fields: Seq<LlvmShape>, i: int)
    requires
        size_align(LlvmShape::Struct(fields)) is Some,
        0 <= i < fields.len(),
    ensures
        size_align(fields[i]) is Some,
        prefix_extent(size_aligns(fields), i) is Some,
        prefix_extent(size_aligns(fields), i + 1) is Some,
        prefix_extent(size_aligns(fields), i)->Some_0.0 <= natural_offset(fields, i),
        natural_offset(fields, i) + byte_size(fields[i]) == prefix_extent(
            size_aligns(fields),
            i + 1,
        )->Some_0.0,
        prefix_extent(size_aligns(fields), i + 1)->Some_0.0 <= byte_size(
            LlvmShape::Struct(fields),
        ),
{
    let extents = size_aligns(fields);
    let n = fields.len() as int;
    assert(struct_extent(extents) is Some);
    lemma_prefix_none(extents, i + 1, n);
    lemma_prefix_none(extents, i, n);
    assert(extents[i] is Some);
    assert(extents[i] == size_align(fields[i]));
    lemma_is_align(fields[i]);
    lemma_align_up(
        prefix_extent(extents, i)->Some_0.0 as int,
        size_align(fields[i])->Some_0.1 as int,
    );
    lemma_prefix_grows(fields, i + 1, n);
    lemma_struct_end(fields);
}

proof fn lemma_prefix_grows(fields: Seq<LlvmShape>, k: int, n: int)
    requires
        0 <= k <= n <= fields.len(),
        prefix_extent(size_aligns(fields), n) is Some,
    ensures
        prefix_extent(size_aligns(fields), k) is Some,
        prefix_extent(size_aligns(fields), k)->Some_0.0 <= prefix_extent(
            size_aligns(fields),
            n,
        )->Some_0.0,
    decreases n - k,
{
    let extents = size_aligns(fields);
    lemma_prefix_none(extents, k, n);
    if k < n {
        lemma_prefix_none(extents, k + 1, n);
        lemma_prefix_grows(fields, k + 1, n);
        assert(extents[k] == size_align(fields[k]));
        lemma_is_align(fields[k]);
        lemma_align_up(
            prefix_extent(extents, k)->Some_0.0 as int,
            size_align(fields[k])->Some_0.1 as int,
        );
    }
}

/// A struct is at least as large as its fields reach.
proof fn lemma_struct_end(fields: Seq<LlvmShape>)
    requires
        size_align(LlvmShape::Struct(fields)) is Some,
    ensures
        prefix_extent(size_aligns(fields), fields.len() as int) is Some,
        prefix_extent(size_aligns(fields), fields.len() as int)->Some_0.0 <= byte_size(
            LlvmShape::Struct(fields),
        ),
{
    let extents = size_aligns(fields);
    let (end, align) = prefix_extent(extents, fields.len() as int)->Some_0;
    lemma_is_align(LlvmShape::Struct(fields));
    lemma_align_up(end as int, align as int);
}

/// A value's bytes are as many as its type has.
pub proof fn lemma_encoded_len(x: Val, t: LlvmShape)
    requires
        size_align(t) is Some,
    ensures
        encoded(x, t).len() == byte_size(t),
    decreases t, 0int,
{
    match (t, x) {
        (LlvmShape::Array(elem, n), Val::Aggregate(s)) => {
            if s.len() == n {
                lemma_array_bytes_len(s, *elem, n as int);
                assert(byte_size(*elem) * n == n * byte_size(*elem)) by (nonlinear_arith);
            }
        },
        (LlvmShape::Struct(fields), Val::Aggregate(s)) => {
            if s.len() == fields.len() {
                lemma_struct_bytes_len(s, fields, fields.len() as int);
                lemma_struct_end(fields);
            }
        },
        (_, Val::Int(n)) => {
            lemma_little_endian(n, byte_size(t) as nat);
        },
        _ => {},
    }
}

proof fn lemma_array_bytes_len(s: Seq<Val>, elem: LlvmShape, k: int)
    requires
        0 <= k,
        size_align(elem) is Some,
    ensures
        array_bytes(s, elem, k).len() == k * byte_size(elem),
    decreases elem, k,
{
    if k > 0 {
        lemma_array_bytes_len(s, elem, k - 1);
        lemma_encoded_len(s[k - 1], elem);
        assert((k - 1) * byte_size(elem) + byte_size(elem) == k * byte_size(elem))
            by (nonlinear_arith);
    } else {
        assert(0 * byte_size(elem) == 0) by (nonlinear_arith);
    }
}

proof fn lemma_struct_bytes_len(s: Seq<Val>, fields: Seq<LlvmShape>, k: int)
    requires
        0 <= k <= fields.len(),
        size_align(LlvmShape::Struct(fields)) is Some,
    ensures
        prefix_extent(size_aligns(fields), k) is Some,
        struct_bytes(s, fields, k).len() == prefix_extent(size_aligns(fields), k)->Some_0.0,
    decreases fields, k,
{
    if k > 0 {
        lemma_struct_bytes_len(s, fields, k - 1);
        lemma_field_place(fields, k - 1);
        lemma_encoded_len(s[k - 1], fields[k - 1]);
    }
}

/// The bytes of element `i` among those of an array.
pub proof fn lemma_array_element_bytes(s: Seq<Val>, elem: LlvmShape, k: int, i: int)
    requires
        0 <= i < k,
        size_align(elem) is Some,
    ensures
        0 <= i * byte_size(elem) <= (i + 1) * byte_size(elem) <= array_bytes(s, elem, k).len(),
        array_bytes(s, elem, k).subrange(i * byte_size(elem), (i + 1) * byte_size(elem))
            == encoded(s[i], elem),
    decreases k,
{
    let z = byte_size(elem);
    lemma_array_bytes_len(s, elem, k);
    lemma_array_bytes_len(s, elem, k - 1);
    lemma_encoded_len(s[k - 1], elem);
    assert(0 <= i * z <= (i + 1) * z <= k * z) by (nonlinear_arith)
        requires
            0 <= i < k,
            0 <= z,
    ;
    let all = array_bytes(s, elem, k);
    let front = array_bytes(s, elem, k - 1);
    assert((i + 1) * z == i * z + z) by (nonlinear_arith);
    if i < k - 1 {
        lemma_array_element_bytes(s, elem, k - 1, i);
        assert(all.subrange(i * z, (i + 1) * z) =~= front.subrange(i * z, (i + 1) * z));
    } else {
        assert(all.subrange(i * z, (i + 1) * z) =~= encoded(s[i], elem));
    }
}

/// The bytes of field `i` among those of the first `k` fields of a struct.
proof fn lemma_struct_field_bytes(s: Seq<Val>, fields: Seq<LlvmShape>, k: int, i: int)
    requires
        0 <= i < k <= fields.len(),
        size_align(LlvmShape::Struct(fields)) is Some,
    ensures
        natural_offset(fields, i) + byte_size(fields[i]) <= struct_bytes(s, fields, k).len(),
        field_bytes(struct_bytes(s, fields, k), fields, i) == encoded(s[i], fields[i]),
    decreases k,
{
    lemma_struct_bytes_len(s, fields, k);
    lemma_struct_bytes_len(s, fields, k - 1);
    lemma_field_place(fields, i);
    lemma_field_place(fields, k - 1);
    lemma_encoded_len(s[k - 1], fields[k - 1]);
    let all = struct_bytes(s, fields, k);
    let front = struct_bytes(s, fields, k - 1);
    if i < k - 1 {
        lemma_struct_field_bytes(s, fields, k - 1, i);
        assert(field_bytes(all, fields, i) =~= field_bytes(front, fields, i));
    } else {
        assert(field_bytes(all, fields, i) =~= encoded(s[i], fields[i]));
    }
}

/// The bytes of field `i` among those of a struct value.
pub proof fn lemma_encoded_field(s: Seq<Val>, fields: Seq<LlvmShape>, i: int)
    requires
        0 <= i < fields.len(),
        s.len() == fields.len(),
        size_align(LlvmShape::Struct(fields)) is Some,
    ensures
        field_bytes(encoded(Val::Aggregate(s), LlvmShape::Struct(fields)), fields, i) == encoded(
            s[i],
            fields[i],
        ),
{
    let n = fields.len() as int;
    lemma_struct_field_bytes(s, fields, n, i);
    lemma_field_place(fields, i);
    let front = struct_bytes(s, fields, n);
    let all = encoded(Val::Aggregate(s), LlvmShape::Struct(fields));
    assert(field_bytes(all, fields, i) =~= field_bytes(front, fields, i));
}

/// Loading what was stored gives the value.
pub proof fn lemma_decoded_encoded(x: Val, t: LlvmShape)
    requires
        size_align(t) is Some,
        well_typed(x, t),
    ensures
        decoded(encoded(x, t), t) == x,
    decreases t,
{
    match t {
        LlvmShape::Integer(width) => {
            let size = ((width + 7) / 8) as nat;
            if x is Int {
                lemma_small_mod(x->Int_0, pow2(width as nat));
                if width < 8 * size {
                    lemma_pow2_strictly_increases(width as nat, 8 * size);
                }
            }
            lemma_scalar_value_of_bytes(x, size);
        },
        LlvmShape::Array(elem, n) => {
            let s = x->Aggregate_0;
            let all = encoded(x, t);
            let back = decoded(all, t)->Aggregate_0;
            assert forall|i: int| 0 <= i < n implies #[trigger] back[i] == s[i] by {
                lemma_array_element_bytes(s, *elem, n as int, i);
                assert(well_typed(s[i], *elem));
                lemma_decoded_encoded(s[i], *elem);
            }
            assert(back =~= s);
        },
        LlvmShape::Struct(fields) => {
            let s = x->Aggregate_0;
            lemma_decoded_fields(s, fields);
        },
        _ => {
            lemma_scalar_value_of_bytes(x, byte_size(t) as nat);
        },
    }
}

proof fn lemma_decoded_fields(s: Seq<Val>, fields: Seq<LlvmShape>)
    requires
        size_align(LlvmShape::Struct(fields)) is Some,
        all_well_typed(s, fields),
    ensures
        decoded_fields(encoded(Val::Aggregate(s), LlvmShape::Struct(fields)), fields) == s,
    decreases fields,
{
    let all = encoded(Val::Aggregate(s), LlvmShape::Struct(fields));
    let back = decoded_fields(all, fields);
    assert forall|i: int| 0 <= i < fields.len() implies #[trigger] back[i] == s[i] by {
        lemma_encoded_field(s, fields, i);
        lemma_field_place(fields, i);
        assert(well_typed(s[i], fields[i]));
        lemma_decoded_encoded(s[i], fields[i]);
    }
    assert(back =~= s);
}

/// Storing what was loaded changes no byte, for byte-faithful types.
pub proof fn lemma_encoded_decoded(bytes: Seq<Byte>, t: LlvmShape)
    requires
        size_align(t) is Some,
        byte_faithful(t),
        bytes.len() == byte_size(t),
    ensures
        encoded(decoded(bytes, t), t) == bytes,
    decreases t, 0int,
{
    match t {
        LlvmShape::Integer(width) => {
            lemma_scalar_bytes_of_value(bytes);
            if all_known(bytes) {
                lemma_number_of(bytes);
                lemma_small_mod(number_of(bytes), pow2(width as nat));
            }
        },
        LlvmShape::Array(elem, n) => {
            let s = decoded(bytes, t)->Aggregate_0;
            assert(byte_size(*elem) * n == n * byte_size(*elem)) by (nonlinear_arith);
            lemma_array_bytes_decoded(bytes, *elem, n, s, n as int);
            assert(bytes.take(n * byte_size(*elem)) =~= bytes);
        },
        LlvmShape::Struct(fields) => {
            let n = fields.len() as int;
            let s = decoded_fields(bytes, fields);
            lemma_struct_bytes_decoded(bytes, fields, n);
            let end = prefix_extent(size_aligns(fields), n)->Some_0.0 as int;
            assert(struct_extent(size_aligns(fields))->Some_0.0 == end);
            assert(bytes.take(end) =~= bytes);
            assert(encoded(Val::Aggregate(s), t) =~= bytes);
        },
        _ => {
            lemma_scalar_bytes_of_value(bytes);
        },
    }
}

proof fn lemma_array_bytes_decoded(
    bytes: Seq<Byte>,
    elem: LlvmShape,
    n: u64,
    s: Seq<Val>,
    k: int,
)
    requires
        size_align(elem) is Some,
        byte_faithful(elem),
        bytes.len() == n * byte_size(elem),
        0 <= k <= n,
        s == decoded(bytes, LlvmShape::Array(Box::new(elem), n))->Aggregate_0,
    ensures
        array_bytes(s, elem, k) == bytes.take(k * byte_size(elem)),
    decreases elem, k,
{
    let z = byte_size(elem);
    assert(0 <= k * z <= n * z) by (nonlinear_arith)
        requires
            0 <= k <= n,
            0 <= z,
    ;
    if k > 0 {
        lemma_array_bytes_decoded(bytes, elem, n, s, k - 1);
        assert((k - 1) * z + z == k * z) by (nonlinear_arith);
        assert(0 <= (k - 1) * z) by (nonlinear_arith)
            requires
                1 <= k,
                0 <= z,
        ;
        let part = bytes.subrange((k - 1) * z, k * z);
        assert(s[k - 1] == decoded(part, elem));
        lemma_encoded_decoded(part, elem);
        assert(bytes.take((k - 1) * z) + part =~= bytes.take(k * z));
    } else {
        assert(0 * z == 0) by (nonlinear_arith);
        assert(array_bytes(s, elem, k) =~= bytes.take(0));
    }
}

proof fn lemma_struct_bytes_decoded(bytes: Seq<Byte>, fields: Seq<LlvmShape>, k: int)
    requires
        size_align(LlvmShape::Struct(fields)) is Some,
        forall|i: int| 0 <= i < fields.len() ==> byte_faithful(#[trigger] fields[i]),
        gap_free(size_aligns(fields)),
        bytes.len() == byte_size(LlvmShape::Struct(fields)),
        0 <= k <= fields.len(),
    ensures
        prefix_extent(size_aligns(fields), k) is Some,
        struct_bytes(decoded_fields(bytes, fields), fields, k) == bytes.take(
            prefix_extent(size_aligns(fields), k)->Some_0.0 as int,
        ),
    decreases fields, k,
{
    if k > 0 {
        let s = decoded_fields(bytes, fields);
        lemma_struct_bytes_decoded(bytes, fields, k - 1);
        lemma_field_place(fields, k - 1);
        assert(starts_at_end(size_aligns(fields), k - 1));
        let start = natural_offset(fields, k - 1);
        let part = field_bytes(bytes, fields, k - 1);
        assert(s[k - 1] == decoded(part, fields[k - 1]));
        lemma_encoded_decoded(part, fields[k - 1]);
        let end = prefix_extent(size_aligns(fields), k)->Some_0.0 as int;
        assert(undef_bytes(0) =~= Seq::empty());
        assert(bytes.take(start) + undef_bytes(0) + part =~= bytes.take(end));
    } else {
        assert(struct_bytes(decoded_fields(bytes, fields), fields, k) =~= bytes.take(0));
    }
}

/// Whether loading and storing a value of type `t` keeps byte `o`: it belongs to a
/// scalar of whole bytes, not to padding.
pub open spec fn keeps_byte(t: LlvmShape, o: int) -> bool
    decreases t,
{
    match t {
        LlvmShape::Integer(width) => width % 8 == 0 && 0 <= o < byte_size(t),
        LlvmShape::Array(elem, n) => {
            &&& 0 < byte_size(*elem)
            &&& 0 <= o / byte_size(*elem) < n
            &&& keeps_byte(*elem, o % byte_size(*elem))
        },
        LlvmShape::Struct(fields) => exists|j: int|
            {
                &&& 0 <= j < fields.len()
                &&& natural_offset(fields, j) <= o < natural_offset(fields, j) + byte_size(
                    fields[j],
                )
                &&& keeps_byte(#[trigger] fields[j], o - natural_offset(fields, j))
            },
        _ => 0 <= o < byte_size(t),
    }
}

/// A struct keeps the bytes that its fields keep.
pub proof fn lemma_struct_keeps_byte(fields: Seq<LlvmShape>, j: int, o: int)
    requires
        0 <= j < fields.len(),
        natural_offset(fields, j) <= o < natural_offset(fields, j) + byte_size(fields[j]),
        keeps_byte(fields[j], o - natural_offset(fields, j)),
    ensures
        keeps_byte(LlvmShape::Struct(fields), o),
{
    let t = LlvmShape::Struct(fields);
    assert(t->Struct_0[j] == fields[j]);
}

/// Loading and storing keeps the bytes that belong to scalars.
pub proof fn lemma_keeps_byte(bytes: Seq<Byte>, t: LlvmShape, o: int)
    requires
        size_align(t) is Some,
        bytes.len() == byte_size(t),
        keeps_byte(t, o),
    ensures
        0 <= o < bytes.len(),
        encoded(decoded(bytes, t), t).len() == bytes.len(),
        encoded(decoded(bytes, t), t)[o] == bytes[o],
    decreases t,
{
    lemma_encoded_len(decoded(bytes, t), t);
    match t {
        LlvmShape::Integer(_) => {
            lemma_encoded_decoded(bytes, t);
        },
        LlvmShape::Array(elem, n) => {
            let z = byte_size(*elem);
            let s = decoded(bytes, t)->Aggregate_0;
            let i = o / z;
            lemma_fundamental_div_mod(o, z);
            assert(z * i == i * z && (i + 1) * z == i * z + z && z * n == n * z)
                by (nonlinear_arith);
            assert(0 <= i * z && (i + 1) * z <= n * z) by (nonlinear_arith)
                requires
                    0 <= i < n,
                    0 < z,
            ;
            let part = bytes.subrange(i * z, (i + 1) * z);
            assert(s[i] == decoded(part, *elem));
            lemma_array_element_bytes(s, *elem, n as int, i);
            lemma_keeps_byte(part, *elem, o % z);
            let back = encoded(decoded(bytes, t), t);
            assert(back.subrange(i * z, (i + 1) * z)[o % z] == back[o]);
        },
        LlvmShape::Struct(fields) => {
            let j = choose|j: int|
                {
                    &&& 0 <= j < fields.len()
                    &&& natural_offset(fields, j) <= o < natural_offset(fields, j) + byte_size(
                        fields[j],
                    )
                    &&& keeps_byte(#[trigger] fields[j], o - natural_offset(fields, j))
                };
            let s = decoded_fields(bytes, fields);
            let back = encoded(Val::Aggregate(s), t);
            lemma_field_place(fields, j);
            lemma_encoded_field(s, fields, j);
            let part = field_bytes(bytes, fields, j);
            assert(s[j] == decoded(part, fields[j]));
            let at = o - natural_offset(fields, j);
            lemma_keeps_byte(part, fields[j], at);
            assert(field_bytes(back, fields, j)[at] == part[at]);
        },
        _ => {
            lemma_scalar_bytes_of_value(bytes);
        },
    }
}

/// A byte of a struct without gaps belongs to one of its fields: one of the first
/// `k`, where it lies before their end.
proof fn lemma_byte_in_field(fields: Seq<LlvmShape>, k: int, o: int) -> (j: int)
    requires
        size_align(LlvmShape::Struct(fields)) is Some,
        gap_free(size_aligns(fields)),
        0 <= k <= fields.len(),
        prefix_extent(size_aligns(fields), k) is Some,
        0 <= o < prefix_extent(size_aligns(fields), k)->Some_0.0,
    ensures
        0 <= j < k,
        natural_offset(fields, j) <= o < natural_offset(fields, j) + byte_size(fields[j]),
    decreases k,
{
    lemma_field_place(fields, k - 1);
    assert(starts_at_end(size_aligns(fields), k - 1));
    if natural_offset(fields, k - 1) <= o {
        k - 1
    } else {
        lemma_byte_in_field(fields, k - 1, o)
    }
}

/// A byte-faithful type keeps each of its bytes.
pub proof fn lemma_faithful_keeps_bytes(t: LlvmShape, o: int)
    requires
        size_align(t) is Some,
        byte_faithful(t),
        0 <= o < byte_size(t),
    ensures
        keeps_byte(t, o),
    decreases t,
{
    match t {
        LlvmShape::Array(elem, n) => {
            let z = byte_size(*elem);
            assert(0 < z && 0 <= o / z < n) by (nonlinear_arith)
                requires
                    0 <= o < z * n,
                    0 <= z,
                    0 <= n,
            ;
            lemma_mod_bound(o, z);
            lemma_faithful_keeps_bytes(*elem, o % z);
        },
        LlvmShape::Struct(fields) => {
            let n = fields.len() as int;
            if n > 0 {
                lemma_field_place(fields, n - 1);
            }
            let j = lemma_byte_in_field(fields, n, o);
            lemma_field_place(fields, j);
            lemma_faithful_keeps_bytes(fields[j], o - natural_offset(fields, j));
        },
        _ => {},
    }
}

/// A number in range survives being stored and loaded, also in no bits at all.
pub proof fn lemma_number_survives(n: nat, t: LlvmShape, width: u32)
    requires
        n < pow2(width as nat),
        match t {
            LlvmShape::Integer(w) => w == width,
            LlvmShape::Pointer(_) => width <= 64,
            _ => false,
        },
    ensures
        decoded(encoded(Val::Int(n), t), t) == Val::Int(n),
{
    lemma2_to64();
    match t {
        LlvmShape::Integer(_) => {
            if width > 0 {
                lemma_decoded_encoded(Val::Int(n), t);
            } else {
                let bytes = encoded(Val::Int(n), t);
                assert(bytes =~= Seq::<Byte>::empty());
                assert(all_known(bytes));
                assert(number_of(bytes) == 0);
            }
        },
        _ => {
            if width < 64 {
                lemma_pow2_strictly_increases(width as nat, 64);
            }
            lemma_decoded_encoded(Val::Int(n), t);
        },
    }
}

} // verus!
