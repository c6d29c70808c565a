//! Symbol names.

use crate::ir::Intrinsic;
use pliron::identifier::Identifier;
use vstd::prelude::*;
use vstd::string::StringExecFns;

verus! {

/// The model of a text that may be absent.
pub open spec fn opt_text(text: Option<String>) -> Option<Seq<char>> {
    match text {
        None => None,
        Some(t) => Some(t@),
    }
}

/// The decimal digit `d`.
pub open spec fn digit(d: int) -> char {
    "0123456789"@[d]
}

/// `n` in decimal.
pub open spec fn decimal(n: nat) -> Seq<char>
    decreases n,
{
    if n < 10 {
        seq![digit(n as int)]
    } else {
        decimal(n / 10).push(digit((n % 10) as int))
    }
}

fn digit_text(d: u64) -> (r: &'static str)
    requires
        d < 10,
    ensures
        r@ == seq![digit(d as int)],
{
    proof {
        reveal_strlit("0123456789");
        reveal_strlit("0");
        reveal_strlit("1");
        reveal_strlit("2");
        reveal_strlit("3");
        reveal_strlit("4");
        reveal_strlit("5");
        reveal_strlit("6");
        reveal_strlit("7");
        reveal_strlit("8");
        reveal_strlit("9");
    }
    let r: &'static str = match d {
        0 => "0",
        1 => "1",
        2 => "2",
        3 => "3",
        4 => "4",
        5 => "5",
        6 => "6",
        7 => "7",
        8 => "8",
        _ => "9",
    };
    assert(r@ =~= seq![digit(d as int)]);
    r
}

/// Writes `n` in decimal.
pub fn decimal_text(n: u64) -> (r: String)
    ensures
        r@ == decimal(n as nat),
    decreases n,
{
    if n < 10 {
        digit_text(n).to_owned()
    } else {
        let mut r = decimal_text(n / 10);
        r.append(digit_text(n % 10));
        assert(r@ =~= decimal(n as nat));
        r
    }
}

/// Different digits are different characters.
proof fn lemma_digits_differ(c: int, d: int)
    requires
        0 <= c < 10,
        0 <= d < 10,
        digit(c) == digit(d),
    ensures
        c == d,
{
    reveal_strlit("0123456789");
}

/// Different numbers are written differently.
pub proof fn law_decimals_differ(m: nat, n: nat)
    requires
        decimal(m) == decimal(n),
    ensures
        m == n,
    decreases m,
{
    lemma_decimal_length(m);
    lemma_decimal_length(n);
    let a = decimal(m);
    let b = decimal(n);
    assert(a.last() == digit((m % 10) as int));
    assert(b.last() == digit((n % 10) as int));
    lemma_digits_differ((m % 10) as int, (n % 10) as int);
    if m >= 10 && n >= 10 {
        assert(a.drop_last() =~= decimal(m / 10));
        assert(b.drop_last() =~= decimal(n / 10));
        law_decimals_differ(m / 10, n / 10);
    }
}

proof fn lemma_decimal_length(n: nat)
    ensures
        decimal(n).len() >= 1,
        n < 10 <==> decimal(n).len() == 1,
    decreases n,
{
    if n >= 10 {
        lemma_decimal_length(n / 10);
    }
}

/// The symbol of an intrinsic function.
pub open spec fn intrinsic_symbol(i: Intrinsic) -> Seq<char> {
    match i {
        Intrinsic::Assume => "llvm_assume"@,
        Intrinsic::FloatToIntSat { signed, int_width, float_width } => (if signed {
            "llvm_fptosi_sat_i"@
        } else {
            "llvm_fptoui_sat_i"@
        }) + decimal(int_width as nat) + "_f"@ + decimal(float_width as nat),
        Intrinsic::MemTransfer { may_overlap, dst_space, src_space, length_bits } => (
        if may_overlap {
            "llvm_memmove_p"@
        } else {
            "llvm_memcpy_p"@
        }) + decimal(dst_space as nat) + "_p"@ + decimal(src_space as nat) + "_i"@ + decimal(
            length_bits as nat,
        ),
    }
}

impl Intrinsic {
    /// The symbol of this intrinsic function. An overloaded one names the types
    /// it is called with.
    pub fn symbol(&self) -> (r: String)
        ensures
            r@ == intrinsic_symbol(*self),
    {
        match *self {
            Intrinsic::Assume => "llvm_assume".to_owned(),
            Intrinsic::FloatToIntSat { signed, int_width, float_width } => {
                let mut r: String = if signed {
                    "llvm_fptosi_sat_i".to_owned()
                } else {
                    "llvm_fptoui_sat_i".to_owned()
                };
                r.append(decimal_text(int_width as u64).as_str());
                r.append("_f");
                r.append(decimal_text(float_width as u64).as_str());
                r
            },
            Intrinsic::MemTransfer { may_overlap, dst_space, src_space, length_bits } => {
                let mut r: String = if may_overlap {
                    "llvm_memmove_p".to_owned()
                } else {
                    "llvm_memcpy_p".to_owned()
                };
                r.append(decimal_text(dst_space as u64).as_str());
                r.append("_p");
                r.append(decimal_text(src_space as u64).as_str());
                r.append("_i");
                r.append(decimal_text(length_bits as u64).as_str());
                r
            },
        }
    }
}

/// Whether a character may start a symbol: an ASCII letter or an underscore.
pub open spec fn starts_symbol(c: char) -> bool {
    ('a' <= c && c <= 'z') || ('A' <= c && c <= 'Z') || c == '_'
}

/// Whether a character may stand in a symbol: also an ASCII digit.
pub open spec fn continues_symbol(c: char) -> bool {
    starts_symbol(c) || ('0' <= c && c <= '9')
}

/// Whether a text is a symbol: `[a-zA-Z_][a-zA-Z0-9_]*`.
pub open spec fn is_symbol(text: Seq<char>) -> bool {
    &&& text.len() > 0
    &&& starts_symbol(text[0])
    &&& forall|i: int| 0 <= i < text.len() ==> continues_symbol(#[trigger] text[i])
}

/// Whether every character may stand in a symbol.
spec fn continues(text: Seq<char>) -> bool {
    forall|i: int| 0 <= i < text.len() ==> continues_symbol(#[trigger] text[i])
}

proof fn lemma_decimal_continues(n: nat)
    ensures
        continues(decimal(n)),
    decreases n,
{
    reveal_strlit("0123456789");
    if n >= 10 {
        lemma_decimal_continues(n / 10);
    }
}

/// A decimal holds digits only, no underscore.
pub proof fn lemma_decimal_digits(n: nat)
    ensures
        forall|i: int| 0 <= i < decimal(n).len() ==> #[trigger] decimal(n)[i] != '_',
    decreases n,
{
    reveal_strlit("0123456789");
    let last = digit((n % 10) as int);
    assert('0' <= last && last <= '9');
    if n >= 10 {
        lemma_decimal_digits(n / 10);
        assert(decimal(n) == decimal(n / 10).push(last));
    } else {
        assert(decimal(n) == seq![last]);
    }
}

/// Every intrinsic has a valid symbol.
pub proof fn law_intrinsic_names_are_symbols(i: Intrinsic)
    ensures
        is_symbol(intrinsic_symbol(i)),
{
    match i {
        Intrinsic::Assume => {
            reveal_strlit("llvm_assume");
        },
        Intrinsic::FloatToIntSat { signed, int_width, float_width } => {
            reveal_strlit("llvm_fptosi_sat_i");
            reveal_strlit("llvm_fptoui_sat_i");
            reveal_strlit("_f");
            lemma_decimal_continues(int_width as nat);
            lemma_decimal_continues(float_width as nat);
        },
        Intrinsic::MemTransfer { may_overlap, dst_space, src_space, length_bits } => {
            reveal_strlit("llvm_memmove_p");
            reveal_strlit("llvm_memcpy_p");
            reveal_strlit("_p");
            reveal_strlit("_i");
            lemma_decimal_continues(dst_space as nat);
            lemma_decimal_continues(src_space as nat);
            lemma_decimal_continues(length_bits as nat);
        },
    }
}

/// Whether pliron accepts a text as an identifier.
///
/// `Identifier::try_new` accepts exactly the texts that match
/// `[a-zA-Z_][a-zA-Z0-9_]*`.
#[verifier::external_body]
pub(crate) fn is_identifier(text: &String) -> (r: bool)
    ensures
        r == is_symbol(text@),
{
    Identifier::try_new(text.clone()).is_ok()
}

/// The symbol of an intrinsic tells what it does: whether a number becomes a signed or an
/// unsigned one, and whether a transfer may overlap.
pub proof fn law_symbols_tell_the_operation(
    signed: bool,
    int_width: u32,
    float_width: u32,
    may_overlap: bool,
    dst_space: u32,
    src_space: u32,
    length_bits: u32,
)
    ensures
        intrinsic_symbol(Intrinsic::FloatToIntSat { signed, int_width, float_width }).take(11) == (
        if signed {
            "llvm_fptosi"@
        } else {
            "llvm_fptoui"@
        }),
        may_overlap ==> intrinsic_symbol(
            Intrinsic::MemTransfer { may_overlap, dst_space, src_space, length_bits },
        ).take(12) == "llvm_memmove"@,
        !may_overlap ==> intrinsic_symbol(
            Intrinsic::MemTransfer { may_overlap, dst_space, src_space, length_bits },
        ).take(11) == "llvm_memcpy"@,
        intrinsic_symbol(Intrinsic::Assume) == "llvm_assume"@,
{
    reveal_strlit("llvm_fptosi");
    reveal_strlit("llvm_fptoui");
    reveal_strlit("llvm_fptosi_sat_i");
    reveal_strlit("llvm_fptoui_sat_i");
    reveal_strlit("llvm_memmove");
    reveal_strlit("llvm_memcpy");
    reveal_strlit("llvm_memmove_p");
    reveal_strlit("llvm_memcpy_p");
    let cast = intrinsic_symbol(Intrinsic::FloatToIntSat { signed, int_width, float_width });
    let moved = intrinsic_symbol(
        Intrinsic::MemTransfer { may_overlap, dst_space, src_space, length_bits },
    );
    assert(cast.take(11) =~= if signed {
        "llvm_fptosi"@
    } else {
        "llvm_fptoui"@
    });
    if may_overlap {
        assert(moved.take(12) =~= "llvm_memmove"@);
    } else {
        assert(moved.take(11) =~= "llvm_memcpy"@);
    }
}

/// The number that a text of decimal digits stands for.
pub open spec fn number_of_text(text: Seq<char>) -> int
    decreases text.len(),
{
    if text.len() == 0 {
        0
    } else {
        10 * number_of_text(text.drop_last()) + (text.last() as int - '0' as int)
    }
}

/// A number in decimal is a text of digits that stands for the number, without a zero in
/// front of other digits.
pub proof fn law_decimals_denote_their_number(n: nat)
    ensures
        number_of_text(decimal(n)) == n,
        decimal(n).len() > 0,
        decimal(n).len() > 1 ==> decimal(n)[0] != '0',
        forall|i: int| 0 <= i < decimal(n).len() ==> '0' <= #[trigger] decimal(n)[i] <= '9',
    decreases n,
{
    reveal_strlit("0123456789");
    if n < 10 {
        let text = decimal(n);
        assert(text.drop_last() =~= Seq::empty());
        assert(number_of_text(Seq::<char>::empty()) == 0);
    } else {
        law_decimals_denote_their_number(n / 10);
        let text = decimal(n);
        let front = decimal(n / 10);
        assert(text.drop_last() =~= front);
        assert(text.last() == digit((n % 10) as int));
        assert(text[0] == front[0]);
        if front.len() == 1 {
            assert(n / 10 < 10) by {
                lemma_decimal_length(n / 10);
            }
            assert(front[0] == digit((n / 10) as int));
        }
        assert forall|i: int| 0 <= i < text.len() implies '0' <= #[trigger] text[i] <= '9' by {
            if i < front.len() {
                assert(text[i] == front[i]);
            }
        }
    }
}

} // verus!
