//! The grammar of number literals.
//!
//! The tokenizer takes any run of number bytes for a literal. Whether the
//! run spells a number is decided here, by the grammar of 64-bit
//! floating-point literals that the standard library reads:
//!
//! ```text
//! Float    ::= Sign? ( 'inf' | 'infinity' | 'nan' | Number )
//! Number   ::= Mantissa Exponent?
//! Mantissa ::= Digit+ | Digit+ '.' Digit* | Digit* '.' Digit+
//! Exponent ::= 'e' Sign? Digit+
//! Sign     ::= '+' | '-'
//! ```
//!
//! Letters are matched without regard to case.

use vstd::prelude::*;
use vstd::string::StringSliceAdditionalSpecFns;
use crate::bytes::{
    digit, is_digit, is_number_byte, is_number_start, is_sign, sign, DOT, LOWER_E, MINUS, UPPER_E,
    ZERO,
};

verus! {

/// Whether every byte of `s` from `from` up to `to` is a digit.
pub open spec fn digits_in(s: Seq<u8>, from: int, to: int) -> bool {
    forall|i: int| from <= i < to ==> is_digit(#[trigger] s[i])
}

/// Whether `b` marks an exponent: `e` or `E`.
pub open spec fn is_exponent_mark(b: u8) -> bool {
    b == LOWER_E || b == UPPER_E
}

/// Whether the bytes of `s` from `from` up to `to` spell a mantissa: digits
/// with at most one decimal point among them, and at least one digit.
pub open spec fn mantissa_in(s: Seq<u8>, from: int, to: int) -> bool {
    ||| from < to && digits_in(s, from, to)
    ||| exists|dot: int|
        from <= dot < to && to - from >= 2 && #[trigger] s[dot] == DOT && digits_in(s, from, dot)
            && digits_in(s, dot + 1, to)
}

/// Whether the bytes of `s` from `from` up to `to` spell an exponent: the
/// mark, an optional sign, and at least one digit.
pub open spec fn exponent_in(s: Seq<u8>, from: int, to: int) -> bool {
    &&& from < to
    &&& is_exponent_mark(s[from])
    &&& {
        let digits = if from + 1 < to && is_sign(s[from + 1]) {
            from + 2
        } else {
            from + 1
        };
        digits < to && digits_in(s, digits, to)
    }
}

/// Whether the bytes of `s` from `from` up to `to` spell a number: a
/// mantissa, then possibly an exponent.
pub open spec fn number_in(s: Seq<u8>, from: int, to: int) -> bool {
    exists|k: int|
        from <= k <= to && #[trigger] mantissa_in(s, from, k) && (k == to || exponent_in(s, k, to))
}

/// The lower-case form of an ASCII letter; any other byte unchanged.
pub open spec fn to_lower(b: u8) -> u8 {
    if 0x41 <= b <= 0x5a {
        (b + 0x20) as u8
    } else {
        b
    }
}

/// Whether the bytes of `s` from `from` to its end spell `word`, case
/// aside. `word` is in lower case.
pub open spec fn spells(s: Seq<u8>, from: int, word: Seq<u8>) -> bool {
    &&& s.len() - from == word.len()
    &&& forall|i: int| 0 <= i < word.len() ==> to_lower(#[trigger] s[from + i]) == word[i]
}

/// `inf`
pub open spec fn word_inf() -> Seq<u8> {
    seq![0x69u8, 0x6e, 0x66]
}

/// `infinity`
pub open spec fn word_infinity() -> Seq<u8> {
    seq![0x69u8, 0x6e, 0x66, 0x69, 0x6e, 0x69, 0x74, 0x79]
}

/// `nan`
pub open spec fn word_nan() -> Seq<u8> {
    seq![0x6eu8, 0x61, 0x6e]
}

/// The length of the sign that `s` begins with: 1 or 0.
pub open spec fn sign_len(s: Seq<u8>) -> int {
    if s.len() > 0 && is_sign(s[0]) {
        1
    } else {
        0
    }
}

/// Whether `s` is a floating-point literal: an optional sign, then one of
/// the three words or a number.
pub open spec fn is_float_literal(s: Seq<u8>) -> bool {
    let from = sign_len(s);
    ||| spells(s, from, word_inf())
    ||| spells(s, from, word_infinity())
    ||| spells(s, from, word_nan())
    ||| number_in(s, from, s.len() as int)
}

/// Computes [`to_lower`].
fn lower(b: u8) -> (r: u8)
    ensures
        r == to_lower(b),
{
    if 0x41 <= b && b <= 0x5a {
        b + 0x20
    } else {
        b
    }
}

/// Decides [`spells`].
fn spells_word(bytes: &[u8], from: usize, word: &[u8]) -> (r: bool)
    requires
        from <= bytes@.len(),
    ensures
        r == spells(bytes@, from as int, word@),
{
    if bytes.len() - from != word.len() {
        return false;
    }
    let mut i: usize = 0;
    while i < word.len()
        invariant
            i <= word@.len(),
            from <= bytes@.len(),
            bytes@.len() - from == word@.len(),
            bytes@.len() <= usize::MAX,
            forall|j: int| 0 <= j < i ==> to_lower(#[trigger] bytes@[from + j]) == word@[j],
        decreases word@.len() - i,
    {
        if lower(bytes[from + i]) != word[i] {
            assert(to_lower(bytes@[from + i]) != word@[i as int]);
            return false;
        }
        i += 1;
    }
    true
}

/// The end of the run of digits that begins at `from`.
fn skip_digits(bytes: &[u8], from: usize) -> (end: usize)
    requires
        from <= bytes@.len(),
    ensures
        from <= end <= bytes@.len(),
        digits_in(bytes@, from as int, end as int),
        end < bytes@.len() ==> !is_digit(bytes@[end as int]),
{
    let mut i = from;
    while i < bytes.len() && digit(bytes[i])
        invariant
            from <= i <= bytes@.len(),
            digits_in(bytes@, from as int, i as int),
        decreases bytes@.len() - i,
    {
        i += 1;
    }
    i
}

/// Decides [`exponent_in`] for what stands from `from` to the end.
fn exponent(bytes: &[u8], from: usize) -> (r: bool)
    requires
        from <= bytes@.len(),
    ensures
        r == exponent_in(bytes@, from as int, bytes@.len() as int),
{
    let n = bytes.len();
    if from >= n || !(bytes[from] == LOWER_E || bytes[from] == UPPER_E) {
        return false;
    }
    let digits = if from + 1 < n && sign(bytes[from + 1]) {
        from + 2
    } else {
        from + 1
    };
    if digits >= n {
        return false;
    }
    let end = skip_digits(bytes, digits);
    end == n
}

/// A mantissa that is followed by the text's end or by an exponent mark
/// ends where its digits end, and it holds a digit.
proof fn lemma_mantissa_ends_with_digits(
    s: Seq<u8>,
    from: int,
    k: int,
    int_end: int,
    frac_end: int,
)
    requires
        0 <= from <= int_end <= frac_end <= s.len(),
        digits_in(s, from, int_end),
        int_end < s.len() ==> !is_digit(s[int_end]),
        int_end < s.len() && s[int_end] == DOT ==> int_end < frac_end && digits_in(
            s,
            int_end + 1,
            frac_end,
        ) && (frac_end < s.len() ==> !is_digit(s[frac_end])),
        !(int_end < s.len() && s[int_end] == DOT) ==> frac_end == int_end,
        from <= k <= s.len(),
        mantissa_in(s, from, k),
        k < s.len() ==> is_exponent_mark(s[k]),
    ensures
        k == frac_end,
        from < int_end || int_end + 1 < frac_end,
{
    if from < k && digits_in(s, from, k) {
        if int_end < k {
            assert(is_digit(s[int_end]));
        }
        if k < int_end {
            assert(is_digit(s[k]));
        }
    } else {
        let dot = choose|dot: int|
            from <= dot < k && k - from >= 2 && #[trigger] s[dot] == DOT && digits_in(s, from, dot)
                && digits_in(s, dot + 1, k);
        if int_end < dot {
            assert(is_digit(s[int_end]));
        }
        if dot < int_end {
            assert(is_digit(s[dot]));
        }
        assert(int_end == dot);
        if frac_end < k {
            assert(is_digit(s[frac_end]));
        }
        if k < frac_end {
            assert(is_digit(s[k]));
        }
    }
}

/// Decides [`number_in`] for what stands from `from` to the end.
fn number(bytes: &[u8], from: usize) -> (r: bool)
    requires
        from <= bytes@.len(),
    ensures
        r == number_in(bytes@, from as int, bytes@.len() as int),
{
    let n = bytes.len();
    let ghost s = bytes@;
    let int_end = skip_digits(bytes, from);
    let frac_end = if int_end < n && bytes[int_end] == DOT {
        skip_digits(bytes, int_end + 1)
    } else {
        int_end
    };
    let has_digit = from < int_end || frac_end - int_end > 1;
    let r = has_digit && (frac_end == n || exponent(bytes, frac_end));
    proof {
        if r {
            if int_end < frac_end {
                assert(s[int_end as int] == DOT);
            }
            assert(mantissa_in(s, from as int, frac_end as int));
        } else if number_in(s, from as int, n as int) {
            let k = choose|k: int|
                from <= k <= n && #[trigger] mantissa_in(s, from as int, k) && (k == n
                    || exponent_in(s, k, n as int));
            lemma_mantissa_ends_with_digits(s, from as int, k, int_end as int, frac_end as int);
        }
    }
    r
}

/// Whether `text` is a floating-point literal.
pub fn float_literal(text: &str) -> (r: bool)
    ensures
        r == is_float_literal(text.spec_bytes()),
{
    let bytes = text.as_bytes();
    let from: usize = if bytes.len() > 0 && sign(bytes[0]) {
        1
    } else {
        0
    };
    let inf: [u8; 3] = [0x69, 0x6e, 0x66];
    let infinity: [u8; 8] = [0x69, 0x6e, 0x66, 0x69, 0x6e, 0x69, 0x74, 0x79];
    let nan: [u8; 3] = [0x6e, 0x61, 0x6e];
    assert(inf@ =~= word_inf());
    assert(infinity@ =~= word_infinity());
    assert(nan@ =~= word_nan());
    spells_word(bytes, from, inf.as_slice()) || spells_word(bytes, from, infinity.as_slice())
        || spells_word(bytes, from, nan.as_slice()) || number(bytes, from)
}

/// Whether `s` is a number as JSON writes it, with its whole part
/// between `from` and `int_end` and its mantissa ending at `frac_end`:
/// a zero, or digits that begin with none; possibly a decimal point with
/// digits behind it; possibly an exponent.
pub open spec fn json_number_parts(s: Seq<u8>, from: int, int_end: int, frac_end: int) -> bool {
    &&& 0 <= from < int_end <= frac_end <= s.len()
    &&& digits_in(s, from, int_end)
    &&& s[from] == ZERO ==> int_end == from + 1
    &&& frac_end == int_end || (int_end + 2 <= frac_end && s[int_end] == DOT && digits_in(
        s,
        int_end + 1,
        frac_end,
    ))
    &&& frac_end == s.len() || exponent_in(s, frac_end, s.len() as int)
}

/// Whether `s` is a number as JSON writes it: an optional minus sign,
/// then the parts that [`json_number_parts`] tells.
pub open spec fn is_json_number(s: Seq<u8>) -> bool {
    let from: int = if s.len() > 0 && s[0] == MINUS {
        1
    } else {
        0
    };
    exists|int_end: int, frac_end: int| #[trigger] json_number_parts(s, from, int_end, frac_end)
}

/// Every number as JSON writes it is a floating-point literal, and the
/// tokenizer takes the whole of it for one number token: it begins with a
/// digit or a minus sign and holds number bytes only.
pub proof fn lemma_json_number_is_float_literal(s: Seq<u8>)
    requires
        is_json_number(s),
    ensures
        is_float_literal(s),
        s.len() > 0,
        is_number_start(s[0]),
        forall|i: int| 0 <= i < s.len() ==> is_number_byte(#[trigger] s[i]),
{
    let from: int = if s.len() > 0 && s[0] == MINUS {
        1
    } else {
        0
    };
    let (int_end, frac_end) = choose|int_end: int, frac_end: int| #[trigger]
        json_number_parts(s, from, int_end, frac_end);
    assert(is_digit(s[from]));
    assert(sign_len(s) == from);
    if frac_end > int_end {
        assert(s[int_end] == DOT);
    }
    assert(mantissa_in(s, from, frac_end));
    assert(number_in(s, from, s.len() as int));
    assert forall|i: int| 0 <= i < s.len() implies is_number_byte(#[trigger] s[i]) by {
        if from <= i < int_end {
            assert(is_digit(s[i]));
        } else if int_end < i < frac_end {
            assert(is_digit(s[i]));
        } else if frac_end < i {
            let digits = if frac_end + 1 < s.len() && is_sign(s[frac_end + 1]) {
                frac_end + 2
            } else {
                frac_end + 1
            };
            if digits <= i {
                assert(is_digit(s[i]));
            }
        }
    }
}

} // verus!
