//! ASCII text: decimal numerals, byte-to-string conversion and string equality.

use vstd::prelude::*;
use vstd::utf8::*;

verus! {

broadcast use vstd::utf8::group_utf8_lib;

/// ASCII `+`.
pub const PLUS: u8 = 43;
/// ASCII `-`.
pub const MINUS: u8 = 45;
/// ASCII `,`.
pub const COMMA: u8 = 44;
/// ASCII space.
pub const SPACE: u8 = 32;
/// ASCII `(`.
pub const OPEN_PAREN: u8 = 40;
/// ASCII `)`.
pub const CLOSE_PAREN: u8 = 41;
/// ASCII `=`.
pub const EQUALS: u8 = 61;
/// ASCII `0`.
pub const DIGIT_ZERO: u8 = 48;
/// ASCII `9`.
pub const DIGIT_NINE: u8 = 57;
/// ASCII `d`.
pub const LOWER_D: u8 = 100;
/// ASCII `D`.
pub const UPPER_D: u8 = 68;
/// ASCII `k`.
pub const LOWER_K: u8 = 107;
/// ASCII `h`.
pub const LOWER_H: u8 = 104;
/// ASCII `l`.
pub const LOWER_L: u8 = 108;
/// ASCII `r`.
pub const LOWER_R: u8 = 114;
/// ASCII `e`.
pub const LOWER_E: u8 = 101;

/// Reads a byte sequence as the characters of an ASCII string.
pub open spec fn ascii_text(bytes: Seq<u8>) -> Seq<char> {
    bytes.map_values(|b: u8| b as char)
}

/// Every byte is in the ASCII range.
pub open spec fn is_ascii_bytes(bytes: Seq<u8>) -> bool {
    forall|i: int| 0 <= i < bytes.len() ==> #[trigger] bytes[i] < 128
}

/// ASCII code of the decimal digit `d`.
pub open spec fn digit_byte(d: nat) -> u8
    recommends
        d < 10,
{
    (48 + d) as u8
}

/// `b` is an ASCII decimal digit.
pub open spec fn is_digit(b: u8) -> bool {
    48 <= b <= 57
}

/// Value of the decimal digit `b`.
pub open spec fn digit_value(b: u8) -> nat {
    (b - 48) as nat
}

/// Shortest decimal numeral of `n` (no leading zeros; `"0"` for zero).
pub open spec fn decimal(n: nat) -> Seq<u8>
    decreases n,
{
    if n < 10 {
        seq![digit_byte(n)]
    } else {
        decimal(n / 10).push(digit_byte(n % 10))
    }
}

/// Value of a run of decimal digits, most significant first.
pub open spec fn digits_value(digits: Seq<u8>) -> nat
    decreases digits.len(),
{
    if digits.len() == 0 {
        0
    } else {
        digits_value(digits.drop_last()) * 10 + digit_value(digits.last())
    }
}

/// Every byte is a decimal digit.
pub open spec fn all_digits(bytes: Seq<u8>) -> bool {
    forall|i: int| 0 <= i < bytes.len() ==> is_digit(#[trigger] bytes[i])
}

/// Decimal numeral of a signed value: a `-` in front of the magnitude when negative.
pub open spec fn signed_decimal(v: int) -> Seq<u8> {
    if v < 0 {
        seq![45u8] + decimal((-v) as nat)
    } else {
        decimal(v as nat)
    }
}

/// Decimal numeral with an explicit sign: `+` for positive values.
pub open spec fn plus_signed_decimal(v: int) -> Seq<u8> {
    if v > 0 {
        seq![43u8] + decimal(v as nat)
    } else {
        signed_decimal(v)
    }
}

/// A numeral is a non-empty run of digits.
pub proof fn lemma_decimal_shape(n: nat)
    ensures
        decimal(n).len() >= 1,
        all_digits(decimal(n)),
        is_ascii_bytes(decimal(n)),
        digits_value(decimal(n)) == n,
    decreases n,
{
    if n >= 10 {
        lemma_decimal_shape(n / 10);
        let d = decimal(n / 10);
        assert(decimal(n).drop_last() =~= d);
        assert(digit_value(digit_byte(n % 10)) == n % 10);
        assert(n == (n / 10) * 10 + n % 10);
        assert(digits_value(decimal(n)) == digits_value(d) * 10 + digit_value(digit_byte(n % 10)));
    } else {
        assert(digit_value(digit_byte(n)) == n);
        assert(decimal(n).drop_last() =~= Seq::<u8>::empty());
        assert(digits_value(Seq::<u8>::empty()) == 0);
    }
}

/// Extending a digit run never lowers its value.
pub proof fn lemma_digits_value_prefix(digits: Seq<u8>, k: int)
    requires
        0 <= k <= digits.len(),
        all_digits(digits),
    ensures
        digits_value(digits.subrange(0, k)) <= digits_value(digits),
    decreases digits.len(),
{
    if k < digits.len() {
        let init = digits.drop_last();
        assert(init.subrange(0, k) =~= digits.subrange(0, k));
        lemma_digits_value_prefix(init, k);
        assert(digits_value(init) <= digits_value(digits)) by (nonlinear_arith)
            requires
                digits_value(digits) == digits_value(init) * 10 + digit_value(digits.last()),
        ;
    } else {
        assert(digits.subrange(0, k) =~= digits);
    }
}

/// Appends the shortest decimal numeral of `n`.
pub fn push_decimal(out: &mut Vec<u8>, n: u64)
    ensures
        final(out)@ == old(out)@ + decimal(n as nat),
    decreases n,
{
    if n >= 10 {
        push_decimal(out, n / 10);
    }
    let digit: u8 = (n % 10) as u8;
    out.push(48u8 + digit);
    proof {
        if n >= 10 {
            assert(old(out)@ + decimal(n as nat) =~= old(out)@ + decimal((n / 10) as nat) + seq![
                digit_byte((n % 10) as nat),
            ]);
        } else {
            assert(old(out)@ + decimal(n as nat) =~= old(out)@.push(digit_byte(n as nat)));
        }
    }
}

/// The shortest decimal numeral of `n` as a string.
pub fn decimal_string(n: u64) -> (s: String)
    ensures
        s@ == ascii_text(decimal(n as nat)),
{
    let mut bytes: Vec<u8> = Vec::new();
    push_decimal(&mut bytes, n);
    proof {
        lemma_decimal_shape(n as nat);
        assert(bytes@ =~= decimal(n as nat));
    }
    ascii_string(&bytes)
}

/// Appends the decimal numeral of a signed value (`-` before negative magnitudes).
pub fn push_signed_decimal(out: &mut Vec<u8>, v: i32)
    ensures
        final(out)@ == old(out)@ + signed_decimal(v as int),
{
    if v < 0 {
        out.push(45u8);
        let magnitude: u32 = if v == i32::MIN {
            2147483648u32
        } else {
            (-v) as u32
        };
        push_decimal(out, magnitude as u64);
        assert(final(out)@ =~= old(out)@ + signed_decimal(v as int));
    } else {
        push_decimal(out, v as u64);
    }
}

/// Appends the decimal numeral of a signed value, with `+` before positive values.
pub fn push_plus_signed_decimal(out: &mut Vec<u8>, v: i32)
    ensures
        final(out)@ == old(out)@ + plus_signed_decimal(v as int),
{
    if v > 0 {
        out.push(43u8);
        push_decimal(out, v as u64);
        assert(final(out)@ =~= old(out)@ + plus_signed_decimal(v as int));
    } else {
        push_signed_decimal(out, v);
    }
}

/// Appends one character by calling `String::push`. Trusted: the string
/// afterwards is the old one with `c` added at the end, as `String::push`
/// documents.
#[verifier::external_body]
fn string_push(s: &mut String, c: char)
    ensures
        final(s)@ == old(s)@.push(c),
{
    s.push(c);
}

/// The ASCII string spelled by `bytes`.
pub fn ascii_string(bytes: &Vec<u8>) -> (s: String)
    requires
        is_ascii_bytes(bytes@),
    ensures
        s@ == ascii_text(bytes@),
{
    let mut s = String::new();
    let mut i: usize = 0;
    while i < bytes.len()
        invariant
            i <= bytes.len(),
            is_ascii_bytes(bytes@),
            s@ =~= ascii_text(bytes@.subrange(0, i as int)),
        decreases bytes.len() - i,
    {
        let b = bytes[i];
        assert(b < 128);
        string_push(&mut s, b as char);
        i = i + 1;
        assert(ascii_text(bytes@.subrange(0, i as int)) =~= ascii_text(
            bytes@.subrange(0, (i - 1) as int),
        ).push(b as char));
    }
    assert(bytes@.subrange(0, i as int) =~= bytes@);
    s
}

/// The UTF-8 bytes of an ASCII text are its bytes.
pub proof fn lemma_ascii_text_bytes(bytes: Seq<u8>)
    requires
        is_ascii_bytes(bytes),
    ensures
        is_ascii_chars(ascii_text(bytes)),
        encode_utf8(ascii_text(bytes)) == bytes,
{
    let t = ascii_text(bytes);
    assert forall|i: int| 0 <= i < t.len() implies '\0' <= #[trigger] t[i] <= '\u{7f}' by {
        assert(bytes[i] < 128);
    }
    is_ascii_chars_encode_utf8(t);
    assert(encode_utf8(t) =~= bytes);
}

/// Compares two strings character by character.
pub fn str_eq(a: &str, b: &str) -> (eq: bool)
    ensures
        eq == (a@ == b@),
{
    let x = a.as_bytes();
    let y = b.as_bytes();
    proof {
        encode_utf8_decode_utf8(a@);
        encode_utf8_decode_utf8(b@);
    }
    if x.len() != y.len() {
        return false;
    }
    let mut i: usize = 0;
    while i < x.len()
        invariant
            i <= x@.len(),
            x@.len() == y@.len(),
            x@ == encode_utf8(a@),
            y@ == encode_utf8(b@),
            forall|j: int| 0 <= j < i ==> x@[j] == y@[j],
        decreases x@.len() - i,
    {
        if x[i] != y[i] {
            return false;
        }
        i = i + 1;
    }
    assert(x@ =~= y@);
    true
}

} // verus!
