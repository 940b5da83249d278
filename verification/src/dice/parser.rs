//! Parser for dice expressions such as `3d6+2` or `4d6kh3r1e6-1d4`.
//!
//! The grammar is read byte by byte: terms `NdK` (count optional, `d` or
//! `D`), each followed by case-insensitive modifiers `khN`, `klN`, `rN`,
//! `eN` in any order, and signed integer adjustments, joined by `+` / `-`.
//! ASCII whitespace is ignored wherever it stands, inside numbers and
//! modifiers as well as between tokens.

use vstd::prelude::*;
use vstd::string::{StringExecFns, StringSliceAdditionalSpecFns};

use super::kind::DieKind;
use super::options::{no_options, Options, OptionsError};
use super::roll::{DiceRoll, DiceTerm};
use super::text::{
    all_digits, ascii_text, decimal, decimal_string, digits_value, is_digit, lemma_digits_value_prefix, DIGIT_NINE,
    DIGIT_ZERO, LOWER_D, LOWER_E, LOWER_H, LOWER_K, LOWER_L, LOWER_R, MINUS, PLUS, UPPER_D,
};

verus! {

broadcast use vstd::slice::group_slice_axioms;

/// Largest die count a single term may carry (e.g. `1000d6`).
pub const MAX_DICE_PER_TERM: u32 = 1000;

/// Failures returned by [`DiceRoll::parse`].
#[derive(Clone, Copy, Debug, PartialEq, Eq)]
pub enum ParseError {
    /// Input was empty or whitespace-only.
    Empty,
    /// The expression contains adjustments without any dice terms.
    NoDice,
    /// A `d` was followed by a number that doesn't match a supported [`DieKind`].
    UnknownDieSides(u32),
    /// A term used a count of zero (e.g. `0d6`).
    ZeroCount,
    /// A term's die count exceeded [`MAX_DICE_PER_TERM`].
    CountTooLarge(u32),
    /// A literal exceeded `u32` or an adjustment exceeded `-i32::MAX..=i32::MAX`.
    Overflow,
    /// A modifier cannot be applied to the term's die kind.
    InvalidOptions(OptionsError),
    /// Generic syntax error at `position` (byte offset) with a short reason.
    Malformed { position: usize, reason: &'static str },
}

impl ParseError {
    /// The sentence that describes this error.
    pub open spec fn message(self) -> Seq<char> {
        match self {
            ParseError::Empty => "empty dice expression"@,
            ParseError::NoDice => "expression must contain at least one dice term"@,
            ParseError::UnknownDieSides(sides) => "no die has "@ + ascii_text(decimal(sides as nat)) + " sides"@,
            ParseError::ZeroCount => "die count must be at least 1"@,
            ParseError::CountTooLarge(count) => "die count "@ + ascii_text(decimal(count as nat))
                + " exceeds the limit of "@ + ascii_text(decimal(MAX_DICE_PER_TERM as nat)),
            ParseError::Overflow => "numeric literal or accumulated adjustment out of range"@,
            ParseError::InvalidOptions(OptionsError::KeepZero) => "keep count must be at least 1"@,
            ParseError::InvalidOptions(OptionsError::RerollNotBelowMax { reroll, sides }) => "reroll threshold "@
                + ascii_text(decimal(reroll as nat)) + " must be below "@ + ascii_text(decimal(sides as nat)),
            ParseError::InvalidOptions(OptionsError::ExplodeNotAboveMin { explode }) => "explode threshold "@
                + ascii_text(decimal(explode as nat)) + " must be above 1"@,
            ParseError::Malformed { position, reason } => "malformed expression at byte "@ + ascii_text(
                decimal(position as nat),
            ) + ": "@ + reason@,
        }
    }

    /// Describes the error in one sentence.
    pub fn to_string(&self) -> (text: String)
        ensures
            text@ == self.message(),
    {
        match *self {
            ParseError::Empty => String::from_str("empty dice expression"),
            ParseError::NoDice => String::from_str("expression must contain at least one dice term"),
            ParseError::UnknownDieSides(sides) => {
                let number = decimal_string(sides as u64);
                let mut text = String::from_str("no die has ");
                text.append(number.as_str());
                text.append(" sides");
                text
            },
            ParseError::ZeroCount => String::from_str("die count must be at least 1"),
            ParseError::CountTooLarge(count) => {
                let number = decimal_string(count as u64);
                let limit = decimal_string(MAX_DICE_PER_TERM as u64);
                let mut text = String::from_str("die count ");
                text.append(number.as_str());
                text.append(" exceeds the limit of ");
                text.append(limit.as_str());
                text
            },
            ParseError::Overflow => String::from_str("numeric literal or accumulated adjustment out of range"),
            ParseError::InvalidOptions(OptionsError::KeepZero) => String::from_str("keep count must be at least 1"),
            ParseError::InvalidOptions(OptionsError::RerollNotBelowMax { reroll, sides }) => {
                let threshold = decimal_string(reroll as u64);
                let faces = decimal_string(sides as u64);
                let mut text = String::from_str("reroll threshold ");
                text.append(threshold.as_str());
                text.append(" must be below ");
                text.append(faces.as_str());
                text
            },
            ParseError::InvalidOptions(OptionsError::ExplodeNotAboveMin { explode }) => {
                let threshold = decimal_string(explode as u64);
                let mut text = String::from_str("explode threshold ");
                text.append(threshold.as_str());
                text.append(" must be above 1");
                text
            },
            ParseError::Malformed { position, reason } => {
                let number = decimal_string(position as u64);
                let mut text = String::from_str("malformed expression at byte ");
                text.append(number.as_str());
                text.append(": ");
                text.append(reason);
                text
            },
        }
    }
}

/// A lexical token: a dice term head or a plain number.
#[derive(Clone, Copy, Debug, PartialEq, Eq, Structural)]
pub enum Token {
    /// `NdK`; a missing `N` reads as 1.
    Dice { count: u32, sides: u32 },
    /// A plain decimal number.
    Number(u32),
}

/// Which modifier a suffix sets.
#[derive(Clone, Copy, Debug, PartialEq, Eq, Structural)]
pub enum ModifierSlot {
    KeepHighest,
    KeepLowest,
    Reroll,
    Explode,
}

// ---------------------------------------------------------------------------
// Byte classes
// ---------------------------------------------------------------------------

/// ASCII whitespace as `u8::is_ascii_whitespace` defines it: space, tab,
/// line feed, form feed, carriage return.
pub open spec fn is_space(b: u8) -> bool {
    b == 32 || b == 9 || b == 10 || b == 12 || b == 13
}

/// ASCII lower-casing: `A..=Z` map to `a..=z`, every other byte is unchanged.
pub open spec fn to_lower(b: u8) -> u8 {
    if 65 <= b <= 90 {
        (b + 32) as u8
    } else {
        b
    }
}

fn byte_is_space(b: u8) -> (space: bool)
    ensures
        space == is_space(b),
{
    b == 32 || b == 9 || b == 10 || b == 12 || b == 13
}

fn byte_is_digit(b: u8) -> (digit: bool)
    ensures
        digit == is_digit(b),
{
    DIGIT_ZERO <= b && b <= DIGIT_NINE
}

fn byte_to_lower(b: u8) -> (lower: u8)
    ensures
        lower == to_lower(b),
{
    if 65 <= b && b <= 90 {
        b + 32
    } else {
        b
    }
}

// ---------------------------------------------------------------------------
// The reading of an expression, as functions of the input bytes
// ---------------------------------------------------------------------------

/// First position at or after `i` that is not whitespace.
pub open spec fn skip_spaces(s: Seq<u8>, i: int) -> int
    decreases s.len() - i,
{
    if 0 <= i < s.len() && is_space(s[i]) {
        skip_spaces(s, i + 1)
    } else {
        i
    }
}

/// End of the run of decimal digits that starts at `i`.
pub open spec fn digits_end(s: Seq<u8>, i: int) -> int
    decreases s.len() - i,
{
    if 0 <= i < s.len() && is_digit(s[i]) {
        digits_end(s, i + 1)
    } else {
        i
    }
}

/// Reads the digits at `i`: `None` when there are none, their value
/// otherwise, or `Overflow` when the value does not fit in `u32`. Also
/// gives the position after the digits.
pub open spec fn spec_read_digits(s: Seq<u8>, i: int) -> Result<(Option<u32>, int), ParseError> {
    let end = digits_end(s, i);
    if end == i {
        Ok((None, i))
    } else if digits_value(s.subrange(i, end)) > u32::MAX {
        Err(ParseError::Overflow)
    } else {
        Ok((Some(digits_value(s.subrange(i, end)) as u32), end))
    }
}

/// `d` or `D`.
pub open spec fn is_d(b: u8) -> bool {
    b == LOWER_D || b == UPPER_D
}

/// Reads a token at `i`: digits, then a `d`/`D` and the face count for a
/// dice term.
pub open spec fn spec_read_token(s: Seq<u8>, i: int) -> Result<(Token, int), ParseError> {
    match spec_read_digits(s, i) {
        Err(e) => Err(e),
        Ok((leading, j)) => {
            if j < s.len() && is_d(s[j]) {
                match spec_read_digits(s, j + 1) {
                    Err(e) => Err(e),
                    Ok((None, k)) => Err(
                        ParseError::Malformed { position: k as usize, reason: "expected digits after 'd'" },
                    ),
                    Ok((Some(sides), k)) => Ok(
                        (
                            Token::Dice {
                                count: match leading {
                                    Some(count) => count,
                                    None => 1,
                                },
                                sides,
                            },
                            k,
                        ),
                    ),
                }
            } else {
                match leading {
                    None => Err(
                        ParseError::Malformed { position: i as usize, reason: "expected number or dice term" },
                    ),
                    Some(value) => Ok((Token::Number(value), j)),
                }
            }
        },
    }
}

/// The value a modifier slot holds.
pub open spec fn slot_value(options: Options, slot: ModifierSlot) -> Option<u32> {
    match slot {
        ModifierSlot::KeepHighest => options.keep_highest,
        ModifierSlot::KeepLowest => options.keep_lowest,
        ModifierSlot::Reroll => options.reroll_at_or_below,
        ModifierSlot::Explode => options.explode_at_or_above,
    }
}

/// The options with one slot set.
pub open spec fn set_slot(options: Options, slot: ModifierSlot, value: u32) -> Options {
    match slot {
        ModifierSlot::KeepHighest => Options { keep_highest: Some(value), ..options },
        ModifierSlot::KeepLowest => Options { keep_lowest: Some(value), ..options },
        ModifierSlot::Reroll => Options { reroll_at_or_below: Some(value), ..options },
        ModifierSlot::Explode => Options { explode_at_or_above: Some(value), ..options },
    }
}

/// The modifier letter(s) at `p`: `Ok(None)` when no modifier starts there,
/// the slot and the position after its letters otherwise.
pub open spec fn spec_modifier_head(s: Seq<u8>, p: int) -> Result<Option<(ModifierSlot, int)>, ParseError> {
    if p >= s.len() {
        Ok(None)
    } else if to_lower(s[p]) == LOWER_K {
        if p + 1 < s.len() && to_lower(s[p + 1]) == LOWER_H {
            Ok(Some((ModifierSlot::KeepHighest, p + 2)))
        } else if p + 1 < s.len() && to_lower(s[p + 1]) == LOWER_L {
            Ok(Some((ModifierSlot::KeepLowest, p + 2)))
        } else {
            Err(ParseError::Malformed { position: p as usize, reason: "expected 'kh' or 'kl'" })
        }
    } else if to_lower(s[p]) == LOWER_R {
        Ok(Some((ModifierSlot::Reroll, p + 1)))
    } else if to_lower(s[p]) == LOWER_E {
        Ok(Some((ModifierSlot::Explode, p + 1)))
    } else {
        Ok(None)
    }
}

/// Reads modifier suffixes from `i` on into `options`, stopping at the first
/// byte (after whitespace) that starts none; gives the options and the
/// position where reading stopped.
pub open spec fn spec_read_options(s: Seq<u8>, i: int, options: Options) -> Result<(Options, int), ParseError>
    decreases s.len() - i,
{
    let p = skip_spaces(s, i);
    match spec_modifier_head(s, p) {
        Err(e) => Err(e),
        Ok(None) => Ok((options, p)),
        Ok(Some((slot, q))) => {
            if slot_value(options, slot) is Some {
                Err(ParseError::Malformed { position: p as usize, reason: "duplicate modifier" })
            } else {
                match spec_read_digits(s, q) {
                    Err(e) => Err(e),
                    Ok((None, k)) => Err(
                        ParseError::Malformed { position: k as usize, reason: "expected digits after modifier" },
                    ),
                    Ok((Some(value), k)) => {
                        proof {
                            lemma_skip_spaces_advances(s, i);
                            lemma_modifier_head_advances(s, p);
                            lemma_read_digits_advances(s, q);
                        }
                        spec_read_options(s, k, set_slot(options, slot, value))
                    },
                }
            }
        },
    }
}

/// Reads the sign at `i`: `true` for `-`, `false` for `+`.
pub open spec fn spec_read_sign(s: Seq<u8>, i: int) -> Result<bool, ParseError> {
    if 0 <= i < s.len() && s[i] == PLUS {
        Ok(false)
    } else if 0 <= i < s.len() && s[i] == MINUS {
        Ok(true)
    } else {
        Err(ParseError::Malformed { position: i as usize, reason: "expected '+' or '-'" })
    }
}

/// Reads the rest of an expression from `i`: a token (signed by `negate`),
/// then either the end of input or a `+` / `-` and more. `terms` and
/// `adjustment` hold what was read before.
pub open spec fn spec_parse_terms(
    s: Seq<u8>,
    i: int,
    terms: Seq<DiceTerm>,
    adjustment: int,
    negate: bool,
) -> Result<(Seq<DiceTerm>, i32), ParseError>
    decreases s.len() - i,
{
    let p = skip_spaces(s, i);
    let step: Result<(Seq<DiceTerm>, int, int), ParseError> = match spec_read_token(s, p) {
        Err(e) => Err(e),
        Ok((Token::Dice { count, sides }, k)) => match DieKind::spec_from_sides(sides) {
            None => Err(ParseError::UnknownDieSides(sides)),
            Some(kind) => {
                if count == 0 {
                    Err(ParseError::ZeroCount)
                } else if count > MAX_DICE_PER_TERM {
                    Err(ParseError::CountTooLarge(count))
                } else {
                    match spec_read_options(s, k, no_options()) {
                        Err(e) => Err(e),
                        Ok((options, end)) => match options.spec_validate_for(kind) {
                            Err(e) => Err(ParseError::InvalidOptions(e)),
                            Ok(_) => Ok(
                                (terms.push(DiceTerm { count, kind, negate, options }), adjustment, end),
                            ),
                        },
                    }
                }
            }
        },
        Ok((Token::Number(value), k)) => {
            let next = adjustment + if negate {
                -(value as int)
            } else {
                value as int
            };
            if value > i32::MAX || next <= i32::MIN || next > i32::MAX {
                Err(ParseError::Overflow)
            } else {
                Ok((terms, next, k))
            }
        },
    };
    match step {
        Err(e) => Err(e),
        Ok((terms, adjustment, end)) => {
            let q = skip_spaces(s, end);
            if q >= s.len() {
                if terms.len() == 0 {
                    Err(ParseError::NoDice)
                } else {
                    Ok((terms, adjustment as i32))
                }
            } else {
                match spec_read_sign(s, q) {
                    Err(e) => Err(e),
                    Ok(negate) => {
                proof {
                    lemma_skip_spaces_advances(s, i);
                    lemma_read_token_advances(s, p);
                    if let Ok((Token::Dice { count, sides }, k)) = spec_read_token(s, p) {
                        lemma_read_options_advances(s, k, no_options());
                    }
                    lemma_skip_spaces_advances(s, end);
                }
                spec_parse_terms(s, q + 1, terms, adjustment, negate)
                    },
                }
            }
        },
    }
}

/// Whitespace skipping never moves backwards.
pub proof fn lemma_skip_spaces_advances(s: Seq<u8>, i: int)
    ensures
        skip_spaces(s, i) >= i,
        i <= s.len() ==> skip_spaces(s, i) <= s.len(),
    decreases s.len() - i,
{
    if 0 <= i < s.len() && is_space(s[i]) {
        lemma_skip_spaces_advances(s, i + 1);
    }
}

/// A digit run never ends before it starts.
pub proof fn lemma_digits_end_advances(s: Seq<u8>, i: int)
    ensures
        digits_end(s, i) >= i,
        i <= s.len() ==> digits_end(s, i) <= s.len(),
    decreases s.len() - i,
{
    if 0 <= i < s.len() && is_digit(s[i]) {
        lemma_digits_end_advances(s, i + 1);
    }
}

/// Reading digits never moves backwards.
pub proof fn lemma_read_digits_advances(s: Seq<u8>, i: int)
    ensures
        spec_read_digits(s, i) matches Ok((_, k)) ==> k >= i && (i <= s.len() ==> k <= s.len()),
{
    lemma_digits_end_advances(s, i);
}

/// A modifier's letters are at least one byte long.
pub proof fn lemma_modifier_head_advances(s: Seq<u8>, p: int)
    ensures
        spec_modifier_head(s, p) matches Ok(Some((_, q))) ==> q > p && q <= s.len(),
{
}

/// A token is at least one byte long.
pub proof fn lemma_read_token_advances(s: Seq<u8>, i: int)
    ensures
        spec_read_token(s, i) matches Ok((_, k)) ==> k > i,
{
    lemma_read_digits_advances(s, i);
    if let Ok((_, j)) = spec_read_digits(s, i) {
        lemma_read_digits_advances(s, j + 1);
    }
}

/// Reading modifiers never moves backwards.
pub proof fn lemma_read_options_advances(s: Seq<u8>, i: int, options: Options)
    ensures
        spec_read_options(s, i, options) matches Ok((_, k)) ==> k >= i,
    decreases s.len() - i,
{
    let p = skip_spaces(s, i);
    lemma_skip_spaces_advances(s, i);
    lemma_modifier_head_advances(s, p);
    if let Ok(Some((slot, q))) = spec_modifier_head(s, p) {
        lemma_read_digits_advances(s, q);
        if let Ok((Some(value), k)) = spec_read_digits(s, q) {
            lemma_read_options_advances(s, k, set_slot(options, slot, value));
        }
    }
}

/// The reading of bytes that hold no whitespace: the terms and the
/// adjustment, or the first error met reading left to right.
pub open spec fn spec_parse_tokens(s: Seq<u8>) -> Result<(Seq<DiceTerm>, i32), ParseError> {
    let start = skip_spaces(s, 0);
    if start >= s.len() {
        Err(ParseError::Empty)
    } else {
        spec_parse_terms(s, start, Seq::empty(), 0, false)
    }
}

// ---------------------------------------------------------------------------
// Whitespace is ignored everywhere
// ---------------------------------------------------------------------------

/// The input with every whitespace byte taken out.
pub open spec fn without_spaces(s: Seq<u8>) -> Seq<u8>
    decreases s.len(),
{
    if s.len() == 0 {
        Seq::empty()
    } else if is_space(s.last()) {
        without_spaces(s.drop_last())
    } else {
        without_spaces(s.drop_last()).push(s.last())
    }
}

/// Where each byte of [`without_spaces`] stands in the input, in order.
pub open spec fn kept_positions(s: Seq<u8>) -> Seq<int>
    decreases s.len(),
{
    if s.len() == 0 {
        Seq::empty()
    } else if is_space(s.last()) {
        kept_positions(s.drop_last())
    } else {
        kept_positions(s.drop_last()).push(s.len() - 1)
    }
}

/// The input offset of byte `p` of [`without_spaces`]; the end of the input
/// for a position past its last byte.
pub open spec fn source_offset(s: Seq<u8>, p: int) -> int {
    if 0 <= p < kept_positions(s).len() {
        kept_positions(s)[p]
    } else {
        s.len() as int
    }
}

/// A reading of the input without its whitespace, with the position of a
/// syntax error moved back to the byte offset in the input itself.
pub open spec fn relocated(s: Seq<u8>, r: Result<(Seq<DiceTerm>, i32), ParseError>) -> Result<
    (Seq<DiceTerm>, i32),
    ParseError,
> {
    match r {
        Err(ParseError::Malformed { position, reason }) => Err(
            ParseError::Malformed { position: source_offset(s, position as int) as usize, reason },
        ),
        _ => r,
    }
}

/// What [`DiceRoll::parse`] gives for the input bytes `s`. Whitespace is
/// ignored wherever it stands, inside numbers and modifiers too: the input
/// reads as its bytes without whitespace, and a syntax error names the
/// offset of the offending byte in `s`.
pub open spec fn spec_parse(s: Seq<u8>) -> Result<(Seq<DiceTerm>, i32), ParseError> {
    relocated(s, spec_parse_tokens(without_spaces(s)))
}

/// The whitespace-free bytes, and their offsets, line up with the input.
pub proof fn lemma_without_spaces(s: Seq<u8>)
    ensures
        without_spaces(s).len() == kept_positions(s).len(),
        without_spaces(s).len() <= s.len(),
        forall|p: int|
            0 <= p < kept_positions(s).len() ==> 0 <= #[trigger] kept_positions(s)[p] < s.len()
                && s[kept_positions(s)[p]] == without_spaces(s)[p],
        forall|p: int| 0 <= p < without_spaces(s).len() ==> !is_space(#[trigger] without_spaces(s)[p]),
    decreases s.len(),
{
    if s.len() > 0 {
        lemma_without_spaces(s.drop_last());
    }
}

/// Bytes with no whitespace are their own whitespace-free form.
pub proof fn lemma_without_spaces_none(s: Seq<u8>)
    requires
        forall|i: int| 0 <= i < s.len() ==> !is_space(#[trigger] s[i]),
    ensures
        without_spaces(s) == s,
        forall|p: int| 0 <= p < s.len() ==> #[trigger] kept_positions(s)[p] == p,
        kept_positions(s).len() == s.len(),
    decreases s.len(),
{
    if s.len() > 0 {
        lemma_without_spaces_none(s.drop_last());
        assert(without_spaces(s) =~= s);
    }
}

/// Taking the whitespace out of joined bytes takes it out of each part.
pub proof fn lemma_without_spaces_concat(a: Seq<u8>, b: Seq<u8>)
    ensures
        without_spaces(a + b) == without_spaces(a) + without_spaces(b),
    decreases b.len(),
{
    if b.len() == 0 {
        assert(a + b =~= a);
        assert(without_spaces(a) + without_spaces(b) =~= without_spaces(a));
    } else {
        lemma_without_spaces_concat(a, b.drop_last());
        assert((a + b).drop_last() =~= a + b.drop_last());
        assert((a + b).last() == b.last());
        if is_space(b.last()) {
        } else {
            assert(without_spaces(a + b) =~= without_spaces(a) + without_spaces(b));
        }
    }
}

/// Whitespace is ignored anywhere: the input with its whitespace taken out
/// reads as the same expression, or fails with the same error, except that
/// a syntax error may name another offset.
pub proof fn lemma_parse_ignores_whitespace(s: Seq<u8>)
    ensures
        match spec_parse(without_spaces(s)) {
            Err(ParseError::Malformed { .. }) => spec_parse(s) is Err && spec_parse(s)->Err_0 is Malformed,
            r => spec_parse(s) == r,
        },
{
    lemma_without_spaces(s);
    lemma_without_spaces_none(without_spaces(s));
}

/// A run of whitespace: every byte from `i` up to [`skip_spaces`] is a space,
/// and the byte there (if any) is not.
pub proof fn lemma_skip_spaces_stop(s: Seq<u8>, i: int, c: int)
    requires
        0 <= i <= c <= s.len(),
        forall|j: int| i <= j < c ==> is_space(#[trigger] s[j]),
        c == s.len() || !is_space(s[c]),
    ensures
        skip_spaces(s, i) == c,
    decreases c - i,
{
    if i < c {
        lemma_skip_spaces_stop(s, i + 1, c);
    }
}

/// A run of digits: every byte from `i` up to [`digits_end`] is a digit, and
/// the byte there (if any) is not.
pub proof fn lemma_digits_end_stop(s: Seq<u8>, i: int, c: int)
    requires
        0 <= i <= c <= s.len(),
        forall|j: int| i <= j < c ==> is_digit(#[trigger] s[j]),
        c == s.len() || !is_digit(s[c]),
    ensures
        digits_end(s, i) == c,
    decreases c - i,
{
    if i < c {
        lemma_digits_end_stop(s, i + 1, c);
    }
}

/// The bytes up to [`digits_end`] are digits.
pub proof fn lemma_digits_end_run(s: Seq<u8>, i: int)
    requires
        0 <= i <= s.len(),
    ensures
        i <= digits_end(s, i) <= s.len(),
        forall|j: int| i <= j < digits_end(s, i) ==> is_digit(#[trigger] s[j]),
    decreases s.len() - i,
{
    if i < s.len() && is_digit(s[i]) {
        lemma_digits_end_run(s, i + 1);
    }
}

/// Byte cursor over the input.
struct Lexer<'a> {
    source: &'a [u8],
    cursor: usize,
}

impl<'a> Lexer<'a> {
    /// The cursor stays within the input.
    spec fn wf(&self) -> bool {
        &&& self.cursor <= self.source@.len()
        &&& self.source@.len() <= usize::MAX
    }

    fn new(source: &'a [u8]) -> (lexer: Self)
        ensures
            lexer.source@ == source@,
            lexer.cursor == 0,
            lexer.wf(),
    {
        let _length = source.len();
        Self { source, cursor: 0 }
    }

    fn is_done(&self) -> (done: bool)
        ensures
            done == (self.cursor >= self.source@.len()),
    {
        self.cursor >= self.source.len()
    }

    fn peek(&self) -> (byte: Option<u8>)
        ensures
            byte == if self.cursor < self.source@.len() {
                Some(self.source@[self.cursor as int])
            } else {
                None
            },
    {
        if self.cursor < self.source.len() {
            Some(self.source[self.cursor])
        } else {
            None
        }
    }

    fn bump(&mut self) -> (byte: Option<u8>)
        requires
            old(self).wf(),
        ensures
            final(self).wf(),
            final(self).source == old(self).source,
            old(self).cursor < old(self).source@.len() ==> byte == Some(old(self).source@[old(self).cursor as int])
                && final(self).cursor == old(self).cursor + 1,
            old(self).cursor >= old(self).source@.len() ==> byte is None && final(self).cursor == old(self).cursor,
    {
        if self.cursor < self.source.len() {
            let byte = self.source[self.cursor];
            self.cursor += 1;
            Some(byte)
        } else {
            None
        }
    }

    fn skip_whitespace(&mut self)
        requires
            old(self).wf(),
        ensures
            final(self).wf(),
            final(self).source == old(self).source,
            final(self).cursor == skip_spaces(old(self).source@, old(self).cursor as int),
            final(self).cursor >= old(self).cursor,
    {
        let ghost start = self.cursor as int;
        while self.cursor < self.source.len() && byte_is_space(self.source[self.cursor])
            invariant
                self.wf(),
                self.source == old(self).source,
                start <= self.cursor,
                forall|j: int| start <= j < self.cursor ==> is_space(#[trigger] self.source@[j]),
            decreases self.source@.len() - self.cursor,
        {
            self.cursor += 1;
        }
        proof {
            lemma_skip_spaces_stop(self.source@, start, self.cursor as int);
        }
    }

    /// `true` for `-`, `false` for `+`.
    fn read_sign(&mut self) -> (negate: Result<bool, ParseError>)
        requires
            old(self).wf(),
        ensures
            final(self).wf(),
            final(self).source == old(self).source,
            negate == spec_read_sign(old(self).source@, old(self).cursor as int),
            negate is Ok ==> final(self).cursor == old(self).cursor + 1,
    {
        let position = self.cursor;
        match self.bump() {
            Some(byte) => {
                if byte == PLUS {
                    Ok(false)
                } else if byte == MINUS {
                    Ok(true)
                } else {
                    Err(ParseError::Malformed { position, reason: "expected '+' or '-'" })
                }
            },
            None => Err(ParseError::Malformed { position, reason: "expected '+' or '-'" }),
        }
    }

    fn read_digits(&mut self) -> (digits: Result<Option<u32>, ParseError>)
        requires
            old(self).wf(),
        ensures
            final(self).wf(),
            final(self).source == old(self).source,
            match spec_read_digits(old(self).source@, old(self).cursor as int) {
                Ok((value, end)) => digits == Ok::<Option<u32>, ParseError>(value) && final(self).cursor == end,
                Err(e) => digits == Err::<Option<u32>, ParseError>(e),
            },
            digits is Ok ==> final(self).cursor >= old(self).cursor,
    {
        let start = self.cursor;
        let ghost s = self.source@;
        let mut value: u32 = 0;
        while self.cursor < self.source.len() && byte_is_digit(self.source[self.cursor])
            invariant
                self.wf(),
                self.source == old(self).source,
                s == self.source@,
                start == old(self).cursor,
                start <= self.cursor,
                all_digits(s.subrange(start as int, self.cursor as int)),
                value == digits_value(s.subrange(start as int, self.cursor as int)),
            decreases self.source@.len() - self.cursor,
        {
            let byte = self.source[self.cursor];
            let digit: u32 = (byte - DIGIT_ZERO) as u32;
            let ghost c = self.cursor as int;
            proof {
                assert(s.subrange(start as int, c + 1).drop_last() =~= s.subrange(start as int, c));
                assert(all_digits(s.subrange(start as int, c + 1)));
                assert(digits_value(s.subrange(start as int, c + 1)) == value * 10 + digit);
            }
            let next = match value.checked_mul(10) {
                Some(scaled) => scaled.checked_add(digit),
                None => None,
            };
            match next {
                Some(next) => {
                    value = next;
                },
                None => {
                    proof {
                        lemma_digits_end_run(s, start as int);
                        let end = digits_end(s, start as int);
                        lemma_digits_end_advances(s, c);
                        assert(digits_end(s, start as int) >= c + 1) by {
                            assert forall|j: int| start <= j <= c implies is_digit(#[trigger] s[j]) by {
                                if j < c {
                                    assert(s.subrange(start as int, c)[j - start] == s[j]);
                                }
                            }
                            lemma_digits_end_past(s, start as int, c);
                        }
                        let run = s.subrange(start as int, end);
                        assert(all_digits(run));
                        lemma_digits_value_prefix(run, c + 1 - start);
                        assert(run.subrange(0, c + 1 - start) =~= s.subrange(start as int, c + 1));
                    }
                    return Err(ParseError::Overflow);
                },
            }
            self.cursor += 1;
        }
        proof {
            assert forall|j: int| start <= j < self.cursor implies is_digit(#[trigger] s[j]) by {
                assert(s.subrange(start as int, self.cursor as int)[j - start] == s[j]);
            }
            lemma_digits_end_stop(s, start as int, self.cursor as int);
        }
        if self.cursor > start {
            Ok(Some(value))
        } else {
            Ok(None)
        }
    }
}

impl<'a> Lexer<'a> {
    fn read_token(&mut self) -> (token: Result<Token, ParseError>)
        requires
            old(self).wf(),
        ensures
            final(self).wf(),
            final(self).source == old(self).source,
            match spec_read_token(old(self).source@, old(self).cursor as int) {
                Ok((t, end)) => token == Ok::<Token, ParseError>(t) && final(self).cursor == end,
                Err(e) => token == Err::<Token, ParseError>(e),
            },
            token is Ok ==> final(self).cursor > old(self).cursor,
    {
        proof {
            lemma_read_token_advances(self.source@, self.cursor as int);
        }
        let position = self.cursor;
        let leading = self.read_digits()?;
        let next = self.peek();
        let is_dice = match next {
            Some(byte) => byte == LOWER_D || byte == UPPER_D,
            None => false,
        };
        if is_dice {
            self.cursor += 1;
            let sides = match self.read_digits()? {
                Some(sides) => sides,
                None => {
                    return Err(
                        ParseError::Malformed { position: self.cursor, reason: "expected digits after 'd'" },
                    );
                },
            };
            let count = match leading {
                Some(count) => count,
                None => 1,
            };
            Ok(Token::Dice { count, sides })
        } else {
            match leading {
                Some(value) => Ok(Token::Number(value)),
                None => Err(ParseError::Malformed { position, reason: "expected number or dice term" }),
            }
        }
    }

    /// The modifier letters at the cursor, which moves past them when a
    /// modifier starts there.
    fn read_modifier_head(&mut self) -> (head: Result<Option<ModifierSlot>, ParseError>)
        requires
            old(self).wf(),
        ensures
            final(self).wf(),
            final(self).source == old(self).source,
            match spec_modifier_head(old(self).source@, old(self).cursor as int) {
                Ok(Some((slot, end))) => head == Ok::<Option<ModifierSlot>, ParseError>(Some(slot))
                    && final(self).cursor == end,
                Ok(None) => head == Ok::<Option<ModifierSlot>, ParseError>(None) && final(self).cursor
                    == old(self).cursor,
                Err(e) => head == Err::<Option<ModifierSlot>, ParseError>(e),
            },
            head matches Ok(Some(_)) ==> final(self).cursor > old(self).cursor,
    {
        let position = self.cursor;
        let lower = match self.peek() {
            Some(byte) => byte_to_lower(byte),
            None => return Ok(None),
        };
        if lower == LOWER_K {
            self.cursor += 1;
            match self.bump() {
                Some(byte) => {
                    let second = byte_to_lower(byte);
                    if second == LOWER_H {
                        Ok(Some(ModifierSlot::KeepHighest))
                    } else if second == LOWER_L {
                        Ok(Some(ModifierSlot::KeepLowest))
                    } else {
                        Err(ParseError::Malformed { position, reason: "expected 'kh' or 'kl'" })
                    }
                },
                None => Err(ParseError::Malformed { position, reason: "expected 'kh' or 'kl'" }),
            }
        } else if lower == LOWER_R {
            self.cursor += 1;
            Ok(Some(ModifierSlot::Reroll))
        } else if lower == LOWER_E {
            self.cursor += 1;
            Ok(Some(ModifierSlot::Explode))
        } else {
            Ok(None)
        }
    }

    fn read_options(&mut self) -> (options: Result<Options, ParseError>)
        requires
            old(self).wf(),
        ensures
            final(self).wf(),
            final(self).source == old(self).source,
            match spec_read_options(old(self).source@, old(self).cursor as int, no_options()) {
                Ok((o, end)) => options == Ok::<Options, ParseError>(o) && final(self).cursor == end,
                Err(e) => options == Err::<Options, ParseError>(e),
            },
            options is Ok ==> final(self).cursor >= old(self).cursor,
    {
        proof {
            lemma_read_options_advances(self.source@, self.cursor as int, no_options());
        }
        let ghost s = self.source@;
        let ghost start = self.cursor as int;
        let mut options = Options::default();
        loop
            invariant
                self.wf(),
                self.source == old(self).source,
                s == self.source@,
                start == old(self).cursor,
                start <= self.cursor,
                spec_read_options(s, start, no_options()) == spec_read_options(s, self.cursor as int, options),
            decreases s.len() - self.cursor,
        {
            let ghost before = self.cursor as int;
            self.skip_whitespace();
            let position = self.cursor;
            let slot = match self.read_modifier_head()? {
                Some(slot) => slot,
                None => return Ok(options),
            };
            if slot_is_set(&options, slot) {
                return Err(ParseError::Malformed { position, reason: "duplicate modifier" });
            }
            let value = match self.read_digits()? {
                Some(value) => value,
                None => {
                    return Err(
                        ParseError::Malformed { position: self.cursor, reason: "expected digits after modifier" },
                    );
                },
            };
            options = with_slot(options, slot, value);
            proof {
                lemma_skip_spaces_advances(s, before);
            }
        }
    }
}

/// Whether the slot already holds a value.
fn slot_is_set(options: &Options, slot: ModifierSlot) -> (set: bool)
    ensures
        set == slot_value(*options, slot) is Some,
{
    match slot {
        ModifierSlot::KeepHighest => options.keep_highest.is_some(),
        ModifierSlot::KeepLowest => options.keep_lowest.is_some(),
        ModifierSlot::Reroll => options.reroll_at_or_below.is_some(),
        ModifierSlot::Explode => options.explode_at_or_above.is_some(),
    }
}

/// The options with the slot set to `value`.
fn with_slot(options: Options, slot: ModifierSlot, value: u32) -> (updated: Options)
    ensures
        updated == set_slot(options, slot, value),
{
    match slot {
        ModifierSlot::KeepHighest => options.with_keep_highest(value),
        ModifierSlot::KeepLowest => options.with_keep_lowest(value),
        ModifierSlot::Reroll => options.with_reroll_at_or_below(value),
        ModifierSlot::Explode => options.with_explode_at_or_above(value),
    }
}

impl DiceRoll {
    /// Parses case-insensitive `NdK` terms with `khN`, `klN`, `rN`, `eN` suffixes and signed adjustments.
    /// Requires a dice term, rejects leading signs, and limits accumulated adjustments to `-i32::MAX..=i32::MAX`.
    /// Whitespace is ignored anywhere in the input.
    pub fn parse(input: &str) -> (roll: Result<DiceRoll, ParseError>)
        ensures
            match spec_parse(input.spec_bytes()) {
                Ok((terms, adjustment)) => roll matches Ok(r) && r.terms@ == terms && r.adjustment == adjustment,
                Err(e) => roll == Err::<DiceRoll, ParseError>(e),
            },
    {
        let bytes = input.as_bytes();
        let ghost s = bytes@;
        let mut compact: Vec<u8> = Vec::new();
        let mut offsets: Vec<usize> = Vec::new();
        let mut i: usize = 0;
        while i < bytes.len()
            invariant
                i <= s.len(),
                s == bytes@,
                compact@ == without_spaces(s.subrange(0, i as int)),
                offsets@.len() == kept_positions(s.subrange(0, i as int)).len(),
                forall|p: int|
                    0 <= p < offsets@.len() ==> #[trigger] offsets@[p] as int == kept_positions(
                        s.subrange(0, i as int),
                    )[p],
            decreases s.len() - i,
        {
            let b = bytes[i];
            proof {
                assert(s.subrange(0, i as int + 1).drop_last() =~= s.subrange(0, i as int));
            }
            if !byte_is_space(b) {
                compact.push(b);
                offsets.push(i);
            }
            i = i + 1;
        }
        proof {
            assert(s.subrange(0, s.len() as int) =~= s);
        }
        match parse_tokens(compact.as_slice()) {
            Err(ParseError::Malformed { position, reason }) => {
                let offset = if position < offsets.len() {
                    offsets[position]
                } else {
                    bytes.len()
                };
                Err(ParseError::Malformed { position: offset, reason })
            },
            other => other,
        }
    }
}

/// Reads bytes that hold no whitespace as [`spec_parse_tokens`] says.
fn parse_tokens(source: &[u8]) -> (roll: Result<DiceRoll, ParseError>)
    ensures
        match spec_parse_tokens(source@) {
            Ok((terms, adjustment)) => roll matches Ok(r) && r.terms@ == terms && r.adjustment == adjustment,
            Err(e) => roll == Err::<DiceRoll, ParseError>(e),
        },
{
    let mut lexer = Lexer::new(source);
    let ghost s = lexer.source@;
    lexer.skip_whitespace();
    if lexer.is_done() {
        return Err(ParseError::Empty);
    }
    let mut terms: Vec<DiceTerm> = Vec::new();
    let mut adjustment: i32 = 0;
    let mut negate = false;
    loop
        invariant_except_break
            spec_parse_tokens(s) == spec_parse_terms(s, lexer.cursor as int, terms@, adjustment as int, negate),
        invariant
            lexer.wf(),
            s == lexer.source@,
            s == source@,
        ensures
            lexer.wf(),
            spec_parse_tokens(s) == if terms@.len() == 0 {
                Err::<(Seq<DiceTerm>, i32), ParseError>(ParseError::NoDice)
            } else {
                Ok::<(Seq<DiceTerm>, i32), ParseError>((terms@, adjustment))
            },
        decreases s.len() - lexer.cursor,
    {
        let ghost start = lexer.cursor as int;
        lexer.skip_whitespace();
        let token = lexer.read_token()?;
        match token {
            Token::Dice { count, sides } => {
                let kind = match DieKind::from_sides(sides) {
                    Some(kind) => kind,
                    None => return Err(ParseError::UnknownDieSides(sides)),
                };
                if count == 0 {
                    return Err(ParseError::ZeroCount);
                }
                if count > MAX_DICE_PER_TERM {
                    return Err(ParseError::CountTooLarge(count));
                }
                let options = lexer.read_options()?;
                match options.validate_for(kind) {
                    Ok(()) => {},
                    Err(e) => return Err(ParseError::InvalidOptions(e)),
                }
                terms.push(DiceTerm { count, kind, negate, options });
            },
            Token::Number(value) => {
                if value > 2147483647u32 {
                    return Err(ParseError::Overflow);
                }
                let magnitude = value as i32;
                let signed = if negate {
                    -magnitude
                } else {
                    magnitude
                };
                adjustment = match adjustment.checked_add(signed) {
                    Some(sum) => sum,
                    None => return Err(ParseError::Overflow),
                };
                if adjustment == i32::MIN {
                    return Err(ParseError::Overflow);
                }
            },
        }
        lexer.skip_whitespace();
        if lexer.is_done() {
            break;
        }
        negate = lexer.read_sign()?;
    }
    if terms.len() == 0 {
        return Err(ParseError::NoDice);
    }
    Ok(DiceRoll { terms, adjustment })
}

/// A digit run from `i` reaches past every position `c` whose bytes from
/// `i` on are all digits.
pub proof fn lemma_digits_end_past(s: Seq<u8>, i: int, c: int)
    requires
        0 <= i <= c < s.len(),
        forall|j: int| i <= j <= c ==> is_digit(#[trigger] s[j]),
    ensures
        digits_end(s, i) > c,
    decreases c - i,
{
    if i < c {
        lemma_digits_end_past(s, i + 1, c);
    } else {
        lemma_digits_end_advances(s, c + 1);
    }
}

} // verus!
