//! Letter case does not matter to the parser: `D` reads as `d`, and the
//! modifier letters read alike in either case.

use vstd::prelude::*;

use super::options::Options;
use super::parser::{
    digits_end, is_d, is_space, lemma_digits_end_advances, lemma_digits_end_run, lemma_modifier_head_advances,
    lemma_read_digits_advances, lemma_read_options_advances, lemma_read_token_advances,
    lemma_skip_spaces_advances, lemma_without_spaces, kept_positions, skip_spaces, spec_modifier_head, spec_parse,
    spec_parse_terms, spec_parse_tokens, spec_read_digits, without_spaces,
    spec_read_options, spec_read_sign, spec_read_token, to_lower, Token,
};
use super::roll::DiceTerm;
use super::text::is_digit;

verus! {

/// The input with every ASCII capital letter lowered.
pub open spec fn lowered(s: Seq<u8>) -> Seq<u8> {
    s.map_values(|b: u8| to_lower(b))
}

proof fn lemma_skip_spaces_lowered(s: Seq<u8>, i: int)
    ensures
        skip_spaces(lowered(s), i) == skip_spaces(s, i),
    decreases s.len() - i,
{
    if 0 <= i < s.len() && is_space(s[i]) {
        lemma_skip_spaces_lowered(s, i + 1);
    }
}

proof fn lemma_digits_end_lowered(s: Seq<u8>, i: int)
    ensures
        digits_end(lowered(s), i) == digits_end(s, i),
    decreases s.len() - i,
{
    if 0 <= i < s.len() && is_digit(s[i]) {
        lemma_digits_end_lowered(s, i + 1);
    }
}

proof fn lemma_read_digits_lowered(s: Seq<u8>, i: int)
    requires
        0 <= i,
    ensures
        spec_read_digits(lowered(s), i) == spec_read_digits(s, i),
{
    lemma_digits_end_lowered(s, i);
    let end = digits_end(s, i);
    lemma_digits_end_advances(s, i);
    if 0 <= i <= s.len() && end > i {
        lemma_digits_end_run(s, i);
        assert(lowered(s).subrange(i, end) =~= s.subrange(i, end));
    }
}

proof fn lemma_read_token_lowered(s: Seq<u8>, i: int)
    requires
        0 <= i,
    ensures
        spec_read_token(lowered(s), i) == spec_read_token(s, i),
{
    lemma_read_digits_lowered(s, i);
    if let Ok((_, j)) = spec_read_digits(s, i) {
        lemma_read_digits_advances(s, i);
        lemma_read_digits_lowered(s, j + 1);
        if 0 <= j < s.len() {
            assert(is_d(lowered(s)[j]) == is_d(s[j]));
        }
    }
}

proof fn lemma_modifier_head_lowered(s: Seq<u8>, p: int)
    requires
        0 <= p,
    ensures
        spec_modifier_head(lowered(s), p) == spec_modifier_head(s, p),
{
    if 0 <= p < s.len() {
        assert(to_lower(lowered(s)[p]) == to_lower(s[p]));
        if p + 1 < s.len() {
            assert(to_lower(lowered(s)[p + 1]) == to_lower(s[p + 1]));
        }
    }
}

proof fn lemma_read_options_lowered(s: Seq<u8>, i: int, options: Options)
    requires
        0 <= i,
    ensures
        spec_read_options(lowered(s), i, options) == spec_read_options(s, i, options),
    decreases s.len() - i,
{
    let p = skip_spaces(s, i);
    lemma_skip_spaces_advances(s, i);
    lemma_modifier_head_advances(s, p);
    lemma_skip_spaces_lowered(s, i);
    lemma_modifier_head_lowered(s, p);
    if let Ok(Some((slot, q))) = spec_modifier_head(s, p) {
        lemma_read_digits_lowered(s, q);
        if let Ok((Some(value), k)) = spec_read_digits(s, q) {
            lemma_skip_spaces_advances(s, i);
            lemma_modifier_head_advances(s, p);
            lemma_read_digits_advances(s, q);
            lemma_read_options_lowered(s, k, super::parser::set_slot(options, slot, value));
        }
    }
}

proof fn lemma_read_sign_lowered(s: Seq<u8>, i: int)
    ensures
        spec_read_sign(lowered(s), i) == spec_read_sign(s, i),
{
}

proof fn lemma_parse_terms_lowered(s: Seq<u8>, i: int, terms: Seq<DiceTerm>, adjustment: int, negate: bool)
    requires
        0 <= i,
    ensures
        spec_parse_terms(lowered(s), i, terms, adjustment, negate) == spec_parse_terms(
            s,
            i,
            terms,
            adjustment,
            negate,
        ),
    decreases s.len() - i,
{
    let p = skip_spaces(s, i);
    lemma_skip_spaces_advances(s, i);
    lemma_read_token_advances(s, p);
    lemma_skip_spaces_lowered(s, i);
    lemma_read_token_lowered(s, p);
    assert(lowered(s).len() == s.len());
    match spec_read_token(s, p) {
        Err(_) => {},
        Ok((Token::Dice { count, sides }, k)) => {
            let none = super::options::no_options();
            lemma_read_options_advances(s, k, none);
            lemma_read_options_lowered(s, k, none);
            if let Some(kind) = super::kind::DieKind::spec_from_sides(sides) {
                if count != 0 && count <= super::parser::MAX_DICE_PER_TERM {
                    if let Ok((options, end)) = spec_read_options(s, k, none) {
                        if options.spec_validate_for(kind) is Ok {
                            let next = terms.push(DiceTerm { count, kind, negate, options });
                            lemma_skip_spaces_lowered(s, end);
                            lemma_skip_spaces_advances(s, end);
                            let q = skip_spaces(s, end);
                            lemma_read_sign_lowered(s, q);
                            if q < s.len() {
                                if let Ok(sign) = spec_read_sign(s, q) {
                                    lemma_parse_terms_lowered(s, q + 1, next, adjustment, sign);
                                }
                            }
                        }
                    }
                }
            }
        },
        Ok((Token::Number(value), k)) => {
            let next = adjustment + if negate {
                -(value as int)
            } else {
                value as int
            };
            lemma_skip_spaces_lowered(s, k);
            lemma_skip_spaces_advances(s, k);
            let q = skip_spaces(s, k);
            lemma_read_sign_lowered(s, q);
            if q < s.len() {
                if let Ok(sign) = spec_read_sign(s, q) {
                    lemma_parse_terms_lowered(s, q + 1, terms, next, sign);
                }
            }
        },
    }
}

proof fn lemma_parse_tokens_lowered(s: Seq<u8>)
    ensures
        spec_parse_tokens(lowered(s)) == spec_parse_tokens(s),
{
    lemma_skip_spaces_lowered(s, 0);
    lemma_skip_spaces_advances(s, 0);
    let start = skip_spaces(s, 0);
    lemma_parse_terms_lowered(s, start, Seq::empty(), 0, false);
}

/// Lowering a byte keeps it whitespace or not.
proof fn lemma_space_lowered(b: u8)
    ensures
        is_space(to_lower(b)) == is_space(b),
{
}

/// Taking the whitespace out and lowering the letters can go in either
/// order, and the bytes that stay keep their offsets.
proof fn lemma_without_spaces_lowered(s: Seq<u8>)
    ensures
        without_spaces(lowered(s)) == lowered(without_spaces(s)),
        kept_positions(lowered(s)) == kept_positions(s),
    decreases s.len(),
{
    if s.len() > 0 {
        lemma_without_spaces_lowered(s.drop_last());
        assert(lowered(s).drop_last() =~= lowered(s.drop_last()));
        lemma_space_lowered(s.last());
        assert(without_spaces(lowered(s)) =~= lowered(without_spaces(s)));
    } else {
        assert(without_spaces(lowered(s)) =~= lowered(without_spaces(s)));
    }
}

/// Upper and lower case read alike: lowering every letter of the input
/// changes nothing that [`DiceRoll::parse`](super::roll::DiceRoll::parse)
/// gives, neither the expression nor the error and its position.
pub proof fn lemma_parse_ignores_case(s: Seq<u8>)
    ensures
        spec_parse(lowered(s)) == spec_parse(s),
{
    lemma_without_spaces_lowered(s);
    lemma_parse_tokens_lowered(without_spaces(s));
}

} // verus!
