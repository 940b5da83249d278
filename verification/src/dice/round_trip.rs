//! Reading back what the expression text shows: the text that
//! [`DiceRoll::to_string`] writes for a well-formed expression parses to
//! that same expression.

use vstd::prelude::*;
use vstd::utf8::encode_utf8;

use super::kind::{lemma_from_sides_round_trip, DieKind};
use super::options::{no_options, Options};
use super::parser::{
    is_space, lemma_digits_end_stop, lemma_read_options_advances, lemma_read_token_advances,
    lemma_skip_spaces_advances, lemma_without_spaces_concat, lemma_without_spaces_none, set_slot, skip_spaces, slot_value, spec_modifier_head,
    spec_parse, spec_parse_terms, spec_parse_tokens, spec_read_digits, spec_read_options, spec_read_sign,
    spec_read_token, without_spaces, ModifierSlot, Token, MAX_DICE_PER_TERM,
};
use super::roll::{
    breakdown_adjustment_text, lemma_signed_text_ascii, lemma_terms_text_ascii, options_text, roll_text,
    suffix_text, terms_text, DiceTerm,
};
use super::text::{
    ascii_text, decimal, is_digit, lemma_ascii_text_bytes, lemma_decimal_shape, plus_signed_decimal, signed_decimal,
    LOWER_D,
    LOWER_E, LOWER_H, LOWER_K, LOWER_L, LOWER_R, MINUS, PLUS, SPACE, digits_value,
};

verus! {

/// `x` occurs in `s` starting at `i`.
pub open spec fn has_at(s: Seq<u8>, i: int, x: Seq<u8>) -> bool {
    &&& 0 <= i
    &&& i + x.len() <= s.len()
    &&& s.subrange(i, i + x.len()) == x
}

/// Position `e` ends a digit run: the input ends there or the byte is no digit.
pub open spec fn stops_digits(s: Seq<u8>, e: int) -> bool {
    e == s.len() || (0 <= e < s.len() && !is_digit(s[e]))
}

/// Position `e` ends a term: the input ends there or a sign follows.
pub open spec fn ends_term(s: Seq<u8>, e: int) -> bool {
    e == s.len() || (0 <= e < s.len() && (s[e] == PLUS || s[e] == MINUS))
}

/// An expression whose text reads back to itself: at least one term, the
/// first not negated, every count in `1..=MAX_DICE_PER_TERM`, every term's
/// modifiers valid for its die, and an adjustment other than `i32::MIN`.
pub open spec fn round_trips(terms: Seq<DiceTerm>, adjustment: i32) -> bool {
    &&& terms.len() >= 1
    &&& !terms[0].negate
    &&& forall|i: int|
        0 <= i < terms.len() ==> 1 <= #[trigger] terms[i].count <= MAX_DICE_PER_TERM
            && terms[i].options.spec_validate_for(terms[i].kind) is Ok
    &&& adjustment != i32::MIN
}

proof fn lemma_has_at_split(s: Seq<u8>, i: int, x: Seq<u8>, y: Seq<u8>)
    requires
        has_at(s, i, x + y),
    ensures
        has_at(s, i, x),
        has_at(s, i + x.len(), y),
{
    let xy = x + y;
    let whole = s.subrange(i, i + xy.len());
    assert forall|j: int| 0 <= j < x.len() implies #[trigger] s.subrange(i, i + x.len())[j] == x[j] by {
        assert(whole[j] == xy[j]);
    }
    assert(s.subrange(i, i + x.len()) =~= x);
    assert forall|j: int| 0 <= j < y.len() implies #[trigger] s.subrange(i + x.len(), i + x.len() + y.len())[j]
        == y[j] by {
        assert(whole[x.len() + j] == xy[x.len() + j]);
    }
    assert(s.subrange(i + x.len(), i + x.len() + y.len()) =~= y);
}

proof fn lemma_has_at_byte(s: Seq<u8>, i: int, x: Seq<u8>, j: int)
    requires
        has_at(s, i, x),
        0 <= j < x.len(),
    ensures
        s[i + j] == x[j],
{
    assert(s.subrange(i, i + x.len())[j] == s[i + j]);
}

/// A numeral followed by a non-digit reads as its value.
proof fn lemma_read_decimal(s: Seq<u8>, i: int, n: nat)
    requires
        has_at(s, i, decimal(n)),
        n <= u32::MAX,
        stops_digits(s, i + decimal(n).len()),
    ensures
        spec_read_digits(s, i) == Ok::<(Option<u32>, int), super::parser::ParseError>(
            (Some(n as u32), i + decimal(n).len()),
        ),
{
    let d = decimal(n);
    let e = i + d.len();
    lemma_decimal_shape(n);
    assert forall|j: int| i <= j < e implies is_digit(#[trigger] s[j]) by {
        lemma_has_at_byte(s, i, d, j - i);
    }
    lemma_digits_end_stop(s, i, e);
    assert(s.subrange(i, e) == d);
}

/// The modifier letters of a slot.
pub open spec fn slot_tag(slot: ModifierSlot) -> Seq<u8> {
    match slot {
        ModifierSlot::KeepHighest => seq![LOWER_K, LOWER_H],
        ModifierSlot::KeepLowest => seq![LOWER_K, LOWER_L],
        ModifierSlot::Reroll => seq![LOWER_R],
        ModifierSlot::Explode => seq![LOWER_E],
    }
}

/// One modifier suffix is read into its slot.
proof fn lemma_read_option_step(s: Seq<u8>, p: int, acc: Options, slot: ModifierSlot, v: u32)
    requires
        has_at(s, p, slot_tag(slot) + decimal(v as nat)),
        stops_digits(s, p + slot_tag(slot).len() + decimal(v as nat).len()),
        slot_value(acc, slot) is None,
    ensures
        spec_read_options(s, p, acc) == spec_read_options(
            s,
            p + slot_tag(slot).len() + decimal(v as nat).len(),
            set_slot(acc, slot, v),
        ),
{
    let tag = slot_tag(slot);
    lemma_has_at_split(s, p, tag, decimal(v as nat));
    lemma_has_at_byte(s, p, tag, 0);
    if tag.len() == 2 {
        lemma_has_at_byte(s, p, tag, 1);
    }
    assert(skip_spaces(s, p) == p);
    assert(spec_modifier_head(s, p) == Ok::<Option<(ModifierSlot, int)>, super::parser::ParseError>(
        Some((slot, p + tag.len())),
    ));
    lemma_read_decimal(s, p + tag.len(), v as nat);
}

/// Reading modifiers stops at a sign or at the end of input.
proof fn lemma_read_options_stop(s: Seq<u8>, p: int, acc: Options)
    requires
        ends_term(s, p),
    ensures
        spec_read_options(s, p, acc) == Ok::<(Options, int), super::parser::ParseError>((acc, p)),
{
    assert(skip_spaces(s, p) == p);
}

/// The next byte after an options suffix piece is no digit.
proof fn lemma_piece_then_stops(s: Seq<u8>, e: int, rest: Seq<u8>)
    requires
        has_at(s, e, rest),
        ends_term(s, e + rest.len()),
        rest.len() > 0 ==> (rest[0] == LOWER_K || rest[0] == LOWER_R || rest[0] == LOWER_E),
    ensures
        stops_digits(s, e),
{
    if rest.len() > 0 {
        lemma_has_at_byte(s, e, rest, 0);
    } else {
        assert(e + rest.len() == e);
    }
}

/// An optional suffix: read when present, skipped otherwise.
proof fn lemma_read_optional(
    s: Seq<u8>,
    p: int,
    acc: Options,
    slot: ModifierSlot,
    value: Option<u32>,
    rest: Seq<u8>,
)
    requires
        has_at(s, p, suffix_text(slot_tag(slot), value) + rest),
        ends_term(s, p + suffix_text(slot_tag(slot), value).len() + rest.len()),
        rest.len() > 0 ==> (rest[0] == LOWER_K || rest[0] == LOWER_R || rest[0] == LOWER_E),
        slot_value(acc, slot) is None,
    ensures
        spec_read_options(s, p, acc) == spec_read_options(
            s,
            p + suffix_text(slot_tag(slot), value).len(),
            match value {
                Some(v) => set_slot(acc, slot, v),
                None => acc,
            },
        ),
{
    let piece = suffix_text(slot_tag(slot), value);
    lemma_has_at_split(s, p, piece, rest);
    if let Some(v) = value {
        lemma_piece_then_stops(s, p + piece.len(), rest);
        assert(piece == slot_tag(slot) + decimal(v as nat));
        lemma_read_option_step(s, p, acc, slot, v);
    }
}

/// The modifier suffixes of `options` read back as `options`.
proof fn lemma_read_options_text(s: Seq<u8>, k: int, options: Options)
    requires
        has_at(s, k, options_text(options)),
        ends_term(s, k + options_text(options).len()),
    ensures
        spec_read_options(s, k, no_options()) == Ok::<(Options, int), super::parser::ParseError>(
            (options, k + options_text(options).len()),
        ),
{
    let kh = suffix_text(slot_tag(ModifierSlot::KeepHighest), options.keep_highest);
    let kl = suffix_text(slot_tag(ModifierSlot::KeepLowest), options.keep_lowest);
    let r = suffix_text(slot_tag(ModifierSlot::Reroll), options.reroll_at_or_below);
    let e = suffix_text(slot_tag(ModifierSlot::Explode), options.explode_at_or_above);
    let end = k + options_text(options).len();
    assert(options_text(options) == kh + kl + r + e);
    assert(kh + kl + r + e =~= kh + (kl + (r + e)));
    assert(kl + (r + e) =~= kl + (r + e));

    let acc0 = no_options();
    let acc1 = Options { keep_highest: options.keep_highest, ..acc0 };
    let acc2 = Options { keep_lowest: options.keep_lowest, ..acc1 };
    let acc3 = Options { reroll_at_or_below: options.reroll_at_or_below, ..acc2 };
    let acc4 = Options { explode_at_or_above: options.explode_at_or_above, ..acc3 };
    assert(acc4 == options);

    lemma_read_optional(s, k, acc0, ModifierSlot::KeepHighest, options.keep_highest, kl + (r + e));
    let p1 = k + kh.len();
    lemma_has_at_split(s, k, kh, kl + (r + e));
    lemma_read_optional(s, p1, acc1, ModifierSlot::KeepLowest, options.keep_lowest, r + e);
    let p2 = p1 + kl.len();
    lemma_has_at_split(s, p1, kl, r + e);
    lemma_read_optional(s, p2, acc2, ModifierSlot::Reroll, options.reroll_at_or_below, e);
    let p3 = p2 + r.len();
    lemma_has_at_split(s, p2, r, e);
    assert(e =~= e + Seq::<u8>::empty());
    lemma_read_optional(s, p3, acc3, ModifierSlot::Explode, options.explode_at_or_above, Seq::empty());
    let p4 = p3 + e.len();
    assert(p4 == end);
    lemma_read_options_stop(s, p4, acc4);
}

/// A term's unsigned text reads back as a dice token and its modifiers.
proof fn lemma_read_term(s: Seq<u8>, pos: int, term: DiceTerm)
    requires
        has_at(s, pos, term.spec_unsigned_text()),
        ends_term(s, pos + term.spec_unsigned_text().len()),
    ensures
        ({
            let k = pos + decimal(term.count as nat).len() + 1 + decimal(term.kind.spec_sides() as nat).len();
            &&& spec_read_token(s, pos) == Ok::<(Token, int), super::parser::ParseError>(
                (Token::Dice { count: term.count, sides: term.kind.spec_sides() }, k),
            )
            &&& spec_read_options(s, k, no_options()) == Ok::<(Options, int), super::parser::ParseError>(
                (term.options, pos + term.spec_unsigned_text().len()),
            )
        }),
{
    let c = decimal(term.count as nat);
    let d = seq![LOWER_D];
    let sd = decimal(term.kind.spec_sides() as nat);
    let o = options_text(term.options);
    assert(term.spec_unsigned_text() == c + d + sd + o);
    assert(c + d + sd + o =~= c + (d + (sd + o)));
    lemma_has_at_split(s, pos, c, d + (sd + o));
    let j = pos + c.len();
    lemma_has_at_split(s, j, d, sd + o);
    lemma_has_at_split(s, j + 1, sd, o);
    lemma_has_at_byte(s, j, d, 0);
    let k = j + 1 + sd.len();
    lemma_decimal_shape(term.kind.spec_sides() as nat);
    lemma_piece_then_stops_options(s, k, term.options);
    lemma_read_decimal(s, pos, term.count as nat);
    lemma_read_decimal(s, j + 1, term.kind.spec_sides() as nat);
    lemma_read_options_text(s, k, term.options);
}

/// After the face count comes a modifier letter, a sign or the end.
proof fn lemma_piece_then_stops_options(s: Seq<u8>, k: int, options: Options)
    requires
        has_at(s, k, options_text(options)),
        ends_term(s, k + options_text(options).len()),
    ensures
        stops_digits(s, k),
{
    let o = options_text(options);
    if o.len() > 0 {
        lemma_has_at_byte(s, k, o, 0);
        assert(o[0] == LOWER_K || o[0] == LOWER_R || o[0] == LOWER_E);
    }
}


/// A piece found in a prefix is found in the whole.
proof fn lemma_has_at_extend(a: Seq<u8>, b: Seq<u8>, i: int, x: Seq<u8>)
    requires
        has_at(a, i, x),
    ensures
        has_at(a + b, i, x),
{
    assert((a + b).subrange(i, i + x.len()) =~= a.subrange(i, i + x.len()));
}

/// The first term's text, when it is not negated, is its unsigned text.
proof fn lemma_terms_text_first(terms: Seq<DiceTerm>)
    requires
        terms.len() >= 1,
        !terms[0].negate,
    ensures
        terms_text(terms.take(1)) == terms[0].spec_unsigned_text(),
{
    let one = terms.take(1);
    assert(one.len() == 1);
    assert(one[0] == terms[0]);
    assert(Seq::<u8>::empty() + terms[0].spec_unsigned_text() =~= terms[0].spec_unsigned_text());
}

/// Each further term adds its signed text.
proof fn lemma_terms_text_step(terms: Seq<DiceTerm>, m: int)
    requires
        1 <= m < terms.len(),
    ensures
        terms_text(terms.take(m + 1)) == terms_text(terms.take(m)) + terms[m].spec_text(),
{
    let next = terms.take(m + 1);
    assert(next.drop_last() =~= terms.take(m));
    assert(next.last() == terms[m]);
}

/// The text of the first `m` terms starts the text of all of them.
proof fn lemma_terms_text_prefix(terms: Seq<DiceTerm>, m: int)
    requires
        1 <= m <= terms.len(),
    ensures
        has_at(terms_text(terms), 0, terms_text(terms.take(m))),
    decreases terms.len() - m,
{
    if m == terms.len() {
        assert(terms.take(m) =~= terms);
        assert(terms_text(terms).subrange(0, terms_text(terms).len() as int) =~= terms_text(terms));
    } else {
        lemma_terms_text_prefix(terms, m + 1);
        lemma_terms_text_step(terms, m);
        lemma_has_at_split(terms_text(terms), 0, terms_text(terms.take(m)), terms[m].spec_text());
    }
}

/// The adjustment's text, at the end of the input, reads back as the adjustment.
proof fn lemma_read_adjustment(s: Seq<u8>, t: Seq<u8>, terms: Seq<DiceTerm>, adjustment: i32)
    requires
        s == t + plus_signed_decimal(adjustment as int),
        adjustment != 0,
        adjustment != i32::MIN,
        terms.len() >= 1,
    ensures
        spec_read_sign(s, t.len() as int) == Ok::<bool, super::parser::ParseError>(adjustment < 0),
        spec_parse_terms(s, t.len() as int + 1, terms, 0, adjustment < 0) == Ok::<(Seq<DiceTerm>, i32), super::parser::ParseError>(
            (terms, adjustment),
        ),
{
    let v: nat = if adjustment < 0 { (-adjustment) as nat } else { adjustment as nat };
    let sign = if adjustment < 0 { MINUS } else { PLUS };
    let tail = plus_signed_decimal(adjustment as int);
    assert(tail == seq![sign] + decimal(v));
    let p = t.len() as int + 1;
    assert(has_at(s, t.len() as int, tail)) by {
        assert(s.subrange(t.len() as int, t.len() + tail.len() as int) =~= tail);
    }
    lemma_has_at_split(s, t.len() as int, seq![sign], decimal(v));
    lemma_has_at_byte(s, t.len() as int, seq![sign], 0);
    lemma_decimal_shape(v);
    lemma_has_at_byte(s, p, decimal(v), 0);
    assert(is_digit(s[p]));
    assert(skip_spaces(s, p) == p);
    assert(p + decimal(v).len() == s.len());
    lemma_read_decimal(s, p, v);
    assert(spec_read_token(s, p) == Ok::<(Token, int), super::parser::ParseError>(
        (Token::Number(v as u32), s.len() as int),
    ));
    assert(skip_spaces(s, s.len() as int) == s.len());
}

/// One term read at `pos`: what follows is the end of input, or a sign and
/// the rest of the expression.
proof fn lemma_parse_one_term(s: Seq<u8>, pos: int, acc: Seq<DiceTerm>, term: DiceTerm)
    requires
        has_at(s, pos, term.spec_unsigned_text()),
        ends_term(s, pos + term.spec_unsigned_text().len()),
        1 <= term.count <= MAX_DICE_PER_TERM,
        term.options.spec_validate_for(term.kind) is Ok,
    ensures
        ({
            let end = pos + term.spec_unsigned_text().len();
            &&& end == s.len() ==> spec_parse_terms(s, pos, acc, 0, term.negate) == Ok::<
                (Seq<DiceTerm>, i32),
                super::parser::ParseError,
            >((acc.push(term), 0i32))
            &&& end < s.len() ==> spec_parse_terms(s, pos, acc, 0, term.negate) == spec_parse_terms(
                s,
                end + 1,
                acc.push(term),
                0,
                s[end] == MINUS,
            )
        }),
{
    let unsigned = term.spec_unsigned_text();
    let end = pos + unsigned.len();
    lemma_decimal_shape(term.count as nat);
    lemma_has_at_byte(s, pos, unsigned, 0);
    assert(is_digit(s[pos]));
    assert(skip_spaces(s, pos) == pos);
    lemma_read_term(s, pos, term);
    lemma_from_sides_round_trip(term.kind);
    assert(skip_spaces(s, end) == end);
}

/// Where term `j` starts in the text: right at the start for the first,
/// after the sign for the others.
pub open spec fn term_start(terms: Seq<DiceTerm>, j: int) -> int {
    if j == 0 {
        0
    } else {
        terms_text(terms.take(j)).len() as int + 1
    }
}

/// Term `j`'s unsigned text lies at its start and ends where the text of the
/// first `j + 1` terms ends; a sign follows unless it is the last term.
proof fn lemma_term_layout(s: Seq<u8>, terms: Seq<DiceTerm>, adjustment: i32, j: int)
    requires
        round_trips(terms, adjustment),
        s == roll_text(terms, adjustment),
        0 <= j < terms.len(),
    ensures
        has_at(s, term_start(terms, j), terms[j].spec_unsigned_text()),
        term_start(terms, j) + terms[j].spec_unsigned_text().len() == terms_text(terms.take(j + 1)).len(),
        j + 1 < terms.len() ==> {
            let end = terms_text(terms.take(j + 1)).len() as int;
            &&& end < s.len()
            &&& s[end] == if terms[j + 1].negate { MINUS } else { PLUS }
            &&& term_start(terms, j + 1) == end + 1
        },
        j + 1 == terms.len() ==> terms.take(j + 1) == terms,
{
    let all = terms_text(terms);
    let tail = s.subrange(all.len() as int, s.len() as int);
    assert(s =~= all + tail);
    let term = terms[j];
    let unsigned = term.spec_unsigned_text();
    lemma_terms_text_prefix(terms, j + 1);
    lemma_has_at_extend(all, tail, 0, terms_text(terms.take(j + 1)));
    if j == 0 {
        lemma_terms_text_first(terms);
    } else {
        lemma_terms_text_step(terms, j);
        let before = terms_text(terms.take(j));
        lemma_has_at_split(s, 0, before, term.spec_text());
        lemma_has_at_split(s, before.len() as int, seq![if term.negate { MINUS } else { PLUS }], unsigned);
    }
    if j + 1 < terms.len() {
        let end = terms_text(terms.take(j + 1)).len() as int;
        lemma_terms_text_prefix(terms, j + 2);
        lemma_has_at_extend(all, tail, 0, terms_text(terms.take(j + 2)));
        lemma_terms_text_step(terms, j + 1);
        let next_sign = seq![if terms[j + 1].negate { MINUS } else { PLUS }];
        lemma_has_at_split(s, 0, terms_text(terms.take(j + 1)), terms[j + 1].spec_text());
        lemma_has_at_split(s, end, next_sign, terms[j + 1].spec_unsigned_text());
        lemma_has_at_byte(s, end, next_sign, 0);
    } else {
        assert(terms.take(j + 1) =~= terms);
    }
}

/// Reading from the start of term `j` gives the whole expression back.
proof fn lemma_parse_from_term(s: Seq<u8>, terms: Seq<DiceTerm>, adjustment: i32, j: int)
    requires
        round_trips(terms, adjustment),
        s == roll_text(terms, adjustment),
        0 <= j < terms.len(),
    ensures
        spec_parse_terms(s, term_start(terms, j), terms.take(j), 0, terms[j].negate) == Ok::<
            (Seq<DiceTerm>, i32),
            super::parser::ParseError,
        >((terms, adjustment)),
    decreases terms.len() - j,
{
    let term = terms[j];
    let pos = term_start(terms, j);
    let end = terms_text(terms.take(j + 1)).len() as int;
    lemma_term_layout(s, terms, adjustment, j);
    assert(terms.take(j).push(term) =~= terms.take(j + 1));
    if j + 1 < terms.len() {
        lemma_parse_one_term(s, pos, terms.take(j), term);
        lemma_parse_from_term(s, terms, adjustment, j + 1);
    } else if adjustment != 0 {
        let all = terms_text(terms);
        lemma_read_adjustment(s, all, terms, adjustment);
        assert(s.subrange(end, s.len() as int) =~= plus_signed_decimal(adjustment as int));
        lemma_has_at_byte(s, end, plus_signed_decimal(adjustment as int), 0);
        assert(end < s.len());
        lemma_parse_one_term(s, pos, terms.take(j), term);
    } else {
        assert(s =~= terms_text(terms));
        lemma_parse_one_term(s, pos, terms.take(j), term);
    }
}

/// Bytes without any whitespace.
pub open spec fn spaceless(s: Seq<u8>) -> bool {
    forall|i: int| 0 <= i < s.len() ==> !is_space(#[trigger] s[i])
}

proof fn lemma_suffix_spaceless(tag: Seq<u8>, value: Option<u32>)
    requires
        spaceless(tag),
    ensures
        spaceless(suffix_text(tag, value)),
{
    if let Some(v) = value {
        lemma_decimal_shape(v as nat);
        let t = tag + decimal(v as nat);
        assert forall|i: int| 0 <= i < t.len() implies !is_space(#[trigger] t[i]) by {
            if i >= tag.len() {
                assert(is_digit(decimal(v as nat)[i - tag.len()]));
            }
        }
    }
}

proof fn lemma_term_spaceless(term: DiceTerm)
    ensures
        spaceless(term.spec_unsigned_text()),
        spaceless(term.spec_text()),
{
    let options = term.options;
    lemma_decimal_shape(term.count as nat);
    lemma_decimal_shape(term.kind.spec_sides() as nat);
    let kh = suffix_text(seq![LOWER_K, LOWER_H], options.keep_highest);
    let kl = suffix_text(seq![LOWER_K, LOWER_L], options.keep_lowest);
    let r = suffix_text(seq![LOWER_R], options.reroll_at_or_below);
    let e = suffix_text(seq![LOWER_E], options.explode_at_or_above);
    lemma_suffix_spaceless(seq![LOWER_K, LOWER_H], options.keep_highest);
    lemma_suffix_spaceless(seq![LOWER_K, LOWER_L], options.keep_lowest);
    lemma_suffix_spaceless(seq![LOWER_R], options.reroll_at_or_below);
    lemma_suffix_spaceless(seq![LOWER_E], options.explode_at_or_above);
    lemma_concat_spaceless(kh, kl);
    lemma_concat_spaceless(kh + kl, r);
    lemma_concat_spaceless(kh + kl + r, e);
    let count = decimal(term.count as nat);
    let sides = decimal(term.kind.spec_sides() as nat);
    assert(spaceless(count)) by {
        assert forall|i: int| 0 <= i < count.len() implies !is_space(#[trigger] count[i]) by {
            assert(is_digit(count[i]));
        }
    }
    assert(spaceless(sides)) by {
        assert forall|i: int| 0 <= i < sides.len() implies !is_space(#[trigger] sides[i]) by {
            assert(is_digit(sides[i]));
        }
    }
    lemma_concat_spaceless(count, seq![LOWER_D]);
    lemma_concat_spaceless(count + seq![LOWER_D], sides);
    lemma_concat_spaceless(count + seq![LOWER_D] + sides, options_text(options));
    lemma_concat_spaceless(seq![if term.negate { MINUS } else { PLUS }], term.spec_unsigned_text());
}

proof fn lemma_concat_spaceless(a: Seq<u8>, b: Seq<u8>)
    requires
        spaceless(a),
        spaceless(b),
    ensures
        spaceless(a + b),
{
    assert forall|i: int| 0 <= i < (a + b).len() implies !is_space(#[trigger] (a + b)[i]) by {
        if i < a.len() {
            assert((a + b)[i] == a[i]);
        } else {
            assert((a + b)[i] == b[i - a.len()]);
        }
    }
}

proof fn lemma_terms_spaceless(terms: Seq<DiceTerm>)
    ensures
        spaceless(terms_text(terms)),
    decreases terms.len(),
{
    if terms.len() == 1 {
        lemma_term_spaceless(terms[0]);
        lemma_concat_spaceless(
            if terms[0].negate {
                seq![MINUS]
            } else {
                Seq::empty()
            },
            terms[0].spec_unsigned_text(),
        );
    } else if terms.len() > 1 {
        lemma_terms_spaceless(terms.drop_last());
        lemma_term_spaceless(terms.last());
        lemma_concat_spaceless(terms_text(terms.drop_last()), terms.last().spec_text());
    }
}

/// The text of an expression holds no whitespace.
proof fn lemma_roll_text_spaceless(terms: Seq<DiceTerm>, adjustment: i32)
    ensures
        spaceless(roll_text(terms, adjustment)),
{
    lemma_terms_spaceless(terms);
    let v = adjustment as int;
    lemma_decimal_shape(if v < 0 { (-v) as nat } else { v as nat });
    let magnitude = decimal(if v < 0 { (-v) as nat } else { v as nat });
    assert(spaceless(magnitude)) by {
        assert forall|i: int| 0 <= i < magnitude.len() implies !is_space(#[trigger] magnitude[i]) by {
            assert(is_digit(magnitude[i]));
        }
    }
    lemma_concat_spaceless(seq![MINUS], magnitude);
    lemma_concat_spaceless(seq![PLUS], magnitude);
    let tail = if terms.len() == 0 {
        signed_decimal(v)
    } else if adjustment != 0 {
        plus_signed_decimal(v)
    } else {
        Seq::empty()
    };
    assert(spaceless(tail));
    lemma_concat_spaceless(terms_text(terms), tail);
}

/// The whitespace-free text of an expression that [`round_trips`] reads
/// back, token by token, as that expression.
proof fn lemma_tokens_round_trip(terms: Seq<DiceTerm>, adjustment: i32)
    requires
        round_trips(terms, adjustment),
    ensures
        spec_parse_tokens(roll_text(terms, adjustment)) == Ok::<(Seq<DiceTerm>, i32), super::parser::ParseError>(
            (terms, adjustment),
        ),
        encode_utf8(ascii_text(roll_text(terms, adjustment))) == roll_text(terms, adjustment),
{
    let s = roll_text(terms, adjustment);
    lemma_parse_from_term(s, terms, adjustment, 0);
    assert(terms.take(0) =~= Seq::<DiceTerm>::empty());
    // The text starts with the first term's count, a digit.
    let all = terms_text(terms);
    let tail = s.subrange(all.len() as int, s.len() as int);
    assert(s =~= all + tail);
    lemma_terms_text_prefix(terms, 1);
    lemma_terms_text_first(terms);
    lemma_has_at_extend(all, tail, 0, terms_text(terms.take(1)));
    lemma_decimal_shape(terms[0].count as nat);
    lemma_has_at_byte(s, 0, terms[0].spec_unsigned_text(), 0);
    assert(skip_spaces(s, 0) == 0);
    lemma_terms_text_ascii(terms);
    lemma_signed_text_ascii(adjustment as int);
    lemma_ascii_text_bytes(s);
}

/// The text that [`DiceRoll::to_string`] writes for an expression that
/// [`round_trips`] parses back to that expression: its terms in order and
/// its adjustment.
pub proof fn lemma_parse_round_trip(terms: Seq<DiceTerm>, adjustment: i32)
    requires
        round_trips(terms, adjustment),
    ensures
        spec_parse(roll_text(terms, adjustment)) == Ok::<(Seq<DiceTerm>, i32), super::parser::ParseError>(
            (terms, adjustment),
        ),
        encode_utf8(ascii_text(roll_text(terms, adjustment))) == roll_text(terms, adjustment),
{
    lemma_tokens_round_trip(terms, adjustment);
    lemma_roll_text_spaceless(terms, adjustment);
    lemma_without_spaces_none(roll_text(terms, adjustment));
}

/// Every term has a count in `1..=MAX_DICE_PER_TERM` and modifiers valid for its die.
pub open spec fn terms_well_formed(terms: Seq<DiceTerm>) -> bool {
    forall|i: int|
        0 <= i < terms.len() ==> 1 <= #[trigger] terms[i].count <= MAX_DICE_PER_TERM
            && terms[i].options.spec_validate_for(terms[i].kind) is Ok
}

/// Reading the rest of an expression only appends well-formed terms and
/// keeps the adjustment inside `-i32::MAX..=i32::MAX`.
proof fn lemma_parse_terms_well_formed(s: Seq<u8>, i: int, terms: Seq<DiceTerm>, adjustment: int, negate: bool)
    requires
        terms_well_formed(terms),
        i32::MIN < adjustment <= i32::MAX,
    ensures
        spec_parse_terms(s, i, terms, adjustment, negate) matches Ok((t, a)) ==> {
            &&& terms_well_formed(t)
            &&& t.len() >= 1
            &&& t.len() >= terms.len()
            &&& t.take(terms.len() as int) == terms
            &&& a != i32::MIN
        },
    decreases s.len() - i,
{
    let p = skip_spaces(s, i);
    match spec_read_token(s, p) {
        Err(_) => {},
        Ok((Token::Dice { count, sides }, k)) => {
            if let Some(kind) = DieKind::spec_from_sides(sides) {
                if count != 0 && count <= MAX_DICE_PER_TERM {
                    if let Ok((options, end)) = spec_read_options(s, k, no_options()) {
                        if options.spec_validate_for(kind) is Ok {
                            let next = terms.push(DiceTerm { count, kind, negate, options });
                            assert(terms_well_formed(next));
                            assert(next.take(terms.len() as int) =~= terms);
                            let q = skip_spaces(s, end);
                            if q < s.len() {
                                if let Ok(sign) = spec_read_sign(s, q) {
                                    lemma_skip_spaces_advances(s, i);
                                    lemma_read_token_advances(s, p);
                                    lemma_read_options_advances(s, k, no_options());
                                    lemma_skip_spaces_advances(s, end);
                                    lemma_parse_terms_well_formed(s, q + 1, next, adjustment, sign);
                                    if let Ok((t, a)) = spec_parse_terms(s, q + 1, next, adjustment, sign) {
                                        assert(t.take(terms.len() as int) =~= t.take(next.len() as int).take(
                                            terms.len() as int,
                                        ));
                                    }
                                }
                            }
                        }
                    }
                }
            }
        },
        Ok((Token::Number(value), k)) => {
            let next = adjustment + if negate {
                -(value as int)
            } else {
                value as int
            };
            if !(value > i32::MAX || next <= i32::MIN || next > i32::MAX) {
                let q = skip_spaces(s, k);
                if q < s.len() {
                    if let Ok(sign) = spec_read_sign(s, q) {
                        lemma_skip_spaces_advances(s, i);
                        lemma_read_token_advances(s, p);
                        lemma_skip_spaces_advances(s, k);
                        lemma_parse_terms_well_formed(s, q + 1, terms, next, sign);
                    }
                }
            }
        },
    }
}

proof fn lemma_token_rolls_are_well_formed(s: Seq<u8>)
    ensures
        spec_parse_tokens(s) matches Ok((t, a)) ==> terms_well_formed(t) && t.len() >= 1 && a != i32::MIN,
{
    let start = skip_spaces(s, 0);
    if start < s.len() {
        lemma_parse_terms_well_formed(s, start, Seq::empty(), 0, false);
    }
}

/// What [`DiceRoll::parse`] accepts is well formed: at least one term, every
/// count in `1..=MAX_DICE_PER_TERM`, every term's modifiers valid for its
/// die, and an adjustment other than `i32::MIN`.
pub proof fn lemma_parsed_rolls_are_well_formed(s: Seq<u8>)
    ensures
        spec_parse(s) matches Ok((t, a)) ==> terms_well_formed(t) && t.len() >= 1 && a != i32::MIN,
{
    lemma_token_rolls_are_well_formed(without_spaces(s));
}

/// Writing out what [`DiceRoll::parse`] accepted and reading it again gives
/// the same expression, whenever its first term is not negated.
pub proof fn lemma_parsed_rolls_read_back(s: Seq<u8>)
    requires
        spec_parse(s) matches Ok((t, a)) && !t[0].negate,
    ensures
        spec_parse(s) matches Ok((t, a)) && spec_parse(roll_text(t, a)) == spec_parse(s),
{
    lemma_parsed_rolls_are_well_formed(s);
    if let Ok((t, a)) = spec_parse(s) {
        lemma_parse_round_trip(t, a);
    }
}

/// Reading on from `i` only appends to the terms read so far.
proof fn lemma_parse_terms_keep_prefix(s: Seq<u8>, i: int, terms: Seq<DiceTerm>, adjustment: int, negate: bool)
    ensures
        spec_parse_terms(s, i, terms, adjustment, negate) matches Ok((t, a)) ==> t.len() >= terms.len()
            && t.take(terms.len() as int) == terms,
    decreases s.len() - i,
{
    let p = skip_spaces(s, i);
    match spec_read_token(s, p) {
        Err(_) => {},
        Ok((Token::Dice { count, sides }, k)) => {
            if let Some(kind) = DieKind::spec_from_sides(sides) {
                if count != 0 && count <= MAX_DICE_PER_TERM {
                    if let Ok((options, end)) = spec_read_options(s, k, no_options()) {
                        if options.spec_validate_for(kind) is Ok {
                            let next = terms.push(DiceTerm { count, kind, negate, options });
                            assert(next.take(terms.len() as int) =~= terms);
                            let q = skip_spaces(s, end);
                            if q < s.len() {
                                if let Ok(sign) = spec_read_sign(s, q) {
                                    lemma_skip_spaces_advances(s, i);
                                    lemma_read_token_advances(s, p);
                                    lemma_read_options_advances(s, k, no_options());
                                    lemma_skip_spaces_advances(s, end);
                                    lemma_parse_terms_keep_prefix(s, q + 1, next, adjustment, sign);
                                    if let Ok((t, a)) = spec_parse_terms(s, q + 1, next, adjustment, sign) {
                                        assert(t.take(terms.len() as int) =~= t.take(next.len() as int).take(
                                            terms.len() as int,
                                        ));
                                    }
                                }
                            }
                        }
                    }
                }
            }
        },
        Ok((Token::Number(value), k)) => {
            let next = adjustment + if negate {
                -(value as int)
            } else {
                value as int
            };
            if !(value > i32::MAX || next <= i32::MIN || next > i32::MAX) {
                let q = skip_spaces(s, k);
                if q < s.len() {
                    if let Ok(sign) = spec_read_sign(s, q) {
                        lemma_skip_spaces_advances(s, i);
                        lemma_read_token_advances(s, p);
                        lemma_skip_spaces_advances(s, k);
                        lemma_parse_terms_keep_prefix(s, q + 1, terms, next, sign);
                    }
                }
            }
        },
    }
    if let Ok((t, a)) = spec_parse_terms(s, i, terms, adjustment, negate) {
        if t.len() == terms.len() {
            assert(t.take(terms.len() as int) =~= t);
        }
    }
}

/// A dice term carries the sign read before it: when a dice term stands at
/// `i` and the rest of the expression reads, the term it adds is negated
/// exactly when a `-` came before it, whatever terms and adjustment were
/// read earlier. The count, the die and its modifiers are those written.
pub proof fn lemma_dice_terms_carry_their_sign(
    s: Seq<u8>,
    i: int,
    terms: Seq<DiceTerm>,
    adjustment: int,
    negate: bool,
)
    requires
        spec_read_token(s, skip_spaces(s, i)) matches Ok((Token::Dice { .. }, _)),
    ensures
        spec_parse_terms(s, i, terms, adjustment, negate) matches Ok((t, a)) ==> {
            &&& t.len() > terms.len()
            &&& t.take(terms.len() as int) == terms
            &&& t[terms.len() as int].negate == negate
            &&& spec_read_token(s, skip_spaces(s, i)) matches Ok((Token::Dice { count, sides }, _))
                && t[terms.len() as int].count == count && t[terms.len() as int].kind.spec_sides() == sides
        },
{
    let p = skip_spaces(s, i);
    if let Ok((Token::Dice { count, sides }, k)) = spec_read_token(s, p) {
        if let Some(kind) = DieKind::spec_from_sides(sides) {
            if count != 0 && count <= MAX_DICE_PER_TERM {
                if let Ok((options, end)) = spec_read_options(s, k, no_options()) {
                    if options.spec_validate_for(kind) is Ok {
                        let next = terms.push(DiceTerm { count, kind, negate, options });
                        let q = skip_spaces(s, end);
                        if q < s.len() {
                            if let Ok(sign) = spec_read_sign(s, q) {
                                lemma_parse_terms_keep_prefix(s, q + 1, next, adjustment, sign);
                                if let Ok((t, a)) = spec_parse_terms(s, q + 1, next, adjustment, sign) {
                                    assert(t[terms.len() as int] == t.take(next.len() as int)[terms.len() as int]);
                                    assert(t.take(terms.len() as int) =~= t.take(next.len() as int).take(
                                        terms.len() as int,
                                    ));
                                }
                            }
                        } else {
                            assert(next.take(terms.len() as int) =~= terms);
                        }
                    }
                }
            }
        }
    }
}

/// Digits hold no whitespace.
proof fn lemma_decimal_spaceless(n: nat)
    ensures
        without_spaces(decimal(n)) == decimal(n),
{
    lemma_decimal_shape(n);
    let d = decimal(n);
    assert forall|i: int| 0 <= i < d.len() implies !is_space(#[trigger] d[i]) by {
        assert(is_digit(d[i]));
    }
    lemma_without_spaces_none(d);
}

/// The adjustment in an outcome breakdown shows the adjustment's own sign
/// and size: for an expression with terms, a negative adjustment reads
/// ` - ` and its magnitude, a positive one ` + ` and its value, and zero
/// shows nothing. With its spaces taken out it is the adjustment exactly as
/// the expression's own text writes it after the terms, so a breakdown and
/// the expression agree sign for sign.
pub proof fn lemma_breakdown_shows_adjustment_sign(terms: Seq<DiceTerm>, adjustment: i32)
    requires
        terms.len() > 0,
    ensures
        adjustment == 0 ==> breakdown_adjustment_text(true, adjustment).len() == 0,
        adjustment != 0 ==> {
            let text = breakdown_adjustment_text(true, adjustment);
            &&& text.len() > 3
            &&& text[1] == (if adjustment < 0 {
                MINUS
            } else {
                PLUS
            })
            &&& digits_value(text.subrange(3, text.len() as int)) == if adjustment < 0 {
                -adjustment
            } else {
                adjustment as int
            }
        },
        terms_text(terms) + without_spaces(breakdown_adjustment_text(true, adjustment)) == roll_text(
            terms,
            adjustment,
        ),
{
    let a = adjustment as int;
    let magnitude: nat = if a < 0 {
        (-a) as nat
    } else {
        a as nat
    };
    lemma_decimal_shape(magnitude);
    lemma_decimal_spaceless(magnitude);
    if a != 0 {
        let sign = if a < 0 {
            MINUS
        } else {
            PLUS
        };
        let text = breakdown_adjustment_text(true, adjustment);
        assert(text == seq![SPACE, sign, SPACE] + decimal(magnitude));
        assert(text.subrange(3, text.len() as int) =~= decimal(magnitude));
        lemma_without_spaces_concat(seq![SPACE, sign, SPACE], decimal(magnitude));
        assert(seq![SPACE, sign, SPACE] == seq![SPACE, sign].push(SPACE));
        assert(seq![SPACE, sign] == seq![SPACE].push(sign));
        assert(seq![SPACE] == Seq::<u8>::empty().push(SPACE));
        assert(seq![SPACE, sign].drop_last() =~= seq![SPACE]);
        assert(seq![SPACE, sign, SPACE].drop_last() =~= seq![SPACE, sign]);
        assert(seq![SPACE].drop_last() =~= Seq::<u8>::empty());
        assert(is_space(SPACE));
        assert(!is_space(sign));
        assert(seq![SPACE].last() == SPACE);
        assert(seq![SPACE, sign].last() == sign);
        assert(seq![SPACE, sign, SPACE].last() == SPACE);
        assert(without_spaces(Seq::<u8>::empty()) == Seq::<u8>::empty());
        assert(without_spaces(seq![SPACE]) =~= Seq::<u8>::empty());
        assert(without_spaces(seq![SPACE, sign]) =~= seq![sign]);
        assert(without_spaces(seq![SPACE, sign, SPACE]) =~= seq![sign]);
        assert(without_spaces(text) =~= plus_signed_decimal(a));
    } else {
        assert(without_spaces(Seq::<u8>::empty()) =~= Seq::<u8>::empty());
        assert(terms_text(terms) + Seq::<u8>::empty() =~= terms_text(terms));
    }
}

} // verus!
