//! Dice expressions, roll outcomes, and their text forms.

use rand::rngs::StdRng;
use vstd::prelude::*;
use vstd::slice::slice_subrange;

use super::kind::DieKind;
use super::options::{faces_of, no_options, Options};
use super::text::{
    ascii_string, ascii_text, decimal, is_ascii_bytes, lemma_decimal_shape, plus_signed_decimal, push_decimal,
    push_plus_signed_decimal, push_signed_decimal, signed_decimal, CLOSE_PAREN, COMMA, EQUALS, LOWER_D, LOWER_E,
    LOWER_H, LOWER_K, LOWER_L, LOWER_R, MINUS, OPEN_PAREN, PLUS, SPACE,
};

verus! {

/// One `NdK` chunk of a [`DiceRoll`] with optional sign and modifiers.
#[derive(Clone, Copy, Debug, PartialEq, Eq, Structural)]
pub struct DiceTerm {
    /// `N` in `NdK`. The parser rejects `0`; `count == 0` produces an empty roll.
    pub count: u32,
    /// `K` in `NdK`.
    pub kind: DieKind,
    /// Subtract this term's total from the roll.
    pub negate: bool,
    /// Per-term modifiers (keep, reroll, explode).
    pub options: Options,
}

/// Parsed dice expression: terms plus a flat adjustment. Build via [`DiceRoll::parse`].
#[derive(Clone, Debug, PartialEq, Eq)]
pub struct DiceRoll {
    /// Terms in source order.
    pub terms: Vec<DiceTerm>,
    /// Flat integer added to the total.
    pub adjustment: i32,
}

/// One die's contribution to a [`RollOutcome`].
#[derive(Clone, Copy, Debug, PartialEq, Eq, Structural)]
pub struct RolledDie {
    /// Die that produced this value.
    pub kind: DieKind,
    /// Face value in `1..=kind.sides()`.
    pub value: u32,
    /// Copied from the source term; true means the value subtracts from the total.
    pub negate: bool,
}

/// Result of [`DiceRoll::roll_detailed`]: final `total`, per-die values in
/// term order, and how many of those came from each term (after keep trims).
#[derive(Clone, Debug, PartialEq, Eq)]
pub struct RollOutcome {
    /// Sum of all dice with adjustment and negation applied.
    pub total: i32,
    /// Each rolled die in term order.
    pub dice: Vec<RolledDie>,
    /// Count of dice in `dice` contributed by each term.
    pub term_lengths: Vec<u32>,
}

/// `tag` and the value, when the modifier is set.
pub open spec fn suffix_text(tag: Seq<u8>, value: Option<u32>) -> Seq<u8> {
    match value {
        Some(v) => tag + decimal(v as nat),
        None => Seq::empty(),
    }
}

/// Modifier suffixes in the fixed order `kh`, `kl`, `r`, `e`.
pub open spec fn options_text(options: Options) -> Seq<u8> {
    suffix_text(seq![LOWER_K, LOWER_H], options.keep_highest) + suffix_text(
        seq![LOWER_K, LOWER_L],
        options.keep_lowest,
    ) + suffix_text(seq![LOWER_R], options.reroll_at_or_below) + suffix_text(
        seq![LOWER_E],
        options.explode_at_or_above,
    )
}

impl DiceTerm {
    /// `NdK` plus option suffixes, without a sign.
    pub open spec fn spec_unsigned_text(self) -> Seq<u8> {
        decimal(self.count as nat) + seq![LOWER_D] + decimal(self.kind.spec_sides() as nat) + options_text(
            self.options,
        )
    }

    /// `+NdK...` or `-NdK...`: the sign is always present.
    pub open spec fn spec_text(self) -> Seq<u8> {
        seq![if self.negate { MINUS } else { PLUS }] + self.spec_unsigned_text()
    }
}

/// The terms of an expression as text: the first without a `+`, a `-`
/// only when it is negated; the others each with their sign.
pub open spec fn terms_text(terms: Seq<DiceTerm>) -> Seq<u8>
    decreases terms.len(),
{
    if terms.len() == 0 {
        Seq::empty()
    } else if terms.len() == 1 {
        (if terms[0].negate {
            seq![MINUS]
        } else {
            Seq::empty()
        }) + terms[0].spec_unsigned_text()
    } else {
        terms_text(terms.drop_last()) + terms.last().spec_text()
    }
}

/// The text of a whole expression: the terms, then the adjustment with a
/// sign when it is not zero, or the bare adjustment when there are no terms.
pub open spec fn roll_text(terms: Seq<DiceTerm>, adjustment: i32) -> Seq<u8> {
    terms_text(terms) + if terms.len() == 0 {
        signed_decimal(adjustment as int)
    } else if adjustment != 0 {
        plus_signed_decimal(adjustment as int)
    } else {
        Seq::empty()
    }
}

/// Every piece of expression text is ASCII.
pub proof fn lemma_suffix_text_ascii(tag: Seq<u8>, value: Option<u32>)
    requires
        is_ascii_bytes(tag),
    ensures
        is_ascii_bytes(suffix_text(tag, value)),
{
    if let Some(v) = value {
        lemma_decimal_shape(v as nat);
    }
}

/// A term's text is ASCII.
pub proof fn lemma_term_text_ascii(term: DiceTerm)
    ensures
        is_ascii_bytes(term.spec_unsigned_text()),
        is_ascii_bytes(term.spec_text()),
{
    lemma_decimal_shape(term.count as nat);
    lemma_decimal_shape(term.kind.spec_sides() as nat);
    lemma_suffix_text_ascii(seq![LOWER_K, LOWER_H], term.options.keep_highest);
    lemma_suffix_text_ascii(seq![LOWER_K, LOWER_L], term.options.keep_lowest);
    lemma_suffix_text_ascii(seq![LOWER_R], term.options.reroll_at_or_below);
    lemma_suffix_text_ascii(seq![LOWER_E], term.options.explode_at_or_above);
}

/// The text of a list of terms is ASCII.
pub proof fn lemma_terms_text_ascii(terms: Seq<DiceTerm>)
    ensures
        is_ascii_bytes(terms_text(terms)),
    decreases terms.len(),
{
    if terms.len() == 1 {
        lemma_term_text_ascii(terms[0]);
    } else if terms.len() > 1 {
        lemma_terms_text_ascii(terms.drop_last());
        lemma_term_text_ascii(terms.last());
    }
}

/// A signed numeral is ASCII.
pub proof fn lemma_signed_text_ascii(v: int)
    ensures
        is_ascii_bytes(signed_decimal(v)),
        is_ascii_bytes(plus_signed_decimal(v)),
{
    lemma_decimal_shape(if v < 0 { (-v) as nat } else { v as nat });
}

/// Appends one modifier suffix.
fn push_suffix(out: &mut Vec<u8>, first: u8, second: Option<u8>, value: Option<u32>)
    ensures
        final(out)@ == old(out)@ + suffix_text(
            match second {
                Some(b) => seq![first, b],
                None => seq![first],
            },
            value,
        ),
{
    if let Some(v) = value {
        out.push(first);
        if let Some(b) = second {
            out.push(b);
        }
        push_decimal(out, v as u64);
        assert(final(out)@ =~= old(out)@ + suffix_text(
            match second {
                Some(b) => seq![first, b],
                None => seq![first],
            },
            value,
        ));
    } else {
        assert(final(out)@ =~= old(out)@ + Seq::<u8>::empty());
    }
}

impl DiceTerm {
    /// Writes `NdK` plus option suffixes (`kh2`, `kl1`, `r1`, `e6`) without a sign.
    fn fmt_unsigned(&self, out: &mut Vec<u8>)
        ensures
            final(out)@ == old(out)@ + self.spec_unsigned_text(),
    {
        push_decimal(out, self.count as u64);
        out.push(LOWER_D);
        push_decimal(out, self.kind.sides() as u64);
        push_suffix(out, LOWER_K, Some(LOWER_H), self.options.keep_highest);
        push_suffix(out, LOWER_K, Some(LOWER_L), self.options.keep_lowest);
        push_suffix(out, LOWER_R, None, self.options.reroll_at_or_below);
        push_suffix(out, LOWER_E, None, self.options.explode_at_or_above);
        assert(final(out)@ =~= old(out)@ + self.spec_unsigned_text());
    }

    /// Writes the term with its sign.
    fn fmt_signed(&self, out: &mut Vec<u8>)
        ensures
            final(out)@ == old(out)@ + self.spec_text(),
    {
        out.push(if self.negate { MINUS } else { PLUS });
        self.fmt_unsigned(out);
        assert(final(out)@ =~= old(out)@ + self.spec_text());
    }

    /// Renders as `"+3d6"` / `"-1d4"` / `"+4d6kh3"`; the leading sign is always present.
    pub fn to_string(&self) -> (text: String)
        ensures
            text@ == ascii_text(self.spec_text()),
    {
        let mut bytes: Vec<u8> = Vec::new();
        self.fmt_signed(&mut bytes);
        proof {
            lemma_term_text_ascii(*self);
            assert(bytes@ =~= self.spec_text());
        }
        ascii_string(&bytes)
    }
}

impl DiceRoll {
    /// Writes the expression text.
    fn fmt_bytes(&self, out: &mut Vec<u8>)
        ensures
            final(out)@ == old(out)@ + roll_text(self.terms@, self.adjustment),
    {
        let ghost start = out@;
        let mut index: usize = 0;
        while index < self.terms.len()
            invariant
                index <= self.terms@.len(),
                out@ == start + terms_text(self.terms@.take(index as int)),
            decreases self.terms@.len() - index,
        {
            let term = self.terms[index];
            let ghost before = out@;
            if index == 0 {
                if term.negate {
                    out.push(MINUS);
                }
                term.fmt_unsigned(out);
                proof {
                    assert(self.terms@.take(1).len() == 1);
                    assert(self.terms@.take(1)[0] == term);
                    assert(self.terms@.take(0) =~= Seq::<DiceTerm>::empty());
                    assert(out@ =~= start + terms_text(self.terms@.take(1)));
                }
            } else {
                term.fmt_signed(out);
                proof {
                    let next = self.terms@.take(index + 1);
                    assert(next.drop_last() =~= self.terms@.take(index as int));
                    assert(next.last() == term);
                    assert(out@ =~= start + terms_text(next));
                }
            }
            index = index + 1;
        }
        assert(self.terms@.take(index as int) =~= self.terms@);
        let ghost after_terms = out@;
        if self.terms.len() == 0 {
            push_signed_decimal(out, self.adjustment);
        } else if self.adjustment != 0 {
            push_plus_signed_decimal(out, self.adjustment);
        }
        assert(final(out)@ =~= old(out)@ + roll_text(self.terms@, self.adjustment));
    }

    /// Renders as `"3d6+2"` / `"1d20-1d4+5"` / `"2d20kh1+5"`; no sign on the first term.
    pub fn to_string(&self) -> (text: String)
        ensures
            text@ == ascii_text(roll_text(self.terms@, self.adjustment)),
    {
        let mut bytes: Vec<u8> = Vec::new();
        self.fmt_bytes(&mut bytes);
        proof {
            lemma_terms_text_ascii(self.terms@);
            lemma_signed_text_ascii(self.adjustment as int);
            assert(bytes@ =~= roll_text(self.terms@, self.adjustment));
        }
        ascii_string(&bytes)
    }
}

/// Sum of the per-term lengths.
pub open spec fn length_sum(lengths: Seq<u32>) -> int
    decreases lengths.len(),
{
    if lengths.len() == 0 {
        0
    } else {
        length_sum(lengths.drop_last()) + lengths.last()
    }
}

/// The dice of term `index`: the slice of `dice` that starts after the
/// earlier terms' lengths and spans the term's own length; empty when the
/// term does not exist or the range runs past the end of `dice`.
pub open spec fn spec_term_dice(dice: Seq<RolledDie>, lengths: Seq<u32>, index: int) -> Seq<RolledDie> {
    if 0 <= index < lengths.len() {
        let start = length_sum(lengths.take(index));
        let end = start + lengths[index];
        if end <= dice.len() {
            dice.subrange(start, end)
        } else {
            Seq::empty()
        }
    } else {
        Seq::empty()
    }
}

/// Length sums grow with the prefix.
pub proof fn lemma_length_sum_monotone(lengths: Seq<u32>, a: int, b: int)
    requires
        0 <= a <= b <= lengths.len(),
    ensures
        length_sum(lengths.take(a)) <= length_sum(lengths.take(b)),
    decreases b - a,
{
    if a < b {
        lemma_length_sum_monotone(lengths, a, b - 1);
        assert(lengths.take(b).drop_last() =~= lengths.take(b - 1));
    }
}

/// `length_sum` of one more element.
pub proof fn lemma_length_sum_step(lengths: Seq<u32>, i: int)
    requires
        0 <= i < lengths.len(),
    ensures
        length_sum(lengths.take(i + 1)) == length_sum(lengths.take(i)) + lengths[i],
{
    assert(lengths.take(i + 1).drop_last() =~= lengths.take(i));
}

/// `Display` adapter returned by [`RollOutcome::display`].
pub struct RollOutcomeDisplay<'a> {
    roll: &'a DiceRoll,
    outcome: &'a RollOutcome,
}

impl RollOutcome {
    /// Dice contributed by a term; returns an empty slice for missing or malformed ranges.
    pub fn term_dice(&self, term_index: usize) -> (dice: &[RolledDie])
        ensures
            dice@ == spec_term_dice(self.dice@, self.term_lengths@, term_index as int),
    {
        let dice_count = self.dice.len();
        let empty = slice_subrange(self.dice.as_slice(), 0, 0);
        assert(empty@ =~= Seq::<RolledDie>::empty());
        if term_index >= self.term_lengths.len() {
            return empty;
        }
        let length = self.term_lengths[term_index];
        let mut start: usize = 0;
        let mut index: usize = 0;
        while index < term_index
            invariant
                index <= term_index < self.term_lengths@.len(),
                start == length_sum(self.term_lengths@.take(index as int)),
                dice_count == self.dice@.len(),
                empty@ == Seq::<RolledDie>::empty(),
            decreases term_index - index,
        {
            proof {
                lemma_length_sum_step(self.term_lengths@, index as int);
            }
            match start.checked_add(self.term_lengths[index] as usize) {
                Some(next) => start = next,
                None => {
                    proof {
                        lemma_length_sum_monotone(self.term_lengths@, index + 1, term_index as int);
                    }
                    return empty;
                },
            }
            index = index + 1;
        }
        let end = match start.checked_add(length as usize) {
            Some(end) => end,
            None => return empty,
        };
        if end <= self.dice.len() {
            slice_subrange(self.dice.as_slice(), start, end)
        } else {
            empty
        }
    }

    /// Human-readable breakdown like `"3d6(4,2,1) + 2 = 9"`. Pair with the
    /// originating [`DiceRoll`] so term signs and adjustments render.
    pub fn display<'a>(&'a self, roll: &'a DiceRoll) -> (shown: RollOutcomeDisplay<'a>)
        ensures
            shown.roll() == roll,
            shown.outcome() == self,
    {
        RollOutcomeDisplay { roll, outcome: self }
    }
}

/// Face values joined by commas.
pub open spec fn values_text(dice: Seq<RolledDie>) -> Seq<u8>
    decreases dice.len(),
{
    if dice.len() == 0 {
        Seq::empty()
    } else if dice.len() == 1 {
        decimal(dice[0].value as nat)
    } else {
        values_text(dice.drop_last()) + seq![COMMA] + decimal(dice.last().value as nat)
    }
}

/// One term of an outcome breakdown: the joiner (`-` for a negated first
/// term, ` + ` / ` - ` before later terms), then `NdK(values)`.
pub open spec fn breakdown_term_text(index: int, term: DiceTerm, dice: Seq<RolledDie>) -> Seq<u8> {
    let joiner = if index == 0 {
        if term.negate {
            seq![MINUS]
        } else {
            Seq::empty()
        }
    } else if term.negate {
        seq![SPACE, MINUS, SPACE]
    } else {
        seq![SPACE, PLUS, SPACE]
    };
    joiner + decimal(term.count as nat) + seq![LOWER_D] + decimal(term.kind.spec_sides() as nat) + seq![OPEN_PAREN]
        + values_text(dice) + seq![CLOSE_PAREN]
}

/// The first `n` terms of an outcome breakdown.
pub open spec fn breakdown_terms_text(terms: Seq<DiceTerm>, outcome: RollOutcome, n: int) -> Seq<u8>
    decreases n,
{
    if n <= 0 {
        Seq::empty()
    } else {
        breakdown_terms_text(terms, outcome, n - 1) + breakdown_term_text(
            n - 1,
            terms[n - 1],
            spec_term_dice(outcome.dice@, outcome.term_lengths@, n - 1),
        )
    }
}

/// The adjustment in a breakdown: nothing for zero, the bare value when
/// there are no terms, ` + N` or ` - N` otherwise.
pub open spec fn breakdown_adjustment_text(has_terms: bool, adjustment: i32) -> Seq<u8> {
    if adjustment == 0 {
        Seq::empty()
    } else if !has_terms {
        signed_decimal(adjustment as int)
    } else if adjustment > 0 {
        seq![SPACE, PLUS, SPACE] + decimal(adjustment as nat)
    } else {
        seq![SPACE, MINUS, SPACE] + decimal((-adjustment) as nat)
    }
}

/// Full breakdown: terms with their dice, adjustment, then ` = total`.
pub open spec fn breakdown_text(roll: DiceRoll, outcome: RollOutcome) -> Seq<u8> {
    breakdown_terms_text(roll.terms@, outcome, roll.terms@.len() as int) + breakdown_adjustment_text(
        roll.terms@.len() > 0,
        roll.adjustment,
    ) + seq![SPACE, EQUALS, SPACE] + signed_decimal(outcome.total as int)
}

/// A list of face values is ASCII text.
pub proof fn lemma_values_text_ascii(dice: Seq<RolledDie>)
    ensures
        is_ascii_bytes(values_text(dice)),
    decreases dice.len(),
{
    if dice.len() == 1 {
        lemma_decimal_shape(dice[0].value as nat);
    } else if dice.len() > 1 {
        lemma_values_text_ascii(dice.drop_last());
        lemma_decimal_shape(dice.last().value as nat);
    }
}

/// A breakdown is ASCII text.
pub proof fn lemma_breakdown_terms_ascii(terms: Seq<DiceTerm>, outcome: RollOutcome, n: int)
    requires
        n <= terms.len(),
    ensures
        is_ascii_bytes(breakdown_terms_text(terms, outcome, n)),
    decreases n,
{
    if n > 0 {
        lemma_breakdown_terms_ascii(terms, outcome, n - 1);
        lemma_decimal_shape(terms[n - 1].count as nat);
        lemma_decimal_shape(terms[n - 1].kind.spec_sides() as nat);
        lemma_values_text_ascii(spec_term_dice(outcome.dice@, outcome.term_lengths@, n - 1));
    }
}

/// Appends face values joined by commas.
fn push_values(out: &mut Vec<u8>, dice: &[RolledDie])
    ensures
        final(out)@ == old(out)@ + values_text(dice@),
{
    let ghost start = out@;
    let mut index: usize = 0;
    while index < dice.len()
        invariant
            index <= dice@.len(),
            out@ == start + values_text(dice@.take(index as int)),
        decreases dice@.len() - index,
    {
        if index > 0 {
            out.push(COMMA);
        }
        push_decimal(out, dice[index].value as u64);
        proof {
            let next = dice@.take(index + 1);
            assert(next.drop_last() =~= dice@.take(index as int));
            if index == 0 {
                assert(next.len() == 1);
            }
            assert(out@ =~= start + values_text(next));
        }
        index = index + 1;
    }
    assert(dice@.take(index as int) =~= dice@);
}

impl<'a> RollOutcomeDisplay<'a> {
    /// The expression being shown.
    pub closed spec fn roll(&self) -> &'a DiceRoll {
        self.roll
    }

    /// The outcome being shown.
    pub closed spec fn outcome(&self) -> &'a RollOutcome {
        self.outcome
    }

    /// Renders the breakdown, e.g. `"3d6(4,2,1) + 2 = 9"` or
    /// `"1d20(12) - 1d4(2) = 10"`.
    #[verifier::rlimit(30)]
    pub fn to_string(&self) -> (text: String)
        ensures
            text@ == ascii_text(breakdown_text(*self.roll(), *self.outcome())),
    {
        let roll = self.roll;
        let outcome = self.outcome;
        let mut out: Vec<u8> = Vec::new();
        let mut index: usize = 0;
        while index < roll.terms.len()
            invariant
                index <= roll.terms@.len(),
                out@ == breakdown_terms_text(roll.terms@, *outcome, index as int),
            decreases roll.terms@.len() - index,
        {
            let term = roll.terms[index];
            let ghost before = out@;
            if index == 0 {
                if term.negate {
                    out.push(MINUS);
                }
            } else {
                out.push(SPACE);
                out.push(if term.negate { MINUS } else { PLUS });
                out.push(SPACE);
            }
            push_decimal(&mut out, term.count as u64);
            out.push(LOWER_D);
            push_decimal(&mut out, term.kind.sides() as u64);
            out.push(OPEN_PAREN);
            push_values(&mut out, outcome.term_dice(index));
            out.push(CLOSE_PAREN);
            assert(out@ =~= before + breakdown_term_text(
                index as int,
                term,
                spec_term_dice(outcome.dice@, outcome.term_lengths@, index as int),
            ));
            index = index + 1;
        }
        let has_terms = roll.terms.len() > 0;
        let ghost after_terms = out@;
        if roll.adjustment != 0 {
            if !has_terms {
                push_signed_decimal(&mut out, roll.adjustment);
            } else if roll.adjustment > 0 {
                out.push(SPACE);
                out.push(PLUS);
                out.push(SPACE);
                push_decimal(&mut out, roll.adjustment as u64);
            } else {
                out.push(SPACE);
                out.push(MINUS);
                out.push(SPACE);
                let magnitude: u32 = if roll.adjustment == i32::MIN {
                    2147483648u32
                } else {
                    (-roll.adjustment) as u32
                };
                push_decimal(&mut out, magnitude as u64);
            }
        }
        assert(out@ =~= after_terms + breakdown_adjustment_text(has_terms, roll.adjustment));
        let ghost after_adjustment = out@;
        out.push(SPACE);
        out.push(EQUALS);
        out.push(SPACE);
        push_signed_decimal(&mut out, outcome.total);
        proof {
            assert(out@ =~= breakdown_text(*roll, *outcome));
            lemma_breakdown_terms_ascii(roll.terms@, *outcome, roll.terms@.len() as int);
            lemma_signed_text_ascii(roll.adjustment as int);
            lemma_signed_text_ascii(outcome.total as int);
            lemma_decimal_shape(if roll.adjustment < 0 { (-roll.adjustment) as nat } else { roll.adjustment as nat });
        }
        ascii_string(&out)
    }
}

impl<'a> From<&'a DiceRoll> for DiceRoll {
    /// A copy of `roll`: the same terms in the same order and the same adjustment.
    fn from(roll: &'a DiceRoll) -> (copy: DiceRoll)
        ensures
            copy.terms@ == roll.terms@,
            copy.adjustment == roll.adjustment,
    {
        let mut terms: Vec<DiceTerm> = Vec::new();
        let mut index: usize = 0;
        while index < roll.terms.len()
            invariant
                index <= roll.terms@.len(),
                terms@ == roll.terms@.take(index as int),
            decreases roll.terms@.len() - index,
        {
            terms.push(roll.terms[index]);
            assert(terms@ =~= roll.terms@.take(index + 1));
            index = index + 1;
        }
        assert(roll.terms@.take(index as int) =~= roll.terms@);
        DiceRoll { terms, adjustment: roll.adjustment }
    }
}

impl<'a> vstd::std_specs::convert::FromSpecImpl<&'a DiceRoll> for DiceRoll {
    open spec fn obeys_from_spec() -> bool {
        false
    }

    open spec fn from_spec(roll: &'a DiceRoll) -> DiceRoll {
        *roll
    }
}

/// Two d20 with the given options, plus `modifier`.
pub open spec fn two_d20_terms(options: Options) -> Seq<DiceTerm> {
    seq![DiceTerm { count: 2, kind: DieKind::D20, negate: false, options }]
}

impl DiceRoll {
    /// Sets `options` on every term; for mixed rolls, mutate `terms[i].options` instead.
    pub fn with_options(self, options: Options) -> (roll: Self)
        ensures
            roll.adjustment == self.adjustment,
            roll.terms@ == self.terms@.map_values(|t: DiceTerm| DiceTerm { options, ..t }),
    {
        let mut roll = self;
        let mut index: usize = 0;
        while index < roll.terms.len()
            invariant
                index <= roll.terms@.len(),
                roll.adjustment == self.adjustment,
                roll.terms@.len() == self.terms@.len(),
                forall|j: int| 0 <= j < index ==> #[trigger] roll.terms@[j] == (DiceTerm { options, ..self.terms@[j] }),
                forall|j: int| index <= j < roll.terms@.len() ==> #[trigger] roll.terms@[j] == self.terms@[j],
            decreases roll.terms@.len() - index,
        {
            let mut term = roll.terms[index];
            term.options = options;
            roll.terms.set(index, term);
            index = index + 1;
        }
        assert(roll.terms@ =~= self.terms@.map_values(|t: DiceTerm| DiceTerm { options, ..t }));
        roll
    }

    /// Every term explodes on its max face (one extra die, recursively).
    pub fn with_explode(self) -> (roll: Self)
        ensures
            roll.adjustment == self.adjustment,
            roll.terms@ == self.terms@.map_values(
                |t: DiceTerm|
                    DiceTerm {
                        options: Options { explode_at_or_above: Some(t.kind.spec_sides()), ..t.options },
                        ..t
                    },
            ),
    {
        let mut roll = self;
        let mut index: usize = 0;
        while index < roll.terms.len()
            invariant
                index <= roll.terms@.len(),
                roll.adjustment == self.adjustment,
                roll.terms@.len() == self.terms@.len(),
                forall|j: int|
                    0 <= j < index ==> #[trigger] roll.terms@[j] == (DiceTerm {
                        options: Options {
                            explode_at_or_above: Some(self.terms@[j].kind.spec_sides()),
                            ..self.terms@[j].options
                        },
                        ..self.terms@[j]
                    }),
                forall|j: int| index <= j < roll.terms@.len() ==> #[trigger] roll.terms@[j] == self.terms@[j],
            decreases roll.terms@.len() - index,
        {
            let mut term = roll.terms[index];
            term.options.explode_at_or_above = Some(term.kind.sides());
            roll.terms.set(index, term);
            index = index + 1;
        }
        assert(roll.terms@ =~= self.terms@.map_values(
            |t: DiceTerm|
                DiceTerm {
                    options: Options { explode_at_or_above: Some(t.kind.spec_sides()), ..t.options },
                    ..t
                },
        ));
        roll
    }

    /// Every term re-rolls 1s until they clear (capped by [`Options::apply`]).
    pub fn with_reroll_ones(self) -> (roll: Self)
        ensures
            roll.adjustment == self.adjustment,
            roll.terms@ == self.terms@.map_values(
                |t: DiceTerm| DiceTerm { options: Options { reroll_at_or_below: Some(1u32), ..t.options }, ..t },
            ),
    {
        let mut roll = self;
        let mut index: usize = 0;
        while index < roll.terms.len()
            invariant
                index <= roll.terms@.len(),
                roll.adjustment == self.adjustment,
                roll.terms@.len() == self.terms@.len(),
                forall|j: int|
                    0 <= j < index ==> #[trigger] roll.terms@[j] == (DiceTerm {
                        options: Options { reroll_at_or_below: Some(1u32), ..self.terms@[j].options },
                        ..self.terms@[j]
                    }),
                forall|j: int| index <= j < roll.terms@.len() ==> #[trigger] roll.terms@[j] == self.terms@[j],
            decreases roll.terms@.len() - index,
        {
            let mut term = roll.terms[index];
            term.options.reroll_at_or_below = Some(1);
            roll.terms.set(index, term);
            index = index + 1;
        }
        assert(roll.terms@ =~= self.terms@.map_values(
            |t: DiceTerm| DiceTerm { options: Options { reroll_at_or_below: Some(1u32), ..t.options }, ..t },
        ));
        roll
    }

    /// `2d20` keep-highest plus `modifier`. Standard 5e advantage roll.
    pub fn advantage(modifier: i32) -> (roll: Self)
        ensures
            roll.terms@ == two_d20_terms(Options { keep_highest: Some(1u32), ..no_options() }),
            roll.adjustment == modifier,
    {
        Self::two_d20(Options::default().with_keep_highest(1), modifier)
    }

    /// `2d20` keep-lowest plus `modifier`. Standard 5e disadvantage roll.
    pub fn disadvantage(modifier: i32) -> (roll: Self)
        ensures
            roll.terms@ == two_d20_terms(Options { keep_lowest: Some(1u32), ..no_options() }),
            roll.adjustment == modifier,
    {
        Self::two_d20(Options::default().with_keep_lowest(1), modifier)
    }

    fn two_d20(options: Options, modifier: i32) -> (roll: Self)
        ensures
            roll.terms@ == two_d20_terms(options),
            roll.adjustment == modifier,
    {
        let roll = DiceRoll {
            terms: vec![DiceTerm { count: 2, kind: DieKind::D20, negate: false, options }],
            adjustment: modifier,
        };
        assert(roll.terms@ =~= two_d20_terms(options));
        roll
    }
}

/// Clamps to the `i32` range, as `i32::saturating_add` does with its exact sum.
pub open spec fn saturate(v: int) -> i32 {
    if v > i32::MAX {
        i32::MAX
    } else if v < i32::MIN {
        i32::MIN
    } else {
        v as i32
    }
}

/// `a.saturating_add(b)` for `i32`.
pub(crate) fn saturating_sum(a: i32, b: i32) -> (sum: i32)
    ensures
        sum == saturate(a + b),
{
    let wide: i64 = a as i64 + b as i64;
    if wide > i32::MAX as i64 {
        i32::MAX
    } else if wide < i32::MIN as i64 {
        i32::MIN
    } else {
        wide as i32
    }
}

/// A term's values summed left to right with saturation, each value read as `i32`.
pub open spec fn saturating_value_sum(values: Seq<u32>) -> i32
    decreases values.len(),
{
    if values.len() == 0 {
        0
    } else {
        saturate(saturating_value_sum(values.drop_last()) + (values.last() as i32))
    }
}

/// The signed contribution of a term with these final values.
pub open spec fn signed_term_total(term: DiceTerm, values: Seq<u32>) -> int {
    if term.negate {
        -saturating_value_sum(values)
    } else {
        saturating_value_sum(values) as int
    }
}

/// Total of an outcome: the adjustment, then each term's signed total added
/// with saturation, in term order.
pub open spec fn outcome_total(adjustment: i32, terms: Seq<DiceTerm>, values: Seq<Seq<u32>>) -> i32
    decreases terms.len(),
{
    if terms.len() == 0 {
        adjustment
    } else {
        saturate(
            outcome_total(adjustment, terms.drop_last(), values.drop_last()) + signed_term_total(
                terms.last(),
                values.last(),
            ),
        )
    }
}

/// The dice of a term's final values, tagged with its kind and sign.
pub open spec fn term_dice_of(term: DiceTerm, values: Seq<u32>) -> Seq<RolledDie> {
    values.map_values(|v: u32| RolledDie { kind: term.kind, value: v, negate: term.negate })
}

/// All dice of an outcome, in term order.
pub open spec fn outcome_dice(terms: Seq<DiceTerm>, values: Seq<Seq<u32>>) -> Seq<RolledDie>
    decreases terms.len(),
{
    if terms.len() == 0 {
        Seq::empty()
    } else {
        outcome_dice(terms.drop_last(), values.drop_last()) + term_dice_of(terms.last(), values.last())
    }
}

/// How many dice each term contributed.
pub open spec fn outcome_lengths(values: Seq<Seq<u32>>) -> Seq<u32> {
    values.map_values(|v: Seq<u32>| v.len() as u32)
}

/// `values` is what a term can end with: `count` fresh faces, the modifier
/// pipeline run with some further fresh faces.
pub open spec fn possible_term_values(term: DiceTerm, values: Seq<u32>) -> bool {
    exists|initial: Seq<u32>, draws: Seq<u32>|
        {
            &&& initial.len() == term.count
            &&& faces_of(initial, term.kind)
            &&& faces_of(draws, term.kind)
            &&& values == term.options.spec_apply(term.kind, initial, draws)
        }
}

/// `outcome` is what rolling the expression gives when its terms end with
/// `values`.
pub open spec fn assembled_outcome(roll: DiceRoll, values: Seq<Seq<u32>>, outcome: RollOutcome) -> bool {
    &&& values.len() == roll.terms@.len()
    &&& outcome.total == outcome_total(roll.adjustment, roll.terms@, values)
    &&& outcome.dice@ == outcome_dice(roll.terms@, values)
    &&& outcome.term_lengths@ == outcome_lengths(values)
}

/// A sum of faces stays within `0..=i32::MAX`.
pub proof fn lemma_value_sum_nonnegative(values: Seq<u32>, kind: DieKind)
    requires
        faces_of(values, kind),
    ensures
        0 <= saturating_value_sum(values),
    decreases values.len(),
{
    if values.len() > 0 {
        lemma_value_sum_nonnegative(values.drop_last(), kind);
    }
}

impl DiceRoll {
    /// Rolls and returns the final total; see [`roll_detailed`](Self::roll_detailed) for per-die values.
    pub fn roll(&self, rng: &mut StdRng) -> (total: i32)
        ensures
            exists|values: Seq<Seq<u32>>|
                {
                    &&& values.len() == self.terms@.len()
                    &&& forall|i: int|
                        0 <= i < values.len() ==> possible_term_values(self.terms@[i], #[trigger] values[i])
                    &&& total == outcome_total(self.adjustment, self.terms@, values)
                },
    {
        self.roll_detailed(rng).total
    }

    /// Like [`roll`](Self::roll) but also returns each die's kind, value, and sign.
    pub fn roll_detailed(&self, rng: &mut StdRng) -> (outcome: RollOutcome)
        ensures
            exists|values: Seq<Seq<u32>>|
                {
                    &&& forall|i: int|
                        0 <= i < values.len() ==> possible_term_values(self.terms@[i], #[trigger] values[i])
                    &&& forall|i: int|
                        0 <= i < values.len() ==> faces_of(#[trigger] values[i], self.terms@[i].kind)
                    &&& assembled_outcome(*self, values, outcome)
                },
    {
        let mut dice: Vec<RolledDie> = Vec::new();
        let mut term_lengths: Vec<u32> = Vec::new();
        let mut total: i32 = self.adjustment;
        let ghost mut values: Seq<Seq<u32>> = Seq::empty();
        let mut index: usize = 0;
        while index < self.terms.len()
            invariant
                index <= self.terms@.len(),
                values.len() == index,
                forall|i: int| 0 <= i < index ==> possible_term_values(self.terms@[i], #[trigger] values[i]),
                forall|i: int| 0 <= i < index ==> faces_of(#[trigger] values[i], self.terms@[i].kind),
                total == outcome_total(self.adjustment, self.terms@.take(index as int), values),
                dice@ == outcome_dice(self.terms@.take(index as int), values),
                term_lengths@ == outcome_lengths(values),
            decreases self.terms@.len() - index,
        {
            let term = self.terms[index];
            let mut rolls: Vec<u32> = Vec::new();
            let mut rolled: u32 = 0;
            while rolled < term.count
                invariant
                    rolled <= term.count,
                    rolls@.len() == rolled,
                    faces_of(rolls@, term.kind),
                decreases term.count - rolled,
            {
                let value = term.kind.roll(rng);
                rolls.push(value);
                rolled = rolled + 1;
            }
            let ghost initial = rolls@;
            term.options.apply(term.kind, &mut rolls, rng);
            proof {
                let draws = choose|draws: Seq<u32>|
                    {
                        &&& forall|i: int| 0 <= i < draws.len() ==> 1 <= #[trigger] draws[i] <= term.kind.spec_sides()
                        &&& rolls@ == term.options.spec_apply(term.kind, initial, draws)
                    };
                assert(faces_of(draws, term.kind));
                assert(possible_term_values(term, rolls@));
            }
            let mut term_total: i32 = 0;
            let mut position: usize = 0;
            while position < rolls.len()
                invariant
                    position <= rolls@.len(),
                    term_total == saturating_value_sum(rolls@.take(position as int)),
                decreases rolls@.len() - position,
            {
                term_total = saturating_sum(term_total, rolls[position] as i32);
                proof {
                    assert(rolls@.take(position + 1).drop_last() =~= rolls@.take(position as int));
                }
                position = position + 1;
            }
            proof {
                assert(rolls@.take(position as int) =~= rolls@);
                lemma_value_sum_nonnegative(rolls@, term.kind);
            }
            let signed = if term.negate {
                -term_total
            } else {
                term_total
            };
            total = saturating_sum(total, signed);
            term_lengths.push(rolls.len() as u32);
            let ghost dice_before = dice@;
            let mut position: usize = 0;
            while position < rolls.len()
                invariant
                    position <= rolls@.len(),
                    dice@ == dice_before + term_dice_of(term, rolls@.take(position as int)),
                decreases rolls@.len() - position,
            {
                dice.push(RolledDie { kind: term.kind, value: rolls[position], negate: term.negate });
                proof {
                    assert(term_dice_of(term, rolls@.take(position + 1)) =~= term_dice_of(
                        term,
                        rolls@.take(position as int),
                    ).push(RolledDie { kind: term.kind, value: rolls@[position as int], negate: term.negate }));
                }
                position = position + 1;
            }
            proof {
                assert(rolls@.take(position as int) =~= rolls@);
                let old_values = values;
                values = values.push(rolls@);
                let taken = self.terms@.take(index + 1);
                assert(taken.drop_last() =~= self.terms@.take(index as int));
                assert(values.drop_last() =~= old_values);
                assert(term_lengths@ =~= outcome_lengths(values));
            }
            index = index + 1;
        }
        proof {
            assert(self.terms@.take(index as int) =~= self.terms@);
        }
        let outcome = RollOutcome { total, dice, term_lengths };
        assert(assembled_outcome(*self, values, outcome));
        outcome
    }
}

} // verus!
