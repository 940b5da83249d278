//! Checks that an expression can be thrown with the physical dice at hand,
//! and that an outcome supplied from outside fits its expression.

use vstd::prelude::*;
use vstd::string::StringExecFns;

use crate::dice::kind::DieKind;
use crate::dice::options::MAX_OPTION_ITERATIONS;
use crate::dice::roll::{
    lemma_length_sum_monotone, lemma_length_sum_step, lemma_value_sum_nonnegative, length_sum, saturate,
    saturating_sum, saturating_value_sum, signed_term_total, DiceRoll, DiceTerm, RollOutcome, RolledDie,
};
use crate::sim::config::MAX_DICE_PER_ROLL;

use super::cache::{composition, kept_count, kinds_by_mesh, push_members, sort_kinds_by_mesh};

verus! {

/// Failures encountered while preparing or playing a cached roll.
#[derive(Clone, Debug, PartialEq, Eq, Structural)]
pub enum RollFailure {
    InvalidOutcome(OutcomeError),
    MissingArena,
    MissingDiceset,
    AssetUnavailable,
    InvalidGeometry,
    SimulationFailed,
    ArenaChanged,
    DiceRemoved,
}

/// Invalid expression settings or externally supplied outcome data.
#[derive(Clone, Debug, Eq, PartialEq, Structural)]
pub enum OutcomeError {
    NoDice,
    InvalidOptions,
    TermCount,
    DiceCount,
    DieKind,
    DieValue,
    DieSign,
    Total,
    TooManyDice,
}

impl OutcomeError {
    /// The sentence that describes this error.
    pub open spec fn message(self) -> &'static str {
        match self {
            OutcomeError::NoDice => "expression must contain at least one dice term",
            OutcomeError::InvalidOptions => "invalid dice options",
            OutcomeError::TermCount => "outcome term count does not match the expression",
            OutcomeError::DiceCount => "outcome dice count does not match its terms",
            OutcomeError::DieKind => "outcome die kind does not match its term",
            OutcomeError::DieValue => "outcome die value is outside its face range",
            OutcomeError::DieSign => "outcome die sign does not match its term",
            OutcomeError::Total => "outcome total does not match its dice and adjustment",
            OutcomeError::TooManyDice => "roll exceeds the physical dice limit",
        }
    }

    /// Describes the error in one sentence.
    pub fn to_string(&self) -> (text: String)
        ensures
            text@ == self.message()@,
    {
        let text = match self {
            OutcomeError::NoDice => "expression must contain at least one dice term",
            OutcomeError::InvalidOptions => "invalid dice options",
            OutcomeError::TermCount => "outcome term count does not match the expression",
            OutcomeError::DiceCount => "outcome dice count does not match its terms",
            OutcomeError::DieKind => "outcome die kind does not match its term",
            OutcomeError::DieValue => "outcome die value is outside its face range",
            OutcomeError::DieSign => "outcome die sign does not match its term",
            OutcomeError::Total => "outcome total does not match its dice and adjustment",
            OutcomeError::TooManyDice => "roll exceeds the physical dice limit",
        };
        String::from_str(text)
    }
}

impl RollFailure {
    /// The sentence that describes this failure.
    pub open spec fn message(self) -> Seq<char> {
        match self {
            RollFailure::InvalidOutcome(err) => "invalid outcome: "@ + err.message()@,
            RollFailure::MissingArena => "arena no longer exists"@,
            RollFailure::MissingDiceset => "arena diceset no longer exists"@,
            RollFailure::AssetUnavailable => "diceset asset is unavailable"@,
            RollFailure::InvalidGeometry => "dice geometry cannot map the requested faces"@,
            RollFailure::SimulationFailed => "simulation did not produce a usable throw"@,
            RollFailure::ArenaChanged => "arena changed during playback"@,
            RollFailure::DiceRemoved => "dice were removed during playback"@,
        }
    }

    /// Describes the failure in one sentence.
    pub fn to_string(&self) -> (text: String)
        ensures
            text@ == self.message(),
    {
        match self {
            RollFailure::InvalidOutcome(err) => {
                let detail = err.to_string();
                let mut text = String::from_str("invalid outcome: ");
                text.append(detail.as_str());
                text
            },
            RollFailure::MissingArena => String::from_str("arena no longer exists"),
            RollFailure::MissingDiceset => String::from_str("arena diceset no longer exists"),
            RollFailure::AssetUnavailable => String::from_str("diceset asset is unavailable"),
            RollFailure::InvalidGeometry => String::from_str("dice geometry cannot map the requested faces"),
            RollFailure::SimulationFailed => String::from_str("simulation did not produce a usable throw"),
            RollFailure::ArenaChanged => String::from_str("arena changed during playback"),
            RollFailure::DiceRemoved => String::from_str("dice were removed during playback"),
        }
    }

    /// The outcome error behind this failure, if it has one.
    pub fn source(&self) -> (source: Option<&OutcomeError>)
        ensures
            match self {
                RollFailure::InvalidOutcome(err) => source == Some(err),
                _ => source is None,
            },
    {
        match self {
            RollFailure::InvalidOutcome(err) => Some(err),
            _ => None,
        }
    }
}

/// Physical bodies one die of `kind` takes: a percentile die is thrown as a
/// tens die plus a d10.
pub open spec fn bodies_per_die(kind: DieKind) -> nat {
    if kind == DieKind::D100 {
        2
    } else {
        1
    }
}

/// First problem with the terms from `index` on, `bodies` physical dice
/// having been counted before: options that do not suit the die, a zero
/// count, or more bodies than one throw holds.
pub open spec fn check_terms(terms: Seq<DiceTerm>, index: nat, bodies: nat) -> Result<(), OutcomeError>
    decreases terms.len() - index,
{
    if index >= terms.len() {
        Ok(())
    } else {
        let term = terms[index as int];
        let next = (bodies + term.count * bodies_per_die(term.kind)) as nat;
        if term.options.spec_validate_for(term.kind) is Err {
            Err(OutcomeError::InvalidOptions)
        } else if term.count == 0 {
            Err(OutcomeError::DiceCount)
        } else if next > MAX_DICE_PER_ROLL {
            Err(OutcomeError::TooManyDice)
        } else {
            check_terms(terms, index + 1, next)
        }
    }
}

/// What [`validate_roll`] answers for an expression with these terms.
pub open spec fn spec_validate_roll(terms: Seq<DiceTerm>) -> Result<(), OutcomeError> {
    if terms.len() == 0 {
        Err(OutcomeError::NoDice)
    } else {
        check_terms(terms, 0, 0)
    }
}

/// `n` capped by a keep limit, when there is one.
pub open spec fn cap(n: int, limit: Option<u32>) -> int {
    match limit {
        Some(l) => if l < n {
            l as int
        } else {
            n
        },
        None => n,
    }
}

/// `n` capped by both keep limits of `term`.
pub open spec fn kept(term: DiceTerm, n: int) -> int {
    cap(cap(n, term.options.keep_highest), term.options.keep_lowest)
}

/// The term can explode: its threshold is a face of its die.
pub open spec fn can_explode(term: DiceTerm) -> bool {
    term.options.explode_at_or_above is Some && term.options.explode_at_or_above->0 <= term.kind.spec_sides()
}

/// Fewest dice a term can contribute: its count after keeps.
pub open spec fn min_term_length(term: DiceTerm) -> int {
    kept(term, term.count as int)
}

/// Most dice a term can contribute: its count plus every extra die the
/// modifier budget allows when it can explode (saturating at `u32::MAX`),
/// after keeps.
pub open spec fn max_term_length(term: DiceTerm) -> int {
    let most = if can_explode(term) {
        if term.count + MAX_OPTION_ITERATIONS > u32::MAX {
            u32::MAX as int
        } else {
            term.count + MAX_OPTION_ITERATIONS
        }
    } else {
        term.count as int
    };
    kept(term, most)
}

/// First die of `dice` that does not belong to `term`: another kind, a value
/// off its faces, or another sign; each die is checked in that order.
pub open spec fn check_dice(term: DiceTerm, dice: Seq<RolledDie>) -> Result<(), OutcomeError>
    decreases dice.len(),
{
    if dice.len() == 0 {
        Ok(())
    } else {
        let die = dice[0];
        if die.kind != term.kind {
            Err(OutcomeError::DieKind)
        } else if !(1 <= die.value <= term.kind.spec_sides()) {
            Err(OutcomeError::DieValue)
        } else if die.negate != term.negate {
            Err(OutcomeError::DieSign)
        } else {
            check_dice(term, dice.drop_first())
        }
    }
}

/// The face values of some dice.
pub open spec fn dice_values(dice: Seq<RolledDie>) -> Seq<u32> {
    dice.map_values(|die: RolledDie| die.value)
}

/// Checks the outcome's terms from `index` on: `offset` dice and `bodies`
/// physical dice come before, and `total` is the running total so far;
/// after the last term the total must equal `expected`.
pub open spec fn check_outcome_terms(
    terms: Seq<DiceTerm>,
    lengths: Seq<u32>,
    dice: Seq<RolledDie>,
    index: nat,
    offset: int,
    bodies: nat,
    total: i32,
    expected: i32,
) -> Result<(), OutcomeError>
    decreases terms.len() - index,
{
    if index >= terms.len() {
        if total != expected {
            Err(OutcomeError::Total)
        } else {
            Ok(())
        }
    } else {
        let term = terms[index as int];
        let len = lengths[index as int];
        let next = (bodies + len * bodies_per_die(term.kind)) as nat;
        let slice = dice.subrange(offset, offset + len);
        if len < min_term_length(term) || len > max_term_length(term) {
            Err(OutcomeError::DiceCount)
        } else if next > MAX_DICE_PER_ROLL {
            Err(OutcomeError::TooManyDice)
        } else {
            match check_dice(term, slice) {
                Err(e) => Err(e),
                Ok(_) => check_outcome_terms(
                    terms,
                    lengths,
                    dice,
                    index + 1,
                    offset + len,
                    next,
                    saturate(total + signed_term_total(term, dice_values(slice))),
                    expected,
                ),
            }
        }
    }
}

/// What [`validate_outcome`] answers: the expression's own problems first,
/// then the shape of the outcome (one length per term, lengths adding up to
/// the dice), then each term in order, then the total.
pub open spec fn spec_validate_outcome(
    terms: Seq<DiceTerm>,
    adjustment: i32,
    total: i32,
    dice: Seq<RolledDie>,
    lengths: Seq<u32>,
) -> Result<(), OutcomeError> {
    match spec_validate_roll(terms) {
        Err(e) => Err(e),
        Ok(_) => if lengths.len() != terms.len() {
            Err(OutcomeError::TermCount)
        } else if length_sum(lengths) != dice.len() {
            Err(OutcomeError::DiceCount)
        } else {
            check_outcome_terms(terms, lengths, dice, 0, 0, 0, adjustment, total)
        },
    }
}

/// Validates expression options and its initial physical body count.
pub fn validate_roll(roll: &DiceRoll) -> (result: Result<(), OutcomeError>)
    ensures
        result == spec_validate_roll(roll.terms@),
{
    if roll.terms.len() == 0 {
        return Err(OutcomeError::NoDice);
    }
    let mut body_count: u64 = 0;
    let mut index: usize = 0;
    while index < roll.terms.len()
        invariant
            index <= roll.terms@.len(),
            roll.terms@.len() > 0,
            body_count <= MAX_DICE_PER_ROLL,
            spec_validate_roll(roll.terms@) == check_terms(roll.terms@, index as nat, body_count as nat),
        decreases roll.terms@.len() - index,
    {
        let term = roll.terms[index];
        if term.options.validate_for(term.kind).is_err() {
            return Err(OutcomeError::InvalidOptions);
        }
        if term.count == 0 {
            return Err(OutcomeError::DiceCount);
        }
        let per_die: u64 = if term.kind == DieKind::D100 {
            2
        } else {
            1
        };
        body_count = body_count + term.count as u64 * per_die;
        if body_count > MAX_DICE_PER_ROLL as u64 {
            return Err(OutcomeError::TooManyDice);
        }
        index = index + 1;
    }
    Ok(())
}

/// Canonical base composition after keep modifiers, excluding additional explosions.
pub fn base_composition(roll: &DiceRoll) -> (kinds: Result<Vec<DieKind>, OutcomeError>)
    ensures
        match spec_validate_roll(roll.terms@) {
            Err(e) => kinds == Err::<Vec<DieKind>, OutcomeError>(e),
            Ok(_) => kinds matches Ok(k) && k@ == kinds_by_mesh(composition(roll.terms@)),
        },
{
    if let Err(e) = validate_roll(roll) {
        return Err(e);
    }
    let mut kinds: Vec<DieKind> = Vec::new();
    let mut index: usize = 0;
    while index < roll.terms.len()
        invariant
            index <= roll.terms@.len(),
            kinds@ == composition(roll.terms@.take(index as int)),
        decreases roll.terms@.len() - index,
    {
        let term = roll.terms[index];
        let count = kept_count(&term);
        push_members(&mut kinds, term.kind, count);
        proof {
            let taken = roll.terms@.take(index + 1);
            assert(taken.drop_last() =~= roll.terms@.take(index as int));
            assert(taken.last() == term);
        }
        index = index + 1;
    }
    proof {
        assert(roll.terms@.take(index as int) =~= roll.terms@);
    }
    Ok(sort_kinds_by_mesh(&kinds))
}

/// Checks every die of `dice[start..end]` against `term` and sums their
/// values with saturation.
fn check_term_dice(term: &DiceTerm, dice: &Vec<RolledDie>, start: usize, end: usize) -> (result: Result<
    i32,
    OutcomeError,
>)
    requires
        start <= end <= dice@.len(),
    ensures
        match check_dice(*term, dice@.subrange(start as int, end as int)) {
            Err(e) => result == Err::<i32, OutcomeError>(e),
            Ok(_) => result == Ok::<i32, OutcomeError>(
                saturating_value_sum(dice_values(dice@.subrange(start as int, end as int))),
            ),
        },
{
    let ghost slice = dice@.subrange(start as int, end as int);
    let mut term_total: i32 = 0;
    let mut position: usize = start;
    while position < end
        invariant
            start <= position <= end <= dice@.len(),
            slice == dice@.subrange(start as int, end as int),
            check_dice(*term, slice) == check_dice(*term, dice@.subrange(position as int, end as int)),
            term_total == saturating_value_sum(dice_values(slice.take(position - start))),
        decreases end - position,
    {
        let die = dice[position];
        let ghost rest = dice@.subrange(position as int, end as int);
        assert(rest[0] == die);
        assert(rest.drop_first() =~= dice@.subrange(position + 1, end as int));
        if die.kind != term.kind {
            return Err(OutcomeError::DieKind);
        }
        if die.value < 1 || die.value > term.kind.sides() {
            return Err(OutcomeError::DieValue);
        }
        if die.negate != term.negate {
            return Err(OutcomeError::DieSign);
        }
        term_total = saturating_sum(term_total, die.value as i32);
        proof {
            let done = slice.take(position + 1 - start);
            assert(dice_values(done).drop_last() =~= dice_values(slice.take(position - start)));
            assert(dice_values(done).last() == die.value);
        }
        position = position + 1;
    }
    proof {
        assert(slice.take(position - start) =~= slice);
    }
    Ok(term_total)
}

/// Validates untrusted final dice without indexing through unchecked term lengths.
pub fn validate_outcome(roll: &DiceRoll, outcome: &RollOutcome) -> (result: Result<(), OutcomeError>)
    ensures
        result == spec_validate_outcome(
            roll.terms@,
            roll.adjustment,
            outcome.total,
            outcome.dice@,
            outcome.term_lengths@,
        ),
{
    if let Err(e) = validate_roll(roll) {
        return Err(e);
    }
    let terms = &roll.terms;
    let lengths = &outcome.term_lengths;
    if lengths.len() != terms.len() {
        return Err(OutcomeError::TermCount);
    }
    let dice_len = outcome.dice.len();
    let mut sum: usize = 0;
    let mut index: usize = 0;
    while index < lengths.len()
        invariant
            index <= lengths@.len(),
            sum == length_sum(lengths@.take(index as int)),
            lengths@ == outcome.term_lengths@,
            terms@ == roll.terms@,
            lengths@.len() == terms@.len(),
            spec_validate_roll(terms@) is Ok,
            dice_len == outcome.dice@.len(),
        decreases lengths@.len() - index,
    {
        proof {
            lemma_length_sum_step(lengths@, index as int);
        }
        match sum.checked_add(lengths[index] as usize) {
            Some(next) => sum = next,
            None => {
                proof {
                    lemma_length_sum_monotone(lengths@, index + 1, lengths@.len() as int);
                    assert(lengths@.take(lengths@.len() as int) =~= lengths@);
                }
                return Err(OutcomeError::DiceCount);
            },
        }
        index = index + 1;
    }
    proof {
        assert(lengths@.take(index as int) =~= lengths@);
    }
    if sum != dice_len {
        return Err(OutcomeError::DiceCount);
    }
    let ghost dice = outcome.dice@;
    let mut offset: usize = 0;
    let mut body_count: u64 = 0;
    let mut total: i32 = roll.adjustment;
    let mut index: usize = 0;
    while index < terms.len()
        invariant
            index <= terms@.len(),
            lengths@.len() == terms@.len(),
            lengths@ == outcome.term_lengths@,
            terms@ == roll.terms@,
            length_sum(lengths@) == dice.len(),
            dice == outcome.dice@,
            dice_len == dice.len(),
            offset == length_sum(lengths@.take(index as int)),
            body_count <= MAX_DICE_PER_ROLL,
            spec_validate_outcome(terms@, roll.adjustment, outcome.total, dice, lengths@)
                == check_outcome_terms(
                terms@,
                lengths@,
                dice,
                index as nat,
                offset as int,
                body_count as nat,
                total,
                outcome.total,
            ),
        decreases terms@.len() - index,
    {
        let term = terms[index];
        let len = lengths[index];
        let mut minimum_count = term.count;
        let mut maximum_count = term.count;
        if let Some(threshold) = term.options.explode_at_or_above {
            if threshold <= term.kind.sides() {
                maximum_count = maximum_count.saturating_add(MAX_OPTION_ITERATIONS);
            }
        }
        if let Some(limit) = term.options.keep_highest {
            if limit < minimum_count {
                minimum_count = limit;
            }
            if limit < maximum_count {
                maximum_count = limit;
            }
        }
        if let Some(limit) = term.options.keep_lowest {
            if limit < minimum_count {
                minimum_count = limit;
            }
            if limit < maximum_count {
                maximum_count = limit;
            }
        }
        assert(minimum_count == min_term_length(term));
        assert(maximum_count == max_term_length(term));
        if len < minimum_count || len > maximum_count {
            return Err(OutcomeError::DiceCount);
        }
        let per_die: u64 = if term.kind == DieKind::D100 {
            2
        } else {
            1
        };
        body_count = body_count + len as u64 * per_die;
        if body_count > MAX_DICE_PER_ROLL as u64 {
            return Err(OutcomeError::TooManyDice);
        }
        proof {
            lemma_length_sum_step(lengths@, index as int);
            lemma_length_sum_monotone(lengths@, index + 1, lengths@.len() as int);
            assert(lengths@.take(lengths@.len() as int) =~= lengths@);
        }
        let end = offset + len as usize;
        let term_total = match check_term_dice(&term, &outcome.dice, offset, end) {
            Err(e) => {
                return Err(e);
            },
            Ok(sum) => sum,
        };
        proof {
            let slice = dice.subrange(offset as int, end as int);
            assert(check_dice(term, slice) is Ok);
            lemma_check_dice_faces(term, slice);
            lemma_value_sum_nonnegative(dice_values(slice), term.kind);
        }
        let signed = if term.negate {
            -term_total
        } else {
            term_total
        };
        total = saturating_sum(total, signed);
        offset = end;
        index = index + 1;
    }
    if total != outcome.total {
        return Err(OutcomeError::Total);
    }
    Ok(())
}

/// Dice that pass the check show faces of the term's die.
pub proof fn lemma_check_dice_faces(term: DiceTerm, dice: Seq<RolledDie>)
    requires
        check_dice(term, dice) is Ok,
    ensures
        forall|i: int| 0 <= i < dice.len() ==> 1 <= #[trigger] dice_values(dice)[i] <= term.kind.spec_sides(),
    decreases dice.len(),
{
    if dice.len() > 0 {
        lemma_check_dice_faces(term, dice.drop_first());
        assert forall|i: int| 0 <= i < dice.len() implies 1 <= #[trigger] dice_values(dice)[i]
            <= term.kind.spec_sides() by {
            if i > 0 {
                assert(dice_values(dice)[i] == dice_values(dice.drop_first())[i - 1]);
            }
        }
    }
}

} // verus!
