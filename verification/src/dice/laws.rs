//! What holds of the dice math as a whole: names that identify dice,
//! modifiers that leave rolls alone when unset, and how many dice a term
//! can end with.

use vstd::prelude::*;

use super::kind::{lemma_from_sides_round_trip, DieKind};
use super::text::{decimal, lemma_decimal_shape};
use super::options::{no_options, spec_keep, Modifier, Options, MAX_OPTION_ITERATIONS};
use super::roll::{
    lemma_length_sum_monotone, lemma_length_sum_step, length_sum, outcome_dice, outcome_lengths, spec_term_dice,
    term_dice_of, DiceTerm,
};

verus! {

/// Two kinds with the same asset name are the same kind, so
/// [`DieKind::from_asset_name`] finds every kind by its own name.
pub proof fn lemma_asset_names_distinct(a: DieKind, b: DieKind)
    requires
        a.spec_asset_name() == b.spec_asset_name(),
    ensures
        a == b,
{
    let ba = a.spec_asset_name_bytes();
    let bb = b.spec_asset_name_bytes();
    assert(ba.len() == a.spec_asset_name().len());
    assert(bb.len() == b.spec_asset_name().len());
    assert forall|i: int| 0 <= i < ba.len() implies ba[i] == bb[i] by {
        assert(a.spec_asset_name()[i] == ba[i] as char);
        assert(b.spec_asset_name()[i] == bb[i] as char);
    }
    assert(ba =~= bb);
    assert(ba.subrange(1, ba.len() as int) =~= decimal(a.spec_sides() as nat));
    assert(bb.subrange(1, bb.len() as int) =~= decimal(b.spec_sides() as nat));
    lemma_decimal_shape(a.spec_sides() as nat);
    lemma_decimal_shape(b.spec_sides() as nat);
    lemma_from_sides_round_trip(a);
    lemma_from_sides_round_trip(b);
}

/// The options can add dice: they explode on a face the die has.
pub open spec fn explodes_on(options: Options, kind: DieKind) -> bool {
    options.explode_at_or_above is Some && options.explode_at_or_above->0 <= kind.spec_sides()
}

/// Rerolling replaces dice and exploding adds them, at most one die per
/// unit of budget; without an explosion on the die's faces the number of
/// dice stays the same.
pub proof fn lemma_modify_length(
    options: Options,
    kind: DieKind,
    rolls: Seq<u32>,
    index: nat,
    budget: nat,
    exploded: bool,
    draws: Seq<u32>,
)
    ensures
        rolls.len() <= options.spec_modify(kind, rolls, index, budget, exploded, draws).len() <= rolls.len()
            + budget,
        !explodes_on(options, kind) ==> options.spec_modify(kind, rolls, index, budget, exploded, draws).len()
            == rolls.len(),
    decreases budget, rolls.len() - index,
{
    if index >= rolls.len() || budget == 0 {
    } else {
        match options.spec_modifier_for(kind, rolls[index as int], exploded) {
            None => lemma_modify_length(options, kind, rolls, index + 1, budget, false, draws),
            Some(Modifier::Reroll) => lemma_modify_length(
                options,
                kind,
                rolls.update(index as int, draws[0]),
                index,
                (budget - 1) as nat,
                exploded,
                draws.drop_first(),
            ),
            Some(Modifier::Explode) => lemma_modify_length(
                options,
                kind,
                rolls.push(draws[0]),
                index,
                (budget - 1) as nat,
                true,
                draws.drop_first(),
            ),
        }
    }
}

/// A keep leaves `count` dice, or all of them when there are no more.
pub proof fn lemma_keep_length(rolls: Seq<u32>, count: u32, highest: bool)
    ensures
        spec_keep(rolls, count, highest).len() == if count < rolls.len() {
            count as int
        } else {
            rolls.len() as int
        },
{
    if count < rolls.len() {
        broadcast use vstd::seq_lib::group_to_multiset_ensures;

        let sorted = rolls.sort_by(super::options::keep_order(highest));
        rolls.lemma_sort_by_ensures(super::options::keep_order(highest));
        assert(sorted.len() == sorted.to_multiset().len());
        assert(rolls.len() == rolls.to_multiset().len());
    }
}

/// Without options, a roll is left as it is.
pub proof fn lemma_no_options_keep_rolls(kind: DieKind, rolls: Seq<u32>, draws: Seq<u32>)
    ensures
        no_options().spec_apply(kind, rolls, draws) == rolls,
{
    lemma_no_options_modify(kind, rolls, 0, MAX_OPTION_ITERATIONS as nat, false, draws);
}

proof fn lemma_no_options_modify(
    kind: DieKind,
    rolls: Seq<u32>,
    index: nat,
    budget: nat,
    exploded: bool,
    draws: Seq<u32>,
)
    ensures
        no_options().spec_modify(kind, rolls, index, budget, exploded, draws) == rolls,
    decreases rolls.len() - index,
{
    if index < rolls.len() && budget > 0 {
        lemma_no_options_modify(kind, rolls, index + 1, budget, false, draws);
    }
}

/// The dice of a rolled outcome add up to the sum of its term lengths.
pub proof fn lemma_outcome_dice_length(terms: Seq<DiceTerm>, values: Seq<Seq<u32>>)
    requires
        values.len() == terms.len(),
        forall|i: int| 0 <= i < values.len() ==> (#[trigger] values[i]).len() <= u32::MAX,
    ensures
        outcome_dice(terms, values).len() == length_sum(outcome_lengths(values)),
    decreases terms.len(),
{
    if terms.len() > 0 {
        lemma_outcome_dice_length(terms.drop_last(), values.drop_last());
        assert(outcome_lengths(values).drop_last() =~= outcome_lengths(values.drop_last()));
        assert(values.last() == values[values.len() - 1]);
    }
}

/// [`RollOutcome::term_dice`] of an outcome that [`DiceRoll::roll_detailed`]
/// assembles gives each term's own dice: its final values, tagged with its
/// kind and sign, in order.
pub proof fn lemma_term_dice_of_rolled(terms: Seq<DiceTerm>, values: Seq<Seq<u32>>, index: int)
    requires
        values.len() == terms.len(),
        forall|i: int| 0 <= i < values.len() ==> (#[trigger] values[i]).len() <= u32::MAX,
        0 <= index < terms.len(),
    ensures
        spec_term_dice(outcome_dice(terms, values), outcome_lengths(values), index) == term_dice_of(
            terms[index],
            values[index],
        ),
    decreases terms.len(),
{
    let n = terms.len() as int;
    let dice = outcome_dice(terms, values);
    let lengths = outcome_lengths(values);
    let shorter = outcome_dice(terms.drop_last(), values.drop_last());
    let shorter_lengths = outcome_lengths(values.drop_last());
    assert(lengths.drop_last() =~= shorter_lengths);
    assert(lengths[index] == values[index].len());
    lemma_outcome_dice_length(terms.drop_last(), values.drop_last());
    assert(dice == shorter + term_dice_of(terms.last(), values.last()));
    if index == n - 1 {
        assert(lengths.take(index) =~= shorter_lengths);
        assert(dice.subrange(shorter.len() as int, dice.len() as int) =~= term_dice_of(terms[index], values[index]));
    } else {
        lemma_term_dice_of_rolled(terms.drop_last(), values.drop_last(), index);
        assert(lengths.take(index) =~= shorter_lengths.take(index));
        lemma_length_sum_step(shorter_lengths, index);
        lemma_length_sum_monotone(shorter_lengths, index + 1, n - 1);
        assert(shorter_lengths.take(n - 1) =~= shorter_lengths);
        let start = length_sum(lengths.take(index));
        let end = start + lengths[index];
        assert(lengths[index] == shorter_lengths[index]);
        assert(end == length_sum(shorter_lengths.take(index + 1)));
        assert(end <= shorter.len());
        lemma_length_sum_monotone(shorter_lengths, 0, index);
        assert(shorter_lengths.take(0) =~= Seq::<u32>::empty());
        assert(0 <= start);
        assert(dice.subrange(start, end) =~= shorter.subrange(start, end));
    }
}

/// A die that is rerolled is then treated exactly as if it had been rolled
/// with its new value: the pass goes on from the new value as from a fresh
/// die, which may explode, with one unit of budget spent.
pub proof fn lemma_rerolled_die_reads_as_fresh(
    options: Options,
    kind: DieKind,
    rolls: Seq<u32>,
    index: nat,
    budget: nat,
    draws: Seq<u32>,
)
    requires
        index < rolls.len(),
        budget >= 1,
        options.spec_modifier_for(kind, rolls[index as int], false) == Some(Modifier::Reroll),
    ensures
        options.spec_modify(kind, rolls, index, budget, false, draws) == options.spec_modify(
            kind,
            rolls.update(index as int, draws[0]),
            index,
            (budget - 1) as nat,
            false,
            draws.drop_first(),
        ),
{
}

/// A die that shows a reroll face and is rerolled onto an exploding face
/// explodes: with reroll at or below `r` and explode at or above `e` on the
/// die's faces, a die showing at most `r` that rerolls into `first`
/// (above `r`, at least `e`) gains one extra die, `second`, which ends the
/// pass when it neither rerolls nor explodes. Without keep modifiers the
/// dice that come out are `first` and `second`.
pub proof fn lemma_reroll_onto_explode_face(
    options: Options,
    kind: DieKind,
    shown: u32,
    first: u32,
    second: u32,
    rest: Seq<u32>,
)
    requires
        options.keep_highest is None,
        options.keep_lowest is None,
        options.reroll_at_or_below matches Some(r) && r < kind.spec_sides() && shown <= r && r < first && r < second,
        options.explode_at_or_above matches Some(e) && e <= kind.spec_sides() && e <= first && second < e,
    ensures
        options.spec_apply(kind, seq![shown], seq![first, second] + rest) == seq![first, second],
{
    let draws = seq![first, second] + rest;
    let budget = MAX_OPTION_ITERATIONS as nat;
    let once = seq![first];
    let twice = seq![first, second];
    assert(seq![shown].update(0, draws[0]) =~= once);
    assert(draws.drop_first()[0] == second);
    assert(once.push(second) =~= twice);
    assert(draws.drop_first().drop_first() =~= rest);
    assert(options.spec_modify(kind, twice, 2, (budget - 2) as nat, false, rest) == twice);
    assert(options.spec_modify(kind, twice, 1, (budget - 2) as nat, false, rest) == twice);
    assert(options.spec_modify(kind, twice, 0, (budget - 2) as nat, true, rest) == twice);
    assert(options.spec_modify(kind, once, 0, (budget - 1) as nat, false, draws.drop_first()) == twice);
    assert(options.spec_modify(kind, seq![shown], 0, budget, false, draws) == twice);
}

} // verus!
