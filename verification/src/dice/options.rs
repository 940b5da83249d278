//! Per-term roll modifiers: keep, reroll and explode.

use rand::rngs::StdRng;
use vstd::prelude::*;
use vstd::relations::{sorted_by, total_ordering};
use vstd::seq_lib::{lemma_multiset_commutative, lemma_sorted_unique};

use super::kind::DieKind;

verus! {

broadcast use vstd::seq_lib::group_to_multiset_ensures;

/// Shared per-call cap on reroll-replacements + explode-additions.
pub const MAX_OPTION_ITERATIONS: u32 = 100;

/// Per-term roll modifiers, applied in order: reroll, explode, keep.
#[derive(Clone, Copy, Debug, PartialEq, Eq, Structural)]
pub struct Options {
    /// Keep the top `n` dice after rolling, discarding the rest.
    pub keep_highest: Option<u32>,
    /// Keep the bottom `n` dice after rolling, discarding the rest.
    pub keep_lowest: Option<u32>,
    /// Reroll any die showing this value or lower until it exceeds it.
    pub reroll_at_or_below: Option<u32>,
    /// Spawn an extra die whenever a roll meets or exceeds this value.
    pub explode_at_or_above: Option<u32>,
}

/// Settings that would loop forever or never trigger for a given [`DieKind`].
#[derive(Clone, Copy, Debug, PartialEq, Eq, Structural)]
pub enum OptionsError {
    /// `keep_highest` or `keep_lowest` was set to zero.
    KeepZero,
    /// `reroll_at_or_below` >= the die's max face, so every roll loops forever.
    RerollNotBelowMax { reroll: u32, sides: u32 },
    /// `explode_at_or_above` <= 1, so every roll explodes forever.
    ExplodeNotAboveMin { explode: u32 },
}

/// Action a settled die value requests under [`Options::modifier_for`].
#[derive(Clone, Copy, Debug, PartialEq, Eq, Structural)]
pub enum Modifier {
    /// Replace the die with a fresh roll.
    Reroll,
    /// Add one extra die to the term.
    Explode,
}

/// No modifiers at all.
pub open spec fn no_options() -> Options {
    Options { keep_highest: None, keep_lowest: None, reroll_at_or_below: None, explode_at_or_above: None }
}

impl Default for Options {
    fn default() -> (options: Self)
        ensures
            options == no_options(),
    {
        Options { keep_highest: None, keep_lowest: None, reroll_at_or_below: None, explode_at_or_above: None }
    }
}

/// Every value is a face of `kind`.
pub open spec fn faces_of(values: Seq<u32>, kind: DieKind) -> bool {
    forall|i: int| 0 <= i < values.len() ==> 1 <= #[trigger] values[i] <= kind.spec_sides()
}

/// Order used by a keep: descending for keep-highest, ascending for keep-lowest.
pub open spec fn keep_order(highest: bool) -> spec_fn(u32, u32) -> bool {
    if highest {
        |a: u32, b: u32| a >= b
    } else {
        |a: u32, b: u32| a <= b
    }
}

/// Trim to `count` dice: unchanged when `count` covers every die, otherwise
/// the first `count` dice of the sorted order (highest first for keep-highest).
pub open spec fn spec_keep(rolls: Seq<u32>, count: u32, highest: bool) -> Seq<u32> {
    if count >= rolls.len() {
        rolls
    } else {
        rolls.sort_by(keep_order(highest)).take(count as int)
    }
}

/// Both keep orders are total orders.
pub proof fn lemma_keep_order_total(highest: bool)
    ensures
        total_ordering(keep_order(highest)),
{
}

impl Options {
    /// The options with `keep_highest` set.
    pub fn with_keep_highest(self, count: u32) -> (options: Self)
        ensures
            options == (Options { keep_highest: Some(count), ..self }),
    {
        let mut options = self;
        options.keep_highest = Some(count);
        options
    }

    /// The options with `keep_lowest` set.
    pub fn with_keep_lowest(self, count: u32) -> (options: Self)
        ensures
            options == (Options { keep_lowest: Some(count), ..self }),
    {
        let mut options = self;
        options.keep_lowest = Some(count);
        options
    }

    /// The options with `reroll_at_or_below` set.
    pub fn with_reroll_at_or_below(self, threshold: u32) -> (options: Self)
        ensures
            options == (Options { reroll_at_or_below: Some(threshold), ..self }),
    {
        let mut options = self;
        options.reroll_at_or_below = Some(threshold);
        options
    }

    /// The options with `explode_at_or_above` set.
    pub fn with_explode_at_or_above(self, threshold: u32) -> (options: Self)
        ensures
            options == (Options { explode_at_or_above: Some(threshold), ..self }),
    {
        let mut options = self;
        options.explode_at_or_above = Some(threshold);
        options
    }

    /// First problem found with these settings for `kind`, checked in the
    /// order keep, reroll, explode.
    pub open spec fn spec_validate_for(self, kind: DieKind) -> Result<(), OptionsError> {
        if self.keep_highest == Some(0u32) || self.keep_lowest == Some(0u32) {
            Err(OptionsError::KeepZero)
        } else if self.reroll_at_or_below is Some && self.reroll_at_or_below->0 >= kind.spec_sides() {
            Err(OptionsError::RerollNotBelowMax { reroll: self.reroll_at_or_below->0, sides: kind.spec_sides() })
        } else if self.explode_at_or_above is Some && self.explode_at_or_above->0 <= 1 {
            Err(OptionsError::ExplodeNotAboveMin { explode: self.explode_at_or_above->0 })
        } else {
            Ok(())
        }
    }

    /// Rejects settings that would loop forever or never trigger for `kind`.
    pub fn validate_for(&self, kind: DieKind) -> (result: Result<(), OptionsError>)
        ensures
            result == self.spec_validate_for(kind),
    {
        if matches!(self.keep_highest, Some(0)) || matches!(self.keep_lowest, Some(0)) {
            return Err(OptionsError::KeepZero);
        }
        if let Some(threshold) = self.reroll_at_or_below {
            if threshold >= kind.sides() {
                return Err(OptionsError::RerollNotBelowMax { reroll: threshold, sides: kind.sides() });
            }
        }
        if let Some(threshold) = self.explode_at_or_above {
            if threshold <= 1 {
                return Err(OptionsError::ExplodeNotAboveMin { explode: threshold });
            }
        }
        Ok(())
    }

    /// What a die showing `value` asks for; reroll wins over explode, and a
    /// die explodes once. Thresholds outside the die's range never trigger.
    pub open spec fn spec_modifier_for(self, kind: DieKind, value: u32, exploded: bool) -> Option<Modifier> {
        if self.reroll_at_or_below is Some && self.reroll_at_or_below->0 < kind.spec_sides()
            && value <= self.reroll_at_or_below->0 {
            Some(Modifier::Reroll)
        } else if self.explode_at_or_above is Some && self.explode_at_or_above->0 <= kind.spec_sides()
            && !exploded && value >= self.explode_at_or_above->0 {
            Some(Modifier::Explode)
        } else {
            None
        }
    }

    /// What a die showing `value` asks for; reroll wins over explode, and a die explodes once.
    /// Thresholds outside the die's range never trigger.
    pub fn modifier_for(&self, kind: DieKind, value: u32, exploded: bool) -> (modifier: Option<Modifier>)
        ensures
            modifier == self.spec_modifier_for(kind, value, exploded),
    {
        if let Some(threshold) = self.reroll_at_or_below {
            if threshold < kind.sides() && value <= threshold {
                return Some(Modifier::Reroll);
            }
        }
        if let Some(threshold) = self.explode_at_or_above {
            if threshold <= kind.sides() && !exploded && value >= threshold {
                return Some(Modifier::Explode);
            }
        }
        None
    }

    /// Reroll / explode pass over `rolls`, starting at die `index` with
    /// `budget` modifications left; `exploded` tells whether die `index`
    /// has already exploded. Fresh dice are taken from `draws` in order.
    /// Once the budget is spent nothing changes any more.
    pub open spec fn spec_modify(
        self,
        kind: DieKind,
        rolls: Seq<u32>,
        index: nat,
        budget: nat,
        exploded: bool,
        draws: Seq<u32>,
    ) -> Seq<u32>
        decreases budget, rolls.len() - index,
    {
        if index >= rolls.len() || budget == 0 {
            rolls
        } else {
            match self.spec_modifier_for(kind, rolls[index as int], exploded) {
                None => self.spec_modify(kind, rolls, index + 1, budget, false, draws),
                Some(Modifier::Reroll) => self.spec_modify(
                    kind,
                    rolls.update(index as int, draws[0]),
                    index,
                    (budget - 1) as nat,
                    exploded,
                    draws.drop_first(),
                ),
                Some(Modifier::Explode) => self.spec_modify(
                    kind,
                    rolls.push(draws[0]),
                    index,
                    (budget - 1) as nat,
                    true,
                    draws.drop_first(),
                ),
            }
        }
    }

    /// Keep-highest then keep-lowest, as configured.
    pub open spec fn spec_apply_keep(self, rolls: Seq<u32>) -> Seq<u32> {
        let after_highest = match self.keep_highest {
            Some(count) => spec_keep(rolls, count, true),
            None => rolls,
        };
        match self.keep_lowest {
            Some(count) => spec_keep(after_highest, count, false),
            None => after_highest,
        }
    }

    /// The whole modifier pipeline when fresh dice come out as `draws`:
    /// reroll + explode under one [`MAX_OPTION_ITERATIONS`] budget, then keep.
    pub open spec fn spec_apply(self, kind: DieKind, rolls: Seq<u32>, draws: Seq<u32>) -> Seq<u32> {
        self.spec_apply_keep(self.spec_modify(kind, rolls, 0, MAX_OPTION_ITERATIONS as nat, false, draws))
    }

    /// Runs reroll + explode (sharing one [`MAX_OPTION_ITERATIONS`] budget) then keep.
    /// Exploded dice are checked too, so the physics path yields the same distribution.
    pub fn apply(&self, kind: DieKind, rolls: &mut Vec<u32>, rng: &mut StdRng)
        ensures
            exists|draws: Seq<u32>|
                {
                    &&& forall|i: int| 0 <= i < draws.len() ==> 1 <= #[trigger] draws[i] <= kind.spec_sides()
                    &&& final(rolls)@ == self.spec_apply(kind, old(rolls)@, draws)
                },
            faces_of(old(rolls)@, kind) ==> faces_of(final(rolls)@, kind),
    {
        let ghost initial = rolls@;
        let ghost mut drawn: Seq<u32> = Seq::empty();
        let mut budget: u32 = MAX_OPTION_ITERATIONS;
        let mut index: usize = 0;
        assert forall|rest: Seq<u32>|
            self.spec_modify(kind, initial, 0, 100, false, drawn + rest) == #[trigger] self.spec_modify(
                kind,
                rolls@,
                index as nat,
                budget as nat,
                false,
                rest,
            ) by {
            assert(drawn + rest =~= rest);
        }
        while index < rolls.len()
            invariant
                index <= rolls.len(),
                budget <= MAX_OPTION_ITERATIONS,
                rolls.len() + budget <= initial.len() + MAX_OPTION_ITERATIONS,
                forall|i: int| 0 <= i < drawn.len() ==> 1 <= #[trigger] drawn[i] <= kind.spec_sides(),
                faces_of(initial, kind) ==> faces_of(rolls@, kind),
                forall|rest: Seq<u32>|
                    self.spec_modify(kind, initial, 0, 100, false, drawn + rest) == #[trigger] self.spec_modify(
                        kind,
                        rolls@,
                        index as nat,
                        budget as nat,
                        false,
                        rest,
                    ),
            decreases rolls.len() - index + budget,
        {
            let mut exploded = false;
            let ghost start_total = rolls.len() + budget;
            while budget > 0
                invariant
                    index < rolls.len(),
                    budget <= MAX_OPTION_ITERATIONS,
                    rolls.len() + budget <= start_total,
                    start_total <= initial.len() + MAX_OPTION_ITERATIONS,
                    forall|i: int| 0 <= i < drawn.len() ==> 1 <= #[trigger] drawn[i] <= kind.spec_sides(),
                    faces_of(initial, kind) ==> faces_of(rolls@, kind),
                    forall|rest: Seq<u32>|
                        self.spec_modify(kind, initial, 0, 100, false, drawn + rest)
                            == #[trigger] self.spec_modify(
                            kind,
                            rolls@,
                            index as nat,
                            budget as nat,
                            exploded,
                            rest,
                        ),
                ensures
                    index < rolls.len(),
                    budget <= MAX_OPTION_ITERATIONS,
                    rolls.len() + budget <= start_total,
                    forall|i: int| 0 <= i < drawn.len() ==> 1 <= #[trigger] drawn[i] <= kind.spec_sides(),
                    faces_of(initial, kind) ==> faces_of(rolls@, kind),
                    budget == 0 ==> forall|rest: Seq<u32>|
                        self.spec_modify(kind, initial, 0, 100, false, drawn + rest)
                            == #[trigger] self.spec_modify(
                            kind,
                            rolls@,
                            index as nat,
                            budget as nat,
                            exploded,
                            rest,
                        ),
                    budget > 0 ==> forall|rest: Seq<u32>|
                        self.spec_modify(kind, initial, 0, 100, false, drawn + rest)
                            == #[trigger] self.spec_modify(
                            kind,
                            rolls@,
                            (index + 1) as nat,
                            budget as nat,
                            false,
                            rest,
                        ),
                decreases budget,
            {
                let ghost before = rolls@;
                let ghost before_budget = budget;
                match self.modifier_for(kind, rolls[index], exploded) {
                    Some(Modifier::Reroll) => {
                        let value = kind.roll(rng);
                        rolls.set(index, value);
                        budget -= 1;
                        proof {
                            let old_drawn = drawn;
                            drawn = drawn.push(value);
                            assert forall|rest: Seq<u32>|
                                self.spec_modify(kind, initial, 0, 100, false, drawn + rest)
                                    == #[trigger] self.spec_modify(
                                    kind,
                                    rolls@,
                                    index as nat,
                                    budget as nat,
                                    exploded,
                                    rest,
                                ) by {
                                let longer = seq![value] + rest;
                                assert(drawn + rest =~= old_drawn + longer);
                                assert(longer.drop_first() =~= rest);
                                assert(self.spec_modify(kind, before, index as nat, before_budget as nat, exploded, longer)
                                    == self.spec_modify(kind, before.update(index as int, value), index as nat, (before_budget - 1) as nat, exploded, rest));
                            }
                        }
                    },
                    Some(Modifier::Explode) => {
                        let value = kind.roll(rng);
                        rolls.push(value);
                        budget -= 1;
                        proof {
                            let old_drawn = drawn;
                            drawn = drawn.push(value);
                            assert forall|rest: Seq<u32>|
                                self.spec_modify(kind, initial, 0, 100, false, drawn + rest)
                                    == #[trigger] self.spec_modify(
                                    kind,
                                    rolls@,
                                    index as nat,
                                    budget as nat,
                                    true,
                                    rest,
                                ) by {
                                let longer = seq![value] + rest;
                                assert(drawn + rest =~= old_drawn + longer);
                                assert(longer.drop_first() =~= rest);
                                assert(self.spec_modify(kind, before, index as nat, before_budget as nat, exploded, longer)
                                    == self.spec_modify(kind, before.push(value), index as nat, (before_budget - 1) as nat, true, rest));
                            }
                        }
                        exploded = true;
                    },
                    None => {
                        proof {
                            assert forall|rest: Seq<u32>|
                                self.spec_modify(kind, initial, 0, 100, false, drawn + rest)
                                    == #[trigger] self.spec_modify(
                                    kind,
                                    rolls@,
                                    (index + 1) as nat,
                                    budget as nat,
                                    false,
                                    rest,
                                ) by {
                                assert(self.spec_modify(kind, before, index as nat, budget as nat, exploded, rest)
                                    == self.spec_modify(kind, before, (index + 1) as nat, budget as nat, false, rest));
                            }
                        }
                        break;
                    },
                }
            }
            proof {
                if budget == 0 {
                    assert forall|rest: Seq<u32>|
                        self.spec_modify(kind, initial, 0, 100, false, drawn + rest)
                            == #[trigger] self.spec_modify(
                            kind,
                            rolls@,
                            (index + 1) as nat,
                            budget as nat,
                            false,
                            rest,
                        ) by {
                        assert(self.spec_modify(kind, rolls@, index as nat, 0, exploded, rest) == rolls@);
                        assert(self.spec_modify(kind, rolls@, (index + 1) as nat, 0, false, rest) == rolls@);
                    }
                }
            }
            let ghost previous = index;
            index += 1;
            proof {
                assert forall|rest: Seq<u32>|
                    self.spec_modify(kind, initial, 0, 100, false, drawn + rest) == #[trigger] self.spec_modify(
                        kind,
                        rolls@,
                        index as nat,
                        budget as nat,
                        false,
                        rest,
                    ) by {
                    assert(self.spec_modify(kind, initial, 0, 100, false, drawn + rest) == self.spec_modify(
                        kind,
                        rolls@,
                        (previous + 1) as nat,
                        budget as nat,
                        false,
                        rest,
                    ));
                }
            }
        }
        proof {
            assert(self.spec_modify(kind, initial, 0, 100, false, drawn + Seq::empty()) == self.spec_modify(
                kind,
                rolls@,
                index as nat,
                budget as nat,
                false,
                Seq::empty(),
            ));
            assert(drawn + Seq::<u32>::empty() =~= drawn);
        }
        let ghost modified = rolls@;
        self.apply_keep(rolls);
        assert(rolls@ == self.spec_apply(kind, initial, drawn));
        proof {
            if faces_of(initial, kind) {
                assert forall|i: int| 0 <= i < rolls@.len() implies 1 <= #[trigger] rolls@[i] <= kind.spec_sides() by {
                    assert(rolls@.contains(rolls@[i]));
                    assert(modified.contains(rolls@[i]));
                }
            }
        }
    }

    /// RNG-free trim of `rolls` in place; the physics layer reuses this.
    pub fn apply_keep(&self, rolls: &mut Vec<u32>)
        ensures
            final(rolls)@ == self.spec_apply_keep(old(rolls)@),
            forall|x: u32| final(rolls)@.contains(x) ==> old(rolls)@.contains(x),
    {
        if let Some(count) = self.keep_highest {
            keep(rolls, count, true);
        }
        if let Some(count) = self.keep_lowest {
            keep(rolls, count, false);
        }
    }
}

/// Sorts `rolls` (descending when `highest`) and truncates to `count`.
fn keep(rolls: &mut Vec<u32>, count: u32, highest: bool)
    ensures
        final(rolls)@ == spec_keep(old(rolls)@, count, highest),
        forall|x: u32| final(rolls)@.contains(x) ==> old(rolls)@.contains(x),
{
    let count = count as usize;
    if count >= rolls.len() {
        return;
    }
    sort_rolls(rolls, highest);
    let ghost sorted = rolls@;
    rolls.truncate(count);
    assert(rolls@ =~= sorted.take(count as int));
    assert forall|x: u32| rolls@.contains(x) implies old(rolls)@.contains(x) by {
        let i = choose|i: int| 0 <= i < rolls@.len() && rolls@[i] == x;
        assert(sorted[i] == x);
        assert(sorted.to_multiset().count(x) > 0);
    }
}

/// `a` may come before `b` in the keep order.
fn in_keep_order(a: u32, b: u32, highest: bool) -> (before: bool)
    ensures
        before == keep_order(highest)(a, b),
{
    if highest {
        a >= b
    } else {
        a <= b
    }
}

/// Insertion sort into the keep order.
fn sort_rolls(rolls: &mut Vec<u32>, highest: bool)
    ensures
        final(rolls)@.len() == old(rolls)@.len(),
        final(rolls)@.to_multiset() == old(rolls)@.to_multiset(),
        final(rolls)@ == old(rolls)@.sort_by(keep_order(highest)),
{
    let ghost leq = keep_order(highest);
    let mut sorted: Vec<u32> = Vec::new();
    let mut i: usize = 0;
    while i < rolls.len()
        invariant
            i <= rolls.len(),
            leq == keep_order(highest),
            sorted_by(sorted@, leq),
            sorted@.to_multiset() == rolls@.subrange(0, i as int).to_multiset(),
        decreases rolls.len() - i,
    {
        let value = rolls[i];
        let mut position: usize = 0;
        while position < sorted.len()
            invariant
                position <= sorted.len(),
                leq == keep_order(highest),
                forall|j: int| 0 <= j < position ==> leq(#[trigger] sorted@[j], value),
            ensures
                position <= sorted.len(),
                forall|j: int| 0 <= j < position ==> leq(#[trigger] sorted@[j], value),
                position == sorted.len() || !leq(sorted@[position as int], value),
            decreases sorted.len() - position,
        {
            if !in_keep_order(sorted[position], value, highest) {
                break;
            }
            position = position + 1;
        }
        let ghost before = sorted@;
        sorted.insert(position, value);
        proof {
            assert(position == before.len() || !leq(before[position as int], value));
            assert forall|a: int, b: int| 0 <= a < b < sorted@.len() implies #[trigger] leq(
                sorted@[a],
                sorted@[b],
            ) by {
                if b < position {
                } else if a > position {
                    assert(sorted@[a] == before[a - 1]);
                    assert(sorted@[b] == before[b - 1]);
                } else if a == position {
                    assert(leq(value, before[position as int]));
                    assert(leq(before[position as int], before[b - 1]) || b - 1 == position);
                } else if b == position {
                } else {
                    assert(sorted@[b] == before[b - 1]);
                    assert(leq(before[a], value));
                    assert(leq(value, before[position as int]));
                }
            }
            let prefix = before.subrange(0, position as int);
            let suffix = before.subrange(position as int, before.len() as int);
            assert(before =~= prefix + suffix);
            assert(sorted@ =~= prefix.push(value) + suffix);
            lemma_multiset_commutative(prefix.push(value), suffix);
            lemma_multiset_commutative(prefix, suffix);
            assert(rolls@.subrange(0, i + 1) =~= rolls@.subrange(0, i as int).push(value));
        }
        i = i + 1;
    }
    proof {
        assert(rolls@.subrange(0, i as int) =~= rolls@);
        lemma_keep_order_total(highest);
        rolls@.lemma_sort_by_ensures(leq);
        lemma_sorted_unique(sorted@, rolls@.sort_by(leq), leq);
        assert(sorted@.len() == sorted@.to_multiset().len());
    }
    *rolls = sorted;
}

} // verus!
