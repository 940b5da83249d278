//! What holds between rolling, checking and throwing: rolled outcomes pass
//! the outcome check, throwable expressions have a queue, and the faces a
//! die is thrown to show read back as its value.

use vstd::prelude::*;

use crate::dice::kind::{lemma_all_order, DieKind};
use vstd::multiset::Multiset;
use vstd::seq_lib::lemma_multiset_commutative;
use crate::dice::laws::{
    explodes_on, lemma_keep_length, lemma_modify_length, lemma_outcome_dice_length, lemma_term_dice_of_rolled,
};
use crate::dice::options::{faces_of, MAX_OPTION_ITERATIONS};
use crate::dice::roll::{
    assembled_outcome, lemma_length_sum_monotone, lemma_length_sum_step, length_sum, outcome_dice, outcome_lengths,
    outcome_total, possible_term_values, saturate, signed_term_total, spec_term_dice, term_dice_of, DiceRoll, DiceTerm, RollOutcome, RolledDie,
};
use crate::sim::config::MAX_DICE_PER_ROLL;
use crate::ui::resolve::{spec_percentile_value, spec_single_die_value};

use super::cache::{
    composition, die_faces, faces_by_mesh, faces_by_mesh_below, faces_of_dice, faces_with_mesh, keeps_too_many,
    kinds_by_mesh, kinds_by_mesh_below, kinds_with_mesh, member_kinds, repeat_member,
};
use super::cached_roll::{
    bodies_per_die, check_dice, check_outcome_terms, check_terms, dice_values, kept, max_term_length,
    min_term_length, spec_validate_outcome, spec_validate_roll, OutcomeError,
};

verus! {

/// The faces a die is thrown to show read back as its value: the tens and
/// ones faces of a percentile value combine to it again (100 shows `00` and
/// `0`), a d10 showing `0` is a ten, and any other die shows its value.
pub proof fn lemma_faces_read_back(die: RolledDie)
    requires
        1 <= die.value <= die.kind.spec_sides(),
    ensures
        die.kind == DieKind::D100 ==> spec_percentile_value(die_faces(die)[0].1, die_faces(die)[1].1) == die.value,
        die.kind != DieKind::D100 ==> spec_single_die_value(die.kind, die_faces(die)[0].1) == die.value,
{
    let v = die.value;
    if die.kind == DieKind::D100 {
        assert(v == 100 || (v % 100 / 10 * 10 + v % 10 == v && v % 100 / 10 * 10 + v % 10 > 0)) by (nonlinear_arith)
            requires
                1 <= v <= 100,
        ;
        assert(v == 100 ==> v % 100 / 10 * 10 == 0 && v % 10 == 0);
    } else if die.kind == DieKind::D10 {
        assert(v % 10 == if v == 10 { 0 } else { v });
    }
}

/// Facts about each term of an expression that the roll check accepts from
/// `index` on: a count of at least one, options that suit the die, and no
/// more physical dice than one throw holds.
proof fn lemma_check_terms_ok(terms: Seq<DiceTerm>, index: nat, bodies: nat)
    requires
        check_terms(terms, index, bodies) is Ok,
    ensures
        forall|i: int|
            index <= i < terms.len() ==> {
                &&& 1 <= (#[trigger] terms[i]).count
                &&& terms[i].count * bodies_per_die(terms[i].kind) <= MAX_DICE_PER_ROLL
                &&& terms[i].options.spec_validate_for(terms[i].kind) is Ok
            },
    decreases terms.len() - index,
{
    if index < terms.len() {
        let term = terms[index as int];
        let next = (bodies + term.count * bodies_per_die(term.kind)) as nat;
        lemma_check_terms_ok(terms, index + 1, next);
    }
}

/// An expression that [`validate_roll`](super::cached_roll::validate_roll)
/// accepts has a queue: [`queue_composition`](super::cache::queue_composition)
/// gives the same composition that
/// [`base_composition`](super::cached_roll::base_composition) does, the dice
/// left after keep modifiers sorted by mesh.
pub proof fn lemma_throwable_rolls_have_a_queue(terms: Seq<DiceTerm>)
    requires
        spec_validate_roll(terms) is Ok,
    ensures
        !keeps_too_many(terms),
{
    lemma_check_terms_ok(terms, 0, 0);
    assert forall|i: int| 0 <= i < terms.len() implies kept(#[trigger] terms[i], terms[i].count as int)
        <= MAX_DICE_PER_ROLL by {
        lemma_bodies_scale(terms[i].count as nat, terms[i].kind);
    }
}

/// Physical bodies the terms from `index` on take before keep modifiers:
/// each die of a term counts, two for a percentile die.
pub open spec fn terms_bodies_from(terms: Seq<DiceTerm>, index: nat) -> nat
    decreases terms.len() - index,
{
    if index >= terms.len() {
        0
    } else {
        (terms[index as int].count * bodies_per_die(terms[index as int].kind) + terms_bodies_from(terms, index + 1)) as nat
    }
}

/// Every term from `index` on has a die and options that suit its die.
pub open spec fn terms_throwable_from(terms: Seq<DiceTerm>, index: nat) -> bool {
    forall|j: int|
        index <= j < terms.len() ==> 1 <= (#[trigger] terms[j]).count && terms[j].options.spec_validate_for(
            terms[j].kind,
        ) is Ok
}

proof fn lemma_check_terms_exactly(terms: Seq<DiceTerm>, index: nat, bodies: nat)
    requires
        bodies <= MAX_DICE_PER_ROLL,
    ensures
        check_terms(terms, index, bodies) is Ok <==> terms_throwable_from(terms, index) && bodies
            + terms_bodies_from(terms, index) <= MAX_DICE_PER_ROLL,
    decreases terms.len() - index,
{
    if index < terms.len() {
        let term = terms[index as int];
        let next = (bodies + term.count * bodies_per_die(term.kind)) as nat;
        lemma_bodies_scale(term.count as nat, term.kind);
        if next <= MAX_DICE_PER_ROLL {
            lemma_check_terms_exactly(terms, index + 1, next);
        }
        assert(terms_throwable_from(terms, index) ==> terms_throwable_from(terms, index + 1));
        assert(terms_throwable_from(terms, index + 1) && 1 <= term.count && term.options.spec_validate_for(
            term.kind,
        ) is Ok ==> terms_throwable_from(terms, index)) by {
            if terms_throwable_from(terms, index + 1) && 1 <= term.count && term.options.spec_validate_for(
                term.kind,
            ) is Ok {
                assert forall|j: int| index <= j < terms.len() implies 1 <= (#[trigger] terms[j]).count
                    && terms[j].options.spec_validate_for(terms[j].kind) is Ok by {
                    if j > index {
                        assert(index + 1 <= j);
                    }
                }
            }
        }
    }
}

/// [`validate_roll`](super::cached_roll::validate_roll) accepts exactly the
/// expressions with at least one term in which every term has at least one
/// die and options that suit it, and whose dice take at most
/// [`MAX_DICE_PER_ROLL`] physical bodies, two per percentile die.
pub proof fn lemma_throwable_rolls_exactly(terms: Seq<DiceTerm>)
    ensures
        spec_validate_roll(terms) is Ok <==> terms.len() >= 1 && terms_throwable_from(terms, 0) && terms_bodies_from(
            terms,
            0,
        ) <= MAX_DICE_PER_ROLL,
{
    lemma_check_terms_exactly(terms, 0, 0);
}

/// Physical bodies the dice take: two for a percentile die, one otherwise.
pub open spec fn dice_bodies(dice: Seq<RolledDie>) -> nat
    decreases dice.len(),
{
    if dice.len() == 0 {
        0
    } else {
        dice_bodies(dice.drop_last()) + bodies_per_die(dice.last().kind)
    }
}

/// Physical bodies the first `j` terms' final values take.
pub open spec fn term_bodies(terms: Seq<DiceTerm>, values: Seq<Seq<u32>>, j: nat) -> nat
    decreases j,
{
    if j == 0 {
        0
    } else {
        term_bodies(terms, values, (j - 1) as nat) + values[j - 1].len() * bodies_per_die(terms[j - 1].kind)
    }
}

proof fn lemma_dice_bodies_add(a: Seq<RolledDie>, b: Seq<RolledDie>)
    ensures
        dice_bodies(a + b) == dice_bodies(a) + dice_bodies(b),
    decreases b.len(),
{
    if b.len() > 0 {
        assert((a + b).drop_last() =~= a + b.drop_last());
        lemma_dice_bodies_add(a, b.drop_last());
    } else {
        assert(a + b =~= a);
    }
}

proof fn lemma_dice_bodies_term(term: DiceTerm, values: Seq<u32>)
    ensures
        dice_bodies(term_dice_of(term, values)) == values.len() * bodies_per_die(term.kind),
    decreases values.len(),
{
    let dice = term_dice_of(term, values);
    if values.len() > 0 {
        assert(dice.drop_last() =~= term_dice_of(term, values.drop_last()));
        assert(dice.last().kind == term.kind);
        lemma_dice_bodies_term(term, values.drop_last());
    }
    lemma_bodies_scale(values.len(), term.kind);
}

/// `n` dice of `kind` take `n` bodies, or `2n` for percentile dice.
proof fn lemma_bodies_scale(n: nat, kind: DieKind)
    ensures
        n * bodies_per_die(kind) == if kind == DieKind::D100 {
            2 * n
        } else {
            n
        },
        n > 0 ==> n * bodies_per_die(kind) == (n - 1) * bodies_per_die(kind) + bodies_per_die(kind),
        n <= n * bodies_per_die(kind),
{
    if kind == DieKind::D100 {
        assert(n * 2 == 2 * n);
    }
}

proof fn lemma_term_bodies_prefix(terms: Seq<DiceTerm>, values: Seq<Seq<u32>>, j: nat)
    requires
        j < terms.len(),
        j < values.len(),
    ensures
        term_bodies(terms.drop_last(), values.drop_last(), j) == term_bodies(terms, values, j),
    decreases j,
{
    if j > 0 {
        lemma_term_bodies_prefix(terms, values, (j - 1) as nat);
    }
}

proof fn lemma_term_bodies_monotone(terms: Seq<DiceTerm>, values: Seq<Seq<u32>>, i: nat, j: nat)
    requires
        i <= j,
    ensures
        term_bodies(terms, values, i) <= term_bodies(terms, values, j),
    decreases j,
{
    if i < j {
        lemma_term_bodies_monotone(terms, values, i, (j - 1) as nat);
    }
}

/// The bodies of an assembled outcome's dice are the bodies of its terms' values.
proof fn lemma_outcome_bodies(terms: Seq<DiceTerm>, values: Seq<Seq<u32>>)
    requires
        values.len() == terms.len(),
    ensures
        dice_bodies(outcome_dice(terms, values)) == term_bodies(terms, values, terms.len()),
    decreases terms.len(),
{
    if terms.len() > 0 {
        let n = terms.len();
        lemma_outcome_bodies(terms.drop_last(), values.drop_last());
        lemma_term_bodies_prefix(terms, values, (n - 1) as nat);
        lemma_dice_bodies_add(
            outcome_dice(terms.drop_last(), values.drop_last()),
            term_dice_of(terms.last(), values.last()),
        );
        lemma_dice_bodies_term(terms.last(), values.last());
    }
}

/// Dice built from faces of their term's die pass the die check.
proof fn lemma_term_dice_pass(term: DiceTerm, values: Seq<u32>)
    requires
        faces_of(values, term.kind),
    ensures
        check_dice(term, term_dice_of(term, values)) is Ok,
        dice_values(term_dice_of(term, values)) == values,
    decreases values.len(),
{
    assert(dice_values(term_dice_of(term, values)) =~= values);
    if values.len() > 0 {
        assert(term_dice_of(term, values).drop_first() =~= term_dice_of(term, values.drop_first()));
        assert(faces_of(values.drop_first(), term.kind)) by {
            assert forall|i: int| 0 <= i < values.drop_first().len() implies 1 <= #[trigger] values.drop_first()[i]
                <= term.kind.spec_sides() by {
                assert(values.drop_first()[i] == values[i + 1]);
            }
        }
        lemma_term_dice_pass(term, values.drop_first());
    }
}

/// A term's rolled values number between its fewest and most dice.
proof fn lemma_rolled_term_length(term: DiceTerm, values: Seq<u32>)
    requires
        possible_term_values(term, values),
        term.count <= MAX_DICE_PER_ROLL,
    ensures
        min_term_length(term) <= values.len() <= max_term_length(term),
        values.len() <= term.count + MAX_OPTION_ITERATIONS,
{
    let (initial, draws) = choose|initial: Seq<u32>, draws: Seq<u32>|
        {
            &&& initial.len() == term.count
            &&& faces_of(initial, term.kind)
            &&& faces_of(draws, term.kind)
            &&& values == term.options.spec_apply(term.kind, initial, draws)
        };
    let options = term.options;
    let modified = options.spec_modify(term.kind, initial, 0, MAX_OPTION_ITERATIONS as nat, false, draws);
    lemma_modify_length(options, term.kind, initial, 0, MAX_OPTION_ITERATIONS as nat, false, draws);
    let after_highest = match options.keep_highest {
        Some(count) => crate::dice::options::spec_keep(modified, count, true),
        None => modified,
    };
    if let Some(count) = options.keep_highest {
        lemma_keep_length(modified, count, true);
    }
    if let Some(count) = options.keep_lowest {
        lemma_keep_length(after_highest, count, false);
    }
    assert(values.len() == kept(term, modified.len() as int));
    assert(explodes_on(options, term.kind) == super::cached_roll::can_explode(term));
}

/// The preconditions of the outcome law: an expression that can be thrown
/// and an outcome assembled from values its terms can roll.
pub open spec fn rolled_outcome(roll: DiceRoll, values: Seq<Seq<u32>>, outcome: RollOutcome) -> bool {
    &&& spec_validate_roll(roll.terms@) is Ok
    &&& values.len() == roll.terms@.len()
    &&& forall|i: int| 0 <= i < values.len() ==> possible_term_values(roll.terms@[i], #[trigger] values[i])
    &&& forall|i: int| 0 <= i < values.len() ==> faces_of(#[trigger] values[i], roll.terms@[i].kind)
    &&& assembled_outcome(roll, values, outcome)
}

proof fn lemma_rolled_lengths(roll: DiceRoll, values: Seq<Seq<u32>>, outcome: RollOutcome)
    requires
        rolled_outcome(roll, values, outcome),
    ensures
        forall|i: int|
            0 <= i < values.len() ==> {
                &&& min_term_length(roll.terms@[i]) <= (#[trigger] values[i]).len() <= max_term_length(
                    roll.terms@[i],
                )
                &&& values[i].len() <= MAX_DICE_PER_ROLL + MAX_OPTION_ITERATIONS
                &&& outcome.term_lengths@[i] == values[i].len()
            },
{
    lemma_check_terms_ok(roll.terms@, 0, 0);
    assert forall|i: int| 0 <= i < values.len() implies {
        &&& min_term_length(roll.terms@[i]) <= (#[trigger] values[i]).len() <= max_term_length(roll.terms@[i])
        &&& values[i].len() <= MAX_DICE_PER_ROLL + MAX_OPTION_ITERATIONS
        &&& outcome.term_lengths@[i] == values[i].len()
    } by {
        let term = roll.terms@[i];
        lemma_bodies_scale(term.count as nat, term.kind);
        lemma_rolled_term_length(term, values[i]);
    }
}

proof fn lemma_check_rolled_terms(roll: DiceRoll, values: Seq<Seq<u32>>, outcome: RollOutcome, j: nat)
    requires
        rolled_outcome(roll, values, outcome),
        j <= roll.terms@.len(),
        term_bodies(roll.terms@, values, j) <= MAX_DICE_PER_ROLL,
    ensures
        check_outcome_terms(
            roll.terms@,
            outcome.term_lengths@,
            outcome.dice@,
            j,
            length_sum(outcome.term_lengths@.take(j as int)),
            term_bodies(roll.terms@, values, j),
            outcome_total(roll.adjustment, roll.terms@.take(j as int), values.take(j as int)),
            outcome.total,
        ) == if term_bodies(roll.terms@, values, roll.terms@.len()) <= MAX_DICE_PER_ROLL {
            Ok::<(), OutcomeError>(())
        } else {
            Err::<(), OutcomeError>(OutcomeError::TooManyDice)
        },
    decreases roll.terms@.len() - j,
{
    let terms = roll.terms@;
    let n = terms.len();
    let lengths = outcome.term_lengths@;
    let dice = outcome.dice@;
    if j == n {
        assert(terms.take(j as int) =~= terms);
        assert(values.take(j as int) =~= values);
    } else {
        let term = terms[j as int];
        let v = values[j as int];
        lemma_rolled_lengths(roll, values, outcome);
        assert(lengths[j as int] == v.len());
        let next = term_bodies(terms, values, j + 1);
        lemma_term_bodies_monotone(terms, values, j + 1, n);
        if next <= MAX_DICE_PER_ROLL {
            let offset = length_sum(lengths.take(j as int));
            lemma_length_sum_step(lengths, j as int);
            assert forall|i: int| 0 <= i < values.len() implies (#[trigger] values[i]).len() <= u32::MAX by {
                assert(values[i].len() <= MAX_DICE_PER_ROLL + MAX_OPTION_ITERATIONS);
            }
            lemma_term_dice_of_rolled(terms, values, j as int);
            lemma_outcome_dice_length(terms, values);
            lemma_length_sum_monotone(lengths, j as int + 1, n as int);
            assert(lengths.take(n as int) =~= lengths);
            assert(outcome_lengths(values) == lengths);
            assert(spec_term_dice(dice, lengths, j as int) == dice.subrange(offset, offset + lengths[j as int]));
            lemma_term_dice_pass(term, v);
            let before = outcome_total(roll.adjustment, terms.take(j as int), values.take(j as int));
            assert(terms.take(j as int + 1).drop_last() =~= terms.take(j as int));
            assert(values.take(j as int + 1).drop_last() =~= values.take(j as int));
            assert(terms.take(j as int + 1).last() == term);
            assert(values.take(j as int + 1).last() == v);
            lemma_check_rolled_terms(roll, values, outcome, j + 1);
        }
    }
}

/// Every outcome that [`DiceRoll::roll_detailed`] can give for an expression
/// that [`validate_roll`](super::cached_roll::validate_roll) accepts passes
/// [`validate_outcome`](super::cached_roll::validate_outcome), unless
/// explosions took its dice past the physical limit, which is then the one
/// thing reported.
pub proof fn lemma_rolled_outcomes_validate(roll: DiceRoll, values: Seq<Seq<u32>>, outcome: RollOutcome)
    requires
        rolled_outcome(roll, values, outcome),
    ensures
        spec_validate_outcome(
            roll.terms@,
            roll.adjustment,
            outcome.total,
            outcome.dice@,
            outcome.term_lengths@,
        ) == if dice_bodies(outcome.dice@) <= MAX_DICE_PER_ROLL {
            Ok::<(), OutcomeError>(())
        } else {
            Err::<(), OutcomeError>(OutcomeError::TooManyDice)
        },
{
    let terms = roll.terms@;
    lemma_rolled_lengths(roll, values, outcome);
    assert forall|i: int| 0 <= i < values.len() implies (#[trigger] values[i]).len() <= u32::MAX by {
        assert(values[i].len() <= MAX_DICE_PER_ROLL + MAX_OPTION_ITERATIONS);
    }
    lemma_outcome_dice_length(terms, values);
    lemma_outcome_bodies(terms, values);
    assert(outcome.term_lengths@.take(0) =~= Seq::<u32>::empty());
    assert(terms.take(0) =~= Seq::<DiceTerm>::empty());
    assert(values.take(0) =~= Seq::<Seq<u32>>::empty());
    lemma_check_rolled_terms(roll, values, outcome, 0);
}

/// The composition of two runs of terms is the two compositions in turn.
proof fn lemma_composition_concat(a: Seq<DiceTerm>, b: Seq<DiceTerm>)
    ensures
        composition(a + b) == composition(a) + composition(b),
    decreases b.len(),
{
    if b.len() == 0 {
        assert(a + b =~= a);
        assert(composition(a) + composition(b) =~= composition(a));
    } else {
        assert((a + b).drop_last() =~= a + b.drop_last());
        assert((a + b).last() == b.last());
        lemma_composition_concat(a, b.drop_last());
        let piece = repeat_member(b.last().kind, kept(b.last(), b.last().count as int) as nat);
        assert(composition(a) + composition(b.drop_last()) + piece =~= composition(a) + (composition(
            b.drop_last(),
        ) + piece));
    }
}

/// Reordering terms keeps the multiset of their physical dice.
proof fn lemma_composition_permutation(a: Seq<DiceTerm>, b: Seq<DiceTerm>)
    requires
        a.to_multiset() == b.to_multiset(),
    ensures
        composition(a).to_multiset() == composition(b).to_multiset(),
    decreases a.len(),
{
    broadcast use vstd::seq_lib::group_to_multiset_ensures;
    broadcast use vstd::multiset::group_multiset_axioms;

    if a.len() == 0 {
        assert(a.to_multiset().len() == 0);
        assert(b.to_multiset().len() == b.len());
        assert(b =~= Seq::<DiceTerm>::empty());
    } else {
        let x = a.last();
        let rest = a.drop_last();
        assert(a =~= rest.push(x));
        assert(a.to_multiset().count(x) > 0);
        assert(b.contains(x));
        let i = choose|i: int| 0 <= i < b.len() && b[i] == x;
        let shorter = b.remove(i);
        assert(shorter.to_multiset() =~= b.to_multiset().remove(x));
        assert(rest.to_multiset() =~= a.to_multiset().remove(x));
        lemma_composition_permutation(rest, shorter);
        let piece = repeat_member(x.kind, kept(x, x.count as int) as nat);
        assert(composition(Seq::<DiceTerm>::empty()) == Seq::<DieKind>::empty());
        assert(composition(seq![x]) =~= piece) by {
            assert(seq![x].drop_last() =~= Seq::<DiceTerm>::empty());
            assert(composition(seq![x]) == composition(seq![x].drop_last()) + piece);
            assert(seq![x].last() == x);
            assert(Seq::<DieKind>::empty() + piece =~= piece);
        }
        // a: the rest, then x.
        assert(composition(a) == composition(rest) + piece) by {
            assert(a.drop_last() =~= rest);
        }
        lemma_multiset_commutative(composition(rest), piece);
        // b: the terms before x, x, the terms after it.
        let before = b.take(i);
        let after = b.skip(i + 1);
        assert(b =~= before + seq![x] + after);
        assert(shorter =~= before + after);
        lemma_composition_concat(before + seq![x], after);
        lemma_composition_concat(before, seq![x]);
        lemma_composition_concat(before, after);
        lemma_multiset_commutative(composition(before) + piece, composition(after));
        lemma_multiset_commutative(composition(before), piece);
        lemma_multiset_commutative(composition(before), composition(after));
        assert(composition(b).to_multiset() =~= composition(shorter).to_multiset().add(piece.to_multiset()));
    }
}

/// The kind at each mesh index.
pub open spec fn kind_at_mesh(k: nat) -> DieKind {
    DieKind::ALL@[k as int]
}

/// The dice of one mesh are so many copies of its kind.
proof fn lemma_kinds_with_mesh_copies(s: Seq<DieKind>, k: nat)
    requires
        k < 7,
    ensures
        kinds_with_mesh(s, k) =~= Seq::new(s.to_multiset().count(kind_at_mesh(k)), |i: int| kind_at_mesh(k)),
    decreases s.len(),
{
    broadcast use vstd::seq_lib::group_to_multiset_ensures;
    broadcast use vstd::multiset::group_multiset_axioms;

    reveal(Seq::filter);
    if s.len() == 0 {
        assert(s.to_multiset() =~= Multiset::<DieKind>::empty());
    } else {
        let last = s.last();
        lemma_kinds_with_mesh_copies(s.drop_last(), k);
        assert(s =~= s.drop_last().push(last));
        lemma_all_order(last);
        assert(kind_at_mesh(k).spec_mesh_index() == k);
        assert((last.spec_mesh_index() == k) == (last == kind_at_mesh(k)));
    }
}

/// Sorting dice by mesh depends only on how many of each kind there are.
proof fn lemma_kinds_by_mesh_multiset(s: Seq<DieKind>, t: Seq<DieKind>, k: nat)
    requires
        s.to_multiset() == t.to_multiset(),
        k <= 7,
    ensures
        kinds_by_mesh_below(s, k) == kinds_by_mesh_below(t, k),
    decreases k,
{
    if k > 0 {
        lemma_kinds_by_mesh_multiset(s, t, (k - 1) as nat);
        lemma_kinds_with_mesh_copies(s, (k - 1) as nat);
        lemma_kinds_with_mesh_copies(t, (k - 1) as nat);
    }
}

/// Expressions with the same terms in any order, whatever their
/// adjustments, share one queue of recorded throws: their compositions
/// after keep modifiers, sorted by mesh, are equal, and either both or
/// neither keep more dice in a term than one throw holds.
pub proof fn lemma_term_order_shares_a_queue(a: Seq<DiceTerm>, b: Seq<DiceTerm>)
    requires
        a.to_multiset() == b.to_multiset(),
    ensures
        kinds_by_mesh(composition(a)) == kinds_by_mesh(composition(b)),
        keeps_too_many(a) == keeps_too_many(b),
{
    broadcast use vstd::seq_lib::group_to_multiset_ensures;

    lemma_composition_permutation(a, b);
    lemma_kinds_by_mesh_multiset(composition(a), composition(b), 7);
    if keeps_too_many(a) {
        let i = choose|i: int| 0 <= i < a.len() && kept(#[trigger] a[i], a[i].count as int) > MAX_DICE_PER_ROLL;
        assert(a.to_multiset().count(a[i]) > 0);
        assert(b.contains(a[i]));
        let j = choose|j: int| 0 <= j < b.len() && b[j] == a[i];
        assert(kept(b[j], b[j].count as int) > MAX_DICE_PER_ROLL);
    }
    if keeps_too_many(b) {
        let j = choose|j: int| 0 <= j < b.len() && kept(#[trigger] b[j], b[j].count as int) > MAX_DICE_PER_ROLL;
        assert(b.to_multiset().count(b[j]) > 0);
        assert(a.contains(b[j]));
        let i = choose|i: int| 0 <= i < a.len() && a[i] == b[j];
        assert(kept(a[i], a[i].count as int) > MAX_DICE_PER_ROLL);
    }
}

/// The physical dice of some dice, in order: a tens die and a d10 for each
/// percentile die, the die itself otherwise.
pub open spec fn dice_kinds(dice: Seq<RolledDie>) -> Seq<DieKind>
    decreases dice.len(),
{
    if dice.len() == 0 {
        Seq::empty()
    } else {
        dice_kinds(dice.drop_last()) + member_kinds(dice.last().kind)
    }
}

proof fn lemma_dice_kinds_concat(a: Seq<RolledDie>, b: Seq<RolledDie>)
    ensures
        dice_kinds(a + b) == dice_kinds(a) + dice_kinds(b),
    decreases b.len(),
{
    if b.len() == 0 {
        assert(a + b =~= a);
        assert(dice_kinds(a) + dice_kinds(b) =~= dice_kinds(a));
    } else {
        assert((a + b).drop_last() =~= a + b.drop_last());
        assert((a + b).last() == b.last());
        lemma_dice_kinds_concat(a, b.drop_last());
        assert(dice_kinds(a) + dice_kinds(b.drop_last()) + member_kinds(b.last().kind) =~= dice_kinds(a) + (
        dice_kinds(b.drop_last()) + member_kinds(b.last().kind)));
    }
}

proof fn lemma_dice_kinds_uniform(dice: Seq<RolledDie>, kind: DieKind)
    requires
        forall|i: int| 0 <= i < dice.len() ==> (#[trigger] dice[i]).kind == kind,
    ensures
        dice_kinds(dice) == repeat_member(kind, dice.len()),
    decreases dice.len(),
{
    if dice.len() > 0 {
        assert forall|i: int| 0 <= i < dice.drop_last().len() implies (#[trigger] dice.drop_last()[i]).kind
            == kind by {
            assert(dice.drop_last()[i] == dice[i]);
        }
        lemma_dice_kinds_uniform(dice.drop_last(), kind);
        assert(dice.last() == dice[dice.len() - 1]);
    }
}

/// Dice that pass the check are all of the term's kind.
proof fn lemma_check_dice_kinds(term: DiceTerm, dice: Seq<RolledDie>)
    requires
        check_dice(term, dice) is Ok,
    ensures
        forall|i: int| 0 <= i < dice.len() ==> (#[trigger] dice[i]).kind == term.kind,
    decreases dice.len(),
{
    if dice.len() > 0 {
        lemma_check_dice_kinds(term, dice.drop_first());
        assert forall|i: int| 0 <= i < dice.len() implies (#[trigger] dice[i]).kind == term.kind by {
            if i > 0 {
                assert(dice[i] == dice.drop_first()[i - 1]);
            }
        }
    }
}

/// The faces' dice, in order, are the dice's physical dice.
proof fn lemma_faces_kinds(dice: Seq<RolledDie>)
    ensures
        faces_of_dice(dice).map_values(|face: (DieKind, u32)| face.0) == dice_kinds(dice),
    decreases dice.len(),
{
    if dice.len() > 0 {
        lemma_faces_kinds(dice.drop_last());
        let d = dice.last();
        assert(die_faces(d).map_values(|face: (DieKind, u32)| face.0) =~= member_kinds(d.kind));
        assert(faces_of_dice(dice).map_values(|face: (DieKind, u32)| face.0) =~= faces_of_dice(
            dice.drop_last(),
        ).map_values(|face: (DieKind, u32)| face.0) + die_faces(d).map_values(|face: (DieKind, u32)| face.0));
    }
}

/// Taking the dice of sorted faces is sorting the faces' dice, group by group.
proof fn lemma_faces_with_mesh_kinds(faces: Seq<(DieKind, u32)>, k: nat)
    ensures
        faces_with_mesh(faces, k).map_values(|face: (DieKind, u32)| face.0) == kinds_with_mesh(
            faces.map_values(|face: (DieKind, u32)| face.0),
            k,
        ),
    decreases faces.len(),
{
    reveal(Seq::filter);
    if faces.len() > 0 {
        let rest = faces.drop_last();
        lemma_faces_with_mesh_kinds(rest, k);
        assert(faces.map_values(|face: (DieKind, u32)| face.0).drop_last() =~= rest.map_values(
            |face: (DieKind, u32)| face.0,
        ));
        assert(faces_with_mesh(rest, k).push(faces.last()).map_values(|face: (DieKind, u32)| face.0)
            =~= faces_with_mesh(rest, k).map_values(|face: (DieKind, u32)| face.0).push(faces.last().0));
    } else {
        assert(faces.map_values(|face: (DieKind, u32)| face.0) =~= Seq::<DieKind>::empty());
    }
}

proof fn lemma_faces_by_mesh_kinds(faces: Seq<(DieKind, u32)>, k: nat)
    ensures
        faces_by_mesh_below(faces, k).map_values(|face: (DieKind, u32)| face.0) == kinds_by_mesh_below(
            faces.map_values(|face: (DieKind, u32)| face.0),
            k,
        ),
    decreases k,
{
    if k > 0 {
        lemma_faces_by_mesh_kinds(faces, (k - 1) as nat);
        lemma_faces_with_mesh_kinds(faces, (k - 1) as nat);
        let below = faces_by_mesh_below(faces, (k - 1) as nat);
        let group = faces_with_mesh(faces, (k - 1) as nat);
        assert((below + group).map_values(|face: (DieKind, u32)| face.0) =~= below.map_values(
            |face: (DieKind, u32)| face.0,
        ) + group.map_values(|face: (DieKind, u32)| face.0));
    } else {
        assert(faces_by_mesh_below(faces, 0).map_values(|face: (DieKind, u32)| face.0) =~= Seq::<
            DieKind,
        >::empty());
    }
}

/// A checked outcome whose terms keep exactly their kept counts has, term by
/// term, the physical dice of the composition.
proof fn lemma_checked_kinds(
    terms: Seq<DiceTerm>,
    lengths: Seq<u32>,
    dice: Seq<RolledDie>,
    j: nat,
    bodies: nat,
    total: i32,
    expected: i32,
)
    requires
        check_outcome_terms(
            terms,
            lengths,
            dice,
            j,
            length_sum(lengths.take(j as int)),
            bodies,
            total,
            expected,
        ) is Ok,
        j <= terms.len(),
        lengths.len() == terms.len(),
        length_sum(lengths) == dice.len(),
        forall|i: int| 0 <= i < terms.len() ==> lengths[i] == min_term_length(#[trigger] terms[i]),
        dice_kinds(dice.take(length_sum(lengths.take(j as int)))) == composition(terms.take(j as int)),
    ensures
        dice_kinds(dice) == composition(terms),
    decreases terms.len() - j,
{
    let n = terms.len();
    let offset = length_sum(lengths.take(j as int));
    if j == n {
        assert(lengths.take(j as int) =~= lengths);
        assert(dice.take(offset) =~= dice);
        assert(terms.take(j as int) =~= terms);
    } else {
        let term = terms[j as int];
        let len = lengths[j as int];
        let slice = dice.subrange(offset, offset + len);
        lemma_length_sum_step(lengths, j as int);
        lemma_length_sum_monotone(lengths, j as int + 1, n as int);
        lemma_length_sum_monotone(lengths, 0, j as int);
        assert(lengths.take(0) =~= Seq::<u32>::empty());
        assert(lengths.take(n as int) =~= lengths);
        lemma_check_dice_kinds(term, slice);
        lemma_dice_kinds_uniform(slice, term.kind);
        assert(dice.take(offset + len) =~= dice.take(offset) + slice);
        lemma_dice_kinds_concat(dice.take(offset), slice);
        assert(terms.take(j as int + 1).drop_last() =~= terms.take(j as int));
        assert(terms.take(j as int + 1).last() == term);
        let next = (bodies + len * bodies_per_die(term.kind)) as nat;
        lemma_checked_kinds(
            terms,
            lengths,
            dice,
            j + 1,
            next,
            saturate(total + signed_term_total(term, dice_values(slice))),
            expected,
        );
    }
}

/// An outcome that passes [`validate_outcome`](super::cached_roll::validate_outcome)
/// and keeps no exploded extras is thrown with the dice that precomputing
/// warmed: the dice [`physical_dice`](super::cache::physical_dice) lists are
/// those of [`base_composition`](super::cached_roll::base_composition).
pub proof fn lemma_kept_outcomes_use_the_base_queue(
    terms: Seq<DiceTerm>,
    adjustment: i32,
    total: i32,
    dice: Seq<RolledDie>,
    lengths: Seq<u32>,
)
    requires
        spec_validate_outcome(terms, adjustment, total, dice, lengths) is Ok,
        forall|i: int| 0 <= i < lengths.len() ==> lengths[i] == min_term_length(#[trigger] terms[i]),
    ensures
        faces_by_mesh(faces_of_dice(dice)).map_values(|face: (DieKind, u32)| face.0) == kinds_by_mesh(
            composition(terms),
        ),
{
    assert(lengths.take(0) =~= Seq::<u32>::empty());
    assert(terms.take(0) =~= Seq::<DiceTerm>::empty());
    assert(dice.take(0) =~= Seq::<RolledDie>::empty());
    lemma_checked_kinds(terms, lengths, dice, 0, 0, adjustment, total);
    lemma_faces_kinds(dice);
    lemma_faces_by_mesh_kinds(faces_of_dice(dice), 7);
}

/// Every die that [`check_dice`] lets through matches its term: the kind,
/// a face of that kind, and the term's sign.
proof fn lemma_checked_dice_match_term(term: DiceTerm, dice: Seq<RolledDie>)
    requires
        check_dice(term, dice) is Ok,
    ensures
        forall|k: int|
            0 <= k < dice.len() ==> {
                &&& (#[trigger] dice[k]).kind == term.kind
                &&& dice[k].negate == term.negate
                &&& 1 <= dice[k].value <= term.kind.spec_sides()
            },
    decreases dice.len(),
{
    if dice.len() > 0 {
        lemma_checked_dice_match_term(term, dice.drop_first());
        assert forall|k: int| 0 < k < dice.len() implies (#[trigger] dice[k]).kind == term.kind
            && dice[k].negate == term.negate && 1 <= dice[k].value <= term.kind.spec_sides() by {
            assert(dice[k] == dice.drop_first()[k - 1]);
        }
    }
}

/// The terms from `index` on, read from `offset` on, keep their dice in
/// line with them when the rest of the check passes.
proof fn lemma_checked_terms_match_dice(
    terms: Seq<DiceTerm>,
    lengths: Seq<u32>,
    dice: Seq<RolledDie>,
    index: nat,
    bodies: nat,
    total: i32,
    expected: i32,
)
    requires
        lengths.len() == terms.len(),
        length_sum(lengths) == dice.len(),
        index <= terms.len(),
        check_outcome_terms(terms, lengths, dice, index, length_sum(lengths.take(index as int)), bodies, total, expected) is Ok,
    ensures
        forall|i: int, k: int|
            index <= i < terms.len() && 0 <= k < lengths[i] ==> {
                &&& spec_term_dice(dice, lengths, i).len() == lengths[i]
                &&& (#[trigger] spec_term_dice(dice, lengths, i)[k]).kind == terms[i].kind
                &&& spec_term_dice(dice, lengths, i)[k].negate == terms[i].negate
                &&& 1 <= spec_term_dice(dice, lengths, i)[k].value <= terms[i].kind.spec_sides()
            },
    decreases terms.len() - index,
{
    if index < terms.len() {
        let offset = length_sum(lengths.take(index as int));
        let term = terms[index as int];
        let len = lengths[index as int];
        let next = (bodies + len * bodies_per_die(term.kind)) as nat;
        let slice = dice.subrange(offset, offset + len);
        lemma_length_sum_step(lengths, index as int);
        lemma_length_sum_monotone(lengths, index as int + 1, lengths.len() as int);
        assert(lengths.take(lengths.len() as int) =~= lengths);
        lemma_length_sum_monotone(lengths, 0, index as int);
        assert(lengths.take(0) =~= Seq::<u32>::empty());
        assert(0 <= offset);
        assert(offset + len <= dice.len());
        assert(spec_term_dice(dice, lengths, index as int) == slice);
        assert(check_dice(term, slice) is Ok);
        lemma_checked_dice_match_term(term, slice);
        lemma_checked_terms_match_dice(
            terms,
            lengths,
            dice,
            index + 1,
            next,
            saturate(total + signed_term_total(term, dice_values(slice))),
            expected,
        );
        assert forall|i: int, k: int| index <= i < terms.len() && 0 <= k < lengths[i] implies {
            &&& spec_term_dice(dice, lengths, i).len() == lengths[i]
            &&& (#[trigger] spec_term_dice(dice, lengths, i)[k]).kind == terms[i].kind
            &&& spec_term_dice(dice, lengths, i)[k].negate == terms[i].negate
            &&& 1 <= spec_term_dice(dice, lengths, i)[k].value <= terms[i].kind.spec_sides()
        } by {
            if i == index {
                assert(slice.len() == len);
                assert(spec_term_dice(dice, lengths, i)[k] == slice[k]);
                assert(slice[k].kind == term.kind);
            }
        }
    }
}

/// An outcome that [`validate_outcome`](super::cached_roll::validate_outcome)
/// accepts matches its expression die by die: each term's slice of the dice
/// has the term's length, and every die in it has the term's kind, a face of
/// that kind, and the term's sign, negated or not.
pub proof fn lemma_accepted_dice_match_their_terms(
    terms: Seq<DiceTerm>,
    adjustment: i32,
    total: i32,
    dice: Seq<RolledDie>,
    lengths: Seq<u32>,
)
    requires
        spec_validate_outcome(terms, adjustment, total, dice, lengths) is Ok,
    ensures
        forall|i: int, k: int|
            0 <= i < terms.len() && 0 <= k < lengths[i] ==> {
                &&& spec_term_dice(dice, lengths, i).len() == lengths[i]
                &&& (#[trigger] spec_term_dice(dice, lengths, i)[k]).kind == terms[i].kind
                &&& spec_term_dice(dice, lengths, i)[k].negate == terms[i].negate
                &&& 1 <= spec_term_dice(dice, lengths, i)[k].value <= terms[i].kind.spec_sides()
            },
{
    assert(lengths.take(0) =~= Seq::<u32>::empty());
    lemma_checked_terms_match_dice(terms, lengths, dice, 0, 0, adjustment, total);
}

} // verus!
