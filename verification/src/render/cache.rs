//! Physical dice compositions: which dice a throw needs and which face each
//! must show, ordered by mesh so that equal compositions share a queue of
//! recorded throws.

use vstd::prelude::*;

use crate::dice::kind::DieKind;
use crate::dice::roll::{DiceRoll, DiceTerm, RollOutcome, RolledDie};
use crate::sim::config::MAX_DICE_PER_ROLL;

use super::cached_roll::kept;

verus! {

/// Number of ready recordings retained for each arena and physical dice composition.
pub const PRECOMPUTE_QUEUE_DEPTH: usize = 2;

/// The dice whose mesh index is `k`, in their order.
pub open spec fn kinds_with_mesh(kinds: Seq<DieKind>, k: nat) -> Seq<DieKind> {
    kinds.filter(|kind: DieKind| kind.spec_mesh_index() == k)
}

/// The dice with mesh index below `k`, grouped by mesh index in ascending
/// order, each group in the order it came in.
pub open spec fn kinds_by_mesh_below(kinds: Seq<DieKind>, k: nat) -> Seq<DieKind>
    decreases k,
{
    if k == 0 {
        Seq::empty()
    } else {
        kinds_by_mesh_below(kinds, (k - 1) as nat) + kinds_with_mesh(kinds, (k - 1) as nat)
    }
}

/// The dice sorted by mesh index (a stable sort; every kind has its own index).
pub open spec fn kinds_by_mesh(kinds: Seq<DieKind>) -> Seq<DieKind> {
    kinds_by_mesh_below(kinds, 7)
}

/// The faces whose die has mesh index `k`, in their order.
pub open spec fn faces_with_mesh(faces: Seq<(DieKind, u32)>, k: nat) -> Seq<(DieKind, u32)> {
    faces.filter(|face: (DieKind, u32)| face.0.spec_mesh_index() == k)
}

/// The faces whose die has mesh index below `k`, grouped by mesh index in
/// ascending order, each group in the order it came in.
pub open spec fn faces_by_mesh_below(faces: Seq<(DieKind, u32)>, k: nat) -> Seq<(DieKind, u32)>
    decreases k,
{
    if k == 0 {
        Seq::empty()
    } else {
        faces_by_mesh_below(faces, (k - 1) as nat) + faces_with_mesh(faces, (k - 1) as nat)
    }
}

/// The faces stably sorted by the mesh index of their die.
pub open spec fn faces_by_mesh(faces: Seq<(DieKind, u32)>) -> Seq<(DieKind, u32)> {
    faces_by_mesh_below(faces, 7)
}

/// The physical dice of one logical die of `kind`: a percentile die is a
/// tens die and a d10.
pub open spec fn member_kinds(kind: DieKind) -> Seq<DieKind> {
    if kind == DieKind::D100 {
        seq![DieKind::D100, DieKind::D10]
    } else {
        seq![kind]
    }
}

/// The physical dice of `n` logical dice of `kind`.
pub open spec fn repeat_member(kind: DieKind, n: nat) -> Seq<DieKind>
    decreases n,
{
    if n == 0 {
        Seq::empty()
    } else {
        repeat_member(kind, (n - 1) as nat) + member_kinds(kind)
    }
}

/// The physical dice of the dice left after keep modifiers, term by term,
/// before sorting.
pub open spec fn composition(terms: Seq<DiceTerm>) -> Seq<DieKind>
    decreases terms.len(),
{
    if terms.len() == 0 {
        Seq::empty()
    } else {
        composition(terms.drop_last()) + repeat_member(
            terms.last().kind,
            kept(terms.last(), terms.last().count as int) as nat,
        )
    }
}

/// The faces a die must show: a percentile value splits into the tens face
/// (`value % 100 / 10 * 10`, so 100 shows `00`) and the ones face
/// (`value % 10`); a d10 shows `value % 10`, so ten shows `0`; every other
/// die shows its value.
pub open spec fn die_faces(die: RolledDie) -> Seq<(DieKind, u32)> {
    if die.kind == DieKind::D100 {
        seq![(DieKind::D100, (die.value % 100 / 10 * 10) as u32), (DieKind::D10, die.value % 10)]
    } else if die.kind == DieKind::D10 {
        seq![(DieKind::D10, die.value % 10)]
    } else {
        seq![(die.kind, die.value)]
    }
}

/// The faces of all dice, in order, before sorting.
pub open spec fn faces_of_dice(dice: Seq<RolledDie>) -> Seq<(DieKind, u32)>
    decreases dice.len(),
{
    if dice.len() == 0 {
        Seq::empty()
    } else {
        faces_of_dice(dice.drop_last()) + die_faces(dice.last())
    }
}

/// One more element adds itself to its group.
proof fn lemma_kinds_with_mesh_step(kinds: Seq<DieKind>, i: int, k: nat)
    requires
        0 <= i < kinds.len(),
    ensures
        kinds_with_mesh(kinds.take(i + 1), k) == kinds_with_mesh(kinds.take(i), k) + if kinds[i].spec_mesh_index()
            == k {
            seq![kinds[i]]
        } else {
            Seq::empty()
        },
{
    reveal(Seq::filter);
    assert(kinds.take(i + 1).drop_last() =~= kinds.take(i));
    assert(kinds.take(i + 1).last() == kinds[i]);
    assert(kinds_with_mesh(kinds.take(i), k).push(kinds[i]) =~= kinds_with_mesh(kinds.take(i), k) + seq![
        kinds[i],
    ]);
    assert(kinds_with_mesh(kinds.take(i), k) + Seq::<DieKind>::empty() =~= kinds_with_mesh(kinds.take(i), k));
}

/// One more face adds itself to its group.
proof fn lemma_faces_with_mesh_step(faces: Seq<(DieKind, u32)>, i: int, k: nat)
    requires
        0 <= i < faces.len(),
    ensures
        faces_with_mesh(faces.take(i + 1), k) == faces_with_mesh(faces.take(i), k) + if faces[i].0.spec_mesh_index()
            == k {
            seq![faces[i]]
        } else {
            Seq::empty()
        },
{
    reveal(Seq::filter);
    assert(faces.take(i + 1).drop_last() =~= faces.take(i));
    assert(faces.take(i + 1).last() == faces[i]);
    assert(faces_with_mesh(faces.take(i), k).push(faces[i]) =~= faces_with_mesh(faces.take(i), k) + seq![
        faces[i],
    ]);
    assert(faces_with_mesh(faces.take(i), k) + Seq::<(DieKind, u32)>::empty() =~= faces_with_mesh(
        faces.take(i),
        k,
    ));
}

/// Stable sort of dice by mesh index, one pass per mesh index.
pub(crate) fn sort_kinds_by_mesh(kinds: &Vec<DieKind>) -> (sorted: Vec<DieKind>)
    ensures
        sorted@ == kinds_by_mesh(kinds@),
{
    let mut sorted: Vec<DieKind> = Vec::new();
    let mut k: usize = 0;
    while k < 7
        invariant
            k <= 7,
            sorted@ == kinds_by_mesh_below(kinds@, k as nat),
        decreases 7 - k,
    {
        let ghost before = sorted@;
        let mut i: usize = 0;
        while i < kinds.len()
            invariant
                k < 7,
                i <= kinds@.len(),
                sorted@ == before + kinds_with_mesh(kinds@.take(i as int), k as nat),
            decreases kinds@.len() - i,
        {
            proof {
                lemma_kinds_with_mesh_step(kinds@, i as int, k as nat);
            }
            if kinds[i].mesh_index() == k {
                sorted.push(kinds[i]);
            }
            proof {
                assert(sorted@ =~= before + kinds_with_mesh(kinds@.take(i + 1), k as nat));
            }
            i = i + 1;
        }
        proof {
            assert(kinds@.take(i as int) =~= kinds@);
        }
        k = k + 1;
    }
    sorted
}

/// Stable sort of faces by the mesh index of their die, one pass per mesh index.
fn sort_faces_by_mesh(faces: &Vec<(DieKind, u32)>) -> (sorted: Vec<(DieKind, u32)>)
    ensures
        sorted@ == faces_by_mesh(faces@),
{
    let mut sorted: Vec<(DieKind, u32)> = Vec::new();
    let mut k: usize = 0;
    while k < 7
        invariant
            k <= 7,
            sorted@ == faces_by_mesh_below(faces@, k as nat),
        decreases 7 - k,
    {
        let ghost before = sorted@;
        let mut i: usize = 0;
        while i < faces.len()
            invariant
                k < 7,
                i <= faces@.len(),
                sorted@ == before + faces_with_mesh(faces@.take(i as int), k as nat),
            decreases faces@.len() - i,
        {
            proof {
                lemma_faces_with_mesh_step(faces@, i as int, k as nat);
            }
            let face = faces[i];
            if face.0.mesh_index() == k {
                sorted.push(face);
            }
            proof {
                assert(sorted@ =~= before + faces_with_mesh(faces@.take(i + 1), k as nat));
            }
            i = i + 1;
        }
        proof {
            assert(faces@.take(i as int) =~= faces@);
        }
        k = k + 1;
    }
    sorted
}

/// Appends the physical dice of `n` logical dice of `kind`.
pub(crate) fn push_members(kinds: &mut Vec<DieKind>, kind: DieKind, n: u32)
    ensures
        final(kinds)@ == old(kinds)@ + repeat_member(kind, n as nat),
{
    let ghost start = kinds@;
    let mut pushed: u32 = 0;
    while pushed < n
        invariant
            pushed <= n,
            kinds@ == start + repeat_member(kind, pushed as nat),
        decreases n - pushed,
    {
        kinds.push(kind);
        if kind == DieKind::D100 {
            kinds.push(DieKind::D10);
        }
        proof {
            assert(repeat_member(kind, (pushed + 1) as nat) == repeat_member(kind, pushed as nat) + member_kinds(
                kind,
            ));
        }
        assert(kinds@ =~= start + repeat_member(kind, (pushed + 1) as nat));
        pushed = pushed + 1;
    }
}

/// A term's count after its keep modifiers.
pub(crate) fn kept_count(term: &DiceTerm) -> (count: u32)
    ensures
        count == kept(*term, term.count as int),
{
    let mut count = term.count;
    if let Some(limit) = term.options.keep_highest {
        if limit < count {
            count = limit;
        }
    }
    if let Some(limit) = term.options.keep_lowest {
        if limit < count {
            count = limit;
        }
    }
    count
}

/// Some term keeps more dice than one throw holds.
pub open spec fn keeps_too_many(terms: Seq<DiceTerm>) -> bool {
    exists|i: int| 0 <= i < terms.len() && kept(#[trigger] terms[i], terms[i].count as int) > MAX_DICE_PER_ROLL
}

/// The composition whose queue of recorded throws holds an expression's
/// ready throws: the dice left after keep modifiers, sorted by mesh.
/// `None` when some term keeps more dice than one throw holds, in which
/// case no queue can be ready for it.
pub fn queue_composition(roll: &DiceRoll) -> (kinds: Option<Vec<DieKind>>)
    ensures
        keeps_too_many(roll.terms@) ==> kinds is None,
        !keeps_too_many(roll.terms@) ==> (kinds matches Some(k) && k@ == kinds_by_mesh(composition(roll.terms@))),
{
    let mut kinds: Vec<DieKind> = Vec::new();
    let mut index: usize = 0;
    while index < roll.terms.len()
        invariant
            index <= roll.terms@.len(),
            kinds@ == composition(roll.terms@.take(index as int)),
            forall|i: int| 0 <= i < index ==> kept(#[trigger] roll.terms@[i], roll.terms@[i].count as int)
                <= MAX_DICE_PER_ROLL,
        decreases roll.terms@.len() - index,
    {
        let term = roll.terms[index];
        let count = kept_count(&term);
        if count > MAX_DICE_PER_ROLL as u32 {
            return None;
        }
        push_members(&mut kinds, term.kind, count);
        proof {
            let taken = roll.terms@.take(index + 1);
            assert(taken.drop_last() =~= roll.terms@.take(index as int));
            assert(taken.last() == term);
        }
        index = index + 1;
    }
    proof {
        assert(roll.terms@.take(index as int) =~= roll.terms@);
    }
    Some(sort_kinds_by_mesh(&kinds))
}

/// The physical dice an outcome needs and the face each must show, sorted
/// by mesh (dice of one mesh keep their order).
pub fn physical_dice(outcome: &RollOutcome) -> (physical: (Vec<DieKind>, Vec<u32>))
    ensures
        physical.0@ == faces_by_mesh(faces_of_dice(outcome.dice@)).map_values(|face: (DieKind, u32)| face.0),
        physical.1@ == faces_by_mesh(faces_of_dice(outcome.dice@)).map_values(|face: (DieKind, u32)| face.1),
{
    let mut faces: Vec<(DieKind, u32)> = Vec::new();
    let mut index: usize = 0;
    while index < outcome.dice.len()
        invariant
            index <= outcome.dice@.len(),
            faces@ == faces_of_dice(outcome.dice@.take(index as int)),
        decreases outcome.dice@.len() - index,
    {
        let die = outcome.dice[index];
        match die.kind {
            DieKind::D100 => {
                faces.push((DieKind::D100, die.value % 100 / 10 * 10));
                faces.push((DieKind::D10, die.value % 10));
            },
            DieKind::D10 => faces.push((DieKind::D10, die.value % 10)),
            _ => faces.push((die.kind, die.value)),
        }
        proof {
            let taken = outcome.dice@.take(index + 1);
            assert(taken.drop_last() =~= outcome.dice@.take(index as int));
            assert(taken.last() == die);
            assert(faces@ =~= faces_of_dice(taken));
        }
        index = index + 1;
    }
    proof {
        assert(outcome.dice@.take(index as int) =~= outcome.dice@);
    }
    let sorted = sort_faces_by_mesh(&faces);
    let mut kinds: Vec<DieKind> = Vec::new();
    let mut values: Vec<u32> = Vec::new();
    let mut index: usize = 0;
    while index < sorted.len()
        invariant
            index <= sorted@.len(),
            kinds@ == sorted@.take(index as int).map_values(|face: (DieKind, u32)| face.0),
            values@ == sorted@.take(index as int).map_values(|face: (DieKind, u32)| face.1),
        decreases sorted@.len() - index,
    {
        let face = sorted[index];
        kinds.push(face.0);
        values.push(face.1);
        assert(kinds@ =~= sorted@.take(index + 1).map_values(|face: (DieKind, u32)| face.0));
        assert(values@ =~= sorted@.take(index + 1).map_values(|face: (DieKind, u32)| face.1));
        index = index + 1;
    }
    assert(sorted@.take(index as int) =~= sorted@);
    (kinds, values)
}

} // verus!
