use bevy_dice::dice::{DiceRoll, DieKind, Options, RollOutcome, RolledDie};
use bevy_dice::render::{base_composition, physical_dice, validate_outcome, validate_roll, OutcomeError};
use rand::rngs::StdRng;
use rand::SeedableRng;

fn outcome(roll: &DiceRoll) -> RollOutcome {
    roll.roll_detailed(&mut StdRng::seed_from_u64(42))
}

#[test]
fn mixed_signs_and_saturating_totals_match_math() {
    let mut roll = DiceRoll::parse("2d20-1d4+5").expect("valid expression");
    for adjustment in [5, i32::MAX, i32::MIN] {
        roll.adjustment = adjustment;
        assert_eq!(validate_outcome(&roll, &outcome(&roll)), Ok(()));
    }
}

#[test]
fn malformed_term_lengths_are_rejected_without_slicing() {
    let roll = DiceRoll::parse("1d6+1d4").expect("valid expression");
    let mut result = outcome(&roll);
    result.term_lengths = vec![u32::MAX, u32::MAX];
    assert_eq!(validate_outcome(&roll, &result), Err(OutcomeError::DiceCount));
    result.term_lengths.clear();
    assert_eq!(validate_outcome(&roll, &result), Err(OutcomeError::TermCount));
}

#[test]
fn rejects_inconsistent_faces_signs_kinds_and_totals() {
    let roll = DiceRoll::parse("1d6").expect("valid expression");
    let valid = outcome(&roll);
    for value in [0, 7, u32::MAX] {
        let mut result = valid.clone();
        result.dice[0].value = value;
        assert_eq!(validate_outcome(&roll, &result), Err(OutcomeError::DieValue));
    }
    let mut result = valid.clone();
    result.dice[0].negate = true;
    assert_eq!(validate_outcome(&roll, &result), Err(OutcomeError::DieSign));
    result = valid.clone();
    result.dice[0].kind = DieKind::D4;
    assert_eq!(validate_outcome(&roll, &result), Err(OutcomeError::DieKind));
    result = valid;
    result.total += 1;
    assert_eq!(validate_outcome(&roll, &result), Err(OutcomeError::Total));
}

#[test]
fn percentile_pairs_count_as_two_bodies() {
    let roll = DiceRoll::parse("10d100").expect("valid expression");
    assert_eq!(validate_outcome(&roll, &outcome(&roll)), Ok(()));
    assert_eq!(
        validate_roll(&DiceRoll::parse("11d100").expect("valid expression")),
        Err(OutcomeError::TooManyDice)
    );
    assert_eq!(
        validate_roll(&DiceRoll::parse("10d100+1d4").expect("valid expression")),
        Err(OutcomeError::TooManyDice)
    );
}

#[test]
fn keep_and_explode_counts_follow_final_contributions() {
    let mut roll = DiceRoll::parse("4d6").expect("valid expression");
    roll.terms[0].options = Options::default().with_keep_highest(3).with_keep_lowest(2);
    assert_eq!(validate_outcome(&roll, &outcome(&roll)), Ok(()));
    roll.terms[0].options = Options::default().with_explode_at_or_above(6).with_keep_highest(6);
    for count in [4, 5, 6] {
        let result = RollOutcome {
            dice: vec![RolledDie { kind: DieKind::D6, value: 6, negate: false }; count],
            term_lengths: vec![count as u32],
            total: count as i32 * 6,
        };
        assert_eq!(validate_outcome(&roll, &result), Ok(()));
    }
    let mut result = outcome(&roll);
    result.dice.truncate(3);
    result.term_lengths = vec![3];
    assert_eq!(validate_outcome(&roll, &result), Err(OutcomeError::DiceCount));
}

#[test]
fn exploded_outcomes_cannot_exceed_body_limit() {
    let roll = DiceRoll::parse("10d100").expect("valid expression").with_explode();
    let result = RollOutcome {
        dice: vec![RolledDie { kind: DieKind::D100, value: 100, negate: false }; 11],
        term_lengths: vec![11],
        total: 1100,
    };
    assert_eq!(validate_outcome(&roll, &result), Err(OutcomeError::TooManyDice));
}

#[test]
fn invalid_options_are_rejected_before_rolling() {
    let roll = DiceRoll::parse("1d6")
        .expect("valid expression")
        .with_options(Options::default().with_reroll_at_or_below(6));
    assert_eq!(validate_roll(&roll), Err(OutcomeError::InvalidOptions));
}
#[test]
fn constant_only_requests_and_warming_are_rejected() {
    for adjustment in [0, 5, -5] {
        let roll = DiceRoll { terms: vec![], adjustment };
        let outcome = RollOutcome { total: adjustment, dice: vec![], term_lengths: vec![] };
        assert_eq!(validate_roll(&roll), Err(OutcomeError::NoDice));
        assert_eq!(base_composition(&roll), Err(OutcomeError::NoDice));
        assert_eq!(validate_outcome(&roll, &outcome), Err(OutcomeError::NoDice));
    }
}

#[test]
fn percentile_faces_preserve_zero_and_hundred_conventions() {
    for value in [1, 10, 99, 100] {
        let outcome = RollOutcome {
            total: value as i32,
            term_lengths: vec![1],
            dice: vec![RolledDie { kind: DieKind::D100, value, negate: false }],
        };
        let (kinds, values) = physical_dice(&outcome);
        assert_eq!(kinds, vec![DieKind::D10, DieKind::D100]);
        let combined = values.iter().sum::<u32>();
        assert_eq!(if combined == 0 { 100 } else { combined }, value);
    }
}
