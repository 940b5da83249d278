use bevy_dice::dice::{DiceRoll, DiceTerm, DieKind, Options, RollOutcome, RolledDie};
use rand::rngs::StdRng;
use rand::SeedableRng;

fn rng() -> StdRng {
    StdRng::seed_from_u64(0xD1CE)
}

#[test]
fn roll_total_stays_in_expected_range() {
    let roll = DiceRoll::parse("3d6+2").unwrap();
    let mut rng = rng();
    for _ in 0..200 {
        let total = roll.roll(&mut rng);
        assert!((3 + 2..=18 + 2).contains(&total));
    }
}

#[test]
fn roll_applies_adjustment_when_no_dice() {
    let roll = DiceRoll::parse("d4-5").unwrap();
    let mut rng = rng();
    for _ in 0..50 {
        let total = roll.roll(&mut rng);
        assert!((-4..=-1).contains(&total));
    }
}

#[test]
fn term_dice_slices_by_term() {
    let roll = DiceRoll::parse("2d6+3d4").unwrap();
    let outcome = roll.roll_detailed(&mut rng());
    assert_eq!(outcome.term_lengths, vec![2, 3]);
    assert_eq!(outcome.term_dice(0).len(), 2);
    assert_eq!(outcome.term_dice(1).len(), 3);
    assert!(outcome.term_dice(0).iter().all(|d| d.kind == DieKind::D6));
    assert!(outcome.term_dice(1).iter().all(|d| d.kind == DieKind::D4));
}

#[test]
fn term_dice_reflects_keep_modifier() {
    let roll = DiceRoll::parse("4d6").unwrap().with_options(Options::default().with_keep_highest(2));
    let outcome = roll.roll_detailed(&mut rng());
    assert_eq!(outcome.term_lengths, vec![2]);
    assert_eq!(outcome.term_dice(0).len(), 2);
    assert_eq!(outcome.dice.len(), 2);
}

#[test]
fn term_dice_out_of_range_returns_empty() {
    let roll = DiceRoll::parse("1d6").unwrap();
    let outcome = roll.roll_detailed(&mut rng());
    assert!(outcome.term_dice(5).is_empty());
}

#[test]
fn roll_detailed_returns_one_entry_per_rolled_die() {
    let roll = DiceRoll::parse("3d6").unwrap();
    let outcome = roll.roll_detailed(&mut rng());
    assert_eq!(outcome.dice.len(), 3);
    assert!(outcome.dice.iter().all(|d| d.kind == DieKind::D6));
    assert!(outcome.dice.iter().all(|d| !d.negate));
}

#[test]
fn negated_term_marks_dice_and_subtracts_from_total() {
    let roll = DiceRoll::parse("1d20-1d4").unwrap();
    let outcome = roll.roll_detailed(&mut rng());
    let positive: i32 = outcome.dice.iter().filter(|d| !d.negate).map(|d| d.value as i32).sum();
    let negative: i32 = outcome.dice.iter().filter(|d| d.negate).map(|d| d.value as i32).sum();
    assert_eq!(outcome.total, positive - negative);
}

#[test]
fn display_positive_term() {
    let term = DiceTerm { count: 3, kind: DieKind::D6, negate: false, options: Options::default() };
    assert_eq!(term.to_string(), "+3d6");
}

#[test]
fn display_negative_term() {
    let term = DiceTerm { count: 1, kind: DieKind::D4, negate: true, options: Options::default() };
    assert_eq!(term.to_string(), "-1d4");
}

#[test]
fn display_term_includes_options() {
    let options = Options::default().with_keep_highest(2).with_reroll_at_or_below(1).with_explode_at_or_above(6);
    let term = DiceTerm { count: 4, kind: DieKind::D6, negate: false, options };
    assert_eq!(term.to_string(), "+4d6kh2r1e6");
}

#[test]
fn display_roll_round_trips_parser_input() {
    for input in ["1d20", "3d6+2", "1d20-1d4+5", "2d6-3"] {
        assert_eq!(DiceRoll::parse(input).unwrap().to_string(), input);
    }
}

#[test]
fn display_roll_with_options_and_adjustment_only() {
    assert_eq!(DiceRoll::advantage(5).to_string(), "2d20kh1+5");
    assert_eq!(DiceRoll::disadvantage(-2).to_string(), "2d20kl1-2");
    assert_eq!(DiceRoll { terms: vec![], adjustment: 7 }.to_string(), "7");
}

#[test]
fn display_uses_parsed_term() {
    let roll = DiceRoll::parse("2d20-1d100").unwrap();
    assert_eq!(roll.terms[0].to_string(), "+2d20");
    assert_eq!(roll.terms[1].to_string(), "-1d100");
}

#[test]
fn with_options_applies_to_all_terms() {
    let roll = DiceRoll::parse("2d6+1d4").unwrap().with_options(Options::default().with_keep_highest(1));
    assert_eq!(roll.terms[0].options.keep_highest, Some(1));
    assert_eq!(roll.terms[1].options.keep_highest, Some(1));
}

#[test]
fn display_renders_simple_roll() {
    let roll = DiceRoll::parse("3d6+2").unwrap();
    let outcome = RollOutcome {
        total: 9,
        dice: vec![
            RolledDie { kind: DieKind::D6, value: 4, negate: false },
            RolledDie { kind: DieKind::D6, value: 2, negate: false },
            RolledDie { kind: DieKind::D6, value: 1, negate: false },
        ],
        term_lengths: vec![3],
    };
    assert_eq!(outcome.display(&roll).to_string(), "3d6(4,2,1) + 2 = 9");
}

#[test]
fn display_renders_negated_compound() {
    let roll = DiceRoll::parse("1d20-1d4").unwrap();
    let outcome = RollOutcome {
        total: 10,
        dice: vec![
            RolledDie { kind: DieKind::D20, value: 12, negate: false },
            RolledDie { kind: DieKind::D4, value: 2, negate: true },
        ],
        term_lengths: vec![1, 1],
    };
    assert_eq!(outcome.display(&roll).to_string(), "1d20(12) - 1d4(2) = 10");
}
#[test]
fn malformed_term_ranges_return_empty_without_panicking() {
    let die = RolledDie { kind: DieKind::D6, value: 1, negate: false };
    for lengths in [vec![1, 1], vec![u32::MAX, u32::MAX, 1], vec![0, 5], vec![]] {
        for dice in [vec![], vec![die.clone()]] {
            let outcome = RollOutcome { total: 0, dice, term_lengths: lengths.clone() };
            for term_index in [0, 1, 2, usize::MAX] {
                let values = outcome.term_dice(term_index);
                assert!(values.len() <= outcome.dice.len());
            }
            assert!(outcome.term_dice(usize::MAX).is_empty());
        }
    }
    let outcome = RollOutcome { total: 1, dice: vec![die], term_lengths: vec![2] };
    assert!(outcome.term_dice(0).is_empty());
    let roll = DiceRoll::parse("2d6").expect("roll");
    assert_eq!(outcome.display(&roll).to_string(), "2d6() = 1");
}

#[test]
fn hand_built_minimum_adjustment_formats_without_overflow() {
    let mut roll = DiceRoll::parse("1d6").expect("roll");
    roll.adjustment = i32::MIN;
    let outcome = RollOutcome {
        total: i32::MIN + 1,
        dice: vec![RolledDie { kind: DieKind::D6, value: 1, negate: false }],
        term_lengths: vec![1],
    };
    assert_eq!(outcome.display(&roll).to_string(), "1d6(1) - 2147483648 = -2147483647");
}
