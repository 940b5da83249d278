use bevy_dice::dice::{DiceRoll, DiceTerm, DieKind, Options, OptionsError, ParseError};
use rand::rngs::StdRng;
use rand::SeedableRng;

#[test]
fn parses_bare_die() {
    let roll = DiceRoll::parse("d20").unwrap();
    assert_eq!(roll.terms.len(), 1);
    assert_eq!(roll.terms[0].count, 1);
    assert_eq!(roll.terms[0].kind, DieKind::D20);
    assert_eq!(roll.adjustment, 0);
}

#[test]
fn parses_count_and_die() {
    let roll = DiceRoll::parse("3d6").unwrap();
    assert_eq!(roll.terms[0].count, 3);
    assert_eq!(roll.terms[0].kind, DieKind::D6);
}

#[test]
fn parses_with_positive_adjustment() {
    let roll = DiceRoll::parse("3d6+2").unwrap();
    assert_eq!(roll.terms[0].count, 3);
    assert_eq!(roll.adjustment, 2);
}

#[test]
fn parses_with_negative_adjustment() {
    let roll = DiceRoll::parse("d20-2").unwrap();
    assert_eq!(roll.terms[0].kind, DieKind::D20);
    assert_eq!(roll.adjustment, -2);
}

#[test]
fn parses_compound_expression() {
    let roll = DiceRoll::parse("2d6+1d4+3").unwrap();
    assert_eq!(roll.terms.len(), 2);
    assert_eq!(roll.terms[0].kind, DieKind::D6);
    assert_eq!(roll.terms[0].count, 2);
    assert_eq!(roll.terms[1].kind, DieKind::D4);
    assert_eq!(roll.terms[1].count, 1);
    assert_eq!(roll.adjustment, 3);
}

#[test]
fn parses_negated_dice_term() {
    let roll = DiceRoll::parse("1d20-1d4").unwrap();
    assert_eq!(roll.terms.len(), 2);
    assert!(!roll.terms[0].negate);
    assert!(roll.terms[1].negate);
}

#[test]
fn accepts_whitespace_and_uppercase_d() {
    let roll = DiceRoll::parse("  2D6  +  1D4  + 3 ").unwrap();
    assert_eq!(roll.terms.len(), 2);
    assert_eq!(roll.adjustment, 3);
}

#[test]
fn collapses_multiple_adjustments() {
    let roll = DiceRoll::parse("d6+2+3-1").unwrap();
    assert_eq!(roll.adjustment, 4);
}

#[test]
fn rejects_empty_input() {
    assert_eq!(DiceRoll::parse(""), Err(ParseError::Empty));
    assert_eq!(DiceRoll::parse("   "), Err(ParseError::Empty));
}

#[test]
fn rejects_adjustment_outside_i32() {
    assert_eq!(DiceRoll::parse("d6+2147483648"), Err(ParseError::Overflow));
    assert_eq!(DiceRoll::parse("d6-2147483648"), Err(ParseError::Overflow));
    assert_eq!(DiceRoll::parse("d6+4294967295"), Err(ParseError::Overflow));
    assert_eq!(DiceRoll::parse("d6+2147483647").unwrap().adjustment, i32::MAX);
    assert_eq!(DiceRoll::parse("d6-2147483647").unwrap().adjustment, -i32::MAX);
    for expression in ["1d6-2147483647-1", "1d6-2147483647-1+1", "1d6+2147483647+1", "1d6+4294967296"] {
        assert_eq!(DiceRoll::parse(expression), Err(ParseError::Overflow), "{expression}");
    }
}

#[test]
fn rejects_count_over_limit() {
    assert_eq!(DiceRoll::parse("1001d6"), Err(ParseError::CountTooLarge(1001)));
    assert_eq!(DiceRoll::parse("4294967295d6"), Err(ParseError::CountTooLarge(u32::MAX)));
    assert_eq!(DiceRoll::parse("1000d6").unwrap().terms[0].count, 1000);
}

#[test]
fn rejects_unknown_die_sides() {
    assert_eq!(DiceRoll::parse("1d7"), Err(ParseError::UnknownDieSides(7)));
}

#[test]
fn rejects_dangling_d() {
    assert!(matches!(DiceRoll::parse("3d"), Err(ParseError::Malformed { .. })));
}

#[test]
fn rejects_zero_count() {
    assert_eq!(DiceRoll::parse("0d6"), Err(ParseError::ZeroCount));
}

#[test]
fn rejects_trailing_operator() {
    assert!(matches!(DiceRoll::parse("d6+"), Err(ParseError::Malformed { .. })));
}

#[test]
fn rejects_adjustments_without_dice() {
    for expression in ["5", "0", "2+3", "5-6", "2147483647"] {
        assert_eq!(DiceRoll::parse(expression), Err(ParseError::NoDice), "{expression}");
    }
    assert_eq!(DiceRoll::parse("5+1d6").unwrap().adjustment, 5);
}

#[test]
fn parses_advantage_and_disadvantage() {
    for roll in [DiceRoll::advantage(5), DiceRoll::disadvantage(-3)] {
        assert_eq!(DiceRoll::parse(&roll.to_string()), Ok(roll));
    }
}

#[test]
fn parsed_advantage_keeps_the_highest_rolled_value() {
    let roll = DiceRoll::parse("2d20kh1+5").unwrap();
    for seed in 0..64 {
        let mut expected_random = StdRng::seed_from_u64(seed);
        let first_value = DieKind::D20.roll(&mut expected_random);
        let second_value = DieKind::D20.roll(&mut expected_random);
        let expected_value = first_value.max(second_value);
        let outcome = roll.roll_detailed(&mut StdRng::seed_from_u64(seed));
        assert_eq!(outcome.total, expected_value as i32 + 5);
        assert_eq!(outcome.term_dice(0).len(), 1);
        assert_eq!(outcome.term_dice(0)[0].value, expected_value);
    }
}

#[test]
fn parses_combined_modifiers_in_any_order_and_case() {
    let options = Options::default()
        .with_keep_highest(3)
        .with_keep_lowest(2)
        .with_reroll_at_or_below(1)
        .with_explode_at_or_above(6);
    for expression in ["4d6kh3kl2r1e6+5", "4D6E6R1KL2KH3+5", " 4D6 r1 KH3 e6 kl2 + 5 "] {
        let roll = DiceRoll::parse(expression).unwrap();
        assert_eq!(roll.terms[0].options, options);
        assert_eq!(roll.adjustment, 5);
    }
    let roll = DiceRoll::parse("2d20kh1-4d6r1e6kl2+3").unwrap();
    assert_eq!(roll.terms[0].options.keep_highest, Some(1));
    assert!(roll.terms[1].negate);
    assert_eq!(roll.terms[1].options.keep_lowest, Some(2));
}

#[test]
fn modifier_combinations_round_trip() {
    for kind in DieKind::ALL {
        for modifier_mask in 0..16 {
            let options = Options {
                keep_highest: (modifier_mask & 1 != 0).then_some(3),
                keep_lowest: (modifier_mask & 2 != 0).then_some(2),
                reroll_at_or_below: (modifier_mask & 4 != 0).then_some(1),
                explode_at_or_above: (modifier_mask & 8 != 0).then_some(kind.sides()),
            };
            for adjustment in [-i32::MAX, -5, 0, 5, i32::MAX] {
                let roll = DiceRoll {
                    terms: vec![
                        DiceTerm { count: 4, kind, negate: false, options: options.clone() },
                        DiceTerm { count: 2, kind, negate: true, options: options.clone() },
                    ],
                    adjustment,
                };
                let expression = roll.to_string();
                assert_eq!(DiceRoll::parse(&expression), Ok(roll), "{expression}");
            }
        }
    }
}

#[test]
fn rejects_malformed_modifiers() {
    for expression in [
        "4d6kh",
        "4d6kl",
        "4d6r",
        "4d6e",
        "4d6k3",
        "4d6kh-1",
        "4d6kh1KH2",
        "4d6kl1kl2",
        "4d6r1R2",
        "4d6e6e5",
        "4d6r+1",
        "4d6kh1unknown",
        "5kh1+1d6",
    ] {
        assert!(matches!(DiceRoll::parse(expression), Err(ParseError::Malformed { .. })), "{expression}");
    }
    assert_eq!(DiceRoll::parse("4d6kh4294967296"), Err(ParseError::Overflow));
}

#[test]
fn rejects_invalid_modifier_settings() {
    for expression in ["4d6kh0", "4d6kl0"] {
        assert_eq!(DiceRoll::parse(expression), Err(ParseError::InvalidOptions(OptionsError::KeepZero)));
    }
    assert_eq!(
        DiceRoll::parse("4d6r6"),
        Err(ParseError::InvalidOptions(OptionsError::RerollNotBelowMax { reroll: 6, sides: 6 }))
    );
    for explode in [0, 1] {
        assert_eq!(
            DiceRoll::parse(&format!("4d6e{explode}")),
            Err(ParseError::InvalidOptions(OptionsError::ExplodeNotAboveMin { explode }))
        );
    }
}
