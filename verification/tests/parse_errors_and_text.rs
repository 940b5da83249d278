use bevy_dice::dice::{DiceRoll, DiceTerm, DieKind, Options, OptionsError, ParseError, RollOutcome};
use rand::rngs::StdRng;
use rand::SeedableRng;

#[test]
fn parse_error_messages() {
    assert_eq!(ParseError::Empty.to_string(), "empty dice expression");
    assert_eq!(ParseError::NoDice.to_string(), "expression must contain at least one dice term");
    assert_eq!(ParseError::UnknownDieSides(7).to_string(), "no die has 7 sides");
    assert_eq!(ParseError::ZeroCount.to_string(), "die count must be at least 1");
    assert_eq!(ParseError::CountTooLarge(1001).to_string(), "die count 1001 exceeds the limit of 1000");
    assert_eq!(ParseError::Overflow.to_string(), "numeric literal or accumulated adjustment out of range");
    assert_eq!(ParseError::InvalidOptions(OptionsError::KeepZero).to_string(), "keep count must be at least 1");
    assert_eq!(
        ParseError::InvalidOptions(OptionsError::RerollNotBelowMax { reroll: 6, sides: 6 }).to_string(),
        "reroll threshold 6 must be below 6"
    );
    assert_eq!(
        ParseError::InvalidOptions(OptionsError::ExplodeNotAboveMin { explode: 0 }).to_string(),
        "explode threshold 0 must be above 1"
    );
    assert_eq!(
        ParseError::Malformed { position: 12, reason: "expected digits after 'd'" }.to_string(),
        "malformed expression at byte 12: expected digits after 'd'"
    );
}

#[test]
fn malformed_errors_point_at_the_byte() {
    assert_eq!(
        DiceRoll::parse("3d"),
        Err(ParseError::Malformed { position: 2, reason: "expected digits after 'd'" })
    );
    assert_eq!(DiceRoll::parse("d6+"), Err(ParseError::Malformed { position: 3, reason: "expected number or dice term" }));
    assert_eq!(DiceRoll::parse("+d6"), Err(ParseError::Malformed { position: 0, reason: "expected number or dice term" }));
    assert_eq!(DiceRoll::parse("d6 d6"), Err(ParseError::Malformed { position: 3, reason: "expected '+' or '-'" }));
    assert_eq!(DiceRoll::parse("4d6k3"), Err(ParseError::Malformed { position: 3, reason: "expected 'kh' or 'kl'" }));
    assert_eq!(DiceRoll::parse("4d6r1r2"), Err(ParseError::Malformed { position: 5, reason: "duplicate modifier" }));
    assert_eq!(
        DiceRoll::parse("4d6e"),
        Err(ParseError::Malformed { position: 4, reason: "expected digits after modifier" })
    );
}

#[test]
fn lowercase_and_uppercase_read_alike() {
    for (lower, upper) in [("4d6kh3r1e6+2", "4D6KH3R1E6+2"), ("2d20kl1-1d4", "2D20KL1-1D4")] {
        assert_eq!(DiceRoll::parse(lower), DiceRoll::parse(upper));
    }
}

#[test]
fn written_rolls_parse_back() {
    let mut rng = StdRng::seed_from_u64(3);
    for kind in DieKind::ALL {
        for count in [1u32, 7, 1000] {
            let options = Options::default().with_keep_lowest(count).with_explode_at_or_above(kind.sides());
            let roll = DiceRoll {
                terms: vec![
                    DiceTerm { count, kind, negate: false, options },
                    DiceTerm { count: 1, kind: DieKind::D4, negate: true, options: Options::default() },
                ],
                adjustment: -(kind.sides() as i32) - count as i32,
            };
            assert_eq!(DiceRoll::parse(&roll.to_string()), Ok(roll.clone()));
            let _ = roll.roll(&mut rng);
        }
    }
}

#[test]
fn negated_first_term_and_minimum_adjustment_do_not_read_back() {
    let roll = DiceRoll {
        terms: vec![DiceTerm { count: 1, kind: DieKind::D6, negate: true, options: Options::default() }],
        adjustment: 0,
    };
    assert_eq!(roll.to_string(), "-1d6");
    assert!(DiceRoll::parse(&roll.to_string()).is_err());
    let roll = DiceRoll {
        terms: vec![DiceTerm { count: 1, kind: DieKind::D6, negate: false, options: Options::default() }],
        adjustment: i32::MIN,
    };
    assert_eq!(DiceRoll::parse(&roll.to_string()), Err(ParseError::Overflow));
}

#[test]
fn rolls_report_each_term() {
    let roll = DiceRoll::parse("2d6+3d4-1").unwrap();
    let outcome: RollOutcome = roll.roll_detailed(&mut StdRng::seed_from_u64(11));
    let sum: i32 = outcome.dice.iter().map(|d| d.value as i32).sum();
    assert_eq!(outcome.total, sum - 1);
    assert_eq!(outcome.term_dice(0).len() + outcome.term_dice(1).len(), outcome.dice.len());
    assert!(outcome.term_dice(2).is_empty());
}

#[test]
fn whitespace_inside_tokens_is_ignored() {
    assert_eq!(DiceRoll::parse("2 d6"), DiceRoll::parse("2d6"));
    assert_eq!(DiceRoll::parse("2d 2 0"), DiceRoll::parse("2d20"));
    assert_eq!(DiceRoll::parse("4d6 k h 3 r 1 e\t6"), DiceRoll::parse("4d6kh3r1e6"));
    let roll = DiceRoll::parse(" 1 0 d 6 k l 2 + 1 2 ").unwrap();
    assert_eq!(roll.terms[0].count, 10);
    assert_eq!(roll.terms[0].kind, DieKind::D6);
    assert_eq!(roll.terms[0].options.keep_lowest, Some(2));
    assert_eq!(roll.adjustment, 12);
}

#[test]
fn syntax_errors_name_offsets_in_the_input_with_its_whitespace() {
    assert_eq!(DiceRoll::parse("d6 x"), Err(ParseError::Malformed { position: 3, reason: "expected '+' or '-'" }));
    assert_eq!(DiceRoll::parse("d6 +  "), Err(ParseError::Malformed { position: 6, reason: "expected number or dice term" }));
    assert_eq!(DiceRoll::parse("3 d 7"), Err(ParseError::UnknownDieSides(7)));
}
