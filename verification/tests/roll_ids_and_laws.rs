use bevy_dice::dice::{DiceRoll, DieKind, ParseError, RollOutcome, RolledDie};
use bevy_dice::render::{
    base_composition, queue_composition, single_default_arena, validate_roll, NextRollId, NoDefaultArena, OutcomeError,
    RollError,
};
use bevy_dice::sim::SimulationError;
use rand::rngs::StdRng;
use rand::SeedableRng;

#[test]
fn roll_ids_advance_and_wrap() {
    let mut ids = NextRollId::default();
    assert_eq!(ids.take(), 1);
    assert_eq!(ids.take(), 2);
    let mut ids = NextRollId { value: u64::MAX };
    assert_eq!(ids.take(), 0);
}

#[test]
fn rejected_outcomes_take_no_roll_id() {
    let roll = DiceRoll::parse("2d6+3").unwrap();
    let mut ids = NextRollId { value: 41 };
    let bad = RollOutcome {
        total: 14,
        dice: vec![RolledDie { kind: DieKind::D6, value: 7, negate: false }; 2],
        term_lengths: vec![2],
    };
    assert_eq!(ids.take_for_outcome(&roll, &bad), Err(OutcomeError::DieValue));
    assert_eq!(ids.value, 41);
    let good = RollOutcome {
        total: 14,
        dice: vec![
            RolledDie { kind: DieKind::D6, value: 6, negate: false },
            RolledDie { kind: DieKind::D6, value: 5, negate: false },
        ],
        term_lengths: vec![2],
    };
    assert_eq!(ids.take_for_outcome(&roll, &good), Ok(42));
    assert_eq!(ids.value, 42);
}

#[test]
fn the_default_arena_must_be_unique() {
    let none: [u64; 0] = [];
    assert_eq!(single_default_arena(&none), Err(NoDefaultArena::Missing));
    assert_eq!(single_default_arena(&[9u64]), Ok(9));
    assert_eq!(single_default_arena(&[9u64, 10]), Err(NoDefaultArena::Ambiguous));
}

#[test]
fn roll_error_messages_and_conversions() {
    assert_eq!(RollError::from(ParseError::Empty), RollError::Parse(ParseError::Empty));
    assert_eq!(RollError::from(NoDefaultArena::Ambiguous), RollError::Arena(NoDefaultArena::Ambiguous));
    assert_eq!(RollError::from(OutcomeError::Total), RollError::Outcome(OutcomeError::Total));
    assert_eq!(RollError::Parse(ParseError::ZeroCount).to_string(), "parse error: die count must be at least 1");
    assert_eq!(
        RollError::Outcome(OutcomeError::DieSign).to_string(),
        "invalid outcome: outcome die sign does not match its term"
    );
    assert_eq!(RollError::Arena(NoDefaultArena::Missing).to_string(), "no DefaultArena in the world");
    assert_eq!(RollError::Arena(NoDefaultArena::Ambiguous).to_string(), "multiple DefaultArenas in the world");
}

#[test]
fn simulation_error_messages() {
    assert_eq!(SimulationError::InvalidInput.to_string(), "invalid dice simulation input");
    assert_eq!(
        SimulationError::DidNotSettle.to_string(),
        "dice did not settle inside the arena within the simulation budget"
    );
}

#[test]
fn throwable_rolls_queue_their_base_composition() {
    for expression in ["3d6+2", "2d20kh1", "4d6kl3r1", "1d100+2d10-1d4", "10d100", "20d4"] {
        let roll = DiceRoll::parse(expression).unwrap();
        assert_eq!(validate_roll(&roll), Ok(()));
        assert_eq!(queue_composition(&roll), Some(base_composition(&roll).unwrap()), "{expression}");
    }
}

#[test]
fn accepted_expressions_read_back_after_writing() {
    for expression in ["  3D6 + 2 ", "d20kh1-1d4+7-2", "4d6E6r1KL3", "2d100+5+1d8-3", "1d4-2147483647"] {
        let roll = DiceRoll::parse(expression).unwrap();
        assert_eq!(DiceRoll::parse(&roll.to_string()), Ok(roll.clone()), "{expression}");
    }
}

#[test]
fn rolled_terms_list_their_own_dice() {
    let roll = DiceRoll::parse("3d8-2d4kh1+1d100").unwrap();
    let outcome = roll.roll_detailed(&mut StdRng::seed_from_u64(99));
    let kinds = [DieKind::D8, DieKind::D4, DieKind::D100];
    let signs = [false, true, false];
    let lengths = [3usize, 1, 1];
    for index in 0..3 {
        let dice = outcome.term_dice(index);
        assert_eq!(dice.len(), lengths[index]);
        assert!(dice.iter().all(|d| d.kind == kinds[index] && d.negate == signs[index]));
    }
}

#[test]
fn rolls_convert_from_references() {
    let roll = DiceRoll::parse("2d20kh1+5").unwrap();
    let copy = DiceRoll::from(&roll);
    assert_eq!(copy, roll);
    let into: DiceRoll = (&roll).into();
    assert_eq!(into.to_string(), "2d20kh1+5");
}
