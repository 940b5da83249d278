use bevy_dice::dice::{DieKind, Modifier, Options, OptionsError, MAX_OPTION_ITERATIONS};
use rand::rngs::StdRng;
use rand::SeedableRng;

fn rng() -> StdRng {
    StdRng::seed_from_u64(0xD1CE)
}

#[test]
fn sides_match_canonical_values() {
    let expected = [4, 6, 8, 10, 12, 20, 100];
    for (kind, sides) in DieKind::ALL.iter().zip(expected) {
        assert_eq!(kind.sides(), sides);
    }
}

#[test]
fn from_sides_round_trips() {
    for kind in DieKind::ALL {
        assert_eq!(DieKind::from_sides(kind.sides()), Some(kind));
    }
    assert_eq!(DieKind::from_sides(7), None);
    assert_eq!(DieKind::from_sides(0), None);
}

#[test]
fn roll_stays_within_bounds() {
    let mut rng = StdRng::seed_from_u64(0xD1CE);
    for kind in DieKind::ALL {
        for _ in 0..1000 {
            let value = kind.roll(&mut rng);
            assert!(value >= 1 && value <= kind.sides(), "{} produced {value}", kind.to_string());
        }
    }
}

#[test]
fn display_matches_asset_name() {
    for kind in DieKind::ALL {
        assert_eq!(kind.to_string(), kind.asset_name());
    }
}

#[test]
fn mesh_index_matches_all_order() {
    for (expected, kind) in DieKind::ALL.iter().enumerate() {
        assert_eq!(kind.mesh_index(), expected);
    }
}

#[test]
fn default_apply_is_identity() {
    let mut rolls = vec![1, 2, 3, 4, 5];
    Options::default().apply(DieKind::D6, &mut rolls, &mut rng());
    assert_eq!(rolls, vec![1, 2, 3, 4, 5]);
}

#[test]
fn apply_keep_only_trims_without_rng() {
    let mut rolls = vec![3, 1, 5, 4, 2];
    Options::default().with_keep_highest(2).apply_keep(&mut rolls);
    assert_eq!(rolls, vec![5, 4]);
}

#[test]
fn keep_highest_trims_to_top_count() {
    let mut rolls = vec![3, 1, 5, 4, 2];
    Options::default().with_keep_highest(2).apply(DieKind::D6, &mut rolls, &mut rng());
    assert_eq!(rolls, vec![5, 4]);
}

#[test]
fn keep_lowest_trims_to_bottom_count() {
    let mut rolls = vec![3, 1, 5, 4, 2];
    Options::default().with_keep_lowest(2).apply(DieKind::D6, &mut rolls, &mut rng());
    assert_eq!(rolls, vec![1, 2]);
}

#[test]
fn keep_count_at_or_above_len_is_noop() {
    let mut rolls = vec![3, 1, 5];
    Options::default().with_keep_highest(5).apply(DieKind::D6, &mut rolls, &mut rng());
    assert_eq!(rolls.len(), 3);
}

#[test]
fn reroll_replaces_low_values_until_above_threshold() {
    let mut rolls = vec![1, 1, 6];
    Options::default().with_reroll_at_or_below(1).apply(DieKind::D6, &mut rolls, &mut rng());
    assert!(rolls.iter().all(|&r| r > 1));
    assert_eq!(rolls.len(), 3);
}

#[test]
fn explode_adds_dice_for_max_rolls() {
    let mut rolls = vec![6, 3, 6];
    let before = rolls.len();
    Options::default().with_explode_at_or_above(6).apply(DieKind::D6, &mut rolls, &mut rng());
    assert!(rolls.len() >= before + 2);
}

#[test]
fn reroll_also_applies_to_exploded_dice() {
    let mut rolls = vec![6, 6, 6, 6];
    Options::default().with_reroll_at_or_below(3).with_explode_at_or_above(6).apply(
        DieKind::D6,
        &mut rolls,
        &mut rng(),
    );
    assert!(rolls.len() > 4);
    assert!(rolls.iter().all(|&r| r > 3), "{rolls:?}");
}

#[test]
fn modifier_for_prefers_reroll_and_explodes_once() {
    let options = Options::default().with_reroll_at_or_below(5).with_explode_at_or_above(5);
    assert_eq!(options.modifier_for(DieKind::D6, 5, false), Some(Modifier::Reroll));
    assert_eq!(options.modifier_for(DieKind::D6, 5, true), Some(Modifier::Reroll));
    assert_eq!(options.modifier_for(DieKind::D6, 6, false), Some(Modifier::Explode));
    assert_eq!(Options::default().with_reroll_at_or_below(6).modifier_for(DieKind::D6, 6, false), None);
    let options = Options::default().with_explode_at_or_above(5);
    assert_eq!(options.modifier_for(DieKind::D6, 5, false), Some(Modifier::Explode));
    assert_eq!(options.modifier_for(DieKind::D6, 5, true), None);
    assert_eq!(options.modifier_for(DieKind::D4, 4, false), None);
}

#[test]
fn iterations_capped_to_max() {
    let initial_count = (MAX_OPTION_ITERATIONS as usize) * 2;
    let mut rolls = vec![1; initial_count];
    Options::default().with_explode_at_or_above(1).apply(DieKind::D6, &mut rolls, &mut rng());
    let added = rolls.len() - initial_count;
    assert_eq!(added, MAX_OPTION_ITERATIONS as usize);
}

#[test]
fn validate_rejects_keep_zero() {
    let result = Options::default().with_keep_highest(0).validate_for(DieKind::D6);
    assert_eq!(result, Err(OptionsError::KeepZero));
}

#[test]
fn validate_rejects_reroll_at_or_above_sides() {
    let result = Options::default().with_reroll_at_or_below(6).validate_for(DieKind::D6);
    assert!(matches!(result, Err(OptionsError::RerollNotBelowMax { .. })));
}

#[test]
fn validate_accepts_sensible_settings() {
    let result = Options::default()
        .with_keep_highest(1)
        .with_reroll_at_or_below(1)
        .with_explode_at_or_above(6)
        .validate_for(DieKind::D6);
    assert_eq!(result, Ok(()));
}

#[test]
fn from_asset_name_reads_every_kind_back() {
    for kind in DieKind::ALL {
        assert_eq!(DieKind::from_asset_name(kind.asset_name()), Some(kind));
    }
    assert_eq!(DieKind::from_asset_name("d99"), None);
    assert_eq!(DieKind::from_asset_name("D6"), None);
    assert_eq!(DieKind::from_asset_name(""), None);
}

#[test]
fn asset_names_spell_the_sides() {
    assert_eq!(DieKind::D4.asset_name(), "d4");
    assert_eq!(DieKind::D10.asset_name(), "d10");
    assert_eq!(DieKind::D100.asset_name(), "d100");
}

#[test]
fn rolls_draw_from_the_generator() {
    let mut rng = rng();
    let values: Vec<u32> = (0..200).map(|_| DieKind::D20.roll(&mut rng)).collect();
    assert!(values.iter().any(|&v| v != values[0]));
    assert!(values.iter().any(|&v| v > 1));
}

#[test]
fn validate_rejects_explode_at_one() {
    let result = Options::default().with_explode_at_or_above(1).validate_for(DieKind::D6);
    assert_eq!(result, Err(OptionsError::ExplodeNotAboveMin { explode: 1 }));
    let result = Options::default().with_reroll_at_or_below(6).validate_for(DieKind::D6);
    assert_eq!(result, Err(OptionsError::RerollNotBelowMax { reroll: 6, sides: 6 }));
}

#[test]
fn keep_highest_then_lowest_trims_in_order() {
    let mut rolls = vec![2, 6, 4, 1, 5];
    Options::default().with_keep_highest(3).with_keep_lowest(2).apply_keep(&mut rolls);
    assert_eq!(rolls, vec![4, 5]);
}

#[test]
fn modifiers_keep_values_on_the_die() {
    let options = Options::default().with_reroll_at_or_below(2).with_explode_at_or_above(8);
    let mut rolls = vec![1, 8, 3, 2, 8];
    options.apply(DieKind::D8, &mut rolls, &mut rng());
    assert!(rolls.len() >= 5);
    assert!(rolls.len() <= 5 + MAX_OPTION_ITERATIONS as usize);
    assert!(rolls.iter().all(|&r| (1..=8).contains(&r)));
}
