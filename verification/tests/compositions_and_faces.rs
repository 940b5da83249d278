use bevy_dice::dice::{DiceRoll, DiceTerm, DieKind, Options, RollOutcome, RolledDie};
use bevy_dice::render::{
    base_composition, custom_asset_path, physical_dice, queue_composition, validate_outcome, validate_roll, OutcomeError,
    RollFailure,
    PRECOMPUTE_QUEUE_DEPTH,
};
use bevy_dice::sim::{SymmetryError, MAX_DICE_PER_ROLL};
use bevy_dice::ui::orientations::extract_gltf_json;
use bevy_dice::ui::resolve::{percentile_value, single_die_value};
use rand::rngs::StdRng;
use rand::SeedableRng;

fn die(kind: DieKind, value: u32) -> RolledDie {
    RolledDie { kind, value, negate: false }
}

#[test]
fn base_composition_sorts_kept_dice_by_mesh() {
    let roll = DiceRoll::parse("2d20+1d100+4d6kh2+1d4").unwrap();
    let kinds = base_composition(&roll).unwrap();
    assert_eq!(
        kinds,
        vec![DieKind::D4, DieKind::D6, DieKind::D6, DieKind::D10, DieKind::D20, DieKind::D20, DieKind::D100]
    );
}

#[test]
fn base_composition_reports_the_roll_error() {
    let roll = DiceRoll::parse("21d6").unwrap();
    assert_eq!(base_composition(&roll), Err(OutcomeError::TooManyDice));
    let roll = DiceRoll::parse("20d6").unwrap();
    assert_eq!(base_composition(&roll).unwrap().len(), 20);
}

#[test]
fn zero_count_terms_are_rejected() {
    let roll = DiceRoll {
        terms: vec![DiceTerm { count: 0, kind: DieKind::D6, negate: false, options: Options::default() }],
        adjustment: 0,
    };
    assert_eq!(validate_roll(&roll), Err(OutcomeError::DiceCount));
}

#[test]
fn queue_composition_ignores_adjustments_and_order() {
    let a = queue_composition(&DiceRoll::parse("d6+10").unwrap());
    let b = queue_composition(&DiceRoll::parse("1d6").unwrap());
    assert_eq!(a, b);
    assert_eq!(a, Some(vec![DieKind::D6]));
    let c = queue_composition(&DiceRoll::parse("1d4+1d6").unwrap());
    let d = queue_composition(&DiceRoll::parse("1d6+1d4").unwrap());
    assert_eq!(c, d);
    assert_ne!(queue_composition(&DiceRoll::parse("2d6").unwrap()), a);
}

#[test]
fn queue_composition_counts_kept_dice_and_refuses_oversized_terms() {
    let kept = queue_composition(&DiceRoll::parse("30d6kh2").unwrap());
    assert_eq!(kept, Some(vec![DieKind::D6, DieKind::D6]));
    assert_eq!(queue_composition(&DiceRoll::parse("21d6").unwrap()), None);
    assert_eq!(queue_composition(&DiceRoll::parse("2d100").unwrap()).unwrap().len(), 4);
    assert_eq!(PRECOMPUTE_QUEUE_DEPTH, 2);
    assert_eq!(MAX_DICE_PER_ROLL, 20);
}

#[test]
fn physical_dice_splits_and_sorts_stably() {
    let outcome = RollOutcome {
        total: 0,
        term_lengths: vec![5],
        dice: vec![die(DieKind::D20, 17), die(DieKind::D10, 10), die(DieKind::D100, 100), die(DieKind::D6, 3), die(DieKind::D10, 7)],
    };
    let (kinds, values) = physical_dice(&outcome);
    assert_eq!(kinds, vec![DieKind::D6, DieKind::D10, DieKind::D10, DieKind::D10, DieKind::D20, DieKind::D100]);
    assert_eq!(values, vec![3, 0, 0, 7, 17, 0]);
    let outcome = RollOutcome { total: 0, term_lengths: vec![1], dice: vec![die(DieKind::D100, 47)] };
    assert_eq!(physical_dice(&outcome), (vec![DieKind::D10, DieKind::D100], vec![7, 40]));
}

#[test]
fn face_labels_read_back_the_values() {
    for value in 1..=100u32 {
        let tens = value % 100 / 10 * 10;
        let ones = value % 10;
        assert_eq!(percentile_value(tens, ones), value);
    }
    for value in 1..=10u32 {
        assert_eq!(single_die_value(DieKind::D10, value % 10), value);
    }
    assert_eq!(single_die_value(DieKind::D6, 0), 0);
    assert_eq!(single_die_value(DieKind::D20, 20), 20);
    assert_eq!(percentile_value(90, 9), 99);
    assert_eq!(percentile_value(0, 0), 100);
}

#[test]
fn rolled_outcomes_validate() {
    for expression in ["3d6+2", "2d20kh1-1d4", "4d6r1kl3", "1d100+1d10", "5d8e8-7", "10d100"] {
        let roll = DiceRoll::parse(expression).unwrap();
        for seed in 0..32 {
            let outcome = roll.roll_detailed(&mut StdRng::seed_from_u64(seed));
            let bodies: usize = outcome
                .dice
                .iter()
                .map(|d| if d.kind == DieKind::D100 { 2 } else { 1 })
                .sum();
            let expected = if bodies <= MAX_DICE_PER_ROLL { Ok(()) } else { Err(OutcomeError::TooManyDice) };
            assert_eq!(validate_outcome(&roll, &outcome), expected, "{expression}");
        }
    }
}

#[test]
fn kept_outcomes_match_their_queue() {
    for expression in ["3d6+2", "2d20kh1-1d4", "4d6r1kl3", "1d100+1d10-2d12"] {
        let roll = DiceRoll::parse(expression).unwrap();
        let outcome = roll.roll_detailed(&mut StdRng::seed_from_u64(7));
        assert_eq!(validate_outcome(&roll, &outcome), Ok(()));
        let (kinds, _) = physical_dice(&outcome);
        assert_eq!(kinds, base_composition(&roll).unwrap(), "{expression}");
    }
}

#[test]
fn outcome_error_messages() {
    assert_eq!(OutcomeError::NoDice.to_string(), "expression must contain at least one dice term");
    assert_eq!(OutcomeError::InvalidOptions.to_string(), "invalid dice options");
    assert_eq!(OutcomeError::TermCount.to_string(), "outcome term count does not match the expression");
    assert_eq!(OutcomeError::DiceCount.to_string(), "outcome dice count does not match its terms");
    assert_eq!(OutcomeError::DieKind.to_string(), "outcome die kind does not match its term");
    assert_eq!(OutcomeError::DieValue.to_string(), "outcome die value is outside its face range");
    assert_eq!(OutcomeError::DieSign.to_string(), "outcome die sign does not match its term");
    assert_eq!(OutcomeError::Total.to_string(), "outcome total does not match its dice and adjustment");
    assert_eq!(OutcomeError::TooManyDice.to_string(), "roll exceeds the physical dice limit");
}

#[test]
fn roll_failure_messages_and_source() {
    let failure = RollFailure::InvalidOutcome(OutcomeError::Total);
    assert_eq!(failure.to_string(), "invalid outcome: outcome total does not match its dice and adjustment");
    assert_eq!(failure.source(), Some(&OutcomeError::Total));
    assert_eq!(RollFailure::MissingArena.to_string(), "arena no longer exists");
    assert_eq!(RollFailure::MissingDiceset.to_string(), "arena diceset no longer exists");
    assert_eq!(RollFailure::AssetUnavailable.to_string(), "diceset asset is unavailable");
    assert_eq!(RollFailure::InvalidGeometry.to_string(), "dice geometry cannot map the requested faces");
    assert_eq!(RollFailure::SimulationFailed.to_string(), "simulation did not produce a usable throw");
    assert_eq!(RollFailure::ArenaChanged.to_string(), "arena changed during playback");
    assert_eq!(RollFailure::DiceRemoved.to_string(), "dice were removed during playback");
    assert_eq!(RollFailure::DiceRemoved.source(), None);
}

#[test]
fn symmetry_error_messages() {
    assert_eq!(SymmetryError::MissingMetadata.to_string(), "dice face orientations are missing");
    assert_eq!(SymmetryError::InvalidMetadata.to_string(), "dice face orientations are incomplete or invalid");
    assert_eq!(SymmetryError::InvalidGeometry.to_string(), "dice mesh vertices are empty or invalid");
    assert_eq!(
        SymmetryError::AsymmetricGeometry.to_string(),
        "dice mesh does not support every face permutation by rotation"
    );
}

fn glb(json: &[u8], declared: u32, chunk_type: u32) -> Vec<u8> {
    let mut bytes = b"glTF".to_vec();
    bytes.extend_from_slice(&2u32.to_le_bytes());
    bytes.extend_from_slice(&(20 + json.len() as u32).to_le_bytes());
    bytes.extend_from_slice(&declared.to_le_bytes());
    bytes.extend_from_slice(&chunk_type.to_le_bytes());
    bytes.extend_from_slice(json);
    bytes
}

#[test]
fn gltf_json_chunk_is_extracted() {
    let json = br#"{"extras":{}}"#;
    let bytes = glb(json, json.len() as u32, 0x4E4F_534A);
    assert_eq!(extract_gltf_json(&bytes), Some(&json[..]));
    let shorter = glb(json, 4, 0x4E4F_534A);
    assert_eq!(extract_gltf_json(&shorter), Some(&json[..4]));
}

#[test]
fn gltf_json_chunk_rejects_other_containers() {
    let json = br#"{"extras":{}}"#;
    assert_eq!(extract_gltf_json(json), None);
    assert_eq!(extract_gltf_json(b"glTF"), None);
    assert_eq!(extract_gltf_json(&glb(json, json.len() as u32, 0x004E_4942)), None);
    assert_eq!(extract_gltf_json(&glb(json, json.len() as u32 + 1, 0x4E4F_534A)), None);
    assert_eq!(extract_gltf_json(&glb(json, u32::MAX, 0x4E4F_534A)), None);
    let mut bad_magic = glb(json, json.len() as u32, 0x4E4F_534A);
    bad_magic[0] = b'G';
    assert_eq!(extract_gltf_json(&bad_magic), None);
}

#[test]
fn custom_diceset_paths_get_a_glb_extension() {
    assert_eq!(custom_asset_path("my_diceset"), "my_diceset.glb");
    assert_eq!(custom_asset_path("my_diceset.glb"), "my_diceset.glb");
    assert_eq!(custom_asset_path("dice/set.gltf"), "dice/set.gltf");
    assert_eq!(custom_asset_path("set.gl"), "set.gl.glb");
    assert_eq!(custom_asset_path(""), ".glb");
}
