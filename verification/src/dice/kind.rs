//! The standard polyhedral dice.

use rand::rngs::StdRng;
use vstd::prelude::*;

use super::random::uniform_inclusive;
use super::text::{ascii_string, ascii_text, decimal, is_ascii_bytes, lemma_decimal_shape, push_decimal, str_eq};

verus! {

/// Standard polyhedral die. d100 rolls 1..=100; the visual layer renders
/// it as a d100 + d10 pair.
#[derive(Clone, Copy, Debug, PartialEq, Eq, Hash, Structural)]
pub enum DieKind {
    D4,
    D6,
    D8,
    D10,
    D12,
    D20,
    D100,
}

impl DieKind {
    /// All kinds in canonical order; index matches the gltf primitive order.
    pub const ALL: [DieKind; 7] = [
        DieKind::D4,
        DieKind::D6,
        DieKind::D8,
        DieKind::D10,
        DieKind::D12,
        DieKind::D20,
        DieKind::D100,
    ];

    /// Number of faces.
    pub open spec fn spec_sides(self) -> u32 {
        match self {
            DieKind::D4 => 4,
            DieKind::D6 => 6,
            DieKind::D8 => 8,
            DieKind::D10 => 10,
            DieKind::D12 => 12,
            DieKind::D20 => 20,
            DieKind::D100 => 100,
        }
    }

    /// Number of faces on the die.
    #[verifier::when_used_as_spec(spec_sides)]
    pub fn sides(self) -> (sides: u32)
        ensures
            sides == self.spec_sides(),
    {
        match self {
            DieKind::D4 => 4,
            DieKind::D6 => 6,
            DieKind::D8 => 8,
            DieKind::D10 => 10,
            DieKind::D12 => 12,
            DieKind::D20 => 20,
            DieKind::D100 => 100,
        }
    }

    /// The kind with `sides` faces, if there is one.
    pub open spec fn spec_from_sides(sides: u32) -> Option<DieKind> {
        if sides == 4 {
            Some(DieKind::D4)
        } else if sides == 6 {
            Some(DieKind::D6)
        } else if sides == 8 {
            Some(DieKind::D8)
        } else if sides == 10 {
            Some(DieKind::D10)
        } else if sides == 12 {
            Some(DieKind::D12)
        } else if sides == 20 {
            Some(DieKind::D20)
        } else if sides == 100 {
            Some(DieKind::D100)
        } else {
            None
        }
    }

    /// Looks up a kind by face count. Returns `None` for non-standard counts.
    pub fn from_sides(sides: u32) -> (kind: Option<DieKind>)
        ensures
            kind == Self::spec_from_sides(sides),
            kind matches Some(k) ==> k.sides() == sides,
            kind is None <==> forall|k: DieKind| k.sides() != sides,
    {
        proof {
            if Self::spec_from_sides(sides) is None {
                assert forall|k: DieKind| k.sides() != sides by {
                    match k {
                        DieKind::D4 => {},
                        DieKind::D6 => {},
                        DieKind::D8 => {},
                        DieKind::D10 => {},
                        DieKind::D12 => {},
                        DieKind::D20 => {},
                        DieKind::D100 => {},
                    }
                }
            } else {
                assert(Self::spec_from_sides(sides).unwrap().spec_sides() == sides);
            }
        }
        if sides == 4 {
            Some(DieKind::D4)
        } else if sides == 6 {
            Some(DieKind::D6)
        } else if sides == 8 {
            Some(DieKind::D8)
        } else if sides == 10 {
            Some(DieKind::D10)
        } else if sides == 12 {
            Some(DieKind::D12)
        } else if sides == 20 {
            Some(DieKind::D20)
        } else if sides == 100 {
            Some(DieKind::D100)
        } else {
            None
        }
    }

    /// Index into [`DieKind::ALL`].
    pub open spec fn spec_mesh_index(self) -> usize {
        match self {
            DieKind::D4 => 0,
            DieKind::D6 => 1,
            DieKind::D8 => 2,
            DieKind::D10 => 3,
            DieKind::D12 => 4,
            DieKind::D20 => 5,
            DieKind::D100 => 6,
        }
    }

    /// Index into [`DieKind::ALL`] / the diceset gltf's primitive order.
    #[verifier::when_used_as_spec(spec_mesh_index)]
    pub fn mesh_index(self) -> (index: usize)
        ensures
            index == self.spec_mesh_index(),
            index < 7,
    {
        match self {
            DieKind::D4 => 0,
            DieKind::D6 => 1,
            DieKind::D8 => 2,
            DieKind::D10 => 3,
            DieKind::D12 => 4,
            DieKind::D20 => 5,
            DieKind::D100 => 6,
        }
    }

    /// ASCII bytes of the asset name: `d` followed by the face count.
    pub open spec fn spec_asset_name_bytes(self) -> Seq<u8> {
        seq![100u8] + decimal(self.spec_sides() as nat)
    }

    /// gltf basename `d{sides}`.
    pub open spec fn spec_asset_name(self) -> Seq<char> {
        ascii_text(self.spec_asset_name_bytes())
    }

    /// gltf basename, paired with `assets/{diceset}/{asset_name}.gltf`.
    pub fn asset_name(self) -> (name: &'static str)
        ensures
            name@ == self.spec_asset_name(),
    {
        proof {
            reveal_with_fuel(decimal, 3);
        }
        match self {
            DieKind::D4 => {
                proof { reveal_strlit("d4"); }
                assert("d4"@ =~= self.spec_asset_name());
                "d4"
            },
            DieKind::D6 => {
                proof { reveal_strlit("d6"); }
                assert("d6"@ =~= self.spec_asset_name());
                "d6"
            },
            DieKind::D8 => {
                proof { reveal_strlit("d8"); }
                assert("d8"@ =~= self.spec_asset_name());
                "d8"
            },
            DieKind::D10 => {
                proof { reveal_strlit("d10"); }
                assert("d10"@ =~= self.spec_asset_name());
                "d10"
            },
            DieKind::D12 => {
                proof { reveal_strlit("d12"); }
                assert("d12"@ =~= self.spec_asset_name());
                "d12"
            },
            DieKind::D20 => {
                proof { reveal_strlit("d20"); }
                assert("d20"@ =~= self.spec_asset_name());
                "d20"
            },
            DieKind::D100 => {
                proof { reveal_strlit("d100"); }
                assert("d100"@ =~= self.spec_asset_name());
                "d100"
            },
        }
    }

    /// Looks up a kind by gltf asset name (`"d4"`, `"d6"`, ...).
    pub fn from_asset_name(name: &str) -> (kind: Option<DieKind>)
        ensures
            kind matches Some(k) ==> name@ == k.spec_asset_name(),
            kind is None ==> forall|k: DieKind| name@ != #[trigger] k.spec_asset_name(),
    {
        let mut index: usize = 0;
        while index < 7
            invariant
                index <= 7,
                forall|j: int| 0 <= j < index ==> name@ != (#[trigger] Self::ALL@[j]).spec_asset_name(),
            decreases 7 - index,
        {
            let kind = Self::ALL[index];
            if str_eq(kind.asset_name(), name) {
                return Some(kind);
            }
            index = index + 1;
        }
        proof {
            assert forall|k: DieKind| name@ != #[trigger] k.spec_asset_name() by {
                assert(Self::ALL@[k.spec_mesh_index() as int] == k);
            }
        }
        None
    }

    /// Uniform roll in `1..=sides()`. D100 returns 1..=100 as one number.
    pub fn roll(self, rng: &mut StdRng) -> (value: u32)
        ensures
            1 <= value <= self.sides(),
    {
        uniform_inclusive(rng, 1, self.sides())
    }

    /// Renders as `d{sides}`, the same text as [`DieKind::asset_name`].
    pub fn to_string(self) -> (text: String)
        ensures
            text@ == self.spec_asset_name(),
    {
        let mut bytes: Vec<u8> = Vec::new();
        bytes.push(100u8);
        push_decimal(&mut bytes, self.sides() as u64);
        proof {
            lemma_decimal_shape(self.spec_sides() as nat);
            assert(bytes@ =~= self.spec_asset_name_bytes());
            assert(is_ascii_bytes(bytes@));
        }
        ascii_string(&bytes)
    }
}

/// Looking a kind up by its own face count gives it back.
pub proof fn lemma_from_sides_round_trip(kind: DieKind)
    ensures
        DieKind::spec_from_sides(kind.spec_sides()) == Some(kind),
{
}

/// [`DieKind::ALL`] lists each kind at its mesh index.
pub proof fn lemma_all_order(kind: DieKind)
    ensures
        DieKind::ALL@[kind.spec_mesh_index() as int] == kind,
{
}

} // verus!
