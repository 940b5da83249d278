# bevy_dice

Polyhedral dice for Bevy: parse an expression such as `4d6kh3r1e6-1d4+2`,
roll it, check an outcome against it, and work out which physical dice a
throw needs and which face each must show.

The library under `src/` is written in Verus; every function carries a
contract over a mathematical model of its data, and the proofs are checked.

- `dice`: die kinds, keep / reroll / explode modifiers, the expression parser,
  rolling and text output. The parser ignores whitespace anywhere in the
  expression (`dice::parser::lemma_parse_ignores_whitespace`).
  - `dice::round_trip`: the text written for an expression parses back to it.
  - `dice::letter_case`: upper and lower case read alike.
  - `dice::laws`: names that identify dice, modifiers that change nothing when
    unset, and how many dice a term can end with.
- `render`: what playback checks and computes before a throw: whether an
  expression fits the physical dice limit, whether an outcome fits its
  expression, the composition of a throw and the faces it must show, roll ids
  and the default arena.
  - `render::schedule`: the decisions of cached playback: which waiting roll
    starts, waits or fails, which queue is refilled next (queues that waiting
    rolls need before top-ups), how long a queue waits after a throw that did
    not settle (250 ms, doubling up to 8 seconds), and why a playback stops.
  - `render::laws`: rolled outcomes pass the outcome check, expressions that
    can be thrown have a queue, term order shares a queue, kept outcomes are
    thrown with the warmed composition, and faces read back as values.
- `sim`: the physical dice limit and why a throw or a mesh can fail.
- `ui`: the JSON chunk of a binary gltf and the value a settled die shows.

`app/` holds the Bevy plugin around the library: arenas, dicesets, the
background physics recording on avian3d, face-orientation tables,
geometry-preserving corrections and trajectory playback. It works on
floating-point geometry, ECS state, assets and files, so it stays ordinary
Rust.

`tests/` exercises the library from outside.
