//! Polyhedral dice: parse dice expressions, roll them, apply keep / reroll /
//! explode modifiers, render results as text, and check forced outcomes
//! against the physical dice that must show them.

pub mod dice;
pub mod render;
pub mod sim;
pub mod ui;
