//! Game rules, level generation and level-plan validation for a small
//! first-person maze shooter, verified with Verus.

pub mod hermes;
pub mod rng;
pub mod maze;
pub mod generate;
pub mod layout;
pub mod gate;
pub mod anim;
pub mod rules;
pub mod flow;
