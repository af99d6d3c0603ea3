//! Rule engine of a single-player patience game played with forty cards on a
//! board of fifteen slots: card stacking, the seeded deal, grabbing and
//! placing, the automatic promotion sweep, the four-dragon stow and the win
//! test. Every rule is stated as a contract over a mathematical view of the
//! session and proved.

pub mod card;
pub mod deal;
pub mod generator;
pub mod invariants;
pub mod laws;
pub mod layout;
pub mod rules;
pub mod session;
pub mod validate;
