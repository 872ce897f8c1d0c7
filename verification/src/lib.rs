//! A verified environment for character-based terminal graphics built from a
//! tree of rectangles.
pub mod effects;
pub mod error;
pub mod ansi;
pub mod rect;
pub mod tree;
pub mod text;
pub mod render;
pub mod order;
pub mod manager;
pub mod laws;

pub use crate::manager::RectManager;
pub use crate::effects::{Color, EffectsHandler};
pub use crate::error::WreckedError;

use vstd::prelude::*;

verus! {

/// The id of the top-level rectangle that every `RectManager` starts with.
pub const ROOT: usize = 0;

} // verus!
