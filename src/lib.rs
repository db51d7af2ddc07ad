//! Levels of a grid puzzle about placing fruit and vegetables: the rules
//! that decide whether each placed item is happy, the level model with its
//! validity check, and the compact text format that levels are shared in.
//!
//! - `rules`: obstacles, neighbourhoods and the two conditions of each item;
//! - `puzzle`: the level, its validity, and the counts a player works against;
//! - `edit`: the changes an editor makes to a level;
//! - `bits`: bit sequences, most significant bit first, and their bytes;
//! - `data`: the level format, its encoder and its decoder;
//! - `laws`: properties of the rules and the format, proved once for all inputs;
//! - `text`: the basE91 text encoding and the string operations relied on;
//! - `veggie`, `glyph`: item kinds and small drawing helpers.

pub mod bits;
pub mod data;
pub mod edit;
pub mod glyph;
pub mod laws;
pub mod puzzle;
pub mod rules;
pub mod text;
pub mod veggie;
