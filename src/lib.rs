//! An opening book: named chess openings keyed by the position they reach,
//! looked up exactly by position or name and approximately by name.

pub mod position;
pub mod replay;
pub mod table;
pub mod index;
pub mod search;
