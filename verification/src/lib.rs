//! The content engine of a merge game: the registry of items and their tags,
//! the table of recipes by which pairs of items combine, and the text formats
//! in which both are written and saved.

pub mod error;
pub mod item;
pub mod number;
pub mod prelude;
pub mod recipies;
pub mod ron_text;
pub mod serde;
pub mod story;
pub mod text;
pub mod ui;
