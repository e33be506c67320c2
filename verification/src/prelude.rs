//! The names that most users of the library need.

pub use crate::error::GameError;
pub use crate::item::tags::{Tag, TagNames, Tags};
pub use crate::item::ItemEvent;
pub use crate::item::ItemID;
pub use crate::item::Items;
