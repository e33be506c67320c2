//! What can go wrong while content is read.

use vstd::prelude::*;

use crate::item::tags::TagError;

verus! {

/// Why a piece of content could not be read.
#[derive(Debug)]
pub enum GameError {
    /// A file with an extension that names no kind of content.
    WrongExtenshion(String),
    /// A configuration that could not be found.
    NoConfig(String),
    /// A text that is not the RON notation of what was expected.
    RonSpannedError(ron::error::SpannedError),
    /// A value that could not be written in RON.
    RonError(ron::error::Error),
    /// A record without a required field; the field's name is given.
    FieldNotFound(String),
    /// A character where another was required: the one found, then the one
    /// required.
    WrongChar(char, char),
    /// A tag that could not be made.
    TagErr(TagError),
}

} // verus!
