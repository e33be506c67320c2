//! Strings and lists of strings in RON notation, read and written by the
//! `ron` crate.

use vstd::prelude::*;

verus! {

/// `ron::error::SpannedError`: why a text could not be read, and where.
#[verifier::external_type_specification]
#[verifier::external_body]
pub struct ExSpannedError(ron::error::SpannedError);

/// `ron::error::Error`: why a value could not be written.
#[verifier::external_type_specification]
#[verifier::external_body]
pub struct ExRonError(ron::error::Error);

/// The list of strings that a text denotes in RON, if it denotes one.
pub uninterp spec fn ron_strings(text: Seq<char>) -> Option<Seq<Seq<char>>>;

/// The string that a text denotes in RON, if it denotes one.
pub uninterp spec fn ron_string(text: Seq<char>) -> Option<Seq<char>>;

/// The RON text that is written for a list of strings, if one is written.
pub uninterp spec fn ron_of_strings(list: Seq<Seq<char>>) -> Option<Seq<char>>;

/// The characters of each string of a list.
pub open spec fn texts(list: Seq<String>) -> Seq<Seq<char>> {
    Seq::new(list.len(), |i: int| list[i]@)
}

/// `ron::from_str` at the type `Vec<String>`: the outcome depends on the text
/// alone, and is the list that the text denotes or an error where it denotes
/// none.
#[verifier::external_body]
pub(crate) fn strings_from_ron(text: &str) -> (r: Result<Vec<String>, ron::error::SpannedError>)
    ensures
        match r {
            Ok(list) => ron_strings(text@) == Some(texts(list@)),
            Err(_) => ron_strings(text@) is None,
        },
{
    ron::from_str::<Vec<String>>(text)
}

/// `ron::from_str` at the type `String`: the outcome depends on the text
/// alone, and is the string that the text denotes or an error where it
/// denotes none.
#[verifier::external_body]
pub(crate) fn string_from_ron(text: &str) -> (r: Result<String, ron::error::SpannedError>)
    ensures
        match r {
            Ok(s) => ron_string(text@) == Some(s@),
            Err(_) => ron_string(text@) is None,
        },
{
    ron::from_str::<String>(text)
}

/// `ron::to_string` at the type `Vec<String>`: the outcome depends on the
/// list alone. The text that is written is a bracketed list of quoted,
/// escaped strings, which `ron::from_str` reads back as the same list.
#[verifier::external_body]
pub(crate) fn strings_to_ron(list: &Vec<String>) -> (r: Result<String, ron::error::Error>)
    ensures
        match r {
            Ok(s) => ron_of_strings(texts(list@)) == Some(s@) && ron_strings(s@) == Some(
                texts(list@),
            ),
            Err(_) => ron_of_strings(texts(list@)) is None,
        },
{
    ron::to_string(list)
}

} // verus!
