//! Items: their identifiers and what the registry stores about each.

use core::hash::Hasher;
use std::collections::hash_map::DefaultHasher;
use vstd::prelude::*;
use vstd::std_specs::convert::FromSpecImpl;
use vstd::std_specs::convert::IntoSpec;
use vstd::std_specs::hash::DefaultHasherAdditionalSpecFns;
use vstd::utf8::encode_utf8;

use crate::text::{chars_of, replace, replaced, string_of};

pub mod content;
pub mod event;
pub mod items;
pub mod pickup;
pub mod tags;

pub use event::ItemEvent;
pub use items::Items;

verus! {

/// What `str::to_lowercase` makes of a text.
pub uninterp spec fn lowercase_of(s: Seq<char>) -> Seq<char>;

/// `str::to_lowercase`: the lower-case form of `s`, which depends on the
/// characters of `s` alone.
#[verifier::external_body]
fn to_lowercase(s: &str) -> (r: String)
    ensures
        r@ == lowercase_of(s@),
{
    s.to_lowercase()
}

/// The digest of a text: the hasher is fed the UTF-8 bytes of the text and
/// then the single byte `0xFF`.
pub open spec fn text_hash(s: Seq<char>) -> u64 {
    DefaultHasher::spec_finish(seq![encode_utf8(s), seq![0xFFu8]])
}

/// The form of a name by which items are told apart: spaces become
/// underscores, and the result is put in lower case.
pub open spec fn normal_form(name: Seq<char>) -> Seq<char> {
    lowercase_of(replaced(name, ' ', '_'))
}

/// The identifier of the item called `name`.
pub open spec fn item_id(name: Seq<char>) -> ItemID {
    ItemID(text_hash(normal_form(name)))
}

/// The two identifiers with the smaller raw value first.
pub open spec fn canonical(a: ItemID, b: ItemID) -> (ItemID, ItemID) {
    if a.0 < b.0 {
        (a, b)
    } else {
        (b, a)
    }
}

/// Names with the same normal form name the same item.
pub proof fn lemma_same_normal_form_same_id(s1: Seq<char>, s2: Seq<char>)
    requires
        normal_form(s1) == normal_form(s2),
    ensures
        item_id(s1) == item_id(s2),
{
}

/// The canonical order of a pair does not depend on the order in which the
/// pair is given.
pub proof fn lemma_canonical_symmetric(a: ItemID, b: ItemID)
    ensures
        canonical(a, b) == canonical(b, a),
        canonical(a, b).0.0 <= canonical(a, b).1.0,
{
}

/// Hashes a text with the standard hasher in its fixed initial state.
pub fn hash_text(s: &str) -> (r: u64)
    ensures
        r == text_hash(s@),
{
    let mut hasher = DefaultHasher::new();
    hasher.write(s.as_bytes());
    let end: [u8; 1] = [0xFF];
    hasher.write(end.as_slice());
    proof {
        assert(end@ =~= seq![0xFFu8]);
        assert(hasher@ =~= seq![encode_utf8(s@), seq![0xFFu8]]);
    }
    hasher.finish()
}

/// A 64-bit handle for an item, derived from the item's name. Two handles are
/// the same item exactly when their values are equal.
#[derive(Debug, Clone, Copy, Hash, PartialEq, Eq, Structural)]
pub struct ItemID(pub u64);

impl ItemID {
    /// The identifier of the item called `name`.
    pub fn new<T>(name: T) -> (r: ItemID) where T: Into<ItemID>
        ensures
            T::obeys_into_spec() ==> r == name.into_spec(),
    {
        name.into()
    }

    /// The two identifiers in canonical order: the one with the smaller value
    /// first. Pairs are stored and looked up in this order only.
    #[inline]
    pub fn first(self, other: Self) -> (r: (ItemID, ItemID))
        ensures
            r == canonical(self, other),
    {
        if self.0 < other.0 {
            (self, other)
        } else {
            (other, self)
        }
    }

    /// The raw value of the identifier.
    #[inline(always)]
    pub fn id(&self) -> (r: u64)
        ensures
            r == self.0,
    {
        self.0
    }
}

impl From<&str> for ItemID {
    fn from(data: &str) -> (r: ItemID) {
        id_of_chars(&chars_of(data))
    }
}

impl FromSpecImpl<&str> for ItemID {
    open spec fn obeys_from_spec() -> bool {
        true
    }

    open spec fn from_spec(data: &str) -> ItemID {
        item_id(data@)
    }
}

impl From<String> for ItemID {
    fn from(data: String) -> (r: ItemID) {
        ItemID::from(data.as_str())
    }
}

impl FromSpecImpl<String> for ItemID {
    open spec fn obeys_from_spec() -> bool {
        true
    }

    open spec fn from_spec(data: String) -> ItemID {
        item_id(data@)
    }
}

/// The identifier of the item whose name is the characters `name`.
pub fn id_of_chars(name: &Vec<char>) -> (r: ItemID)
    ensures
        r == item_id(name@),
{
    let underscored = string_of(&replace(name, ' ', '_'));
    let lowered = to_lowercase(underscored.as_str());
    ItemID(hash_text(lowered.as_str()))
}

/// What the registry stores about one item. The icon and the sound are
/// asset paths.
#[derive(Debug)]
pub struct ItemData {
    pub name: String,
    pub description: String,
    pub icon: String,
    pub tags: tags::Tags,
    pub sound: String,
}

/// An item's record as plain values; the tags are in the order in which the
/// item got them.
pub struct ItemRecord {
    pub name: Seq<char>,
    pub description: Seq<char>,
    pub icon: Seq<char>,
    pub sound: Seq<char>,
    pub tags: Seq<tags::Tag>,
}

impl View for ItemData {
    type V = ItemRecord;

    open spec fn view(&self) -> ItemRecord {
        ItemRecord {
            name: self.name@,
            description: self.description@,
            icon: self.icon@,
            sound: self.sound@,
            tags: self.tags.order(),
        }
    }
}

/// What is shown of an item, as plain values.
pub struct ItemView {
    pub name: Seq<char>,
    pub icon: Seq<char>,
    pub description: Seq<char>,
    pub sound: Seq<char>,
}

/// What is shown of the item with the given record.
pub open spec fn shown_of(record: ItemRecord) -> ItemView {
    ItemView {
        name: record.name,
        icon: record.icon,
        description: record.description,
        sound: record.sound,
    }
}

/// What is shown of an item: its name, icon, description and sound. The icon
/// and the sound are asset paths.
#[derive(Debug, Clone, Copy)]
pub struct Item<'a> {
    name: &'a str,
    icon: &'a str,
    description: &'a str,
    sound: &'a str,
}

impl<'a> View for Item<'a> {
    type V = ItemView;

    closed spec fn view(&self) -> ItemView {
        ItemView {
            name: self.name@,
            icon: self.icon@,
            description: self.description@,
            sound: self.sound@,
        }
    }
}

impl<'a> Item<'a> {
    /// The name of the item.
    pub fn name(&self) -> (r: &str)
        ensures
            r@ == self@.name,
    {
        self.name
    }

    /// The asset path of the item's icon.
    pub fn icon(&self) -> (r: &str)
        ensures
            r@ == self@.icon,
    {
        self.icon
    }

    /// The description of the item.
    pub fn description(&self) -> (r: &str)
        ensures
            r@ == self@.description,
    {
        self.description
    }

    /// The asset path of the item's sound.
    pub fn sound(&self) -> (r: &str)
        ensures
            r@ == self@.sound,
    {
        self.sound
    }
}

/// An `Item` borrows its texts, so no value of it can be written down from
/// a record in a specification: the conversion is specified by what the
/// result shows.
impl<'a> From<&'a ItemData> for Item<'a> {
    fn from(f: &'a ItemData) -> (r: Item<'a>)
        ensures
            r@ == shown_of(f@),
    {
        Item {
            name: f.name.as_str(),
            icon: f.icon.as_str(),
            description: f.description.as_str(),
            sound: f.sound.as_str(),
        }
    }
}

impl<'a> FromSpecImpl<&'a ItemData> for Item<'a> {
    open spec fn obeys_from_spec() -> bool {
        false
    }

    open spec fn from_spec(f: &'a ItemData) -> Item<'a> {
        arbitrary()
    }
}

} // verus!
