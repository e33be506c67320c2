//! Tags: numeric category labels, their optional names, and sets of them.

use std::collections::HashMap;
use vstd::prelude::*;

use crate::error::GameError;
use crate::item::{hash_text, text_hash};
use crate::ron_text::{ron_of_strings, ron_strings, strings_from_ron, strings_to_ron, texts};
use crate::number::{
    digit_value, hex_digits, lemma_hex_digits, parse_number, parse_u64, push_hex, unsigned_part,
};
use crate::text::{
    chars_of, is_whitespace, lemma_trimmed_fixed, lemma_trimmed_idempotent, slice_of, string_of,
    trim, trimmed,
};

verus! {

/// Why a tag could not be made or named.
#[derive(Debug, Clone, Copy, PartialEq, Eq, Structural)]
pub enum TagError {
    /// The table of names cannot be used.
    LockFailed,
    /// The tag has no name in the table.
    NoName,
    /// A text that begins like a number is none that fits in 64 bits.
    ParseError,
}

/// A 64-bit category label: a literal number, or the digest of a name.
#[derive(Debug, Clone, Copy, Hash, PartialEq, Eq, Structural)]
pub struct Tag(pub u64);

/// Whether a trimmed text is read as a number: its first character is a
/// decimal digit.
pub open spec fn is_numeral(s: Seq<char>) -> bool {
    s.len() > 0 && '0' <= s.first() <= '9'
}

/// Whether a numeral is hexadecimal: it begins with `0x` or `0X`.
pub open spec fn has_hex_prefix(s: Seq<char>) -> bool {
    s.len() >= 2 && s[0] == '0' && (s[1] == 'x' || s[1] == 'X')
}

/// The value of a numeral: hexadecimal after `0x` or `0X`, decimal otherwise;
/// `None` where it is malformed or does not fit in 64 bits.
pub open spec fn numeral_value(s: Seq<char>) -> Option<int> {
    if has_hex_prefix(s) {
        parse_number(s.subrange(2, s.len() as int), 16, u64::MAX as int)
    } else {
        parse_number(s, 10, u64::MAX as int)
    }
}

/// The tag that a text stands for, whatever the state of the name table: the
/// value of a numeral, or the digest of a name. `None` for a malformed numeral.
pub open spec fn tag_of(text: Seq<char>) -> Option<Tag> {
    let s = trimmed(text);
    if is_numeral(s) {
        match numeral_value(s) {
            Some(v) => Some(Tag(v as u64)),
            None => None,
        }
    } else {
        Some(Tag(text_hash(s)))
    }
}

/// The text of a tag without a name: `0x` and the upper-case hexadecimal
/// digits of its value.
pub open spec fn hex_name(tag: Tag) -> Seq<char> {
    seq!['0', 'x'] + hex_digits(tag.0 as nat)
}

/// The text shown for a tag: its name in the table where the table can be used
/// and holds one, its hexadecimal form otherwise.
pub open spec fn display_name(tag: Tag, names: Map<u64, Seq<char>>, poisoned: bool) -> Seq<char> {
    if !poisoned && names.contains_key(tag.0) {
        names[tag.0]
    } else {
        hex_name(tag)
    }
}

/// Every name in the table stands for the tag it is listed under.
pub open spec fn names_consistent(names: Map<u64, Seq<char>>) -> bool {
    forall|k: u64| #[trigger] names.contains_key(k) ==> tag_of(names[k]) == Some(Tag(k))
}

/// The hexadecimal form of a tag stands for that tag.
pub proof fn lemma_hex_name_round_trip(tag: Tag)
    ensures
        tag_of(hex_name(tag)) == Some(tag),
{
    let digits = hex_digits(tag.0 as nat);
    let s = hex_name(tag);
    lemma_hex_digits(tag.0 as nat);
    assert(s.first() == '0');
    assert(s.last() == digits.last());
    assert(!is_whitespace(s.last())) by {
        assert(0 <= digit_value(digits[digits.len() - 1]) < 16);
    }
    lemma_trimmed_fixed(s);
    assert(has_hex_prefix(s));
    assert(s.subrange(2, s.len() as int) =~= digits);
    assert(unsigned_part(digits) == digits);
}

/// A trimmed text that is no numeral stands for the digest of itself.
pub proof fn lemma_name_round_trip(text: Seq<char>)
    requires
        !is_numeral(trimmed(text)),
    ensures
        tag_of(trimmed(text)) == Some(Tag(text_hash(trimmed(text)))),
        tag_of(trimmed(text)) == tag_of(text),
{
    lemma_trimmed_idempotent(text);
}

/// Whatever the table holds, the text shown for a tag stands for that tag.
pub proof fn lemma_display_round_trip(tag: Tag, names: Map<u64, Seq<char>>, poisoned: bool)
    requires
        names_consistent(names),
    ensures
        tag_of(display_name(tag, names, poisoned)) == Some(tag),
{
    if !poisoned && names.contains_key(tag.0) {
    } else {
        lemma_hex_name_round_trip(tag);
    }
}

/// The table of tag names: for each tag made from a name, the name it was
/// made from. A table can be poisoned, after which it neither takes nor gives
/// names.
pub struct TagNames {
    names: HashMap<u64, String>,
    poisoned: bool,
}

impl View for TagNames {
    type V = Map<u64, Seq<char>>;

    closed spec fn view(&self) -> Map<u64, Seq<char>> {
        Map::new(|k: u64| self.names@.contains_key(k), |k: u64| self.names@[k]@)
    }
}

impl TagNames {
    /// A table is well formed when each of its names stands for the tag it is
    /// listed under. Every table that this module hands out is.
    pub open spec fn wf(&self) -> bool {
        names_consistent(self@)
    }

    /// Whether the table has been poisoned.
    pub closed spec fn poisoned(&self) -> bool {
        self.poisoned
    }

    /// An empty table that can be used.
    pub fn new() -> (r: TagNames)
        ensures
            r.wf(),
            r@ == Map::<u64, Seq<char>>::empty(),
            !r.poisoned(),
    {
        let r = TagNames { names: HashMap::new(), poisoned: false };
        assert(r@ =~= Map::<u64, Seq<char>>::empty());
        r
    }

    /// Poisons the table: from now on it neither takes nor gives names.
    pub fn poison(&mut self)
        requires
            old(self).wf(),
        ensures
            final(self).wf(),
            final(self)@ == old(self)@,
            final(self).poisoned(),
    {
        self.poisoned = true;
    }

    /// Whether the table has been poisoned.
    pub fn is_poisoned(&self) -> (r: bool)
        ensures
            r == self.poisoned(),
    {
        self.poisoned
    }

    /// The name listed for `tag`.
    ///
    /// Fails with `LockFailed` on a poisoned table, and with `NoName` where
    /// the table lists no name for the tag.
    pub fn get(&self, tag: Tag) -> (r: Result<String, TagError>)
        ensures
            match r {
                Ok(name) => !self.poisoned() && self@.contains_key(tag.0) && name@ == self@[tag.0],
                Err(e) => e == (if self.poisoned() {
                    TagError::LockFailed
                } else {
                    TagError::NoName
                }) && (self.poisoned() || !self@.contains_key(tag.0)),
            },
    {
        if self.poisoned {
            return Err(TagError::LockFailed);
        }
        match self.names.get(&tag.0) {
            Some(name) => Ok(name.clone()),
            None => Err(TagError::NoName),
        }
    }

    /// Lists `name` under `tag`, in place of any name listed there before.
    fn register(&mut self, tag: Tag, name: String)
        requires
            old(self).wf(),
            !old(self).poisoned(),
            tag_of(name@) == Some(tag),
        ensures
            final(self).wf(),
            final(self)@ == old(self)@.insert(tag.0, name@),
            !final(self).poisoned(),
    {
        let ghost before = self@;
        let ghost text = name@;
        self.names.insert(tag.0, name);
        proof {
            assert(self@ =~= before.insert(tag.0, text));
        }
    }
}

impl Tag {
    /// The tag that `name` stands for; see [`Tag::from_str`].
    pub fn new(name: &str, names: &mut TagNames) -> (r: Result<Tag, TagError>)
        requires
            old(names).wf(),
        ensures
            final(names).wf(),
            made_tag(name@, *old(names), r, *final(names)),
    {
        Tag::from_str(name, names)
    }

    /// The tag that `str` stands for.
    ///
    /// The text is trimmed. Where it then begins with a decimal digit it is a
    /// numeral, hexadecimal after `0x` or `0X` and decimal otherwise, and its
    /// value is the tag; a malformed numeral is a `ParseError`. Any other text
    /// is a name: the tag is the digest of the name, and the name is listed
    /// under the tag in `names`. On a poisoned table a name fails with
    /// `LockFailed`, while a numeral is still read.
    pub fn from_str(str: &str, names: &mut TagNames) -> (r: Result<Tag, TagError>)
        requires
            old(names).wf(),
        ensures
            final(names).wf(),
            made_tag(str@, *old(names), r, *final(names)),
    {
        let chars = trim(&chars_of(str));
        if chars.len() > 0 && '0' <= chars[0] && chars[0] <= '9' {
            let value = if chars.len() >= 2 && chars[0] == '0' && (chars[1] == 'x' || chars[1]
                == 'X') {
                parse_u64(&slice_of(&chars, 2, chars.len()), 16)
            } else {
                parse_u64(&chars, 10)
            };
            match value {
                Some(id) => Ok(Tag(id)),
                None => Err(TagError::ParseError),
            }
        } else {
            let name = string_of(&chars);
            let tag = Tag(hash_text(name.as_str()));
            if names.is_poisoned() {
                Err(TagError::LockFailed)
            } else {
                proof {
                    lemma_name_round_trip(str@);
                }
                names.register(tag, name);
                Ok(tag)
            }
        }
    }

    /// The text shown for the tag: its name, or `0x` and its value in
    /// upper-case hexadecimal where no name can be had.
    pub fn name(&self, names: &TagNames) -> (r: String)
        requires
            names.wf(),
        ensures
            r@ == display_name(*self, names@, names.poisoned()),
            tag_of(r@) == Some(*self),
    {
        match self.get_name(names) {
            Ok(name) => {
                proof {
                    lemma_display_round_trip(*self, names@, names.poisoned());
                }
                name
            },
            Err(_) => {
                let mut out: Vec<char> = Vec::new();
                out.push('0');
                out.push('x');
                push_hex(&mut out, self.0);
                proof {
                    assert(out@ =~= hex_name(*self));
                    lemma_hex_name_round_trip(*self);
                }
                string_of(&out)
            },
        }
    }

    /// The name listed for the tag in `names`.
    pub fn get_name(&self, names: &TagNames) -> (r: Result<String, TagError>)
        ensures
            match r {
                Ok(name) => !names.poisoned() && names@.contains_key(self.0) && name@
                    == names@[self.0],
                Err(e) => e == (if names.poisoned() {
                    TagError::LockFailed
                } else {
                    TagError::NoName
                }) && (names.poisoned() || !names@.contains_key(self.0)),
            },
    {
        names.get(*self)
    }

    /// The text shown for the tag; the same as [`Tag::name`].
    pub fn to_string(&self, names: &TagNames) -> (r: String)
        requires
            names.wf(),
        ensures
            r@ == display_name(*self, names@, names.poisoned()),
            tag_of(r@) == Some(*self),
    {
        self.name(names)
    }
}

/// What making a tag from `text` returns and does to the table of names.
pub open spec fn made_tag(
    text: Seq<char>,
    before: TagNames,
    r: Result<Tag, TagError>,
    after: TagNames,
) -> bool {
    let s = trimmed(text);
    if is_numeral(s) {
        &&& after@ == before@
        &&& after.poisoned() == before.poisoned()
        &&& match tag_of(text) {
            Some(tag) => r == Ok::<Tag, TagError>(tag),
            None => r == Err::<Tag, TagError>(TagError::ParseError),
        }
    } else if before.poisoned() {
        &&& after@ == before@
        &&& after.poisoned()
        &&& r == Err::<Tag, TagError>(TagError::LockFailed)
    } else {
        &&& after@ == before@.insert(text_hash(s), s)
        &&& !after.poisoned()
        &&& r == Ok::<Tag, TagError>(Tag(text_hash(s)))
    }
}

/// A list of tags, with `tag` added at the end unless the list holds it.
pub open spec fn inserted(order: Seq<Tag>, tag: Tag) -> Seq<Tag> {
    if order.contains(tag) {
        order
    } else {
        order.push(tag)
    }
}

/// A list of tags, with the tags of `more` added one after the other.
pub open spec fn merged(order: Seq<Tag>, more: Seq<Tag>) -> Seq<Tag>
    decreases more.len(),
{
    if more.len() == 0 {
        order
    } else {
        inserted(merged(order, more.drop_last()), more.last())
    }
}

/// The error with which making a tag from `text` fails, if it fails.
pub open spec fn failure(text: Seq<char>, poisoned: bool) -> Option<TagError> {
    if is_numeral(trimmed(text)) {
        if tag_of(text) is None {
            Some(TagError::ParseError)
        } else {
            None
        }
    } else if poisoned {
        Some(TagError::LockFailed)
    } else {
        None
    }
}

/// The position of the first text of `list` from which no tag can be made,
/// or `list.len()` where there is none.
pub open spec fn first_failure(list: Seq<Seq<char>>, poisoned: bool) -> int
    decreases list.len(),
{
    if list.len() == 0 || failure(list.first(), poisoned) is Some {
        0
    } else {
        1 + first_failure(list.drop_first(), poisoned)
    }
}

/// The tags that the texts of `list` stand for, each once, in the order of
/// their first occurrence. Texts that stand for no tag are passed over.
pub open spec fn tags_in_order(list: Seq<Seq<char>>) -> Seq<Tag>
    decreases list.len(),
{
    if list.len() == 0 {
        Seq::empty()
    } else {
        let before = tags_in_order(list.drop_last());
        match tag_of(list.last()) {
            Some(tag) => inserted(before, tag),
            None => before,
        }
    }
}

/// The table of names after a tag has been made from each text of `list`.
pub open spec fn registered(names: Map<u64, Seq<char>>, list: Seq<Seq<char>>) -> Map<
    u64,
    Seq<char>,
>
    decreases list.len(),
{
    if list.len() == 0 {
        names
    } else {
        let before = registered(names, list.drop_last());
        let s = trimmed(list.last());
        if is_numeral(s) {
            before
        } else {
            before.insert(text_hash(s), s)
        }
    }
}

/// The texts shown for a list of tags.
pub open spec fn shown(order: Seq<Tag>, names: Map<u64, Seq<char>>, poisoned: bool) -> Seq<
    Seq<char>,
> {
    Seq::new(order.len(), |i: int| display_name(order[i], names, poisoned))
}

/// The set of tags that a serialized list of tags denotes: `None` where the
/// text is no list of strings, or where one of the strings makes no tag.
pub open spec fn read_tags(text: Seq<char>, poisoned: bool) -> Option<Set<Tag>> {
    match ron_strings(text) {
        Some(list) => if first_failure(list, poisoned) == list.len() {
            Some(tags_in_order(list).to_set())
        } else {
            None
        },
        None => None,
    }
}

/// `first_failure` is the least position whose text makes no tag.
pub proof fn lemma_first_failure(list: Seq<Seq<char>>, poisoned: bool)
    ensures
        0 <= first_failure(list, poisoned) <= list.len(),
        first_failure(list, poisoned) < list.len() ==> failure(
            list[first_failure(list, poisoned)],
            poisoned,
        ) is Some,
        forall|j: int|
            0 <= j < first_failure(list, poisoned) ==> (#[trigger] failure(list[j], poisoned))
                is None,
    decreases list.len(),
{
    if list.len() == 0 || failure(list.first(), poisoned) is Some {
    } else {
        let rest = list.drop_first();
        lemma_first_failure(rest, poisoned);
        assert forall|j: int| 0 <= j < first_failure(list, poisoned) implies (#[trigger] failure(
            list[j],
            poisoned,
        )) is None by {
            if j > 0 {
                assert(list[j] == rest[j - 1]);
            }
        }
    }
}

/// A position whose text is the first to make no tag is `first_failure`.
pub proof fn lemma_first_failure_is(list: Seq<Seq<char>>, poisoned: bool, k: int)
    requires
        0 <= k <= list.len(),
        k < list.len() ==> failure(list[k], poisoned) is Some,
        forall|j: int| 0 <= j < k ==> (#[trigger] failure(list[j], poisoned)) is None,
    ensures
        first_failure(list, poisoned) == k,
{
    lemma_first_failure(list, poisoned);
}

/// The list built by `inserted` and `merged` holds what both lists held, and
/// nothing twice.
pub proof fn lemma_merged(order: Seq<Tag>, more: Seq<Tag>)
    requires
        order.no_duplicates(),
    ensures
        merged(order, more).no_duplicates(),
        merged(order, more).to_set() == order.to_set().union(more.to_set()),
    decreases more.len(),
{
    if more.len() == 0 {
        assert(more.to_set() =~= Set::<Tag>::empty());
        assert(order.to_set().union(more.to_set()) =~= order.to_set());
    } else {
        let head = more.drop_last();
        lemma_merged(order, head);
        lemma_inserted(merged(order, head), more.last());
        assert(more.to_set() =~= head.to_set().insert(more.last())) by {
            assert forall|t: Tag| more.to_set().contains(t) implies head.to_set().insert(
                more.last(),
            ).contains(t) by {
                let i = choose|i: int| 0 <= i < more.len() && more[i] == t;
                if i < head.len() {
                    assert(head[i] == t);
                }
            }
            assert forall|t: Tag| head.to_set().insert(more.last()).contains(t) implies more.to_set(
            ).contains(t) by {
                if t == more.last() {
                    assert(more[more.len() - 1] == t);
                } else {
                    let i = choose|i: int| 0 <= i < head.len() && head[i] == t;
                    assert(more[i] == t);
                }
            }
        }
        assert(merged(order, more).to_set() =~= order.to_set().union(more.to_set()));
    }
}

/// Adding a tag to a list without repeats gives a list without repeats that
/// holds the tag besides what it held.
pub proof fn lemma_inserted(order: Seq<Tag>, tag: Tag)
    requires
        order.no_duplicates(),
    ensures
        inserted(order, tag).no_duplicates(),
        inserted(order, tag).to_set() == order.to_set().insert(tag),
{
    let next = inserted(order, tag);
    if order.contains(tag) {
        assert(order.to_set().insert(tag) =~= order.to_set());
    } else {
        assert forall|i: int, j: int| 0 <= i < next.len() && 0 <= j < next.len() && i
            != j implies next[i] != next[j] by {
            if i < order.len() {
                assert(order[i] == next[i]);
            }
            if j < order.len() {
                assert(order[j] == next[j]);
            }
        }
        assert forall|t: Tag| next.to_set().contains(t) implies order.to_set().insert(
            tag,
        ).contains(t) by {
            let i = choose|i: int| 0 <= i < next.len() && next[i] == t;
            if i < order.len() {
                assert(order[i] == t);
            }
        }
        assert forall|t: Tag| order.to_set().insert(tag).contains(t) implies next.to_set().contains(
            t,
        ) by {
            if t == tag {
                assert(next[next.len() - 1] == t);
            } else {
                let i = choose|i: int| 0 <= i < order.len() && order[i] == t;
                assert(next[i] == t);
            }
        }
        assert(next.to_set() =~= order.to_set().insert(tag));
    }
}

/// The texts shown for a list of tags without repeats make those very tags,
/// in the same order, and none of them fails.
pub proof fn lemma_shown_round_trip(
    order: Seq<Tag>,
    names: Map<u64, Seq<char>>,
    poisoned: bool,
    k: int,
)
    requires
        order.no_duplicates(),
        names_consistent(names),
        0 <= k <= order.len(),
    ensures
        tags_in_order(shown(order, names, poisoned).take(k)) == order.take(k),
        forall|j: int|
            0 <= j < order.len() ==> (#[trigger] failure(
                shown(order, names, poisoned)[j],
                poisoned,
            )) is None,
    decreases k,
{
    let list = shown(order, names, poisoned);
    assert forall|j: int| 0 <= j < order.len() implies (#[trigger] failure(list[j], poisoned))
        is None by {
        lemma_display_round_trip(order[j], names, poisoned);
        if poisoned {
            lemma_hex_name_numeral(order[j]);
        }
    }
    if k == 0 {
        assert(list.take(0) =~= Seq::<Seq<char>>::empty());
        assert(order.take(0) =~= Seq::<Tag>::empty());
    } else {
        lemma_shown_round_trip(order, names, poisoned, k - 1);
        lemma_display_round_trip(order[k - 1], names, poisoned);
        assert(list.take(k).drop_last() =~= list.take(k - 1));
        assert(list.take(k).last() == list[k - 1]);
        let before = order.take(k - 1);
        assert(!before.contains(order[k - 1])) by {
            if before.contains(order[k - 1]) {
                let i = choose|i: int| 0 <= i < before.len() && before[i] == order[k - 1];
                assert(order[i] == order[k - 1]);
            }
        }
        assert(before.push(order[k - 1]) =~= order.take(k));
    }
}

/// The hexadecimal form of a tag is a numeral.
pub proof fn lemma_hex_name_numeral(tag: Tag)
    ensures
        is_numeral(trimmed(hex_name(tag))),
{
    let digits = hex_digits(tag.0 as nat);
    let s = hex_name(tag);
    lemma_hex_digits(tag.0 as nat);
    assert(s.first() == '0');
    assert(s.last() == digits.last());
    assert(!is_whitespace(s.last())) by {
        assert(0 <= digit_value(digits[digits.len() - 1]) < 16);
    }
    lemma_trimmed_fixed(s);
}

/// A set of tags, kept in the order in which the tags were first added.
#[derive(Debug)]
pub struct Tags(Vec<Tag>);

impl View for Tags {
    type V = Set<Tag>;

    open spec fn view(&self) -> Set<Tag> {
        self.order().to_set()
    }
}

impl Default for Tags {
    fn default() -> (r: Tags)
        ensures
            r.wf(),
            r.order() == Seq::<Tag>::empty(),
    {
        Tags(Vec::new())
    }
}

impl Tags {
    /// The tags of the set, in the order in which they were first added.
    pub closed spec fn order(&self) -> Seq<Tag> {
        self.0@
    }

    /// A set is well formed when its order lists no tag twice. Every set that
    /// this module hands out is.
    pub open spec fn wf(&self) -> bool {
        self.order().no_duplicates()
    }

    /// Adds `tag` to the set; a tag that the set holds is not added again.
    pub fn insert(&mut self, tag: Tag)
        requires
            old(self).wf(),
        ensures
            final(self).wf(),
            final(self).order() == inserted(old(self).order(), tag),
            final(self)@ == old(self)@.insert(tag),
    {
        proof {
            lemma_inserted(self.order(), tag);
        }
        if !self.contains(&tag) {
            self.0.push(tag);
        }
    }

    /// Whether the set holds `tag`.
    pub fn contains(&self, tag: &Tag) -> (r: bool)
        ensures
            r == self@.contains(*tag),
            r == self.order().contains(*tag),
    {
        let mut i: usize = 0;
        while i < self.0.len()
            invariant
                i <= self.0.len(),
                forall|j: int| 0 <= j < i ==> self.0@[j] != *tag,
            decreases self.0.len() - i,
        {
            if self.0[i] == *tag {
                return true;
            }
            i += 1;
        }
        false
    }

    /// The tags of the set, each once, in the order in which they were first
    /// added.
    pub fn iter(&self) -> (r: Vec<Tag>)
        ensures
            r@ == self.order(),
    {
        self.0.clone()
    }

    /// Adds every tag of `other` to the set.
    pub fn merge(&mut self, other: &Tags)
        requires
            old(self).wf(),
        ensures
            final(self).wf(),
            final(self).order() == merged(old(self).order(), other.order()),
            final(self)@ == old(self)@.union(other@),
    {
        proof {
            lemma_merged(self.order(), other.order());
        }
        let mut i: usize = 0;
        assert(other.order().take(0) =~= Seq::<Tag>::empty());
        while i < other.0.len()
            invariant
                i <= other.0.len(),
                self.wf(),
                self.order() == merged(old(self).order(), other.order().take(i as int)),
            decreases other.0.len() - i,
        {
            proof {
                let next = other.order().take(i + 1);
                assert(next.drop_last() =~= other.order().take(i as int));
            }
            self.insert(other.0[i]);
            i += 1;
        }
        proof {
            assert(other.order().take(i as int) =~= other.order());
        }
    }

    /// The set as a RON list of the texts shown for its tags, in order.
    ///
    /// Fails only where the list cannot be written. A text that is written
    /// reads back, by [`Tags::deserialize`], as a set with the same tags.
    pub fn serialize(&self, names: &TagNames) -> (r: Result<String, GameError>)
        requires
            self.wf(),
            names.wf(),
        ensures
            match r {
                Ok(text) => {
                    &&& ron_of_strings(shown(self.order(), names@, names.poisoned())) == Some(
                        text@,
                    )
                    &&& read_tags(text@, names.poisoned()) == Some(self@)
                    &&& read_tags(text@, false) == Some(self@)
                },
                Err(e) => e is RonError && ron_of_strings(
                    shown(self.order(), names@, names.poisoned()),
                ) is None,
            },
    {
        let ghost list = shown(self.order(), names@, names.poisoned());
        let mut shown_names: Vec<String> = Vec::new();
        let mut i: usize = 0;
        while i < self.0.len()
            invariant
                i <= self.0.len(),
                names.wf(),
                list == shown(self.order(), names@, names.poisoned()),
                texts(shown_names@) == list.take(i as int),
            decreases self.0.len() - i,
        {
            let name = self.0[i].name(names);
            let ghost before = texts(shown_names@);
            shown_names.push(name);
            proof {
                assert(texts(shown_names@) =~= before.push(name@));
                assert(list.take(i + 1) =~= list.take(i as int).push(list[i as int]));
            }
            i += 1;
        }
        proof {
            assert(list.take(i as int) =~= list);
        }
        match strings_to_ron(&shown_names) {
            Ok(text) => {
                proof {
                    lemma_written_reads_back(
                        self.order(),
                        names@,
                        names.poisoned(),
                        names.poisoned(),
                    );
                    lemma_written_reads_back(self.order(), names@, names.poisoned(), false);
                }
                Ok(text)
            },
            Err(e) => Err(GameError::RonError(e)),
        }
    }

    /// Reads a set of tags from a RON list of strings, making a tag from each
    /// string in turn, as [`Tag::from_str`] does.
    ///
    /// Fails where the text is no RON list of strings, and at the first
    /// string from which no tag can be made; the names of the strings before
    /// that one have then been listed in `names`.
    pub fn deserialize(text: &str, names: &mut TagNames) -> (r: Result<Tags, GameError>)
        requires
            old(names).wf(),
        ensures
            final(names).wf(),
            final(names).poisoned() == old(names).poisoned(),
            match ron_strings(text@) {
                None => r matches Err(GameError::RonSpannedError(_)) && final(names)@ == old(
                    names,
                )@,
                Some(list) => {
                    let k = first_failure(list, old(names).poisoned());
                    &&& final(names)@ == registered(old(names)@, list.take(k))
                    &&& if k == list.len() {
                        r matches Ok(tags) && tags.wf() && tags.order() == tags_in_order(list)
                    } else {
                        r matches Err(GameError::TagErr(e)) && Some(e) == failure(
                            list[k],
                            old(names).poisoned(),
                        )
                    }
                },
            },
            r is Ok <==> read_tags(text@, old(names).poisoned()) is Some,
            r matches Ok(tags) ==> Some(tags@) == read_tags(text@, old(names).poisoned()),
    {
        let data = match strings_from_ron(text) {
            Ok(data) => data,
            Err(e) => {
                return Err(GameError::RonSpannedError(e));
            },
        };
        let ghost list = texts(data@);
        let ghost poisoned = names.poisoned();
        let mut set = Tags::default();
        let mut i: usize = 0;
        proof {
            assert(list.take(0) =~= Seq::<Seq<char>>::empty());
        }
        while i < data.len()
            invariant
                i <= data.len(),
                list == texts(data@),
                ron_strings(text@) == Some(list),
                names.wf(),
                names.poisoned() == poisoned,
                poisoned == old(names).poisoned(),
                set.wf(),
                set.order() == tags_in_order(list.take(i as int)),
                names@ == registered(old(names)@, list.take(i as int)),
                forall|j: int| 0 <= j < i ==> (#[trigger] failure(list[j], poisoned)) is None,
            decreases data.len() - i,
        {
            proof {
                let next = list.take(i + 1);
                assert(next.drop_last() =~= list.take(i as int));
                assert(next.last() == data@[i as int]@);
            }
            match Tag::from_str(data[i].as_str(), names) {
                Ok(tag) => {
                    set.insert(tag);
                },
                Err(e) => {
                    proof {
                        lemma_first_failure_is(list, poisoned, i as int);
                    }
                    return Err(GameError::TagErr(e));
                },
            }
            i += 1;
        }
        proof {
            assert(list.take(i as int) =~= list);
            lemma_first_failure_is(list, poisoned, i as int);
        }
        Ok(set)
    }
}

/// A list of tags without repeats, written as the texts shown for its tags,
/// reads back as the same tags, unless the table of names was poisoned
/// between the writing and the reading.
pub proof fn lemma_written_reads_back(
    order: Seq<Tag>,
    names: Map<u64, Seq<char>>,
    poisoned: bool,
    poisoned_later: bool,
)
    requires
        order.no_duplicates(),
        names_consistent(names),
        poisoned_later ==> poisoned,
    ensures
        first_failure(shown(order, names, poisoned), poisoned_later) == order.len(),
        tags_in_order(shown(order, names, poisoned)) == order,
{
    let list = shown(order, names, poisoned);
    lemma_shown_round_trip(order, names, poisoned, order.len() as int);
    assert(list.take(order.len() as int) =~= list);
    assert(order.take(order.len() as int) =~= order);
    assert forall|j: int| 0 <= j < list.len() implies (#[trigger] failure(list[j], poisoned_later))
        is None by {
        lemma_display_round_trip(order[j], names, poisoned);
        if poisoned_later {
            if !poisoned && names.contains_key(order[j].0) {
            } else {
                lemma_hex_name_numeral(order[j]);
            }
        }
    }
    lemma_first_failure_is(list, poisoned_later, list.len() as int);
}

} // verus!
