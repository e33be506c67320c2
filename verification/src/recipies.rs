//! The recipe table: which pairs of items combine, into what, and which
//! pairs have already been combined.

use std::collections::{HashMap, HashSet};
use vstd::prelude::*;
use vstd::std_specs::iter::IteratorSpec;

use crate::error::GameError;
use crate::item::items::Items;
use crate::item::tags::{failure, registered, tag_of, Tag, TagError, TagNames};
use crate::item::{canonical, id_of_chars, item_id, lemma_canonical_symmetric, ItemID};
use crate::number::{parse_number, parse_u16};
use crate::text::{
    chars_of, index_of, is_space, is_whitespace, lemma_index_of_is, slice_of, split, split_on,
    string_of, trim, trimmed, views,
};

verus! {

/// The rank of the catch-all recipes of the sink item: the worst there is, so
/// that any other recipe for the same pair wins over them.
pub const TRASH_RANK: u16 = 0xFFFF;

/// The recipe table as a map: for each canonical pair that combines, the
/// results in the order in which they were added, and their rank.
pub type Table = Map<(ItemID, ItemID), (Seq<ItemID>, u16)>;

/// The table after a recipe has been added: a pair without an entry gets
/// one; an entry of worse (larger) rank is replaced; an entry of the same
/// rank gets one more result; an entry of better rank stays as it is.
pub open spec fn table_insert(t: Table, item1: ItemID, item2: ItemID, makes: ItemID, rank: u16) -> Table {
    let p = canonical(item1, item2);
    if !t.contains_key(p) || t[p].1 > rank {
        t.insert(p, (seq![makes], rank))
    } else if t[p].1 == rank {
        t.insert(p, (t[p].0.push(makes), rank))
    } else {
        t
    }
}

/// The table after the sink's catch-all recipe has been added for each of
/// `items` in turn.
pub open spec fn table_trash(t: Table, items: Seq<ItemID>, trash: ItemID) -> Table
    decreases items.len(),
{
    if items.len() == 0 {
        t
    } else {
        table_insert(table_trash(t, items.drop_last(), trash), items.last(), trash, trash, TRASH_RANK)
    }
}

/// The identifier of the sink item.
pub open spec fn trash_id() -> ItemID {
    item_id("Trash"@)
}

/// The key under which a pair is stored: the first value in the upper 64
/// bits, the second in the lower.
pub open spec fn pair_key(p: (ItemID, ItemID)) -> u128 {
    (p.0.0 as u128 * 0x1_0000_0000_0000_0000 + p.1.0 as u128) as u128
}

/// The pair that is stored under a key.
pub open spec fn key_pair(k: u128) -> (ItemID, ItemID) {
    (ItemID((k / 0x1_0000_0000_0000_0000) as u64), ItemID((k % 0x1_0000_0000_0000_0000) as u64))
}

/// A key and its pair determine each other.
pub proof fn lemma_pair_key(p: (ItemID, ItemID))
    ensures
        key_pair(pair_key(p)) == p,
{
}

/// Of two recipes for a pair that had none, or none as good, the one of
/// lower rank is the one that stays, whichever was added first.
pub proof fn lemma_lower_rank_wins(
    t: Table,
    a: ItemID,
    b: ItemID,
    r1: ItemID,
    rank1: u16,
    r2: ItemID,
    rank2: u16,
)
    requires
        t.contains_key(canonical(a, b)) ==> t[canonical(a, b)].1 > rank1,
        rank1 < rank2,
    ensures
        table_insert(table_insert(t, a, b, r1, rank1), a, b, r2, rank2)[canonical(a, b)] == (
            seq![r1],
            rank1,
        ),
        table_insert(table_insert(t, a, b, r2, rank2), b, a, r1, rank1)[canonical(a, b)] == (
            seq![r1],
            rank1,
        ),
{
    lemma_canonical_symmetric(a, b);
}

/// Two recipes of the same rank for a pair that had none, or none as good,
/// both stay, in the order in which they were added.
pub proof fn lemma_equal_ranks_accumulate(
    t: Table,
    a: ItemID,
    b: ItemID,
    r1: ItemID,
    r2: ItemID,
    rank: u16,
)
    requires
        t.contains_key(canonical(a, b)) ==> t[canonical(a, b)].1 > rank,
    ensures
        table_insert(table_insert(t, a, b, r1, rank), b, a, r2, rank)[canonical(a, b)] == (
            seq![r1, r2],
            rank,
        ),
{
    lemma_canonical_symmetric(a, b);
    assert(seq![r1].push(r2) =~= seq![r1, r2]);
}

/// Whether a pair has been combined does not depend on the order in which
/// the pair is given, and marking a pair twice is marking it once.
pub proof fn lemma_made_symmetric(made: Set<(ItemID, ItemID)>, a: ItemID, b: ItemID)
    ensures
        made.contains(canonical(a, b)) == made.contains(canonical(b, a)),
        made.insert(canonical(a, b)).insert(canonical(b, a)) == made.insert(canonical(a, b)),
        made.insert(canonical(a, b)).contains(canonical(b, a)),
{
    lemma_canonical_symmetric(a, b);
    assert(made.insert(canonical(a, b)).insert(canonical(b, a)) =~= made.insert(canonical(a, b)));
}

/// The sink's catch-all recipes change no entry of a better rank, and give
/// every listed item an entry with the sink.
pub proof fn lemma_trash_keeps_better(t: Table, items: Seq<ItemID>, trash: ItemID)
    ensures
        forall|p: (ItemID, ItemID)|
            t.contains_key(p) ==> #[trigger] table_trash(t, items, trash).contains_key(p),
        forall|p: (ItemID, ItemID)|
            t.contains_key(p) && t[p].1 < TRASH_RANK ==> #[trigger] table_trash(t, items, trash)[p]
                == t[p],
        forall|p: (ItemID, ItemID)|
            !t.contains_key(p) && #[trigger] table_trash(t, items, trash).contains_key(p)
                ==> table_trash(t, items, trash)[p].1 == TRASH_RANK,
        forall|i: int|
            0 <= i < items.len() ==> table_trash(t, items, trash).contains_key(
                #[trigger] canonical(items[i], trash),
            ),
    decreases items.len(),
{
    if items.len() > 0 {
        let head = items.drop_last();
        lemma_trash_keeps_better(t, head, trash);
        let mid = table_trash(t, head, trash);
        assert forall|i: int| 0 <= i < items.len() implies table_trash(
            t,
            items,
            trash,
        ).contains_key(#[trigger] canonical(items[i], trash)) by {
            if i < head.len() {
                assert(head[i] == items[i]);
                assert(mid.contains_key(canonical(head[i], trash)));
            }
        }
    }
}

/// After the sink's catch-all recipes, a recipe of better rank for one of the
/// items and the sink is what the pair makes, provided that the pair had no
/// recipe of that rank or better before.
pub proof fn lemma_specific_beats_trash(
    t: Table,
    items: Seq<ItemID>,
    trash: ItemID,
    item: ItemID,
    makes: ItemID,
    rank: u16,
)
    requires
        rank < TRASH_RANK,
        t.contains_key(canonical(item, trash)) ==> t[canonical(item, trash)].1 > rank,
    ensures
        table_insert(table_trash(t, items, trash), item, trash, makes, rank)[canonical(
            item,
            trash,
        )] == (seq![makes], rank),
{
    lemma_trash_keeps_better(t, items, trash);
    let p = canonical(item, trash);
    let mid = table_trash(t, items, trash);
    if t.contains_key(p) {
        if t[p].1 < TRASH_RANK {
            assert(mid[p] == t[p]);
        } else {
            lemma_trash_rank(t, items, trash, p);
        }
    } else if mid.contains_key(p) {
        assert(mid[p].1 == TRASH_RANK);
    }
}

/// An entry of the worst rank keeps that rank through the sink's catch-all
/// recipes.
pub proof fn lemma_trash_rank(t: Table, items: Seq<ItemID>, trash: ItemID, p: (ItemID, ItemID))
    requires
        t.contains_key(p),
        t[p].1 == TRASH_RANK,
    ensures
        table_trash(t, items, trash).contains_key(p),
        table_trash(t, items, trash)[p].1 == TRASH_RANK,
    decreases items.len(),
{
    if items.len() > 0 {
        lemma_trash_rank(t, items.drop_last(), trash, p);
    }
}

/// One recipe: two items, what they make, and the rank of the recipe, where
/// a lower rank wins.
#[derive(Debug, Clone, Copy)]
pub struct Recipie {
    pub priority: u16,
    pub item_1: ItemID,
    pub item_2: ItemID,
    pub result: ItemID,
}

/// The recipes of the game and the pairs that have been combined so far.
#[derive(Debug)]
pub struct Recipies {
    all: HashMap<u128, (Vec<ItemID>, u16)>,
    made: HashSet<u128>,
}

impl Default for Recipies {
    fn default() -> (r: Recipies)
        ensures
            r.wf(),
            r.table() == Map::<(ItemID, ItemID), (Seq<ItemID>, u16)>::empty(),
            r.made() == Set::<(ItemID, ItemID)>::empty(),
    {
        let r = Recipies { all: HashMap::new(), made: HashSet::new() };
        proof {
            assert(r.table() =~= Map::<(ItemID, ItemID), (Seq<ItemID>, u16)>::empty());
            assert(r.made() =~= Set::<(ItemID, ItemID)>::empty());
        }
        r
    }
}

/// The key of the canonical form of a pair.
fn key_of(item1: ItemID, item2: ItemID) -> (r: u128)
    ensures
        r == pair_key(canonical(item1, item2)),
        key_pair(r) == canonical(item1, item2),
{
    let (a, b) = item1.first(item2);
    (a.0 as u128) * 0x1_0000_0000_0000_0000 + (b.0 as u128)
}

impl Recipies {
    /// The recipe table.
    pub closed spec fn table(&self) -> Table {
        Map::new(
            |p: (ItemID, ItemID)| self.all@.contains_key(pair_key(p)),
            |p: (ItemID, ItemID)| (self.all@[pair_key(p)].0@, self.all@[pair_key(p)].1),
        )
    }

    /// The pairs that have been combined.
    pub closed spec fn made(&self) -> Set<(ItemID, ItemID)> {
        Set::new(|p: (ItemID, ItemID)| self.made@.contains(pair_key(p)))
    }

    /// Only canonical pairs have entries or are marked as combined.
    pub open spec fn wf(&self) -> bool {
        &&& forall|p: (ItemID, ItemID)| #[trigger] self.table().contains_key(p) ==> p.0.0 <= p.1.0
        &&& forall|p: (ItemID, ItemID)| #[trigger] self.made().contains(p) ==> p.0.0 <= p.1.0
    }

    /// Adds the recipe to the table; see [`table_insert`].
    #[inline(always)]
    pub fn add(&mut self, recipie: Recipie)
        requires
            old(self).wf(),
        ensures
            final(self).wf(),
            final(self).made() == old(self).made(),
            final(self).table() == table_insert(
                old(self).table(),
                recipie.item_1,
                recipie.item_2,
                recipie.result,
                recipie.priority,
            ),
    {
        self.insert(recipie.item_1, recipie.item_2, recipie.result, recipie.priority);
    }

    /// Adds the recipe `item1 + item2 = makes` at `rank`; see [`table_insert`].
    pub fn insert(&mut self, item1: ItemID, item2: ItemID, makes: ItemID, rank: u16)
        requires
            old(self).wf(),
        ensures
            final(self).wf(),
            final(self).made() == old(self).made(),
            final(self).table() == table_insert(old(self).table(), item1, item2, makes, rank),
    {
        let key = key_of(item1, item2);
        let ghost p = canonical(item1, item2);
        let ghost before = self.table();
        let mut alone: Vec<ItemID> = Vec::new();
        alone.push(makes);
        proof {
            lemma_canonical_symmetric(item1, item2);
            assert(alone@ =~= seq![makes]);
        }
        match self.all.remove(&key) {
            Some(entry) => {
                let (mut results, old_rank) = entry;
                if old_rank > rank {
                    self.all.insert(key, (alone, rank));
                    proof {
                        assert(self.table() =~= before.insert(p, (seq![makes], rank)));
                    }
                } else if old_rank == rank {
                    results.push(makes);
                    self.all.insert(key, (results, rank));
                    proof {
                        assert(self.table() =~= before.insert(p, (before[p].0.push(makes), rank)));
                    }
                } else {
                    self.all.insert(key, (results, old_rank));
                    proof {
                        assert(self.table() =~= before);
                    }
                }
            },
            None => {
                self.all.insert(key, (alone, rank));
                proof {
                    assert(self.table() =~= before.insert(p, (seq![makes], rank)));
                }
            },
        }
        proof {
            assert(self.made() =~= old(self).made());
            assert forall|q: (ItemID, ItemID)| #[trigger]
                self.table().contains_key(q) implies q.0.0 <= q.1.0 by {
                if q != p {
                    assert(before.contains_key(q));
                }
            }
        }
    }

    /// What the two items make, if they combine; a pair that combines is
    /// marked as combined, whether or not it was before.
    pub fn combine(&mut self, item1: ItemID, item2: ItemID) -> (r: Option<Vec<ItemID>>)
        requires
            old(self).wf(),
        ensures
            final(self).wf(),
            final(self).table() == old(self).table(),
            match r {
                Some(results) => {
                    &&& old(self).table().contains_key(canonical(item1, item2))
                    &&& results@ == old(self).table()[canonical(item1, item2)].0
                    &&& final(self).made() == old(self).made().insert(canonical(item1, item2))
                },
                None => {
                    &&& !old(self).table().contains_key(canonical(item1, item2))
                    &&& final(self).made() == old(self).made()
                },
            },
    {
        let key = key_of(item1, item2);
        let ghost p = canonical(item1, item2);
        let ghost made_before = self.made();
        let ghost before = self.table();
        proof {
            lemma_canonical_symmetric(item1, item2);
        }
        match self.all.get(&key) {
            Some(recipie) => {
                let results = recipie.0.clone();
                self.made.insert(key);
                proof {
                    assert(self.made() =~= made_before.insert(p));
                    assert forall|q: (ItemID, ItemID)| #[trigger]
                        self.made().contains(q) implies q.0.0 <= q.1.0 by {
                        if q != p {
                            assert(made_before.contains(q));
                        }
                    }
                    assert(self.table() =~= before);
                }
                Some(results)
            },
            None => None,
        }
    }

    /// Adds, for each of `items`, the catch-all recipe `item + Trash = Trash`
    /// at the worst rank.
    pub fn set_trash(&mut self, items: Vec<ItemID>)
        requires
            old(self).wf(),
        ensures
            final(self).wf(),
            final(self).made() == old(self).made(),
            final(self).table() == table_trash(old(self).table(), items@, trash_id()),
    {
        let trash = ItemID::from("Trash");
        let mut i: usize = 0;
        assert(items@.take(0) =~= Seq::<ItemID>::empty());
        while i < items.len()
            invariant
                i <= items.len(),
                trash == trash_id(),
                self.wf(),
                self.made() == old(self).made(),
                self.table() == table_trash(old(self).table(), items@.take(i as int), trash),
            decreases items.len() - i,
        {
            proof {
                assert(items@.take(i + 1).drop_last() =~= items@.take(i as int));
            }
            self.insert(items[i], trash, trash, TRASH_RANK);
            i += 1;
        }
        proof {
            assert(items@.take(i as int) =~= items@);
        }
    }

    /// Whether the two items combine.
    pub fn check_combine(&self, item1: ItemID, item2: ItemID) -> (r: bool)
        ensures
            r == self.table().contains_key(canonical(item1, item2)),
    {
        let key = key_of(item1, item2);
        self.all.contains_key(&key)
    }

    /// Whether the two items have been combined.
    pub fn has_made(&self, item1: ItemID, item2: ItemID) -> (r: bool)
        ensures
            r == self.made().contains(canonical(item1, item2)),
            r == self.made().contains(canonical(item2, item1)),
    {
        proof {
            lemma_canonical_symmetric(item1, item2);
        }
        let key = key_of(item1, item2);
        self.made.contains(&key)
    }
}

/// A word as it is read from a recipe: whitespace is left out, and `_`
/// stands for a space.
pub open spec fn word_chars(s: Seq<char>) -> Seq<char>
    decreases s.len(),
{
    if s.len() == 0 {
        Seq::empty()
    } else {
        let before = word_chars(s.drop_last());
        let c = s.last();
        if is_whitespace(c) {
            before
        } else if c == '_' {
            before.push(' ')
        } else {
            before.push(c)
        }
    }
}

/// The word at the front of `s`: what stands before the first `end`, or all
/// of `s` where there is no `end`.
pub open spec fn word_of(s: Seq<char>, end: char) -> Seq<char> {
    word_chars(s.take(index_of(s, end)))
}

/// What is left of `s` after the word at its front and the `end` that closes
/// the word.
pub open spec fn after_word(s: Seq<char>, end: char) -> Seq<char> {
    if index_of(s, end) < s.len() {
        s.skip(index_of(s, end) + 1)
    } else {
        Seq::empty()
    }
}

/// The rank that a word gives: the number it writes, or `default` where it
/// writes none that fits in 16 bits.
pub open spec fn rank_or(word: Seq<char>, default: u16) -> u16 {
    match parse_number(word, 10, u16::MAX as int) {
        Some(n) => n as u16,
        None => default,
    }
}

/// The recipe that a line of the form `item + item = result ; rank` states;
/// without a rank that can be read, the rank is 0.
pub open spec fn recipe_of(line: Seq<char>) -> Recipie {
    let rest1 = after_word(line, '+');
    let rest2 = after_word(rest1, '=');
    let rest3 = after_word(rest2, ';');
    Recipie {
        priority: rank_or(word_of(rest3, '\n'), 0),
        item_1: item_id(word_of(line, '+')),
        item_2: item_id(word_of(rest1, '=')),
        result: item_id(word_of(rest2, ';')),
    }
}

impl Recipie {
    /// The recipe that the line `str` states; see [`recipe_of`].
    pub fn from_str(str: &str) -> (r: Recipie)
        ensures
            r == recipe_of(str@),
    {
        let chars = chars_of(str);
        proof {
            assert(chars@.skip(0) =~= chars@);
        }
        let (item1, at1) = extract_word(&chars, 0, '+');
        let (item2, at2) = extract_word(&chars, at1, '=');
        let (res, at3) = extract_word(&chars, at2, ';');
        let (rank, _) = extract_word(&chars, at3, '\n');
        let p = match parse_u16(&chars_of(rank.as_str())) {
            Some(p) => p,
            None => 0,
        };
        Recipie {
            priority: p,
            item_1: ItemID::new(item1),
            item_2: ItemID::new(item2),
            result: ItemID::new(res),
        }
    }

    /// The two items of the recipe, in canonical order.
    pub fn items(&self) -> (r: (ItemID, ItemID))
        ensures
            r == canonical(self.item_1, self.item_2),
    {
        self.item_1.first(self.item_2)
    }
}

/// Reads the word that begins at `from`, up to the `end` that closes it, and
/// gives the word and the position after that `end`.
pub fn extract_word(chars: &Vec<char>, from: usize, end: char) -> (r: (String, usize))
    requires
        from <= chars.len(),
    ensures
        r.0@ == word_of(chars@.skip(from as int), end),
        r.1 <= chars.len(),
        chars@.skip(r.1 as int) == after_word(chars@.skip(from as int), end),
{
    let ghost rest = chars@.skip(from as int);
    let mut word: Vec<char> = Vec::new();
    let mut i: usize = from;
    proof {
        assert(rest.take(0) =~= Seq::<char>::empty());
    }
    while i < chars.len() && chars[i] != end
        invariant
            from <= i <= chars.len(),
            rest == chars@.skip(from as int),
            forall|j: int| 0 <= j < i - from ==> rest[j] != end,
            word@ == word_chars(rest.take(i - from)),
        decreases chars.len() - i,
    {
        let c = chars[i];
        proof {
            assert(rest[i - from] == c);
            assert(rest.take(i - from + 1).drop_last() =~= rest.take(i - from));
        }
        if is_space(c) {
        } else if c == '_' {
            word.push(' ');
        } else {
            word.push(c);
        }
        i += 1;
    }
    proof {
        if i < chars.len() {
            assert(rest[i - from] == end);
        }
        lemma_index_of_is(rest, end, i - from);
    }
    if i < chars.len() {
        proof {
            assert(chars@.skip(i + 1) =~= rest.skip(i - from + 1));
        }
        (string_of(&word), i + 1)
    } else {
        proof {
            assert(chars@.skip(i as int) =~= Seq::<char>::empty());
        }
        (string_of(&word), i)
    }
}

/// One side of a recipe: an item, or every item that carries a tag.
#[derive(Debug, Clone, Copy, PartialEq, Eq, Structural)]
pub enum State {
    Tag(Tag),
    Item(ItemID),
}

/// A recipe as it is written: between two items, between an item and the
/// items of a tag, or between the items of two tags.
#[derive(Debug, Clone, Copy, PartialEq, Eq, Structural)]
pub enum RecipieType {
    AddRecipie { item1: ItemID, item2: ItemID, makes: ItemID, rank: u16 },
    AddTagRecipie { item: ItemID, has: Tag, makes: ItemID, rank: u16 },
    MakeTagRecipie { item1_has: Tag, item2_has: Tag, makes: ItemID, rank: u16 },
}

/// Whether a word names a tag: it begins with `$`.
pub open spec fn names_tag(word: Seq<char>) -> bool {
    word.len() > 0 && word.first() == '$'
}

/// The error with which reading a side of a recipe fails, if it fails: that
/// of the tag after the `$`.
pub open spec fn side_failure(word: Seq<char>, poisoned: bool) -> Option<TagError> {
    if names_tag(word) {
        failure(word.drop_first(), poisoned)
    } else {
        None
    }
}

/// The side of a recipe that a word names, where reading it does not fail.
pub open spec fn side_of(word: Seq<char>) -> State {
    if names_tag(word) {
        match tag_of(word.drop_first()) {
            Some(tag) => State::Tag(tag),
            None => arbitrary(),
        }
    } else {
        State::Item(item_id(word))
    }
}

/// The table of names after a side of a recipe has been read.
pub open spec fn names_with_side(word: Seq<char>, names: Map<u64, Seq<char>>, poisoned: bool) -> Map<
    u64,
    Seq<char>,
> {
    if names_tag(word) && failure(word.drop_first(), poisoned) is None {
        registered(names, seq![word.drop_first()])
    } else {
        names
    }
}

/// The rank of a recipe that states none: 0 between two items, 1 between an
/// item and a tag, 2 between two tags.
pub open spec fn default_rank(first: State, second: State) -> u16 {
    match (first, second) {
        (State::Item(_), State::Item(_)) => 0,
        (State::Item(_), State::Tag(_)) => 1,
        (State::Tag(_), State::Item(_)) => 1,
        (State::Tag(_), State::Tag(_)) => 2,
    }
}

/// The recipe with the given sides.
pub open spec fn recipe_with(first: State, second: State, makes: ItemID, rank: u16) -> RecipieType {
    match (first, second) {
        (State::Item(item1), State::Item(item2)) => RecipieType::AddRecipie {
            item1,
            item2,
            makes,
            rank,
        },
        (State::Item(item), State::Tag(has)) => RecipieType::AddTagRecipie {
            item,
            has,
            makes,
            rank,
        },
        (State::Tag(has), State::Item(item)) => RecipieType::AddTagRecipie {
            item,
            has,
            makes,
            rank,
        },
        (State::Tag(item1_has), State::Tag(item2_has)) => RecipieType::MakeTagRecipie {
            item1_has,
            item2_has,
            makes,
            rank,
        },
    }
}

/// The recipe that a line of the form `left + right = result ; rank` states,
/// where a side that begins with `$` names a tag. The left side is read
/// first; the error of the first side that cannot be read is the outcome.
pub open spec fn recipe_type_of(line: Seq<char>, poisoned: bool) -> Result<RecipieType, TagError> {
    let rest1 = after_word(line, '+');
    let rest2 = after_word(rest1, '=');
    let rest3 = after_word(rest2, ';');
    let first = word_of(line, '+');
    let second = word_of(rest1, '=');
    match side_failure(first, poisoned) {
        Some(e) => Err(e),
        None => match side_failure(second, poisoned) {
            Some(e) => Err(e),
            None => Ok(
                recipe_with(
                    side_of(first),
                    side_of(second),
                    item_id(word_of(rest2, ';')),
                    rank_or(word_of(rest3, '\n'), default_rank(side_of(first), side_of(second))),
                ),
            ),
        },
    }
}

/// The table of names after a recipe line has been read.
pub open spec fn names_with_recipe(line: Seq<char>, names: Map<u64, Seq<char>>, poisoned: bool) -> Map<
    u64,
    Seq<char>,
> {
    let first = word_of(line, '+');
    let second = word_of(after_word(line, '+'), '=');
    if side_failure(first, poisoned) is Some {
        names
    } else {
        names_with_side(second, names_with_side(first, names, poisoned), poisoned)
    }
}

/// Whether a line is blank: nothing but whitespace.
pub open spec fn is_blank(line: Seq<char>) -> bool {
    trimmed(line).len() == 0
}

/// The recipes that the lines state, in order; blank lines and lines that
/// cannot be read are passed over.
pub open spec fn recipe_types_on(lines: Seq<Seq<char>>, poisoned: bool) -> Seq<RecipieType>
    decreases lines.len(),
{
    if lines.len() == 0 {
        Seq::empty()
    } else {
        let before = recipe_types_on(lines.drop_last(), poisoned);
        if is_blank(lines.last()) {
            before
        } else {
            match recipe_type_of(lines.last(), poisoned) {
                Ok(recipe) => before.push(recipe),
                Err(_) => before,
            }
        }
    }
}

/// The table of names after the lines of a recipe file have been read.
pub open spec fn names_with_recipes(names: Map<u64, Seq<char>>, lines: Seq<Seq<char>>, poisoned: bool) -> Map<
    u64,
    Seq<char>,
>
    decreases lines.len(),
{
    if lines.len() == 0 {
        names
    } else {
        let before = names_with_recipes(names, lines.drop_last(), poisoned);
        if is_blank(lines.last()) {
            before
        } else {
            names_with_recipe(lines.last(), before, poisoned)
        }
    }
}

/// The table after the recipe `item + other = makes` has been added for each
/// `other` of `others` in turn.
pub open spec fn table_each(t: Table, item: ItemID, others: Seq<ItemID>, makes: ItemID, rank: u16) -> Table
    decreases others.len(),
{
    if others.len() == 0 {
        t
    } else {
        table_insert(
            table_each(t, item, others.drop_last(), makes, rank),
            item,
            others.last(),
            makes,
            rank,
        )
    }
}

/// The table after the recipe `first + second = makes` has been added for
/// each `first` of `firsts` in turn and, for each of them, for each `second`
/// of `seconds` in turn.
pub open spec fn table_cross(
    t: Table,
    firsts: Seq<ItemID>,
    seconds: Seq<ItemID>,
    makes: ItemID,
    rank: u16,
) -> Table
    decreases firsts.len(),
{
    if firsts.len() == 0 {
        t
    } else {
        table_each(
            table_cross(t, firsts.drop_last(), seconds, makes, rank),
            firsts.last(),
            seconds,
            makes,
            rank,
        )
    }
}

/// The table after a written recipe has been applied: a recipe between items
/// is added as it is; a recipe with a tag is added for each item that the
/// index lists under the tag, and not at all for a tag that the index lacks.
pub open spec fn table_apply(t: Table, recipe: RecipieType, index: Map<Tag, Seq<ItemID>>) -> Table {
    match recipe {
        RecipieType::AddRecipie { item1, item2, makes, rank } => table_insert(
            t,
            item1,
            item2,
            makes,
            rank,
        ),
        RecipieType::AddTagRecipie { item, has, makes, rank } => if index.contains_key(has) {
            table_each(t, item, index[has], makes, rank)
        } else {
            t
        },
        RecipieType::MakeTagRecipie { item1_has, item2_has, makes, rank } => if index.contains_key(
            item1_has,
        ) && index.contains_key(item2_has) {
            table_cross(t, index[item1_has], index[item2_has], makes, rank)
        } else {
            t
        },
    }
}

/// The table after each of the written recipes has been applied in turn.
pub open spec fn table_loaded(t: Table, recipes: Seq<RecipieType>, index: Map<Tag, Seq<ItemID>>) -> Table
    decreases recipes.len(),
{
    if recipes.len() == 0 {
        t
    } else {
        table_apply(table_loaded(t, recipes.drop_last(), index), recipes.last(), index)
    }
}

/// The table after the recipe of each line that is not blank has been added
/// in turn.
pub open spec fn table_lines(t: Table, lines: Seq<Seq<char>>) -> Table
    decreases lines.len(),
{
    if lines.len() == 0 {
        t
    } else {
        let before = table_lines(t, lines.drop_last());
        if is_blank(lines.last()) {
            before
        } else {
            let recipe = recipe_of(lines.last());
            table_insert(before, recipe.item_1, recipe.item_2, recipe.result, recipe.priority)
        }
    }
}

/// Reads one side of a recipe.
fn side(word: &Vec<char>, names: &mut TagNames) -> (r: Result<State, TagError>)
    requires
        old(names).wf(),
    ensures
        final(names).wf(),
        final(names).poisoned() == old(names).poisoned(),
        final(names)@ == names_with_side(word@, old(names)@, old(names).poisoned()),
        match side_failure(word@, old(names).poisoned()) {
            Some(e) => r == Err::<State, TagError>(e),
            None => r == Ok::<State, TagError>(side_of(word@)),
        },
{
    if word.len() > 0 && word[0] == '$' {
        let rest = string_of(&slice_of(word, 1, word.len()));
        proof {
            assert(word@.drop_first() =~= word@.subrange(1, word.len() as int));
            let one = seq![word@.drop_first()];
            assert(one.drop_last() =~= Seq::<Seq<char>>::empty());
            assert(one.last() == word@.drop_first());
            assert(registered(names@, one.drop_last()) == names@);
        }
        match Tag::from_str(rest.as_str(), names) {
            Ok(tag) => Ok(State::Tag(tag)),
            Err(e) => Err(e),
        }
    } else {
        Ok(State::Item(id_of_chars(word)))
    }
}

impl RecipieType {
    /// The recipe that the line `str` states; see [`recipe_type_of`].
    ///
    /// Fails with the error of the first side that names a tag which cannot
    /// be made. The names of the tags that were made are listed in `names`.
    pub fn from_str(str: &str, names: &mut TagNames) -> (r: Result<RecipieType, GameError>)
        requires
            old(names).wf(),
        ensures
            final(names).wf(),
            final(names).poisoned() == old(names).poisoned(),
            final(names)@ == names_with_recipe(str@, old(names)@, old(names).poisoned()),
            match recipe_type_of(str@, old(names).poisoned()) {
                Ok(recipe) => r matches Ok(made) && made == recipe,
                Err(e) => r matches Err(GameError::TagErr(found)) && found == e,
            },
    {
        let chars = chars_of(str);
        proof {
            assert(chars@.skip(0) =~= chars@);
        }
        let (first, at1) = extract_word(&chars, 0, '+');
        let (second, at2) = extract_word(&chars, at1, '=');
        let (makes, at3) = extract_word(&chars, at2, ';');
        let (rank, _) = extract_word(&chars, at3, '\n');
        let makes = ItemID::from(makes);
        let first = match side(&chars_of(first.as_str()), names) {
            Ok(first) => first,
            Err(e) => {
                return Err(GameError::TagErr(e));
            },
        };
        let second = match side(&chars_of(second.as_str()), names) {
            Ok(second) => second,
            Err(e) => {
                return Err(GameError::TagErr(e));
            },
        };
        let default: u16 = match (first, second) {
            (State::Item(_), State::Item(_)) => 0,
            (State::Item(_), State::Tag(_)) => 1,
            (State::Tag(_), State::Item(_)) => 1,
            (State::Tag(_), State::Tag(_)) => 2,
        };
        let rank = match parse_u16(&chars_of(rank.as_str())) {
            Some(rank) => rank,
            None => default,
        };
        match (first, second) {
            (State::Item(item1), State::Item(item2)) => Ok(
                RecipieType::AddRecipie { item1, item2, makes, rank },
            ),
            (State::Item(item), State::Tag(has)) => Ok(
                RecipieType::AddTagRecipie { item, has, makes, rank },
            ),
            (State::Tag(has), State::Item(item)) => Ok(
                RecipieType::AddTagRecipie { item, has, makes, rank },
            ),
            (State::Tag(item1_has), State::Tag(item2_has)) => Ok(
                RecipieType::MakeTagRecipie { item1_has, item2_has, makes, rank },
            ),
        }
    }
}

/// Whether `line` is blank.
pub fn blank(line: &Vec<char>) -> (r: bool)
    ensures
        r == is_blank(line@),
{
    trim(line).len() == 0
}

/// The recipes that the lines of a recipe file state, in order. Blank lines
/// and lines that cannot be read are passed over; the rest of the file is
/// still read.
pub fn load_recipies_from_file(text: &str, names: &mut TagNames) -> (r: Vec<RecipieType>)
    requires
        old(names).wf(),
    ensures
        final(names).wf(),
        final(names).poisoned() == old(names).poisoned(),
        r@ == recipe_types_on(split_on(text@, '\n'), old(names).poisoned()),
        final(names)@ == names_with_recipes(
            old(names)@,
            split_on(text@, '\n'),
            old(names).poisoned(),
        ),
{
    let lines = split(&chars_of(text), '\n');
    let ghost all = split_on(text@, '\n');
    let ghost poisoned = names.poisoned();
    let mut res: Vec<RecipieType> = Vec::new();
    let mut i: usize = 0;
    proof {
        assert(all.take(0) =~= Seq::<Seq<char>>::empty());
    }
    while i < lines.len()
        invariant
            i <= lines.len(),
            all == views(lines@),
            names.wf(),
            names.poisoned() == poisoned,
            poisoned == old(names).poisoned(),
            res@ == recipe_types_on(all.take(i as int), poisoned),
            names@ == names_with_recipes(old(names)@, all.take(i as int), poisoned),
        decreases lines.len() - i,
    {
        proof {
            let next = all.take(i + 1);
            assert(next.drop_last() =~= all.take(i as int));
            assert(next.last() == lines@[i as int]@);
        }
        if !blank(&lines[i]) {
            let line = string_of(&lines[i]);
            match RecipieType::from_str(line.as_str(), names) {
                Ok(recipe) => {
                    res.push(recipe);
                },
                Err(_) => {},
            }
        }
        i += 1;
    }
    proof {
        assert(all.take(i as int) =~= all);
    }
    res
}

/// Applies each of the written recipes to the table in turn, with the items
/// that `items` lists under each tag; see [`table_apply`].
pub fn load_recipies(recipies: &mut Recipies, items: &Items, found: &Vec<RecipieType>)
    requires
        old(recipies).wf(),
    ensures
        final(recipies).wf(),
        final(recipies).made() == old(recipies).made(),
        final(recipies).table() == table_loaded(old(recipies).table(), found@, items.index()),
{
    let mut i: usize = 0;
    proof {
        assert(found@.take(0) =~= Seq::<RecipieType>::empty());
    }
    while i < found.len()
        invariant
            i <= found.len(),
            recipies.wf(),
            recipies.made() == old(recipies).made(),
            recipies.table() == table_loaded(
                old(recipies).table(),
                found@.take(i as int),
                items.index(),
            ),
        decreases found.len() - i,
    {
        proof {
            assert(found@.take(i + 1).drop_last() =~= found@.take(i as int));
        }
        match found[i] {
            RecipieType::AddRecipie { item1, item2, makes, rank } => {
                recipies.insert(item1, item2, makes, rank);
            },
            RecipieType::AddTagRecipie { item, has, makes, rank } => {
                match items.with_tag(&has) {
                    Some(others) => {
                        recipies.insert_each(item, &others, makes, rank);
                    },
                    None => {},
                }
            },
            RecipieType::MakeTagRecipie { item1_has, item2_has, makes, rank } => {
                match (items.with_tag(&item1_has), items.with_tag(&item2_has)) {
                    (Some(items1), Some(items2)) => {
                        let ghost start = recipies.table();
                        let mut k: usize = 0;
                        proof {
                            assert(items1@.take(0) =~= Seq::<ItemID>::empty());
                        }
                        while k < items1.len()
                            invariant
                                k <= items1.len(),
                                recipies.wf(),
                                recipies.made() == old(recipies).made(),
                                recipies.table() == table_cross(
                                    start,
                                    items1@.take(k as int),
                                    items2@,
                                    makes,
                                    rank,
                                ),
                            decreases items1.len() - k,
                        {
                            proof {
                                assert(items1@.take(k + 1).drop_last() =~= items1@.take(k as int));
                            }
                            recipies.insert_each(items1[k], &items2, makes, rank);
                            k += 1;
                        }
                        proof {
                            assert(items1@.take(k as int) =~= items1@);
                        }
                    },
                    _ => {},
                }
            },
        }
        i += 1;
    }
    proof {
        assert(found@.take(i as int) =~= found@);
    }
}

impl Recipies {
    /// Adds the recipe `item + other = makes` at `rank` for each `other` of
    /// `others` in turn.
    pub fn insert_each(&mut self, item: ItemID, others: &Vec<ItemID>, makes: ItemID, rank: u16)
        requires
            old(self).wf(),
        ensures
            final(self).wf(),
            final(self).made() == old(self).made(),
            final(self).table() == table_each(old(self).table(), item, others@, makes, rank),
    {
        let mut i: usize = 0;
        proof {
            assert(others@.take(0) =~= Seq::<ItemID>::empty());
        }
        while i < others.len()
            invariant
                i <= others.len(),
                self.wf(),
                self.made() == old(self).made(),
                self.table() == table_each(
                    old(self).table(),
                    item,
                    others@.take(i as int),
                    makes,
                    rank,
                ),
            decreases others.len() - i,
        {
            proof {
                assert(others@.take(i + 1).drop_last() =~= others@.take(i as int));
            }
            self.insert(item, others[i], makes, rank);
            i += 1;
        }
        proof {
            assert(others@.take(i as int) =~= others@);
        }
    }

    /// Adds the recipe of each line of `text` that is not blank, where each
    /// line is `item + item = result ; rank`; see [`recipe_of`].
    pub fn load(&mut self, text: &str)
        requires
            old(self).wf(),
        ensures
            final(self).wf(),
            final(self).made() == old(self).made(),
            final(self).table() == table_lines(old(self).table(), split_on(text@, '\n')),
    {
        let lines = split(&chars_of(text), '\n');
        let ghost all = split_on(text@, '\n');
        let mut i: usize = 0;
        proof {
            assert(all.take(0) =~= Seq::<Seq<char>>::empty());
        }
        while i < lines.len()
            invariant
                i <= lines.len(),
                all == views(lines@),
                self.wf(),
                self.made() == old(self).made(),
                self.table() == table_lines(old(self).table(), all.take(i as int)),
            decreases lines.len() - i,
        {
            proof {
                let next = all.take(i + 1);
                assert(next.drop_last() =~= all.take(i as int));
                assert(next.last() == lines@[i as int]@);
            }
            if !blank(&lines[i]) {
                let line = string_of(&lines[i]);
                self.add(Recipie::from_str(line.as_str()));
            }
            i += 1;
        }
        proof {
            assert(all.take(i as int) =~= all);
        }
    }

    /// Marks the pair as combined, as a saved game says it was.
    pub fn mark_made(&mut self, item1: ItemID, item2: ItemID)
        requires
            old(self).wf(),
        ensures
            final(self).wf(),
            final(self).table() == old(self).table(),
            final(self).made() == old(self).made().insert(canonical(item1, item2)),
    {
        let key = key_of(item1, item2);
        let ghost p = canonical(item1, item2);
        let ghost made_before = self.made();
        let ghost before = self.table();
        proof {
            lemma_canonical_symmetric(item1, item2);
        }
        self.made.insert(key);
        proof {
            assert(self.made() =~= made_before.insert(p));
            assert forall|q: (ItemID, ItemID)| #[trigger]
                self.made().contains(q) implies q.0.0 <= q.1.0 by {
                if q != p {
                    assert(made_before.contains(q));
                }
            }
            assert(self.table() =~= before);
        }
    }
}

/// How an attempt to combine two items ends.
#[derive(Debug)]
pub enum Combination {
    /// The pair was combined before: nothing changes, the items stay.
    Repeat,
    /// The items are used up, and these items come out.
    Made(Vec<ItemID>),
    /// The items do not combine: nothing changes.
    Nothing,
}

/// Whether an attempt to combine the pair counts as a repeat: the pair has
/// been combined before, and neither item is the sink.
pub open spec fn is_repeat(made: Set<(ItemID, ItemID)>, item1: ItemID, item2: ItemID) -> bool {
    made.contains(canonical(item1, item2)) && item1 != trash_id() && item2 != trash_id()
}

/// Attempts to combine two items.
///
/// A pair that was combined before, and does not involve the sink, is a
/// repeat: nothing is looked up and nothing changes. Any other pair is looked
/// up in the table; where it has a recipe, the results are given and the pair
/// is marked as combined.
pub fn combine(recipies: &mut Recipies, item1: ItemID, item2: ItemID) -> (r: Combination)
    requires
        old(recipies).wf(),
    ensures
        final(recipies).wf(),
        final(recipies).table() == old(recipies).table(),
        if is_repeat(old(recipies).made(), item1, item2) {
            r is Repeat && final(recipies).made() == old(recipies).made()
        } else if old(recipies).table().contains_key(canonical(item1, item2)) {
            &&& r matches Combination::Made(results)
            &&& results@ == old(recipies).table()[canonical(item1, item2)].0
            &&& final(recipies).made() == old(recipies).made().insert(canonical(item1, item2))
        } else {
            r is Nothing && final(recipies).made() == old(recipies).made()
        },
{
    let trash = ItemID::new("Trash");
    if recipies.has_made(item1, item2) && item1.id() != trash.id() && item2.id() != trash.id() {
        return Combination::Repeat;
    }
    match recipies.combine(item1, item2) {
        Some(r) => Combination::Made(r),
        None => Combination::Nothing,
    }
}

impl Recipies {
    /// The pairs that have been combined, each once, in no particular order.
    pub fn made_pairs(&self) -> (r: Vec<(ItemID, ItemID)>)
        requires
            self.wf(),
        ensures
            r@.no_duplicates(),
            r@.to_set() == self.made(),
    {
        let mut out: Vec<(ItemID, ItemID)> = Vec::new();
        let it = self.made.iter();
        let ghost keys = it.remaining();
        for k in iter: it
            invariant
                iter.seq() == keys,
                out@ == Seq::new(iter.index() as nat, |i: int| key_pair(*keys[i])),
        {
            let hi = (*k / 0x1_0000_0000_0000_0000) as u64;
            let lo = (*k % 0x1_0000_0000_0000_0000) as u64;
            out.push((ItemID(hi), ItemID(lo)));
        }
        proof {
            assert(keys.unref().to_set() == self.made@);
            assert(keys.no_duplicates());
            assert forall|i: int, j: int| 0 <= i < out@.len() && 0 <= j < out@.len() && i
                != j implies out@[i] != out@[j] by {
                assert(*keys[i] != *keys[j]);
                lemma_pair_key(out@[i]);
                lemma_key_pair(*keys[i]);
                lemma_key_pair(*keys[j]);
            }
            assert forall|p: (ItemID, ItemID)| out@.to_set().contains(p) implies self.made().contains(
                p,
            ) by {
                let i = choose|i: int| 0 <= i < out@.len() && out@[i] == p;
                lemma_key_pair(*keys[i]);
                assert(keys.unref()[i] == *keys[i]);
                assert(keys.unref().to_set().contains(*keys[i]));
            }
            assert forall|p: (ItemID, ItemID)| self.made().contains(p) implies out@.to_set().contains(
                p,
            ) by {
                let k = pair_key(p);
                assert(keys.unref().to_set().contains(k));
                let i = choose|i: int| 0 <= i < keys.unref().len() && keys.unref()[i] == k;
                lemma_pair_key(p);
                assert(out@[i] == p);
            }
            assert(out@.to_set() =~= self.made());
        }
        out
    }
}

/// A pair and its key determine each other.
pub proof fn lemma_key_pair(k: u128)
    ensures
        pair_key(key_pair(k)) == k,
{
}

} // verus!
