//! The item registry: every known item, the items that carry each tag, and
//! the items discovered so far.

use std::collections::HashMap;
use vstd::prelude::*;

use crate::error::GameError;
use crate::item::content::{
    fields_of, item_of_record, names_with_tags, parse_item, record_failure,
};
use crate::item::tags::{
    first_failure, lemma_merged, merged, registered, tags_in_order, Tag, TagNames, Tags,
};
use crate::item::{id_of_chars, item_id, shown_of, Item, ItemData, ItemID, ItemRecord};
use crate::ron_text::ron_strings;
use crate::text::{
    chars_of, find_char, index_of, lemma_index_of, replace, replaced, slice_of, split, split_on,
    split_on_text, split_text, string_of, trim, trimmed, views,
};
use vstd::std_specs::convert::IntoSpec;

verus! {

/// A list of identifiers, with `id` added at the end unless the list holds it.
pub open spec fn with_id(list: Seq<ItemID>, id: ItemID) -> Seq<ItemID> {
    if list.contains(id) {
        list
    } else {
        list.push(id)
    }
}

/// The list of a tag in the index; empty for a tag that the index lacks.
pub open spec fn tagged(index: Map<Tag, Seq<ItemID>>, tag: Tag) -> Seq<ItemID> {
    if index.contains_key(tag) {
        index[tag]
    } else {
        Seq::empty()
    }
}

/// The index after `id` has been listed under each of `tags`.
pub open spec fn index_with(index: Map<Tag, Seq<ItemID>>, tags: Set<Tag>, id: ItemID) -> Map<
    Tag,
    Seq<ItemID>,
> {
    Map::new(
        |t: Tag| index.contains_key(t) || tags.contains(t),
        |t: Tag|
            if tags.contains(t) {
                with_id(tagged(index, t), id)
            } else {
                index[t]
            },
    )
}

/// The records after `data` has been offered under `id`: a new item gets the
/// record; a known item keeps its record and gets the tags it had not.
pub open spec fn records_with(records: Map<ItemID, ItemRecord>, id: ItemID, data: ItemRecord) -> Map<
    ItemID,
    ItemRecord,
> {
    if records.contains_key(id) {
        records.insert(id, with_tags(records[id], data.tags))
    } else {
        records.insert(id, data)
    }
}

/// A record with more tags.
pub open spec fn with_tags(record: ItemRecord, tags: Seq<Tag>) -> ItemRecord {
    ItemRecord {
        name: record.name,
        description: record.description,
        icon: record.icon,
        sound: record.sound,
        tags: merged(record.tags, tags),
    }
}

/// The registry as plain values.
pub struct Registry {
    /// The record of each known item.
    pub records: Map<ItemID, ItemRecord>,
    /// The known items, in the order in which they became known.
    pub ids: Seq<ItemID>,
    /// For each tag that some item carries, the items that carry it.
    pub index: Map<Tag, Seq<ItemID>>,
    /// The discovered items, in the order of their discovery.
    pub discovered: Seq<ItemID>,
    /// The record that stands in for every unknown item.
    pub fallback: ItemRecord,
}

/// What a segment of a tag patch says: the item it names and the tags it
/// gives. `None` where the segment has no `:`, or where what follows the `:`
/// cannot be read as a list of tags.
pub open spec fn patch_of(segment: Seq<char>, poisoned: bool) -> Option<(ItemID, Seq<Tag>)> {
    let i = index_of(segment, ':');
    if 0 <= i < segment.len() {
        match ron_strings(segment.subrange(i + 1, segment.len() as int)) {
            Some(list) => if first_failure(list, poisoned) == list.len() {
                Some((item_id(trimmed(segment.subrange(0, i))), tags_in_order(list)))
            } else {
                None
            },
            None => None,
        }
    } else {
        None
    }
}

/// The table of names after a segment of a tag patch has been read.
pub open spec fn names_with_patch(segment: Seq<char>, names: Map<u64, Seq<char>>, poisoned: bool) -> Map<
    u64,
    Seq<char>,
> {
    let i = index_of(segment, ':');
    if 0 <= i < segment.len() {
        match ron_strings(segment.subrange(i + 1, segment.len() as int)) {
            Some(list) => registered(names, list.take(first_failure(list, poisoned))),
            None => names,
        }
    } else {
        names
    }
}

/// The table of names after the records of an item file have been read.
pub open spec fn names_loaded(
    names: Map<u64, Seq<char>>,
    records: Seq<Seq<char>>,
    dir: Seq<char>,
    fallback: ItemRecord,
    poisoned: bool,
) -> Map<u64, Seq<char>>
    decreases records.len(),
{
    if records.len() == 0 {
        names
    } else {
        let before = names_loaded(names, records.drop_last(), dir, fallback, poisoned);
        if item_of_record(records.last(), dir, fallback, poisoned) is Some {
            names_with_tags(fields_of(records.last()), before, poisoned)
        } else {
            before
        }
    }
}

/// The table of names after the segments of a tag patch have been read.
pub open spec fn names_patched(names: Map<u64, Seq<char>>, segments: Seq<Seq<char>>, poisoned: bool) -> Map<
    u64,
    Seq<char>,
>
    decreases segments.len(),
{
    if segments.len() == 0 {
        names
    } else {
        names_with_patch(
            segments.last(),
            names_patched(names, segments.drop_last(), poisoned),
            poisoned,
        )
    }
}

impl Registry {
    /// What the registry shows for `id`: the item's record, or the fallback
    /// for an unknown item.
    pub open spec fn record_of(self, id: ItemID) -> ItemRecord {
        if self.records.contains_key(id) {
            self.records[id]
        } else {
            self.fallback
        }
    }

    /// The registry after `data` has been offered as the record of `id`.
    pub open spec fn with_item(self, id: ItemID, data: ItemRecord) -> Registry {
        Registry {
            records: records_with(self.records, id, data),
            ids: with_id(self.ids, id),
            index: index_with(self.index, data.tags.to_set(), id),
            discovered: self.discovered,
            fallback: self.fallback,
        }
    }

    /// The registry after the item `id` has been given `tags`: unchanged
    /// where the item is unknown.
    pub open spec fn with_more_tags(self, id: ItemID, tags: Seq<Tag>) -> Registry {
        if self.records.contains_key(id) {
            Registry {
                records: self.records.insert(id, with_tags(self.records[id], tags)),
                ids: self.ids,
                index: index_with(self.index, tags.to_set(), id),
                discovered: self.discovered,
                fallback: self.fallback,
            }
        } else {
            self
        }
    }

    /// The registry after `id` has been discovered.
    pub open spec fn with_found(self, id: ItemID) -> Registry {
        Registry {
            records: self.records,
            ids: self.ids,
            index: self.index,
            discovered: with_id(self.discovered, id),
            fallback: self.fallback,
        }
    }

    /// The registry after each record of an item file has been offered in
    /// turn; a record that defines no item is passed over.
    pub open spec fn with_records(self, records: Seq<Seq<char>>, dir: Seq<char>, poisoned: bool) -> Registry
        decreases records.len(),
    {
        if records.len() == 0 {
            self
        } else {
            let before = self.with_records(records.drop_last(), dir, poisoned);
            match item_of_record(records.last(), dir, self.fallback, poisoned) {
                Some(item) => before.with_item(item.0, item.1),
                None => before,
            }
        }
    }

    /// The registry after each segment of a tag patch has been applied in
    /// turn; a segment that says nothing is passed over.
    pub open spec fn with_patches(self, segments: Seq<Seq<char>>, poisoned: bool) -> Registry
        decreases segments.len(),
    {
        if segments.len() == 0 {
            self
        } else {
            let before = self.with_patches(segments.drop_last(), poisoned);
            match patch_of(segments.last(), poisoned) {
                Some(patch) => before.with_more_tags(patch.0, patch.1),
                None => before,
            }
        }
    }

    /// The names under which the discovered items are saved: the name that
    /// the registry shows for each, with `_` for each space.
    pub open spec fn saved_names(self) -> Seq<Seq<char>> {
        Seq::new(
            self.discovered.len(),
            |i: int| replaced(self.record_of(self.discovered[i]).name, ' ', '_'),
        )
    }
}

/// A patch for an unknown item changes nothing.
pub proof fn lemma_patch_unknown(registry: Registry, id: ItemID, tags: Seq<Tag>)
    requires
        !registry.records.contains_key(id),
    ensures
        registry.with_more_tags(id, tags) == registry,
{
}

/// No tag patch changes which items are known, nor what the registry stores
/// about their names, descriptions, icons and sounds.
pub proof fn lemma_patches_keep_items(registry: Registry, segments: Seq<Seq<char>>, poisoned: bool)
    ensures
        registry.with_patches(segments, poisoned).ids == registry.ids,
        registry.with_patches(segments, poisoned).discovered == registry.discovered,
        registry.with_patches(segments, poisoned).fallback == registry.fallback,
        registry.with_patches(segments, poisoned).records.dom() == registry.records.dom(),
        forall|id: ItemID| #[trigger]
            registry.records.contains_key(id) ==> shown_of(
                registry.with_patches(segments, poisoned).records[id],
            ) == shown_of(registry.records[id]),
    decreases segments.len(),
{
    if segments.len() > 0 {
        lemma_patches_keep_items(registry, segments.drop_last(), poisoned);
        let before = registry.with_patches(segments.drop_last(), poisoned);
        let after = registry.with_patches(segments, poisoned);
        assert(after.records.dom() =~= before.records.dom());
    }
}

/// The lines of a file, each ended by a line feed.
pub open spec fn lines_text(lines: Seq<Seq<char>>) -> Seq<char>
    decreases lines.len(),
{
    if lines.len() == 0 {
        Seq::empty()
    } else {
        lines_text(lines.drop_last()) + lines.last() + seq!['\n']
    }
}

/// The save file for a list of names: `[` on a line of its own, each name on
/// a line of its own, then `]`.
pub open spec fn found_text(names: Seq<Seq<char>>) -> Seq<char> {
    seq!['[', '\n'] + lines_text(names) + seq![']']
}

/// The name on a line of the save file: the line is trimmed, loses one `[`
/// at its front and one `]` at its back, and is trimmed after each. A line of
/// which nothing is left holds no name.
pub open spec fn found_name(line: Seq<char>) -> Option<Seq<char>> {
    let a = trimmed(line);
    let b = if a.len() > 0 && a.first() == '[' {
        trimmed(a.drop_first())
    } else {
        a
    };
    let c = if b.len() > 0 && b.last() == ']' {
        trimmed(b.drop_last())
    } else {
        b
    };
    if c.len() == 0 {
        None
    } else {
        Some(c)
    }
}

/// The items named on the lines of a save file, in the order of the lines.
pub open spec fn found_on(lines: Seq<Seq<char>>) -> Seq<ItemID>
    decreases lines.len(),
{
    if lines.len() == 0 {
        Seq::empty()
    } else {
        let before = found_on(lines.drop_last());
        match found_name(lines.last()) {
            Some(name) => before.push(item_id(name)),
            None => before,
        }
    }
}

/// The items named in a save file of discovered items.
pub fn load_found(text: &str) -> (r: Vec<ItemID>)
    ensures
        r@ == found_on(split_on(text@, '\n')),
{
    let lines = split(&chars_of(text), '\n');
    let mut out: Vec<ItemID> = Vec::new();
    let mut i: usize = 0;
    proof {
        assert(views(lines@).take(0) =~= Seq::<Seq<char>>::empty());
    }
    while i < lines.len()
        invariant
            i <= lines.len(),
            out@ == found_on(views(lines@).take(i as int)),
        decreases lines.len() - i,
    {
        proof {
            let next = views(lines@).take(i + 1);
            assert(next.drop_last() =~= views(lines@).take(i as int));
            assert(next.last() == lines@[i as int]@);
        }
        let a = trim(&lines[i]);
        let b = if a.len() > 0 && a[0] == '[' {
            proof {
                assert(a@.drop_first() =~= a@.subrange(1, a.len() as int));
            }
            trim(&slice_of(&a, 1, a.len()))
        } else {
            a
        };
        let c = if b.len() > 0 && b[b.len() - 1] == ']' {
            proof {
                assert(b@.drop_last() =~= b@.subrange(0, b.len() - 1));
            }
            trim(&slice_of(&b, 0, b.len() - 1))
        } else {
            b
        };
        if c.len() > 0 {
            out.push(id_of_chars(&c));
        }
        i += 1;
    }
    proof {
        assert(views(lines@).take(i as int) =~= views(lines@));
    }
    out
}

/// A list of identifiers without its repeats, in the order of first
/// occurrence.
pub open spec fn distinct(list: Seq<ItemID>) -> Seq<ItemID>
    decreases list.len(),
{
    if list.len() == 0 {
        Seq::empty()
    } else {
        with_id(distinct(list.drop_last()), list.last())
    }
}

/// Adding an identifier to a list without repeats gives a list without
/// repeats.
pub proof fn lemma_with_id(list: Seq<ItemID>, id: ItemID)
    requires
        list.no_duplicates(),
    ensures
        with_id(list, id).no_duplicates(),
        with_id(list, id).contains(id),
        forall|other: ItemID|
            other != id ==> with_id(list, id).contains(other) == list.contains(other),
{
    let next = with_id(list, id);
    if list.contains(id) {
    } else {
        assert(next[list.len() as int] == id);
        assert forall|i: int, j: int| 0 <= i < next.len() && 0 <= j < next.len() && i
            != j implies next[i] != next[j] by {
            if i < list.len() {
                assert(list[i] == next[i]);
            }
            if j < list.len() {
                assert(list[j] == next[j]);
            }
        }
        assert forall|other: ItemID| other != id implies next.contains(other) == list.contains(
            other,
        ) by {
            if next.contains(other) {
                let i = choose|i: int| 0 <= i < next.len() && next[i] == other;
                assert(list[i] == other);
            }
            if list.contains(other) {
                let i = choose|i: int| 0 <= i < list.len() && list[i] == other;
                assert(next[i] == other);
            }
        }
    }
}

/// The elements among the first `i + 1` of a list are those among the first
/// `i`, and the one at `i`.
pub proof fn lemma_take_to_set<A>(s: Seq<A>, i: int)
    requires
        0 <= i < s.len(),
    ensures
        s.take(i + 1).to_set() == s.take(i).to_set().insert(s[i]),
{
    let long = s.take(i + 1);
    let short = s.take(i);
    assert forall|x: A| long.to_set().contains(x) implies short.to_set().insert(s[i]).contains(
        x,
    ) by {
        let j = choose|j: int| 0 <= j < long.len() && long[j] == x;
        if j < i {
            assert(short[j] == x);
        }
    }
    assert forall|x: A| short.to_set().insert(s[i]).contains(x) implies long.to_set().contains(
        x,
    ) by {
        if x == s[i] {
            assert(long[i] == x);
        } else {
            let j = choose|j: int| 0 <= j < short.len() && short[j] == x;
            assert(long[j] == x);
        }
    }
    assert(long.to_set() =~= short.to_set().insert(s[i]));
}

/// A list without its repeats has no repeats and holds what the list held.
pub proof fn lemma_distinct(list: Seq<ItemID>)
    ensures
        distinct(list).no_duplicates(),
        forall|id: ItemID| distinct(list).contains(id) == list.contains(id),
    decreases list.len(),
{
    if list.len() > 0 {
        let head = list.drop_last();
        lemma_distinct(head);
        lemma_with_id(distinct(head), list.last());
        assert forall|id: ItemID| distinct(list).contains(id) == list.contains(id) by {
            if list.contains(id) {
                let i = choose|i: int| 0 <= i < list.len() && list[i] == id;
                if i < head.len() {
                    assert(head[i] == id);
                }
            }
            if head.contains(id) {
                let i = choose|i: int| 0 <= i < head.len() && head[i] == id;
                assert(list[i] == id);
            }
            if id == list.last() {
                assert(list[list.len() - 1] == id);
            }
        }
    }
}

/// The item registry.
#[derive(Debug)]
pub struct Items {
    data: HashMap<u64, ItemData>,
    order: Vec<ItemID>,
    debug_item: ItemData,
    has_tag: HashMap<u64, Vec<ItemID>>,
    found: Vec<ItemID>,
}

/// The index that a map from raw tag values to lists stands for.
spec fn index_view(m: Map<u64, Vec<ItemID>>) -> Map<Tag, Seq<ItemID>> {
    Map::new(|t: Tag| m.contains_key(t.0), |t: Tag| m[t.0]@)
}

/// The records that a map from raw identifiers to item data stands for.
spec fn records_view(m: Map<u64, ItemData>) -> Map<ItemID, ItemRecord> {
    Map::new(|id: ItemID| m.contains_key(id.0), |id: ItemID| m[id.0]@)
}

/// Every list of the index is without repeats and not empty.
spec fn lists_ok(index: Map<Tag, Seq<ItemID>>) -> bool {
    forall|t: Tag| #[trigger] index.contains_key(t) ==> index[t].no_duplicates() && index[t].len() > 0
}

/// Lists `id` under each of `tags`.
fn list_under(has_tag: &mut HashMap<u64, Vec<ItemID>>, tags: &Vec<Tag>, id: ItemID)
    requires
        lists_ok(index_view(old(has_tag)@)),
    ensures
        lists_ok(index_view(final(has_tag)@)),
        index_view(final(has_tag)@) == index_with(index_view(old(has_tag)@), tags@.to_set(), id),
{
    let ghost start = index_view(has_tag@);
    let mut i: usize = 0;
    proof {
        assert(tags@.take(0).to_set() =~= Set::<Tag>::empty());
        assert(index_view(has_tag@) =~= index_with(start, tags@.take(0).to_set(), id));
    }
    while i < tags.len()
        invariant
            i <= tags.len(),
            lists_ok(start),
            lists_ok(index_view(has_tag@)),
            index_view(has_tag@) == index_with(start, tags@.take(i as int).to_set(), id),
        decreases tags.len() - i,
    {
        let tag = tags[i];
        let ghost before = index_view(has_tag@);
        let ghost seen = tags@.take(i as int).to_set();
        let mut list = match has_tag.remove(&tag.0) {
            Some(list) => list,
            None => Vec::new(),
        };
        proof {
            assert(list@ == tagged(before, tag));
            lemma_with_id(list@, id);
        }
        if !holds(&list, id) {
            list.push(id);
        }
        has_tag.insert(tag.0, list);
        proof {
            let next = tags@.take(i + 1).to_set();
            lemma_take_to_set(tags@, i as int);
            assert(index_view(has_tag@) =~= before.insert(tag, with_id(tagged(before, tag), id)));
            assert(index_view(has_tag@) =~= index_with(start, next, id)) by {
                assert forall|t: Tag| #[trigger]
                    index_with(start, next, id).contains_key(t) implies index_view(has_tag@)[t]
                    == index_with(start, next, id)[t] by {
                    if t == tag {
                        if start.contains_key(tag) {
                            assert(tagged(start, tag).no_duplicates());
                        }
                        if seen.contains(tag) {
                            lemma_with_id(tagged(start, tag), id);
                        }
                    }
                }
            }
            assert forall|t: Tag| #[trigger] index_view(has_tag@).contains_key(t) implies index_view(
                has_tag@,
            )[t].no_duplicates() && index_view(has_tag@)[t].len() > 0 by {
                if t != tag {
                    assert(before.contains_key(t));
                }
            }
        }
        i += 1;
    }
    proof {
        assert(tags@.take(i as int) =~= tags@);
    }
}

/// Whether `list` holds `id`.
fn holds(list: &Vec<ItemID>, id: ItemID) -> (r: bool)
    ensures
        r == list@.contains(id),
{
    let mut i: usize = 0;
    while i < list.len()
        invariant
            i <= list.len(),
            forall|j: int| 0 <= j < i ==> list@[j] != id,
        decreases list.len() - i,
    {
        if list[i] == id {
            return true;
        }
        i += 1;
    }
    false
}

impl View for Items {
    type V = Registry;

    open spec fn view(&self) -> Registry {
        Registry {
            records: self.records(),
            ids: self.ids(),
            index: self.index(),
            discovered: self.discovered(),
            fallback: self.fallback(),
        }
    }
}

impl Items {
    /// The record of each known item.
    pub closed spec fn records(&self) -> Map<ItemID, ItemRecord> {
        Map::new(|id: ItemID| self.data@.contains_key(id.0), |id: ItemID| self.data@[id.0]@)
    }

    /// The known items, in the order in which they became known.
    pub closed spec fn ids(&self) -> Seq<ItemID> {
        self.order@
    }

    /// For each tag that some item carries, the items that carry it, in the
    /// order in which they got it.
    pub closed spec fn index(&self) -> Map<Tag, Seq<ItemID>> {
        Map::new(|t: Tag| self.has_tag@.contains_key(t.0), |t: Tag| self.has_tag@[t.0]@)
    }

    /// The discovered items, in the order of their discovery.
    pub closed spec fn discovered(&self) -> Seq<ItemID> {
        self.found@
    }

    /// The record that stands in for every unknown item.
    pub closed spec fn fallback(&self) -> ItemRecord {
        self.debug_item@
    }

    /// What the registry shows for `id`: the item's record, or the fallback
    /// for an unknown item.
    pub open spec fn record_of(&self, id: ItemID) -> ItemRecord {
        if self.records().contains_key(id) {
            self.records()[id]
        } else {
            self.fallback()
        }
    }

    /// The invariant of the registry: the list of known items names each
    /// record once; no list holds anything twice; and the index lists an item
    /// under a tag exactly when the item's record carries the tag.
    pub open spec fn wf(&self) -> bool {
        &&& self.ids().no_duplicates()
        &&& forall|id: ItemID| self.ids().contains(id) <==> #[trigger] self.records().contains_key(id)
        &&& forall|id: ItemID| #[trigger]
            self.records().contains_key(id) ==> self.records()[id].tags.no_duplicates()
        &&& forall|t: Tag| #[trigger]
            self.index().contains_key(t) ==> self.index()[t].no_duplicates() && self.index()[t].len()
                > 0
        &&& forall|t: Tag, id: ItemID|
            #![trigger self.listed(t, id)]
            #![trigger self.carries(id, t)]
            self.listed(t, id) <==> self.carries(id, t)
        &&& self.discovered().no_duplicates()
    }

    /// Whether the index lists `id` under `tag`.
    pub open spec fn listed(&self, tag: Tag, id: ItemID) -> bool {
        self.index().contains_key(tag) && self.index()[tag].contains(id)
    }

    /// Whether the record of `id` carries `tag`.
    pub open spec fn carries(&self, id: ItemID, tag: Tag) -> bool {
        self.records().contains_key(id) && self.records()[id].tags.contains(tag)
    }

    /// A registry without items, with the record that stands in for unknown
    /// items and the items discovered in earlier sessions.
    pub fn new(debug_item: ItemData, found: Vec<ItemID>) -> (r: Items)
        ensures
            r.wf(),
            r.records() == Map::<ItemID, ItemRecord>::empty(),
            r.ids() == Seq::<ItemID>::empty(),
            r.index() == Map::<Tag, Seq<ItemID>>::empty(),
            r.fallback() == debug_item@,
            r.discovered() == distinct(found@),
    {
        let mut once: Vec<ItemID> = Vec::new();
        let mut i: usize = 0;
        assert(found@.take(0) =~= Seq::<ItemID>::empty());
        while i < found.len()
            invariant
                i <= found.len(),
                once@ == distinct(found@.take(i as int)),
            decreases found.len() - i,
        {
            proof {
                assert(found@.take(i + 1).drop_last() =~= found@.take(i as int));
            }
            if !holds(&once, found[i]) {
                once.push(found[i]);
            }
            i += 1;
        }
        proof {
            assert(found@.take(i as int) =~= found@);
            lemma_distinct(found@);
        }
        let r = Items {
            data: HashMap::new(),
            order: Vec::new(),
            debug_item,
            has_tag: HashMap::new(),
            found: once,
        };
        proof {
            assert(r.records() =~= Map::<ItemID, ItemRecord>::empty());
            assert(r.index() =~= Map::<Tag, Seq<ItemID>>::empty());
        }
        r
    }

    /// What is shown of the item `id`: its own record, or the fallback where
    /// the item is unknown. Never fails.
    pub fn get(&self, id: &ItemID) -> (r: Item)
        ensures
            r@ == shown_of(self.record_of(*id)),
    {
        match self.data.get(&id.0) {
            Some(data) => Item::from(data),
            None => Item::from(&self.debug_item),
        }
    }

    /// The discovered items, in the order of their discovery.
    pub fn found(&self) -> (r: Vec<ItemID>)
        ensures
            r@ == self.discovered(),
    {
        self.found.clone()
    }

    /// Every known item, in the order in which the items became known.
    pub fn all(&self) -> (r: Vec<ItemID>)
        ensures
            r@ == self.ids(),
    {
        self.order.clone()
    }

    /// The number of known items.
    pub fn len(&self) -> (r: usize)
        ensures
            r == self.ids().len(),
    {
        self.order.len()
    }

    /// The items that carry `tag`, in the order in which they got it; `None`
    /// where no item carries it.
    pub fn with_tag(&self, tag: &Tag) -> (r: Option<Vec<ItemID>>)
        ensures
            match r {
                Some(list) => self.index().contains_key(*tag) && list@ == self.index()[*tag],
                None => !self.index().contains_key(*tag),
            },
    {
        match self.has_tag.get(&tag.0) {
            Some(res) => Some(res.clone()),
            None => None,
        }
    }

    /// Offers `data` as the record of the item `id`.
    ///
    /// A new item gets the record and joins the list of known items. A known
    /// item keeps its name, description, icon and sound, and gets the tags of
    /// `data` that it had not. Either way the item is listed under each tag
    /// of `data`.
    pub fn insert<T>(&mut self, id: T, data: ItemData) where T: Into<ItemID>
        requires
            old(self).wf(),
            data.tags.wf(),
        ensures
            final(self).wf(),
            final(self).discovered() == old(self).discovered(),
            final(self).fallback() == old(self).fallback(),
            T::obeys_into_spec() ==> {
                &&& final(self).records() == records_with(
                    old(self).records(),
                    id.into_spec(),
                    data@,
                )
                &&& final(self).ids() == with_id(old(self).ids(), id.into_spec())
                &&& final(self).index() == index_with(
                    old(self).index(),
                    data.tags@,
                    id.into_spec(),
                )
            },
    {
        let id: ItemID = id.into();
        self.insert_id(id, data);
    }

    /// `insert` for an identifier that is already made.
    pub fn insert_id(&mut self, id: ItemID, data: ItemData)
        requires
            old(self).wf(),
            data.tags.wf(),
        ensures
            final(self).wf(),
            final(self).discovered() == old(self).discovered(),
            final(self).fallback() == old(self).fallback(),
            final(self).records() == records_with(old(self).records(), id, data@),
            final(self).ids() == with_id(old(self).ids(), id),
            final(self).index() == index_with(old(self).index(), data.tags@, id),
            final(self)@ == old(self)@.with_item(id, data@),
    {
        let ghost records = self.records();
        let ghost index = self.index();
        let ghost new_tags = data.tags.order();
        let tags = data.tags.iter();
        list_under(&mut self.has_tag, &tags, id);
        match self.data.remove(&id.0) {
            Some(existing) => {
                let mut existing = existing;
                proof {
                    assert(records.contains_key(id));
                    assert(existing@ == records[id]);
                    lemma_merged(existing.tags.order(), new_tags);
                }
                existing.tags.merge(&data.tags);
                self.data.insert(id.0, existing);
            },
            None => {
                self.data.insert(id.0, data);
                self.order.push(id);
                proof {
                    assert(!records.contains_key(id));
                    assert(!old(self).ids().contains(id));
                }
            },
        }
        proof {
            lemma_with_id(old(self).ids(), id);
            assert(self.records() =~= records_with(records, id, data@));
            assert(self.index() =~= index_with(index, new_tags.to_set(), id));
            self.lemma_wf_after(*old(self), id, new_tags);
        }
    }

    /// Gives the item `id` the tags of `tags` that it had not, and lists it
    /// under each of them. Does nothing for an unknown item.
    pub fn add_tags(&mut self, id: &ItemID, tags: &Tags)
        requires
            old(self).wf(),
            tags.wf(),
        ensures
            final(self).wf(),
            final(self).discovered() == old(self).discovered(),
            final(self).fallback() == old(self).fallback(),
            final(self).ids() == old(self).ids(),
            old(self).records().contains_key(*id) ==> {
                &&& final(self).records() == old(self).records().insert(
                    *id,
                    with_tags(old(self).records()[*id], tags.order()),
                )
                &&& final(self).index() == index_with(old(self).index(), tags@, *id)
            },
            !old(self).records().contains_key(*id) ==> {
                &&& final(self).records() == old(self).records()
                &&& final(self).index() == old(self).index()
            },
            final(self)@ == old(self)@.with_more_tags(*id, tags.order()),
    {
        let ghost records = self.records();
        let ghost index = self.index();
        match self.data.remove(&id.0) {
            Some(existing) => {
                let mut existing = existing;
                proof {
                    assert(records.contains_key(*id));
                    assert(existing@ == records[*id]);
                    lemma_merged(existing.tags.order(), tags.order());
                }
                existing.tags.merge(tags);
                self.data.insert(id.0, existing);
                let list = tags.iter();
                list_under(&mut self.has_tag, &list, *id);
                proof {
                    lemma_with_id(old(self).ids(), *id);
                    assert(self.records() =~= records.insert(
                        *id,
                        with_tags(records[*id], tags.order()),
                    ));
                    assert(self.index() =~= index_with(index, tags@, *id));
                    self.lemma_wf_after(*old(self), *id, tags.order());
                }
            },
            None => {
                proof {
                    assert(self.records() =~= records);
                    assert(self.index() =~= index);
                    assert forall|t: Tag, id: ItemID|
                        #![trigger self.listed(t, id)]
                        #![trigger self.carries(id, t)]
                        self.listed(t, id) <==> self.carries(id, t) by {
                        assert(old(self).listed(t, id) <==> old(self).carries(id, t));
                    }
                }
            },
        }
    }

    /// Offers, in turn, the item of each record of an item file, where the
    /// records are set apart by `{next}`. Asset paths are taken inside `dir`.
    ///
    /// A record that defines no item is passed over; the rest of the file is
    /// still read. The result tells, for each record in order, which item it
    /// defined or why it defined none.
    pub fn load(&mut self, text: &str, dir: &str, names: &mut TagNames) -> (r: Vec<
        Result<ItemID, GameError>,
    >)
        requires
            old(self).wf(),
            old(names).wf(),
        ensures
            final(self).wf(),
            final(names).wf(),
            final(names).poisoned() == old(names).poisoned(),
            final(self)@ == old(self)@.with_records(
                split_on_text(text@, "{next}"@),
                dir@,
                old(names).poisoned(),
            ),
            final(names)@ == names_loaded(
                old(names)@,
                split_on_text(text@, "{next}"@),
                dir@,
                old(self).fallback(),
                old(names).poisoned(),
            ),
            r@.len() == split_on_text(text@, "{next}"@).len(),
            forall|i: int|
                0 <= i < r@.len() ==> match item_of_record(
                    #[trigger] split_on_text(text@, "{next}"@)[i],
                    dir@,
                    old(self).fallback(),
                    old(names).poisoned(),
                ) {
                    Some(item) => r@[i] == Ok::<ItemID, GameError>(item.0),
                    None => r@[i] matches Err(e) && record_failure(
                        split_on_text(text@, "{next}"@)[i],
                        e,
                    ),
                },
    {
        let delimiter = chars_of("{next}");
        proof {
            reveal_strlit("{next}");
        }
        let records = split_text(&chars_of(text), &delimiter);
        let ghost all = split_on_text(text@, "{next}"@);
        let ghost poisoned = names.poisoned();
        let ghost fallback = self.fallback();
        let mut out: Vec<Result<ItemID, GameError>> = Vec::new();
        let mut i: usize = 0;
        proof {
            assert(all.take(0) =~= Seq::<Seq<char>>::empty());
        }
        while i < records.len()
            invariant
                i <= records.len(),
                all == views(records@),
                self.wf(),
                names.wf(),
                names.poisoned() == poisoned,
                self.fallback() == fallback,
                fallback == old(self).fallback(),
                poisoned == old(names).poisoned(),
                self@ == old(self)@.with_records(all.take(i as int), dir@, poisoned),
                names@ == names_loaded(old(names)@, all.take(i as int), dir@, fallback, poisoned),
                out@.len() == i,
                forall|j: int|
                    0 <= j < i ==> match item_of_record(#[trigger] all[j], dir@, fallback, poisoned) {
                        Some(item) => out@[j] == Ok::<ItemID, GameError>(item.0),
                        None => out@[j] matches Err(e) && record_failure(all[j], e),
                    },
            decreases records.len() - i,
        {
            proof {
                let next = all.take(i + 1);
                assert(next.drop_last() =~= all.take(i as int));
                assert(next.last() == records@[i as int]@);
                assert(old(self)@.fallback == fallback);
            }
            match parse_item(&records[i], dir, &self.debug_item, names) {
                Ok(made) => {
                    let (id, data) = made;
                    self.insert_id(id, data);
                    out.push(Ok(id));
                },
                Err(e) => {
                    out.push(Err(e));
                },
            }
            i += 1;
        }
        proof {
            assert(all.take(i as int) =~= all);
        }
        out
    }

    /// Applies, in turn, each segment of a tag patch, where the segments are
    /// set apart by `{next}` and each is `name:list-of-tags`.
    ///
    /// The named item gets the tags; a segment that names an unknown item, or
    /// that cannot be read, changes nothing.
    pub fn path(&mut self, text: &str, names: &mut TagNames)
        requires
            old(self).wf(),
            old(names).wf(),
        ensures
            final(self).wf(),
            final(names).wf(),
            final(names).poisoned() == old(names).poisoned(),
            final(self)@ == old(self)@.with_patches(
                split_on_text(text@, "{next}"@),
                old(names).poisoned(),
            ),
            final(self).ids() == old(self).ids(),
            final(names)@ == names_patched(
                old(names)@,
                split_on_text(text@, "{next}"@),
                old(names).poisoned(),
            ),
    {
        let delimiter = chars_of("{next}");
        proof {
            reveal_strlit("{next}");
        }
        let segments = split_text(&chars_of(text), &delimiter);
        let ghost all = split_on_text(text@, "{next}"@);
        let ghost poisoned = names.poisoned();
        let mut i: usize = 0;
        proof {
            assert(all.take(0) =~= Seq::<Seq<char>>::empty());
        }
        while i < segments.len()
            invariant
                i <= segments.len(),
                all == views(segments@),
                self.wf(),
                names.wf(),
                names.poisoned() == poisoned,
                poisoned == old(names).poisoned(),
                self@ == old(self)@.with_patches(all.take(i as int), poisoned),
                names@ == names_patched(old(names)@, all.take(i as int), poisoned),
            decreases segments.len() - i,
        {
            let segment = &segments[i];
            proof {
                let next = all.take(i + 1);
                assert(next.drop_last() =~= all.take(i as int));
                assert(next.last() == segment@);
                lemma_index_of(segment@, ':');
                assert(segment@.subrange(0, segment.len() as int) =~= segment@);
            }
            let at = find_char(segment, 0, ':');
            if at < segment.len() {
                let id = id_of_chars(&trim(&slice_of(segment, 0, at)));
                let list = string_of(&slice_of(segment, at + 1, segment.len()));
                match Tags::deserialize(list.as_str(), names) {
                    Ok(tags) => {
                        self.add_tags(&id, &tags);
                    },
                    Err(_) => {},
                }
            }
            i += 1;
        }
        proof {
            assert(all.take(i as int) =~= all);
            lemma_patches_keep_items(old(self)@, all, poisoned);
        }
    }

    /// The save file of the discovered items: `[`, then on a line each the
    /// name that the registry shows for the item, with `_` for each space,
    /// then `]`.
    pub fn save_found(&self) -> (r: String)
        ensures
            r@ == found_text(self@.saved_names()),
    {
        let mut out: Vec<char> = Vec::new();
        out.push('[');
        out.push('\n');
        let ghost saved = self@.saved_names();
        let mut i: usize = 0;
        proof {
            assert(saved.take(0) =~= Seq::<Seq<char>>::empty());
            assert(out@ =~= seq!['[', '\n'] + lines_text(saved.take(0)));
        }
        while i < self.found.len()
            invariant
                i <= self.found.len(),
                saved == self@.saved_names(),
                out@ == seq!['[', '\n'] + lines_text(saved.take(i as int)),
            decreases self.found.len() - i,
        {
            let item = self.get(&self.found[i]);
            let name = replace(&chars_of(item.name()), ' ', '_');
            proof {
                let next = saved.take(i + 1);
                assert(next.drop_last() =~= saved.take(i as int));
                assert(next.last() == name@);
            }
            let ghost before = out@;
            let mut k: usize = 0;
            while k < name.len()
                invariant
                    k <= name.len(),
                    out@ == before + name@.take(k as int),
                decreases name.len() - k,
            {
                out.push(name[k]);
                proof {
                    assert(name@.take(k + 1) =~= name@.take(k as int).push(name@[k as int]));
                }
                k += 1;
            }
            out.push('\n');
            proof {
                assert(name@.take(k as int) =~= name@);
                assert(out@ =~= seq!['[', '\n'] + lines_text(saved.take(i + 1)));
            }
            i += 1;
        }
        out.push(']');
        proof {
            assert(saved.take(i as int) =~= saved);
        }
        string_of(&out)
    }

    /// The registry stays well formed when one item gets more tags, as a new
    /// item or as a known one, and is listed under them.
    proof fn lemma_wf_after(self, before: Items, id: ItemID, tags: Seq<Tag>)
        requires
            before.wf(),
            tags.no_duplicates(),
            self.discovered() == before.discovered(),
            self.ids() == with_id(before.ids(), id),
            self.index() == index_with(before.index(), tags.to_set(), id),
            lists_ok(self.index()),
            self.records() == before.records().insert(
                id,
                if before.records().contains_key(id) {
                    with_tags(before.records()[id], tags)
                } else {
                    self.records()[id]
                },
            ),
            !before.records().contains_key(id) ==> self.records()[id].tags == tags,
        ensures
            self.wf(),
    {
        lemma_with_id(before.ids(), id);
        if before.records().contains_key(id) {
            lemma_merged(before.records()[id].tags, tags);
        }
        assert forall|other: ItemID| self.ids().contains(other) <==> #[trigger] self.records().contains_key(
            other,
        ) by {
            if other != id {
                assert(before.ids().contains(other) <==> before.records().contains_key(other));
            }
        }
        assert forall|other: ItemID| #[trigger]
            self.records().contains_key(other) implies self.records()[other].tags.no_duplicates() by {
            if other != id {
                assert(before.records().contains_key(other));
            }
        }
        assert forall|t: Tag, other: ItemID|
            #![trigger self.listed(t, other)]
            #![trigger self.carries(other, t)]
            self.listed(t, other) <==> self.carries(other, t) by {
            assert(before.listed(t, other) <==> before.carries(other, t));
            let had = tagged(before.index(), t);
            if before.index().contains_key(t) {
                assert(had.no_duplicates());
            }
            lemma_with_id(had, id);
            assert(tags.to_set().contains(t) == tags.contains(t));
            if before.records().contains_key(id) {
                let old_tags = before.records()[id].tags;
                let new_tags = merged(old_tags, tags);
                assert(new_tags.to_set().contains(t) == new_tags.contains(t));
                assert(old_tags.to_set().contains(t) == old_tags.contains(t));
            }
            if other != id {
                assert(self.records().contains_key(other) == before.records().contains_key(other));
                if tags.contains(t) {
                    assert(self.index()[t] == with_id(had, id));
                    assert(self.index()[t].contains(other) == had.contains(other));
                }
            } else {
                if tags.contains(t) {
                    assert(self.index()[t] == with_id(had, id));
                }
            }
        }
    }

    /// Whether `id` has been discovered.
    pub fn is_found(&self, id: ItemID) -> (r: bool)
        ensures
            r == self.discovered().contains(id),
    {
        holds(&self.found, id)
    }

    /// Records `id` as discovered, and says whether it was new.
    pub fn discover(&mut self, id: ItemID) -> (r: bool)
        requires
            old(self).wf(),
        ensures
            final(self).wf(),
            r == !old(self).discovered().contains(id),
            final(self).discovered() == with_id(old(self).discovered(), id),
            final(self).records() == old(self).records(),
            final(self).ids() == old(self).ids(),
            final(self).index() == old(self).index(),
            final(self).fallback() == old(self).fallback(),
            final(self)@ == old(self)@.with_found(id),
    {
        let ghost records = self.records();
        let ghost index = self.index();
        proof {
            lemma_with_id(self.discovered(), id);
        }
        if holds(&self.found, id) {
            false
        } else {
            self.found.push(id);
            proof {
                assert(self.records() =~= records);
                assert(self.index() =~= index);
                assert forall|t: Tag, id: ItemID|
                    #![trigger self.listed(t, id)]
                    #![trigger self.carries(id, t)]
                    self.listed(t, id) <==> self.carries(id, t) by {
                    assert(old(self).listed(t, id) <==> old(self).carries(id, t));
                }
            }
            true
        }
    }
}

} // verus!
