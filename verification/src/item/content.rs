//! The text format of item records: blocks of `key: value` lines.

use vstd::prelude::*;

use crate::error::GameError;
use crate::item::tags::{
    first_failure, registered, tags_in_order, Tag, TagNames, Tags,
};
use crate::item::{id_of_chars, item_id, ItemData, ItemID, ItemRecord};
use crate::ron_text::{ron_string, ron_strings, string_from_ron};
use crate::text::{
    chars_of, find_char, index_of, lemma_index_of, matches_at, occurs_at, slice_of, split,
    split_on, string_of, trim, trimmed, views,
};

verus! {

/// One field of a record: its key and its raw value.
pub type Field = (Vec<char>, Vec<char>);

/// A line as a field: the trimmed text before the first `:` and the trimmed
/// text after it. A line without `:` is no field.
pub open spec fn field_of(line: Seq<char>) -> Option<(Seq<char>, Seq<char>)> {
    let i = index_of(line, ':');
    if 0 <= i < line.len() {
        Some((trimmed(line.subrange(0, i)), trimmed(line.subrange(i + 1, line.len() as int))))
    } else {
        None
    }
}

/// The fields among `lines`, in the order of the lines.
pub open spec fn fields_from(lines: Seq<Seq<char>>) -> Seq<(Seq<char>, Seq<char>)>
    decreases lines.len(),
{
    if lines.len() == 0 {
        Seq::empty()
    } else {
        let before = fields_from(lines.drop_last());
        match field_of(lines.last()) {
            Some(field) => before.push(field),
            None => before,
        }
    }
}

/// The fields of a record: those among its lines.
pub open spec fn fields_of(record: Seq<char>) -> Seq<(Seq<char>, Seq<char>)> {
    fields_from(split_on(record, '\n'))
}

/// The value of the field `key`: that of the last field with this key.
pub open spec fn value_of(fields: Seq<(Seq<char>, Seq<char>)>, key: Seq<char>) -> Option<Seq<char>>
    decreases fields.len(),
{
    if fields.len() == 0 {
        None
    } else if fields.last().0 == key {
        Some(fields.last().1)
    } else {
        value_of(fields.drop_last(), key)
    }
}

/// The keys and values of a list of fields.
pub open spec fn field_views(fields: Seq<Field>) -> Seq<(Seq<char>, Seq<char>)> {
    Seq::new(fields.len(), |i: int| (fields[i].0@, fields[i].1@))
}

/// The string that the field `key` denotes, if the field is there and
/// denotes one.
pub open spec fn string_of_field(fields: Seq<(Seq<char>, Seq<char>)>, key: Seq<char>) -> Option<
    Seq<char>,
> {
    match value_of(fields, key) {
        Some(v) => ron_string(v),
        None => None,
    }
}

/// The fields of a record.
pub fn parse_fields(record: &Vec<char>) -> (r: Vec<Field>)
    ensures
        field_views(r@) == fields_of(record@),
{
    let lines = split(record, '\n');
    let mut out: Vec<Field> = Vec::new();
    let mut i: usize = 0;
    proof {
        assert(views(lines@).take(0) =~= Seq::<Seq<char>>::empty());
        assert(field_views(out@) =~= Seq::<(Seq<char>, Seq<char>)>::empty());
    }
    while i < lines.len()
        invariant
            i <= lines.len(),
            field_views(out@) == fields_from(views(lines@).take(i as int)),
        decreases lines.len() - i,
    {
        let line = &lines[i];
        proof {
            let next = views(lines@).take(i + 1);
            assert(next.drop_last() =~= views(lines@).take(i as int));
            assert(next.last() == line@);
            lemma_index_of(line@, ':');
        }
        let at = find_char(line, 0, ':');
        proof {
            assert(line@.subrange(0, line.len() as int) =~= line@);
        }
        if at < line.len() {
            let key = trim(&slice_of(line, 0, at));
            let value = trim(&slice_of(line, at + 1, line.len()));
            let ghost before = field_views(out@);
            out.push((key, value));
            proof {
                assert(field_views(out@) =~= before.push((key@, value@)));
            }
        }
        i += 1;
    }
    proof {
        assert(views(lines@).take(i as int) =~= views(lines@));
    }
    out
}

/// The raw value of the field `field`.
///
/// Fails with `FieldNotFound`, naming the field, where the record has none.
pub fn unwrap_or_404(fields: &Vec<Field>, field: &str) -> (r: Result<String, GameError>)
    ensures
        match value_of(field_views(fields@), field@) {
            Some(v) => r matches Ok(s) && s@ == v,
            None => r matches Err(GameError::FieldNotFound(name)) && name@ == field@,
        },
{
    let key = chars_of(field);
    let mut i: usize = fields.len();
    proof {
        assert(field_views(fields@).take(i as int) =~= field_views(fields@));
    }
    while i > 0
        invariant
            i <= fields.len(),
            key@ == field@,
            value_of(field_views(fields@), field@) == value_of(
                field_views(fields@).take(i as int),
                field@,
            ),
        decreases i,
    {
        let ghost seen = field_views(fields@).take(i as int);
        proof {
            assert(seen.last() == (fields@[i - 1].0@, fields@[i - 1].1@));
            assert(seen.drop_last() =~= field_views(fields@).take(i - 1));
        }
        if same_text(&fields[i - 1].0, &key) {
            return Ok(string_of(&fields[i - 1].1));
        }
        i -= 1;
    }
    Err(GameError::FieldNotFound(string_of(&key)))
}

/// Whether two texts are the same.
pub fn same_text(a: &Vec<char>, b: &Vec<char>) -> (r: bool)
    ensures
        r == (a@ == b@),
{
    if a.len() != b.len() {
        return false;
    }
    let mut i: usize = 0;
    while i < a.len()
        invariant
            i <= a.len(),
            a.len() == b.len(),
            forall|j: int| 0 <= j < i ==> a@[j] == b@[j],
        decreases a.len() - i,
    {
        if a[i] != b[i] {
            return false;
        }
        i += 1;
    }
    proof {
        assert(a@ =~= b@);
    }
    true
}

/// The string that the field `field` denotes in RON.
///
/// Fails with `FieldNotFound` where the record has no such field, and with
/// `RonSpannedError` where the value denotes no string.
pub fn unwrap_or_string(fields: &Vec<Field>, field: &str) -> (r: Result<String, GameError>)
    ensures
        match value_of(field_views(fields@), field@) {
            Some(v) => match ron_string(v) {
                Some(s) => r matches Ok(text) && text@ == s,
                None => r matches Err(GameError::RonSpannedError(_)),
            },
            None => r matches Err(GameError::FieldNotFound(name)) && name@ == field@,
        },
        r matches Ok(text) ==> string_of_field(field_views(fields@), field@) == Some(text@),
        r is Err ==> string_of_field(field_views(fields@), field@) is None,
{
    match unwrap_or_404(fields, field) {
        Ok(raw) => match string_from_ron(raw.as_str()) {
            Ok(text) => Ok(text),
            Err(e) => Err(GameError::RonSpannedError(e)),
        },
        Err(e) => Err(e),
    }
}

/// The position of the last `c` in `s`, or `-1` where there is none.
pub open spec fn last_index_of(s: Seq<char>, c: char) -> int
    decreases s.len(),
{
    if s.len() == 0 {
        -1
    } else if s.last() == c {
        s.len() - 1
    } else {
        last_index_of(s.drop_last(), c)
    }
}

/// The directory of a file: its path up to the last `/`; empty where the
/// path has none.
pub open spec fn parent_of(path: Seq<char>) -> Seq<char> {
    let i = last_index_of(path, '/');
    if i >= 0 {
        path.subrange(0, i)
    } else {
        Seq::empty()
    }
}

/// A directory as seen from the asset root `./assets`: the root itself is
/// the empty path, a directory below it loses the root and the `/` after it,
/// and any other directory stays as it is.
pub open spec fn below_root(dir: Seq<char>) -> Seq<char> {
    let root = "./assets"@;
    if dir == root {
        Seq::empty()
    } else if occurs_at(dir, root, 0) && dir.len() > root.len() && dir[root.len() as int] == '/' {
        dir.subrange(root.len() as int + 1, dir.len() as int)
    } else {
        dir
    }
}

/// The asset directory of a content file: the file's directory, as seen from
/// the asset root.
pub open spec fn asset_dir_of(path: Seq<char>) -> Seq<char> {
    below_root(parent_of(path))
}

/// A path inside a directory: the directory, `/`, and the path; the path
/// alone for the empty directory.
pub open spec fn joined(dir: Seq<char>, rel: Seq<char>) -> Seq<char> {
    if dir.len() == 0 {
        rel
    } else {
        dir + seq!['/'] + rel
    }
}

/// The description of an item that gives none.
pub open spec fn no_description() -> Seq<char> {
    "No description for this item;"@
}

/// The text that the field `key` denotes, or `default` where the field is
/// missing or denotes no string.
pub open spec fn text_or(fields: Seq<(Seq<char>, Seq<char>)>, key: Seq<char>, default: Seq<char>) -> Seq<
    char,
> {
    match string_of_field(fields, key) {
        Some(s) => s,
        None => default,
    }
}

/// The asset path that the field `key` denotes, inside `dir`, or `default`
/// where the field is missing or denotes no string.
pub open spec fn path_or(
    fields: Seq<(Seq<char>, Seq<char>)>,
    key: Seq<char>,
    dir: Seq<char>,
    default: Seq<char>,
) -> Seq<char> {
    match string_of_field(fields, key) {
        Some(s) => joined(dir, s),
        None => default,
    }
}

/// The list of strings that the field `tags` denotes, if the field is there
/// and denotes one.
pub open spec fn tag_texts(fields: Seq<(Seq<char>, Seq<char>)>) -> Option<Seq<Seq<char>>> {
    match value_of(fields, "tags"@) {
        Some(v) => ron_strings(v),
        None => None,
    }
}

/// The tags of a record: those of its field `tags`; none where the field is
/// missing, is no list of strings, or holds a string that makes no tag.
pub open spec fn tags_or_none(fields: Seq<(Seq<char>, Seq<char>)>, poisoned: bool) -> Seq<Tag> {
    match tag_texts(fields) {
        Some(list) => if first_failure(list, poisoned) == list.len() {
            tags_in_order(list)
        } else {
            Seq::empty()
        },
        None => Seq::empty(),
    }
}

/// The table of names after the tags of a record have been read.
pub open spec fn names_with_tags(
    fields: Seq<(Seq<char>, Seq<char>)>,
    names: Map<u64, Seq<char>>,
    poisoned: bool,
) -> Map<u64, Seq<char>> {
    match tag_texts(fields) {
        Some(list) => registered(names, list.take(first_failure(list, poisoned))),
        None => names,
    }
}

/// The item that a record defines: its identifier and what is stored about
/// it. `None` where the record has no field `name` that denotes a string.
pub open spec fn item_of_record(
    record: Seq<char>,
    dir: Seq<char>,
    fallback: ItemRecord,
    poisoned: bool,
) -> Option<(ItemID, ItemRecord)> {
    let fields = fields_of(record);
    match string_of_field(fields, "name"@) {
        Some(name) => Some(
            (
                item_id(name),
                ItemRecord {
                    name,
                    description: text_or(fields, "description"@, no_description()),
                    icon: path_or(fields, "icon"@, dir, fallback.icon),
                    sound: path_or(fields, "sound"@, dir, fallback.sound),
                    tags: tags_or_none(fields, poisoned),
                },
            ),
        ),
        None => None,
    }
}

/// The asset directory of the content file at `path`.
pub fn asset_dir(path: &str) -> (r: String)
    ensures
        r@ == asset_dir_of(path@),
{
    let chars = chars_of(path);
    let mut end: usize = chars.len();
    proof {
        assert(chars@.take(end as int) =~= chars@);
    }
    while end > 0 && chars[end - 1] != '/'
        invariant
            end <= chars.len(),
            last_index_of(chars@, '/') == last_index_of(chars@.take(end as int), '/'),
        decreases end,
    {
        proof {
            assert(chars@.take(end as int).drop_last() =~= chars@.take(end - 1));
        }
        end -= 1;
    }
    let dir = if end > 0 {
        proof {
            assert(chars@.take(end as int).last() == '/');
        }
        slice_of(&chars, 0, end - 1)
    } else {
        proof {
            assert(chars@.take(0) =~= Seq::<char>::empty());
        }
        Vec::new()
    };
    let root = chars_of("./assets");
    if same_text(&dir, &root) {
        string_of(&Vec::new())
    } else if matches_at(&dir, 0, &root) && dir.len() > root.len() && dir[root.len()] == '/' {
        string_of(&slice_of(&dir, root.len() + 1, dir.len()))
    } else {
        string_of(&dir)
    }
}

/// The path `rel` inside the directory `dir`.
pub fn join(dir: &Vec<char>, rel: &Vec<char>) -> (r: Vec<char>)
    ensures
        r@ == joined(dir@, rel@),
{
    if dir.len() == 0 {
        return rel.clone();
    }
    let mut out = dir.clone();
    out.push('/');
    let mut i: usize = 0;
    while i < rel.len()
        invariant
            i <= rel.len(),
            out@ == dir@ + seq!['/'] + rel@.take(i as int),
        decreases rel.len() - i,
    {
        out.push(rel[i]);
        proof {
            assert(rel@.take(i + 1) =~= rel@.take(i as int).push(rel@[i as int]));
        }
        i += 1;
    }
    proof {
        assert(rel@.take(i as int) =~= rel@);
    }
    out
}

/// Whether `e` is the error of a record that defines no item: a missing
/// name is `FieldNotFound`, which gives the field's name, and a name that
/// denotes no string is `RonSpannedError`.
pub open spec fn record_failure(record: Seq<char>, e: GameError) -> bool {
    match value_of(fields_of(record), "name"@) {
        Some(_) => e is RonSpannedError,
        None => e matches GameError::FieldNotFound(field) && field@ == "name"@,
    }
}

/// The item that `record` defines.
///
/// The field `name` is required: a record without it fails with
/// `FieldNotFound`, and one whose name denotes no string with
/// `RonSpannedError`; neither touches the table of names. The fields `icon`
/// and `sound` are paths inside `dir` and default to those of `fallback`;
/// `description` defaults to a fixed text; `tags` defaults to no tags, also
/// where it cannot be read.
pub fn parse_item(record: &Vec<char>, dir: &str, fallback: &ItemData, names: &mut TagNames) -> (r:
    Result<(ItemID, ItemData), GameError>)
    requires
        old(names).wf(),
    ensures
        final(names).wf(),
        final(names).poisoned() == old(names).poisoned(),
        match item_of_record(record@, dir@, fallback@, old(names).poisoned()) {
            Some(item) => {
                &&& r matches Ok(made)
                &&& made.0 == item.0
                &&& made.1@ == item.1
                &&& made.1.tags.wf()
                &&& final(names)@ == names_with_tags(
                    fields_of(record@),
                    old(names)@,
                    old(names).poisoned(),
                )
            },
            None => {
                &&& r matches Err(e)
                &&& record_failure(record@, e)
                &&& final(names)@ == old(names)@
            },
        },
{
    let fields = parse_fields(record);
    let place = chars_of(dir);
    let icon = match unwrap_or_string(&fields, "icon") {
        Ok(icon_path) => string_of(&join(&place, &chars_of(icon_path.as_str()))),
        Err(_) => fallback.icon.clone(),
    };
    let sound = match unwrap_or_string(&fields, "sound") {
        Ok(sound_path) => string_of(&join(&place, &chars_of(sound_path.as_str()))),
        Err(_) => fallback.sound.clone(),
    };
    let name = match unwrap_or_string(&fields, "name") {
        Ok(name) => name,
        Err(e) => {
            return Err(e);
        },
    };
    let id = id_of_chars(&chars_of(name.as_str()));
    let tags = match unwrap_or_404(&fields, "tags") {
        Ok(raw) => match Tags::deserialize(raw.as_str(), names) {
            Ok(tags) => tags,
            Err(_) => Tags::default(),
        },
        Err(_) => Tags::default(),
    };
    let description = match unwrap_or_string(&fields, "description") {
        Ok(description) => description,
        Err(_) => string_of(&chars_of("No description for this item;")),
    };
    Ok((id, ItemData { name, icon, tags, description, sound }))
}

/// The kinds of content file.
#[derive(Debug, Clone, Copy, PartialEq, Eq, Structural)]
pub enum FileKind {
    /// Item definitions: the extension `vi`.
    Items,
    /// Tag patches: the extension `vp`.
    Patch,
    /// Recipes: the extension `vr`.
    Recipies,
}

/// The name of a file: its path after the last `/`.
pub open spec fn file_name_of(path: Seq<char>) -> Seq<char> {
    path.skip(last_index_of(path, '/') + 1)
}

/// The extension of a file: what stands after the last `.` of its name;
/// empty where the name has no `.`.
pub open spec fn extension_of(path: Seq<char>) -> Seq<char> {
    let name = file_name_of(path);
    if last_index_of(name, '.') >= 0 {
        name.skip(last_index_of(name, '.') + 1)
    } else {
        Seq::empty()
    }
}

/// The kind of a content file, by its extension.
pub open spec fn kind_of(path: Seq<char>) -> Option<FileKind> {
    let ext = extension_of(path);
    if ext == "vi"@ {
        Some(FileKind::Items)
    } else if ext == "vp"@ {
        Some(FileKind::Patch)
    } else if ext == "vr"@ {
        Some(FileKind::Recipies)
    } else {
        None
    }
}

/// The position of the last `c` in `v`, if there is one.
fn find_last(v: &Vec<char>, c: char) -> (r: Option<usize>)
    ensures
        match r {
            Some(i) => i < v.len() && i == last_index_of(v@, c),
            None => last_index_of(v@, c) == -1,
        },
{
    let mut end: usize = v.len();
    proof {
        assert(v@.take(end as int) =~= v@);
    }
    while end > 0 && v[end - 1] != c
        invariant
            end <= v.len(),
            last_index_of(v@, c) == last_index_of(v@.take(end as int), c),
        decreases end,
    {
        proof {
            assert(v@.take(end as int).drop_last() =~= v@.take(end - 1));
        }
        end -= 1;
    }
    if end > 0 {
        proof {
            assert(v@.take(end as int).last() == c);
        }
        Some(end - 1)
    } else {
        proof {
            assert(v@.take(0) =~= Seq::<char>::empty());
        }
        None
    }
}

/// The kind of the content file at `path`.
///
/// Fails with `WrongExtenshion`, giving the extension, for a file that is no
/// content file.
pub fn file_kind(path: &str) -> (r: Result<FileKind, GameError>)
    ensures
        match kind_of(path@) {
            Some(kind) => r == Ok::<FileKind, GameError>(kind),
            None => r matches Err(GameError::WrongExtenshion(ext)) && ext@ == extension_of(path@),
        },
{
    let chars = chars_of(path);
    let name = match find_last(&chars, '/') {
        Some(i) => slice_of(&chars, i + 1, chars.len()),
        None => slice_of(&chars, 0, chars.len()),
    };
    proof {
        assert(name@ =~= file_name_of(path@));
    }
    let ext = match find_last(&name, '.') {
        Some(i) => slice_of(&name, i + 1, name.len()),
        None => Vec::new(),
    };
    proof {
        assert(ext@ =~= extension_of(path@));
    }
    if same_text(&ext, &chars_of("vi")) {
        Ok(FileKind::Items)
    } else if same_text(&ext, &chars_of("vp")) {
        Ok(FileKind::Patch)
    } else if same_text(&ext, &chars_of("vr")) {
        Ok(FileKind::Recipies)
    } else {
        Err(GameError::WrongExtenshion(string_of(&ext)))
    }
}

} // verus!
