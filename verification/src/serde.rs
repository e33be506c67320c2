//! The save file of the board: one line `name:[x, y]` for each placed item,
//! and the order of the steps by which the file is replaced.

use vstd::prelude::*;

use crate::error::GameError;
use crate::item::items::Items;
use crate::item::{item_id, ItemID};
use crate::recipies::{after_word, extract_word, word_of};
use crate::text::{
    chars_of, is_space, is_whitespace, replace, replaced, split, split_on, string_of, views,
};

verus! {

/// The two coordinates of a line, as they are written: what stands between
/// `[` and `]`, before and after the first `,`, without whitespace. A
/// character before the `[` that is not whitespace is an error, and is
/// given. `open` says whether the `[` has been read, `is_x` whether the `,`
/// has not, and `x` and `y` hold what has been read of each coordinate.
pub open spec fn coords_scan(s: Seq<char>, open: bool, is_x: bool, x: Seq<char>, y: Seq<char>) -> Result<
    (Seq<char>, Seq<char>),
    char,
>
    decreases s.len(),
{
    if s.len() == 0 {
        Ok((x, y))
    } else {
        let c = s.first();
        let rest = s.drop_first();
        if is_whitespace(c) {
            coords_scan(rest, open, is_x, x, y)
        } else if c == '[' {
            coords_scan(rest, true, is_x, x, y)
        } else if c == ']' {
            Ok((x, y))
        } else if !open {
            Err(c)
        } else if c == ',' {
            coords_scan(rest, open, false, x, y)
        } else if is_x {
            coords_scan(rest, open, is_x, x.push(c), y)
        } else {
            coords_scan(rest, open, is_x, x, y.push(c))
        }
    }
}

/// The coordinates that stand after the `:` of a line.
pub open spec fn coords_of(line: Seq<char>) -> Result<(Seq<char>, Seq<char>), char> {
    coords_scan(after_word(line, ':'), false, true, Seq::empty(), Seq::empty())
}

/// The name under which an item is saved, if it is saved: the sink item,
/// the item `Totally a game` and the item `Debug Item` are not; any other
/// item is saved under the name that the registry shows for it, with `_` for
/// each space.
pub open spec fn saved_as(items: Items, item: ItemID) -> Option<Seq<char>> {
    if item == item_id("Trash"@) || item == item_id("Totally a game"@) || item == item_id(
        "Debug Item"@,
    ) {
        None
    } else {
        Some(replaced(items.record_of(item).name, ' ', '_'))
    }
}

/// The number of bytes that a character takes in UTF-8.
pub open spec fn char_bytes(c: char) -> nat {
    if c as u32 <= 0x7F {
        1
    } else if c as u32 <= 0x7FF {
        2
    } else if c as u32 <= 0xFFFF {
        3
    } else {
        4
    }
}

/// The number of bytes that a text takes in UTF-8.
pub open spec fn byte_len(s: Seq<char>) -> nat
    decreases s.len(),
{
    if s.len() == 0 {
        0
    } else {
        byte_len(s.drop_last()) + char_bytes(s.last())
    }
}

/// Whether a line of the save file is too short to hold an item: fewer than
/// six bytes.
pub open spec fn too_short(line: Seq<char>) -> bool {
    byte_len(line) < 6
}

/// A text takes at least as many bytes as any of its beginnings.
pub proof fn lemma_byte_len(s: Seq<char>, k: int)
    requires
        0 <= k <= s.len(),
    ensures
        byte_len(s.take(k)) <= byte_len(s),
    decreases s.len(),
{
    if k == s.len() {
        assert(s.take(k) =~= s);
    } else {
        lemma_byte_len(s.drop_last(), k);
        assert(s.drop_last().take(k) =~= s.take(k));
    }
}

/// Whether `line` is too short to hold an item.
pub fn is_too_short(line: &Vec<char>) -> (r: bool)
    ensures
        r == too_short(line@),
{
    let mut bytes: usize = 0;
    let mut i: usize = 0;
    proof {
        assert(line@.take(0) =~= Seq::<char>::empty());
    }
    while i < line.len()
        invariant
            i <= line.len(),
            bytes == byte_len(line@.take(i as int)),
            bytes < 6,
        decreases line.len() - i,
    {
        let c = line[i] as u32;
        proof {
            assert(line@.take(i + 1).drop_last() =~= line@.take(i as int));
            lemma_byte_len(line@, i + 1);
        }
        bytes += if c <= 0x7F {
            1
        } else if c <= 0x7FF {
            2
        } else if c <= 0xFFFF {
            3
        } else {
            4
        };
        if bytes >= 6 {
            return false;
        }
        i += 1;
    }
    proof {
        assert(line@.take(i as int) =~= line@);
    }
    true
}

/// The lines of a save file that can hold an item, in order.
pub open spec fn save_lines(lines: Seq<Seq<char>>) -> Seq<Seq<char>>
    decreases lines.len(),
{
    if lines.len() == 0 {
        Seq::empty()
    } else {
        let before = save_lines(lines.drop_last());
        if too_short(lines.last()) {
            before
        } else {
            before.push(lines.last())
        }
    }
}

/// What a line of the save file says.
pub open spec fn line_says(line: Seq<char>, r: Result<(ItemID, String, String), GameError>) -> bool {
    match coords_of(line) {
        Ok(coords) => {
            &&& r matches Ok(item)
            &&& item.0 == item_id(word_of(line, ':'))
            &&& item.1@ == coords.0
            &&& item.2@ == coords.1
        },
        Err(c) => r matches Err(GameError::WrongChar(found, wanted)) && found == c && wanted
            == '[',
    }
}

/// The name under which `item` is saved, if it is saved; see [`saved_as`].
pub fn save_name(items: &Items, item: &ItemID) -> (r: Option<String>)
    ensures
        match saved_as(*items, *item) {
            Some(name) => r matches Some(text) && text@ == name,
            None => r is None,
        },
{
    let trash = ItemID::new("Trash");
    let app = ItemID::new("Totally a game");
    let debug = ItemID::new("Debug Item");
    if *item == trash {
        None
    } else if *item == app {
        None
    } else if *item == debug {
        None
    } else {
        let shown = items.get(item);
        Some(string_of(&replace(&chars_of(shown.name()), ' ', '_')))
    }
}

/// Reads a line `name:[x, y]`: the item that the name stands for, where `_`
/// stands for a space, and the two coordinates as they are written.
///
/// Fails with `WrongChar` at a character that stands before the `[` and is
/// not whitespace.
pub fn extract_item(line: &str) -> (r: Result<(ItemID, String, String), GameError>)
    ensures
        line_says(line@, r),
{
    let chars = chars_of(line);
    proof {
        assert(chars@.skip(0) =~= chars@);
    }
    let (name, start) = extract_word(&chars, 0, ':');
    let mut open = false;
    let mut x: Vec<char> = Vec::new();
    let mut y: Vec<char> = Vec::new();
    let mut is_x = true;
    let mut i: usize = start;
    while i < chars.len()
        invariant_except_break
            coords_of(line@) == coords_scan(chars@.skip(i as int), open, is_x, x@, y@),
        invariant
            start <= i <= chars.len(),
            chars@ == line@,
        ensures
            coords_of(line@) == Ok::<(Seq<char>, Seq<char>), char>((x@, y@)),
        decreases chars.len() - i,
    {
        let c = chars[i];
        proof {
            assert(chars@.skip(i as int).first() == c);
            assert(chars@.skip(i as int).drop_first() =~= chars@.skip(i + 1));
        }
        if is_space(c) {
        } else if c == '[' {
            open = true;
        } else if c == ']' {
            break ;
        } else if !open {
            return Err(GameError::WrongChar(c, '['));
        } else if c == ',' {
            is_x = false;
        } else if is_x {
            x.push(c);
        } else {
            y.push(c);
        }
        i += 1;
    }
    Ok((ItemID::new(name), string_of(&x), string_of(&y)))
}

/// Reads the lines of a save file: for each line of six bytes or more, in
/// order, what [`extract_item`] makes of it. Shorter lines are passed over.
pub fn load_path(text: &str) -> (r: Vec<Result<(ItemID, String, String), GameError>>)
    ensures
        r@.len() == save_lines(split_on(text@, '\n')).len(),
        forall|i: int|
            0 <= i < r@.len() ==> line_says(#[trigger] save_lines(split_on(text@, '\n'))[i], r@[i]),
{
    let lines = split(&chars_of(text), '\n');
    let ghost all = split_on(text@, '\n');
    let mut out: Vec<Result<(ItemID, String, String), GameError>> = Vec::new();
    let mut i: usize = 0;
    proof {
        assert(all.take(0) =~= Seq::<Seq<char>>::empty());
    }
    while i < lines.len()
        invariant
            i <= lines.len(),
            all == views(lines@),
            out@.len() == save_lines(all.take(i as int)).len(),
            forall|j: int|
                0 <= j < out@.len() ==> line_says(#[trigger] save_lines(all.take(i as int))[j], out@[j]),
        decreases lines.len() - i,
    {
        proof {
            let next = all.take(i + 1);
            assert(next.drop_last() =~= all.take(i as int));
            assert(next.last() == lines@[i as int]@);
        }
        if !is_too_short(&lines[i]) {
            let line = string_of(&lines[i]);
            let said = extract_item(line.as_str());
            let ghost before = save_lines(all.take(i as int));
            out.push(said);
            proof {
                assert(save_lines(all.take(i + 1)) == before.push(lines@[i as int]@));
            }
        }
        i += 1;
    }
    proof {
        assert(all.take(i as int) =~= all);
    }
    out
}

/// A step in replacing the save file. The caller carries out the step and
/// reports its outcome; [`next_step`] then gives the step that follows.
#[derive(Debug, Clone, Copy, PartialEq, Eq, Structural)]
pub enum SaveStep {
    /// Find out whether there is a save file; the outcome is whether there is.
    CheckLive,
    /// Rename the save file to the old file; the outcome is whether that
    /// worked.
    MoveAside,
    /// Write the new save file; the outcome is whether that worked.
    Write,
    /// Find out whether there is an old file; the outcome is whether there is.
    CheckOld,
    /// Rename the old file back to the save file.
    Restore,
    /// Nothing is left to do; the board was saved, or it was not.
    Done(bool),
}

/// The step that follows `step` after the given outcome.
///
/// A save file that exists is moved aside before the new one is written. A
/// write that fails is followed by putting the old file back, where there is
/// one, before the failure is reported.
pub open spec fn step_after(step: SaveStep, outcome: bool) -> SaveStep {
    match step {
        SaveStep::CheckLive => if outcome {
            SaveStep::MoveAside
        } else {
            SaveStep::Write
        },
        SaveStep::MoveAside => if outcome {
            SaveStep::Write
        } else {
            SaveStep::Done(false)
        },
        SaveStep::Write => if outcome {
            SaveStep::Done(true)
        } else {
            SaveStep::CheckOld
        },
        SaveStep::CheckOld => if outcome {
            SaveStep::Restore
        } else {
            SaveStep::Done(false)
        },
        SaveStep::Restore => SaveStep::Done(false),
        SaveStep::Done(saved) => SaveStep::Done(saved),
    }
}

/// The step that is reached from `step` after the given outcomes in turn.
pub open spec fn step_reached(step: SaveStep, outcomes: Seq<bool>) -> SaveStep
    decreases outcomes.len(),
{
    if outcomes.len() == 0 {
        step
    } else {
        step_after(step_reached(step, outcomes.drop_last()), outcomes.last())
    }
}

/// How many steps may still follow `step`, at most.
pub open spec fn steps_left(step: SaveStep) -> nat {
    match step {
        SaveStep::CheckLive => 5,
        SaveStep::MoveAside => 4,
        SaveStep::Write => 3,
        SaveStep::CheckOld => 2,
        SaveStep::Restore => 1,
        SaveStep::Done(_) => 0,
    }
}

/// Each step leaves fewer steps to follow, so that saving ends after five
/// outcomes at most.
pub proof fn lemma_saving_ends(outcomes: Seq<bool>)
    ensures
        steps_left(step_reached(SaveStep::CheckLive, outcomes)) + outcomes.len() <= 5
            || step_reached(SaveStep::CheckLive, outcomes) is Done,
        outcomes.len() >= 5 ==> step_reached(SaveStep::CheckLive, outcomes) is Done,
    decreases outcomes.len(),
{
    if outcomes.len() > 0 {
        lemma_saving_ends(outcomes.drop_last());
    }
}

/// Whether the outcome at position `k` is that of a write that worked, made
/// at a moment when no save file was in the way: the outcome before it was
/// that there was none, or that it had been moved aside.
pub open spec fn written_at(outcomes: Seq<bool>, k: int) -> bool {
    let start = SaveStep::CheckLive;
    &&& 1 <= k < outcomes.len()
    &&& step_reached(start, outcomes.take(k)) == SaveStep::Write
    &&& outcomes[k]
    &&& {
        ||| step_reached(start, outcomes.take(k - 1)) == SaveStep::CheckLive && !outcomes[k - 1]
        ||| step_reached(start, outcomes.take(k - 1)) == SaveStep::MoveAside && outcomes[k - 1]
    }
}

/// The board counts as saved only when the new file has been written, and
/// the new file is written only once no save file is in the way.
pub proof fn lemma_saved_means_written(outcomes: Seq<bool>)
    requires
        step_reached(SaveStep::CheckLive, outcomes) == SaveStep::Done(true),
    ensures
        exists|k: int| written_at(outcomes, k),
    decreases outcomes.len(),
{
    let start = SaveStep::CheckLive;
    let n = outcomes.len() as int;
    let head = outcomes.drop_last();
    let before = step_reached(start, head);
    if before == SaveStep::Done(true) {
        lemma_saved_means_written(head);
        let k = choose|k: int| written_at(head, k);
        assert(head.take(k) =~= outcomes.take(k));
        assert(head.take(k - 1) =~= outcomes.take(k - 1));
        assert(written_at(outcomes, k));
    } else {
        assert(before == SaveStep::Write);
        assert(outcomes.take(n - 1) =~= head);
        let earlier = head.drop_last();
        assert(outcomes.take(n - 2) =~= earlier);
        assert(written_at(outcomes, n - 1));
    }
}

/// The step that follows `step` after the given outcome; see [`step_after`].
pub fn next_step(step: SaveStep, outcome: bool) -> (r: SaveStep)
    ensures
        r == step_after(step, outcome),
{
    match step {
        SaveStep::CheckLive => if outcome {
            SaveStep::MoveAside
        } else {
            SaveStep::Write
        },
        SaveStep::MoveAside => if outcome {
            SaveStep::Write
        } else {
            SaveStep::Done(false)
        },
        SaveStep::Write => if outcome {
            SaveStep::Done(true)
        } else {
            SaveStep::CheckOld
        },
        SaveStep::CheckOld => if outcome {
            SaveStep::Restore
        } else {
            SaveStep::Done(false)
        },
        SaveStep::Restore => SaveStep::Done(false),
        SaveStep::Done(saved) => SaveStep::Done(saved),
    }
}

/// The first step of replacing the save file.
pub fn first_step() -> (r: SaveStep)
    ensures
        r == SaveStep::CheckLive,
{
    SaveStep::CheckLive
}

} // verus!
