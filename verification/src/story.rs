//! The story: what the player has unlocked, and what follows from it.

use vstd::prelude::*;

use crate::item::event::{spawned, ItemEvent};
use crate::item::{item_id, ItemID};
use crate::recipies::trash_id;

verus! {

/// How many times the item `Bevy` has been placed on the board.
#[derive(Debug)]
pub struct BevyCount(pub usize);

/// What the player has unlocked.
#[derive(Debug, Clone, Copy, PartialEq, Eq, Structural)]
pub struct StoryFlags {
    pub unlocked_app: bool,
    pub has_trash: bool,
    pub has_items_space: bool,
}

/// What the story asks for.
#[derive(Debug, Clone, Copy, PartialEq, Eq, Structural)]
pub enum StoryEvent {
    /// Place the sink item at its corner of the board.
    SpawnTrash,
    /// Place the item `Totally a game`.
    SpawnApp,
    /// Open the panel of discovered items.
    SpawnItemSpace,
}

impl Default for StoryFlags {
    fn default() -> (r: StoryFlags)
        ensures
            r == (StoryFlags { unlocked_app: false, has_trash: false, has_items_space: false }),
    {
        StoryFlags { unlocked_app: false, has_trash: false, has_items_space: false }
    }
}

/// The item that unlocks the game proper.
pub open spec fn app_id() -> ItemID {
    item_id("Totally a game"@)
}

/// The item that opens the panel of discovered items.
pub open spec fn item_space_id() -> ItemID {
    item_id("Item Space"@)
}

/// The item that is counted by [`BevyCount`].
pub open spec fn bevy_id() -> ItemID {
    item_id("Bevy"@)
}

/// The item that keeps appearing once the game proper is unlocked.
pub open spec fn void_id() -> ItemID {
    item_id("Void"@)
}

/// How many of the events ask for `id` to be placed.
pub open spec fn spawns_of<E, P>(events: Seq<ItemEvent<E, P>>, id: ItemID) -> nat
    decreases events.len(),
{
    if events.len() == 0 {
        0
    } else {
        spawns_of(events.drop_last(), id) + (if spawned(events.last()) == Some(id) {
            1nat
        } else {
            0nat
        })
    }
}

/// How many of the identifiers are `id`.
pub open spec fn count_of(ids: Seq<ItemID>, id: ItemID) -> nat
    decreases ids.len(),
{
    if ids.len() == 0 {
        0
    } else {
        count_of(ids.drop_last(), id) + (if ids.last() == id {
            1nat
        } else {
            0nat
        })
    }
}

/// No more events ask for an item than there are events.
pub proof fn lemma_spawns_of<E, P>(events: Seq<ItemEvent<E, P>>, id: ItemID)
    ensures
        spawns_of(events, id) <= events.len(),
    decreases events.len(),
{
    if events.len() > 0 {
        lemma_spawns_of(events.drop_last(), id);
    }
}

/// The flags after the events: a flag is set once its item has been asked
/// for, and stays set.
pub open spec fn flags_after<E, P>(flags: StoryFlags, events: Seq<ItemEvent<E, P>>) -> StoryFlags {
    StoryFlags {
        unlocked_app: flags.unlocked_app || spawns_of(events, app_id()) > 0,
        has_trash: flags.has_trash || spawns_of(events, trash_id()) > 0,
        has_items_space: flags.has_items_space || spawns_of(events, item_space_id()) > 0,
    }
}

/// What is to be done when a saved story is taken up again: one request for
/// each flag that is set, in the order trash, game, panel.
pub open spec fn story_start(flags: StoryFlags) -> Seq<StoryEvent> {
    (if flags.has_trash {
        seq![StoryEvent::SpawnTrash]
    } else {
        Seq::empty()
    }) + (if flags.unlocked_app {
        seq![StoryEvent::SpawnApp]
    } else {
        Seq::empty()
    }) + (if flags.has_items_space {
        seq![StoryEvent::SpawnItemSpace]
    } else {
        Seq::empty()
    })
}

/// What is to be done when a saved story is taken up again.
pub fn load_story(res: &StoryFlags) -> (r: Vec<StoryEvent>)
    ensures
        r@ == story_start(*res),
{
    let mut out: Vec<StoryEvent> = Vec::new();
    if res.has_trash {
        out.push(StoryEvent::SpawnTrash);
    }
    if res.unlocked_app {
        out.push(StoryEvent::SpawnApp);
    }
    if res.has_items_space {
        out.push(StoryEvent::SpawnItemSpace);
    }
    proof {
        assert(out@ =~= story_start(*res));
    }
    out
}

/// Counts the events that ask for the item `Bevy` to be placed.
pub fn count_bevys<E, P>(res: &mut BevyCount, events: &Vec<ItemEvent<E, P>>)
    requires
        old(res).0 + events.len() <= usize::MAX,
    ensures
        final(res).0 == old(res).0 + spawns_of(events@, bevy_id()),
{
    let bevy = ItemID::from("Bevy");
    let mut i: usize = 0;
    proof {
        assert(events@.take(0) =~= Seq::<ItemEvent<E, P>>::empty());
    }
    while i < events.len()
        invariant
            i <= events.len(),
            bevy == bevy_id(),
            old(res).0 + events.len() <= usize::MAX,
            res.0 == old(res).0 + spawns_of(events@.take(i as int), bevy),
            spawns_of(events@.take(i as int), bevy) <= i,
        decreases events.len() - i,
    {
        proof {
            assert(events@.take(i + 1).drop_last() =~= events@.take(i as int));
        }
        match events[i].spawned_item() {
            Some(id) => {
                if id == bevy {
                    res.0 += 1;
                }
            },
            None => {},
        }
        i += 1;
    }
    proof {
        assert(events@.take(i as int) =~= events@);
    }
}

/// Follows the events of one tick: sets the flag of each story item that an
/// event asks to be placed. Says whether any flag was newly set, in which
/// case the flags are to be saved, and whether the panel of discovered items
/// was newly unlocked, in which case it is to be opened.
pub fn update_flags<E, P>(res: &mut StoryFlags, events: &Vec<ItemEvent<E, P>>) -> (r: (bool, bool))
    ensures
        *final(res) == flags_after(*old(res), events@),
        r.0 == (*final(res) != *old(res)),
        r.1 == (final(res).has_items_space && !old(res).has_items_space),
{
    let app_id = ItemID::new("Totally a game");
    let trash = ItemID::new("Trash");
    let item_box = ItemID::new("Item Space");
    let mut save = false;
    let mut open_panel = false;
    let mut i: usize = 0;
    proof {
        assert(events@.take(0) =~= Seq::<ItemEvent<E, P>>::empty());
    }
    while i < events.len()
        invariant
            i <= events.len(),
            app_id == self::app_id(),
            trash == trash_id(),
            item_box == item_space_id(),
            *res == flags_after(*old(res), events@.take(i as int)),
            save == (*res != *old(res)),
            open_panel == (res.has_items_space && !old(res).has_items_space),
        decreases events.len() - i,
    {
        proof {
            assert(events@.take(i + 1).drop_last() =~= events@.take(i as int));
        }
        match events[i].spawned_item() {
            Some(id) => {
                if !res.unlocked_app && id.id() == app_id.id() {
                    res.unlocked_app = true;
                    save = true;
                }
                if !res.has_trash && id.id() == trash.id() {
                    res.has_trash = true;
                    save = true;
                }
                if !res.has_items_space && id.id() == item_box.id() {
                    res.has_items_space = true;
                    save = true;
                    open_panel = true;
                }
            },
            None => {},
        }
        i += 1;
    }
    proof {
        assert(events@.take(i as int) =~= events@);
    }
    (save, open_panel)
}

/// The item to place so that the board does not run out of voids: `Void`
/// while fewer than five of the placed items are voids, nothing otherwise.
pub fn spawn_void(placed: &Vec<ItemID>) -> (r: Option<ItemID>)
    ensures
        r == (if count_of(placed@, void_id()) < 5 {
            Some(void_id())
        } else {
            None
        }),
{
    let void_id = ItemID::from("Void");
    let mut voids: usize = 0;
    let mut i: usize = 0;
    proof {
        assert(placed@.take(0) =~= Seq::<ItemID>::empty());
    }
    while i < placed.len()
        invariant
            i <= placed.len(),
            void_id == self::void_id(),
            voids == count_of(placed@.take(i as int), void_id),
            voids <= i,
        decreases placed.len() - i,
    {
        proof {
            assert(placed@.take(i + 1).drop_last() =~= placed@.take(i as int));
        }
        if placed[i] == void_id {
            voids += 1;
        }
        i += 1;
    }
    proof {
        assert(placed@.take(i as int) =~= placed@);
    }
    if voids < 5 {
        Some(void_id)
    } else {
        None
    }
}

/// The item that appears at every stroke of the clock.
pub fn spawn_time() -> (r: ItemID)
    ensures
        r == item_id("Time"@),
{
    ItemID::new("Time")
}

} // verus!
