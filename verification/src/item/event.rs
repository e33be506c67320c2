//! What happens to items, as events, and what the registry makes of them.

use vstd::prelude::*;

use crate::item::items::{with_id, Items};
use crate::item::ItemID;

verus! {

/// An event about items. `E` is what the engine uses to name a placed item,
/// `P` what it uses for a place on the board.
pub enum ItemEvent<E, P> {
    ToolTip(ItemID),
    Spawn(ItemID),
    SpawnAt(ItemID, P),
    Spawned(E),
    Pickup(E),
    Drop,
    Droped(E),
    CheckCombine(E, E),
    Found(ItemID),
}

/// The item that an event asks to be placed on the board, if it asks for one.
pub open spec fn spawned<E, P>(event: ItemEvent<E, P>) -> Option<ItemID> {
    match event {
        ItemEvent::Spawn(id) => Some(id),
        ItemEvent::SpawnAt(id, _) => Some(id),
        _ => None,
    }
}

/// The list of discovered items after the events: each item that an event
/// asks to be placed joins the list, unless the list holds it.
pub open spec fn discovered_after<E, P>(discovered: Seq<ItemID>, events: Seq<ItemEvent<E, P>>) -> Seq<
    ItemID,
>
    decreases events.len(),
{
    if events.len() == 0 {
        discovered
    } else {
        let before = discovered_after(discovered, events.drop_last());
        match spawned(events.last()) {
            Some(id) => with_id(before, id),
            None => before,
        }
    }
}

/// The list never loses what it held, and what joins it joins at the end.
pub proof fn lemma_discovered_after<E, P>(discovered: Seq<ItemID>, events: Seq<ItemEvent<E, P>>)
    ensures
        discovered_after(discovered, events).len() >= discovered.len(),
        discovered_after(discovered, events).take(discovered.len() as int) == discovered,
    decreases events.len(),
{
    if events.len() == 0 {
        assert(discovered.take(discovered.len() as int) =~= discovered);
    } else {
        lemma_discovered_after(discovered, events.drop_last());
        let before = discovered_after(discovered, events.drop_last());
        assert(discovered_after(discovered, events).take(discovered.len() as int) =~= before.take(
            discovered.len() as int,
        ));
    }
}

impl<E, P> ItemEvent<E, P> {
    /// The item that the event asks to be placed on the board.
    pub fn spawned_item(&self) -> (r: Option<ItemID>)
        ensures
            r == spawned(*self),
    {
        match self {
            ItemEvent::Spawn(id) => Some(*id),
            ItemEvent::SpawnAt(id, _) => Some(*id),
            _ => None,
        }
    }
}

/// Records as discovered each item that an event asks to be placed, and gives
/// the items that were not discovered before, each once, in the order in
/// which the events named them. Those are the ones to announce.
pub fn found_update<E, P>(items: &mut Items, events: &Vec<ItemEvent<E, P>>) -> (found: Vec<ItemID>)
    requires
        old(items).wf(),
    ensures
        final(items).wf(),
        final(items).records() == old(items).records(),
        final(items).ids() == old(items).ids(),
        final(items).index() == old(items).index(),
        final(items).fallback() == old(items).fallback(),
        final(items).discovered() == discovered_after(old(items).discovered(), events@),
        final(items).discovered() == old(items).discovered() + found@,
{
    let mut found: Vec<ItemID> = Vec::new();
    let mut i: usize = 0;
    proof {
        assert(events@.take(0) =~= Seq::<ItemEvent<E, P>>::empty());
        assert(old(items).discovered() + found@ =~= old(items).discovered());
    }
    while i < events.len()
        invariant
            i <= events.len(),
            items.wf(),
            items.records() == old(items).records(),
            items.ids() == old(items).ids(),
            items.index() == old(items).index(),
            items.fallback() == old(items).fallback(),
            items.discovered() == discovered_after(old(items).discovered(), events@.take(i as int)),
            items.discovered() == old(items).discovered() + found@,
        decreases events.len() - i,
    {
        proof {
            assert(events@.take(i + 1).drop_last() =~= events@.take(i as int));
        }
        match events[i].spawned_item() {
            Some(id) => {
                let ghost before = items.discovered();
                if items.discover(id) {
                    found.push(id);
                    proof {
                        assert(old(items).discovered() + found@ =~= before.push(id));
                    }
                }
            },
            None => {},
        }
        i += 1;
    }
    proof {
        assert(events@.take(i as int) =~= events@);
    }
    found
}

} // verus!
