//! Which placed item the player holds.

use vstd::prelude::*;

use crate::item::event::ItemEvent;

verus! {

/// The placed item that the player holds, if any.
#[derive(Debug)]
pub struct Seleced<E>(pub Option<E>);

/// What is held after the events, for a player who held `held` before them:
/// an item that is picked up is held from then on; a drop lets go, provided
/// that something was held before the events.
pub open spec fn held_after<E, P>(held: Option<E>, events: Seq<ItemEvent<E, P>>) -> Option<E>
    decreases events.len(),
{
    if events.len() == 0 {
        held
    } else {
        let before = held_after(held, events.drop_last());
        match events.last() {
            ItemEvent::Pickup(e) => Some(e),
            ItemEvent::Drop => if held is Some {
                None
            } else {
                before
            },
            _ => before,
        }
    }
}

/// Whether one of the events is a drop.
pub open spec fn has_drop<E, P>(events: Seq<ItemEvent<E, P>>) -> bool {
    exists|i: int| 0 <= i < events.len() && #[trigger] events[i] is Drop
}

/// Follows the events of one tick: gives what is held after them and, where
/// something that was held before them is dropped, that item, to be
/// announced as dropped. A drop with empty hands changes nothing.
pub fn set_selected<E: Copy, P>(res: &Seleced<E>, events: &Vec<ItemEvent<E, P>>) -> (r: (
    Seleced<E>,
    Option<E>,
))
    ensures
        r.0.0 == held_after(res.0, events@),
        r.1 == (if has_drop(events@) {
            res.0
        } else {
            None
        }),
{
    let mut held: Option<E> = res.0;
    let mut send: Option<E> = None;
    let mut i: usize = 0;
    proof {
        assert(events@.take(0) =~= Seq::<ItemEvent<E, P>>::empty());
    }
    while i < events.len()
        invariant
            i <= events.len(),
            held == held_after(res.0, events@.take(i as int)),
            send == (if has_drop(events@.take(i as int)) {
                res.0
            } else {
                None
            }),
        decreases events.len() - i,
    {
        let ghost seen = events@.take(i as int);
        let ghost next = events@.take(i + 1);
        proof {
            assert(next.drop_last() =~= seen);
            assert(next[i as int] == events@[i as int]);
            if has_drop(seen) {
                let j = choose|j: int| 0 <= j < seen.len() && #[trigger] seen[j] is Drop;
                assert(next[j] is Drop);
            }
            if has_drop(next) && !(events@[i as int] is Drop) {
                let j = choose|j: int| 0 <= j < next.len() && #[trigger] next[j] is Drop;
                assert(seen[j] is Drop);
            }
        }
        match &events[i] {
            ItemEvent::Pickup(e) => {
                held = Some(*e);
            },
            ItemEvent::Drop => {
                if let Some(e) = res.0 {
                    send = Some(e);
                    held = None;
                }
            },
            _ => {},
        }
        i += 1;
    }
    proof {
        assert(events@.take(i as int) =~= events@);
    }
    (Seleced(held), send)
}

} // verus!
