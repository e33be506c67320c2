//! The icons of the user interface, by name.

use vstd::hash_map::StringHashMap;
use vstd::prelude::*;

use crate::item::Item;

verus! {

/// The asset path of each named icon, and the path that stands in for an
/// icon without an entry.
pub struct UiIcons {
    icons: StringHashMap<String>,
    default: String,
}

impl UiIcons {
    /// The path of each named icon.
    pub closed spec fn paths(&self) -> Map<Seq<char>, Seq<char>> {
        Map::new(|name: Seq<char>| self.icons@.contains_key(name), |name: Seq<char>| self.icons@[name]@)
    }

    /// The path that stands in for an icon without an entry.
    pub closed spec fn fallback(&self) -> Seq<char> {
        self.default@
    }

    /// No icons, and the path that stands in for each.
    pub fn new(default: String) -> (r: UiIcons)
        ensures
            r.paths() == Map::<Seq<char>, Seq<char>>::empty(),
            r.fallback() == default@,
    {
        let r = UiIcons { icons: StringHashMap::new(), default };
        proof {
            assert(r.paths() =~= Map::<Seq<char>, Seq<char>>::empty());
        }
        r
    }

    /// The path of the icon `name`, or the stand-in where it has no entry.
    pub fn get(&self, name: &str) -> (r: String)
        ensures
            r@ == (if self.paths().contains_key(name@) {
                self.paths()[name@]
            } else {
                self.fallback()
            }),
    {
        match self.icons.get(name) {
            Some(h) => h.clone(),
            None => self.default.clone(),
        }
    }

    /// Enters `path` as the icon `name`, in place of any earlier entry.
    pub fn load(&mut self, name: &str, path: &str)
        ensures
            final(self).paths() == old(self).paths().insert(name@, path@),
            final(self).fallback() == old(self).fallback(),
    {
        let ghost before = self.paths();
        self.icons.insert(name.to_owned(), path.to_owned());
        proof {
            assert(self.paths() =~= before.insert(name@, path@));
        }
    }
}

/// The two texts of a tooltip.
#[derive(Debug, Clone, Copy, PartialEq, Eq, Structural)]
pub enum ToolTipText {
    Name,
    Description,
}

impl ToolTipText {
    /// What the text shows of `item`.
    pub fn text_of<'a>(&self, item: &'a Item<'a>) -> (r: &'a str)
        ensures
            r@ == (match self {
                ToolTipText::Name => item@.name,
                ToolTipText::Description => item@.description,
            }),
    {
        match self {
            ToolTipText::Name => item.name(),
            ToolTipText::Description => item.description(),
        }
    }

    /// The section of the tooltip that holds the text: the description
    /// comes first, the name second.
    pub fn section(&self) -> (r: usize)
        ensures
            r == (match self {
                ToolTipText::Name => 1usize,
                ToolTipText::Description => 0usize,
            }),
    {
        match self {
            ToolTipText::Name => 1,
            ToolTipText::Description => 0,
        }
    }
}

} // verus!
