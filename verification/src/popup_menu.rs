use std::rc::Rc;
use vstd::prelude::*;

use crate::ui_model::cell::rc_clone;

verus! {

/// One entry of Neovim's completion popup.
pub struct PopupMenuItem {
    pub word: String,
    pub kind: String,
    pub menu: String,
    pub info: String,
}

/// A handle to entry `pos` of a shared list of popup entries; it always
/// points at an existing entry.
pub struct PopupMenuItemRef {
    array: Rc<Vec<PopupMenuItem>>,
    pos: usize,
}

impl PopupMenuItemRef {
    #[verifier::type_invariant]
    spec fn in_bounds(self) -> bool {
        self.pos < (*self.array)@.len()
    }

    /// The list the handle points into.
    pub closed spec fn items(self) -> Seq<PopupMenuItem> {
        (*self.array)@
    }

    /// The index of the entry.
    pub closed spec fn index(self) -> int {
        self.pos as int
    }

    /// A handle to entry `pos`, if the list has one.
    pub fn new(array: &Rc<Vec<PopupMenuItem>>, pos: usize) -> (r: Option<Self>)
        ensures
            r is Some <==> pos < (**array)@.len(),
            r matches Some(h) ==> h.items() == (**array)@ && h.index() == pos,
    {
        if pos < array.len() {
            Some(PopupMenuItemRef { array: rc_clone(array), pos })
        } else {
            None
        }
    }

    /// The entry the handle points at.
    pub fn item(&self) -> (r: &PopupMenuItem)
        ensures
            *r == self.items()[self.index()],
    {
        proof {
            use_type_invariant(self);
        }
        &self.array[self.pos]
    }
}

impl Clone for PopupMenuItemRef {
    fn clone(&self) -> (r: Self)
        ensures
            r.items() == self.items(),
            r.index() == self.index(),
    {
        proof {
            use_type_invariant(self);
        }
        PopupMenuItemRef { array: rc_clone(&self.array), pos: self.pos }
    }
}

/// The change that replacing a list of `removed` entries by one of `added`
/// entries announces: everything from position 0 is removed and re-added.
pub fn reset_change(removed: usize, added: usize) -> (r: (u32, u32, u32))
    requires
        removed <= u32::MAX,
        added <= u32::MAX,
    ensures
        r == (0u32, removed as u32, added as u32),
{
    (0, removed as u32, added as u32)
}

/// The number of entries, as a list model reports it.
pub fn item_count(items: &Vec<PopupMenuItem>) -> (r: u32)
    requires
        items@.len() <= u32::MAX,
    ensures
        r == items@.len(),
{
    items.len() as u32
}

} // verus!
