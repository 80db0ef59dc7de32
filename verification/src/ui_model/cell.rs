use std::rc::Rc;
use vstd::prelude::*;

verus! {

/// Text attributes of a highlight group, as Neovim sends them.
/// Colours are 24-bit `0xRRGGBB` values.
pub struct Highlight {
    pub foreground: Option<u32>,
    pub background: Option<u32>,
    pub italic: bool,
    pub bold: bool,
}

impl Highlight {
    /// The default highlight: no colours and no attributes.
    pub open spec fn spec_default() -> Highlight {
        Highlight { foreground: None, background: None, italic: false, bold: false }
    }

    pub fn new() -> (hl: Highlight)
        ensures
            hl == Highlight::spec_default(),
    {
        Highlight { foreground: None, background: None, italic: false, bold: false }
    }
}

/// One cell of the grid.
pub struct Cell {
    pub ch: String,
    pub hl: Rc<Highlight>,
    pub double_width: bool,
    pub dirty: bool,
}

/// Another handle to the same shared value.
#[verifier::external_body]
pub(crate) fn rc_clone<T>(rc: &Rc<T>) -> (res: Rc<T>)
    ensures
        res == *rc,
{
    Rc::clone(rc)
}

impl Cell {
    /// A blank, dirty cell with the given highlight.
    pub open spec fn is_blank_with(self, hl: Highlight) -> bool {
        &&& self.ch@ == Seq::<char>::empty()
        &&& *self.hl == hl
        &&& !self.double_width
        &&& self.dirty
    }

    /// The same cell, flagged for a redraw.
    pub open spec fn with_dirty(self) -> Cell {
        Cell { dirty: true, ..self }
    }

    /// A blank, dirty cell with the default highlight.
    pub open spec fn is_empty_cell(self) -> bool {
        self.is_blank_with(Highlight::spec_default())
    }

    pub fn new_empty() -> (cell: Cell)
        ensures
            cell.is_empty_cell(),
    {
        Cell { ch: String::new(), hl: Rc::new(Highlight::new()), double_width: false, dirty: true }
    }

    /// Blanks the cell and gives it the highlight `hl`.
    pub fn clear(&mut self, hl: Rc<Highlight>)
        ensures
            final(self).is_blank_with(*hl),
    {
        self.ch = String::new();
        self.hl = hl;
        self.double_width = false;
        self.dirty = true;
    }
}

} // verus!
