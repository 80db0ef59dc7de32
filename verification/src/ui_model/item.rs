use vstd::prelude::*;

verus! {

/// Where a shaping item lies in the text of a styled line: its first byte and
/// its length in bytes.
#[derive(Clone, Copy)]
pub struct ItemSpan {
    pub offset: usize,
    pub length: usize,
}

/// A shaping item bound to the cells that render it.
pub struct Item {
    pub span: ItemSpan,
    pub cells_count: usize,
}

impl Item {
    pub fn new(span: &ItemSpan, cells_count: usize) -> (item: Item)
        ensures
            item.span == *span,
            item.cells_count == cells_count,
    {
        Item { span: *span, cells_count }
    }

    /// Rebinds the item to a new span and cell count.
    pub fn update(&mut self, span: &ItemSpan, cells_count: usize)
        ensures
            final(self).span == *span,
            final(self).cells_count == cells_count,
    {
        self.span = *span;
        self.cells_count = cells_count;
    }
}

} // verus!
