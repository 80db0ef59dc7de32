use std::ops::Range;
use std::rc::Rc;
use vstd::prelude::*;

use super::cell::{rc_clone, Cell, Highlight};
use super::item::Item;

verus! {

pub type DirtyRange = Range<usize>;

pub open spec fn min_int(a: int, b: int) -> int {
    if a <= b { a } else { b }
}

pub open spec fn max_int(a: int, b: int) -> int {
    if a >= b { a } else { b }
}

pub open spec fn range_of(start: int, end: int) -> DirtyRange {
    Range { start: start as usize, end: end as usize }
}

/// The dirty range after marking the cells `start..=end` of a line of `len`
/// cells: both ends are clamped to the last cell, and the result is the
/// smallest range that covers the old range and the new one.
pub open spec fn marked(dirty: Option<DirtyRange>, len: int, start: int, end: int) -> Option<DirtyRange> {
    if len == 0 {
        dirty
    } else {
        let s = min_int(start, len - 1);
        let e = min_int(end, len - 1) + 1;
        match dirty {
            None => Some(range_of(s, e)),
            Some(r) => Some(range_of(min_int(r.start as int, s), max_int(r.end as int, e))),
        }
    }
}

/// On a line of `len` cells, `start` and `end` clamped to the last cell are
/// in order; any pair will do on an empty line.
pub open spec fn ordered_in(len: int, start: int, end: int) -> bool {
    len == 0 || min_int(start, len - 1) <= min_int(end, len - 1)
}

/// The range `0..len`, or nothing for an empty line.
pub open spec fn whole(len: int) -> Option<DirtyRange> {
    if len > 0 { Some(range_of(0, len)) } else { None }
}

/// The widest cell count among `items`, or nothing when there are none.
pub open spec fn max_cells(items: Seq<Item>) -> Option<usize>
    decreases items.len(),
{
    if items.len() == 0 {
        None
    } else {
        let last = items.last().cells_count;
        match max_cells(items.drop_last()) {
            None => Some(last),
            Some(m) => Some(if m >= last { m } else { last }),
        }
    }
}

/// Computes `max_cells`.
pub fn max_cells_count(items: &[Item]) -> (r: Option<usize>)
    ensures
        r == max_cells(items@),
{
    let mut best: Option<usize> = None;
    let mut i: usize = 0;
    while i < items.len()
        invariant
            i <= items@.len(),
            best == max_cells(items@.subrange(0, i as int)),
        decreases items@.len() - i,
    {
        assert(items@.subrange(0, i + 1).drop_last() == items@.subrange(0, i as int));
        let c = items[i].cells_count;
        best = match best {
            None => Some(c),
            Some(m) => Some(if m >= c { m } else { c }),
        };
        i = i + 1;
    }
    assert(items@.subrange(0, items@.len() as int) == items@);
    best
}

/// How a cell's text takes part in itemization.
#[derive(Clone, Copy, PartialEq, Eq, Structural)]
pub enum ItemizeCellKind {
    Whitespace,
    AsciiWord,
    Complex,
}

/// Characters with the Unicode `White_Space` property.
pub open spec fn is_unicode_whitespace(c: char) -> bool {
    let u = c as u32;
    ||| 0x09 <= u <= 0x0D
    ||| u == 0x20
    ||| u == 0x85
    ||| u == 0xA0
    ||| u == 0x1680
    ||| 0x2000 <= u <= 0x200A
    ||| u == 0x2028
    ||| u == 0x2029
    ||| u == 0x202F
    ||| u == 0x205F
    ||| u == 0x3000
}

/// Whether `c` has the Unicode `White_Space` property.
fn char_is_whitespace(c: char) -> (b: bool)
    ensures
        b == is_unicode_whitespace(c),
{
    let u = c as u32;
    (0x09 <= u && u <= 0x0D) || u == 0x20 || u == 0x85 || u == 0xA0 || u == 0x1680 || (0x2000 <= u
        && u <= 0x200A) || u == 0x2028 || u == 0x2029 || u == 0x202F || u == 0x205F || u == 0x3000
}

/// The text a cell renders: its content, or a single space when it has none.
pub open spec fn cell_text(cell: Cell) -> Seq<char> {
    if cell.ch@.len() == 0 {
        seq![' ']
    } else {
        cell.ch@
    }
}

/// A cell is whitespace if all of its text is, else an ASCII word if all of
/// its text is ASCII, else complex.
pub open spec fn cell_kind(cell: Cell) -> ItemizeCellKind {
    let text = cell_text(cell);
    if forall|i: int| 0 <= i < text.len() ==> is_unicode_whitespace(#[trigger] text[i]) {
        ItemizeCellKind::Whitespace
    } else if forall|i: int| 0 <= i < text.len() ==> (#[trigger] text[i] as u32) < 128 {
        ItemizeCellKind::AsciiWord
    } else {
        ItemizeCellKind::Complex
    }
}

/// Classifies a cell for itemization.
pub fn cell_itemize_kind(cell: &Cell) -> (k: ItemizeCellKind)
    ensures
        k == cell_kind(*cell),
{
    let text: &str = if cell.ch.as_str().is_empty() {
        " "
    } else {
        cell.ch.as_str()
    };
    proof {
        reveal_strlit(" ");
    }
    assert(text@ == cell_text(*cell));
    let n = text.unicode_len();
    let mut whitespace = true;
    let mut ascii = true;
    let mut i: usize = 0;
    while i < n
        invariant
            i <= n,
            n == text@.len(),
            whitespace == forall|j: int| 0 <= j < i ==> is_unicode_whitespace(#[trigger] text@[j]),
            ascii == forall|j: int| 0 <= j < i ==> (#[trigger] text@[j] as u32) < 128,
        decreases n - i,
    {
        let ch = text.get_char(i);
        if whitespace && !char_is_whitespace(ch) {
            whitespace = false;
        }
        if !((ch as u32) < 128) {
            ascii = false;
        }
        i = i + 1;
    }
    if whitespace {
        ItemizeCellKind::Whitespace
    } else if ascii {
        ItemizeCellKind::AsciiWord
    } else {
        ItemizeCellKind::Complex
    }
}

/// `range` cut down to a line of `len` cells: the end is at most `len` and the
/// start at most the end.
pub open spec fn clamp(range: DirtyRange, len: int) -> DirtyRange {
    let end = min_int(range.end as int, len);
    range_of(min_int(range.start as int, end), end)
}

/// A range that lies within a line of `len` cells.
pub open spec fn valid_range(range: DirtyRange, len: int) -> bool {
    range.start <= range.end <= len
}

/// `outer` covers `inner`.
pub open spec fn covers(outer: DirtyRange, inner: DirtyRange) -> bool {
    outer.start <= inner.start && inner.end <= outer.end
}

pub struct Line {
    pub line: Vec<Cell>,
    pub item_line: Vec<Vec<Item>>,
    pub cell_to_item: Vec<i32>,
    pub dirty_range: Option<DirtyRange>,
}

impl Line {
    /// The three per-cell tables have one entry per cell.
    pub open spec fn wf(&self) -> bool {
        &&& self.line@.len() <= usize::MAX
        &&& self.item_line@.len() == self.line@.len()
        &&& self.cell_to_item@.len() == self.line@.len()
    }

    /// The dirty range is absent, or non-empty and within the line.
    pub open spec fn dirty_ok(&self) -> bool {
        self.dirty_range matches Some(d) ==> d.start < d.end <= self.len()
    }

    pub open spec fn len(&self) -> int {
        self.line@.len() as int
    }

    /// Compared with `old`, only cells in `left..=right` may differ.
    pub open spec fn same_outside(&self, old: Line, left: int, right: int) -> bool {
        &&& self.line@.len() == old.line@.len()
        &&& forall|c: int| 0 <= c < old.line@.len() && !(left <= c <= right) ==> #[trigger] self.line@[c] == old.line@[c]
        &&& self.item_line == old.item_line
        &&& self.cell_to_item == old.cell_to_item
        &&& self.dirty_range == old.dirty_range
    }

    /// This line is `old` with the cells `left..=right` taken from `src`,
    /// flagged dirty, and that part marked dirty.
    pub open spec fn received(&self, old: Line, src: Line, left: int, right: int) -> bool {
        &&& self.line@.len() == old.line@.len()
        &&& forall|c: int| left <= c <= right ==> #[trigger] self.line@[c] == src.line@[c].with_dirty()
        &&& forall|c: int| 0 <= c < old.line@.len() && !(left <= c <= right) ==> #[trigger] self.line@[c] == old.line@[c]
        &&& self.item_line == old.item_line
        &&& self.cell_to_item == old.cell_to_item
        &&& self.dirty_range == marked(old.dirty_range, old.line@.len() as int, left, right)
    }

    /// This line is `old` with the cells `left..=right` blanked with the
    /// highlight `hl`, and that part marked dirty.
    pub open spec fn cleared(&self, old: Line, left: int, right: int, hl: Highlight) -> bool {
        &&& self.line@.len() == old.line@.len()
        &&& forall|c: int| left <= c <= right ==> #[trigger] self.line@[c].is_blank_with(hl)
        &&& forall|c: int| 0 <= c < old.line@.len() && !(left <= c <= right) ==> #[trigger] self.line@[c] == old.line@[c]
        &&& self.item_line == old.item_line
        &&& self.cell_to_item == old.cell_to_item
        &&& self.dirty_range == marked(old.dirty_range, old.line@.len() as int, left, right)
    }

    /// This line is `old` resized to `columns` cells: the cells that stay keep
    /// their content, glyphs and binding, new cells are empty and unbound, and
    /// the line is wholly dirty, unless it already had that width, in which
    /// case nothing changed.
    pub open spec fn resized_from(&self, old: Line, columns: int) -> bool {
        &&& self.wf()
        &&& self.len() == columns
        &&& old.len() == columns ==> *self == old
        &&& old.len() != columns ==> self.dirty_range == whole(columns)
        &&& forall|i: int| 0 <= i < columns && i < old.len() ==> #[trigger] self.same_at(&old, i)
        &&& forall|i: int| old.len() <= i < columns ==> #[trigger] self.fresh_at(i)
    }

    /// Cell `i` is empty and bound to no item.
    pub open spec fn fresh_at(&self, i: int) -> bool {
        &&& self.line@[i].is_empty_cell()
        &&& self.item_line@[i]@.len() == 0
        &&& self.cell_to_item@[i] == -1
    }

    /// Cell `i` has the same content, glyphs and binding in both lines.
    pub open spec fn same_at(&self, other: &Line, i: int) -> bool {
        &&& self.line@[i] == other.line@[i]
        &&& self.item_line@[i] == other.item_line@[i]
        &&& self.cell_to_item@[i] == other.cell_to_item@[i]
    }

    pub fn new(columns: usize) -> (line: Line)
        ensures
            line.wf(),
            line.len() == columns,
            forall|i: int| 0 <= i < columns ==> #[trigger] line.fresh_at(i),
            line.dirty_range == whole(columns as int),
            line.dirty_ok(),
            columns <= i32::MAX ==> line.bindings_ok(),
    {
        let mut cells: Vec<Cell> = Vec::new();
        let mut item_line: Vec<Vec<Item>> = Vec::new();
        let mut cell_to_item: Vec<i32> = Vec::new();
        let mut i: usize = 0;
        while i < columns
            invariant
                i <= columns,
                cells@.len() == i,
                item_line@.len() == i,
                cell_to_item@.len() == i,
                forall|j: int| 0 <= j < i ==> #[trigger] cells@[j].is_empty_cell(),
                forall|j: int| 0 <= j < i ==> #[trigger] item_line@[j]@.len() == 0,
                forall|j: int| 0 <= j < i ==> #[trigger] cell_to_item@[j] == -1,
            decreases columns - i,
        {
            cells.push(Cell::new_empty());
            item_line.push(Vec::new());
            cell_to_item.push(-1);
            i = i + 1;
        }
        let dirty_range = if columns > 0 { Some(0..columns) } else { None };
        Line { line: cells, item_line, cell_to_item, dirty_range }
    }

    /// Marks the cells `start..=end` as needing a redraw; both ends are clamped
    /// to the last cell. Nothing happens on an empty line.
    pub fn mark_dirty(&mut self, start: usize, end: usize)
        requires
            ordered_in(old(self).len(), start as int, end as int),
        ensures
            final(self).dirty_range == marked(old(self).dirty_range, old(self).len(), start as int, end as int),
            final(self).line == old(self).line,
            final(self).item_line == old(self).item_line,
            final(self).cell_to_item == old(self).cell_to_item,
            old(self).dirty_ok() ==> final(self).dirty_ok(),
    {
        let len = self.line.len();
        proof {
            if old(self).dirty_ok() && old(self).len() > 0 {
                law_marked_covers(old(self).dirty_range, old(self).len(), start as int, end as int);
            }
        }
        if len == 0 {
            return;
        }
        let start = if start < len - 1 { start } else { len - 1 };
        let end = if end < len - 1 { end } else { len - 1 };
        let range = dirty_range_inclusive(start, end);
        match self.dirty_range.take() {
            Some(mut existing) => {
                extend_dirty_range(&mut existing, range);
                self.dirty_range = Some(existing);
            },
            None => {
                self.dirty_range = Some(range);
            },
        }
    }

    /// Changes the number of cells. Cells that stay keep their content, glyphs
    /// and item binding; new cells are empty and unbound. Unless the width
    /// was already `columns`, the whole line becomes dirty.
    pub fn resize(&mut self, columns: usize)
        requires
            old(self).wf(),
        ensures
            final(self).resized_from(*old(self), columns as int),
            old(self).dirty_ok() ==> final(self).dirty_ok(),
            old(self).bindings_ok() && columns <= i32::MAX ==> final(self).bindings_ok(),
    {
        let old_len = self.line.len();
        if old_len == columns {
            return;
        }
        if columns > old_len {
            let mut i: usize = old_len;
            while i < columns
                invariant
                    old_len <= i <= columns,
                    old_len == old(self).line@.len(),
                    old(self).wf(),
                    self.wf(),
                    self.line@.len() == i,
                    forall|j: int| 0 <= j < old_len ==> #[trigger] self.same_at(old(self), j),
                    forall|j: int| old_len <= j < i ==> #[trigger] self.fresh_at(j),
                decreases columns - i,
            {
                let ghost prev = *self;
                self.line.push(Cell::new_empty());
                self.item_line.push(Vec::new());
                self.cell_to_item.push(-1);
                assert forall|j: int| 0 <= j < old_len implies #[trigger] self.same_at(old(self), j) by {
                    assert(prev.same_at(old(self), j));
                }
                assert forall|j: int| old_len <= j < i + 1 implies #[trigger] self.fresh_at(j) by {
                    if j < i {
                        assert(prev.fresh_at(j));
                    }
                }
                i = i + 1;
            }
        } else {
            self.line.truncate(columns);
            self.item_line.truncate(columns);
            self.cell_to_item.truncate(columns);
            assert forall|j: int| 0 <= j < columns implies #[trigger] self.same_at(old(self), j) by {}
        }
        let ghost before = *self;
        self.dirty_range = if columns > 0 { Some(0..columns) } else { None };
        assert forall|j: int| 0 <= j < columns && j < old_len implies #[trigger] self.same_at(old(self), j) by {
            assert(before.same_at(old(self), j));
        }
        assert forall|j: int| old_len <= j < columns implies #[trigger] self.fresh_at(j) by {
            assert(before.fresh_at(j));
        }
        proof {
            if old(self).bindings_ok() && columns <= i32::MAX {
                assert forall|c: int| 0 <= c < self.len() implies (#[trigger] self.cell_to_item@[c]) <= c by {
                    if c < old_len {
                        assert(self.same_at(old(self), c));
                    } else {
                        assert(self.fresh_at(c));
                    }
                }
                assert forall|c: int, j: int| 0 <= c < self.len() && 0 <= j < self.item_line@[c]@.len()
                    implies (#[trigger] self.item_line@[c]@[j]).cells_count <= i32::MAX by {
                    if c < old_len {
                        assert(self.same_at(old(self), c));
                    } else {
                        assert(self.fresh_at(c));
                    }
                }
            }
        }
    }

    #[inline]
    pub fn is_dirty(&self) -> (r: bool)
        ensures
            r == self.dirty_range.is_some(),
    {
        self.dirty_range.is_some()
    }

    #[inline]
    pub fn dirty_range(&self) -> (r: Option<DirtyRange>)
        ensures
            r == self.dirty_range,
    {
        match &self.dirty_range {
            Some(r) => Some(r.start..r.end),
            None => None,
        }
    }

    pub fn take_dirty_range(&mut self) -> (r: Option<DirtyRange>)
        ensures
            r == old(self).dirty_range,
            final(self).dirty_range.is_none(),
            final(self).line == old(self).line,
            final(self).item_line == old(self).item_line,
            final(self).cell_to_item == old(self).cell_to_item,
    {
        self.dirty_range.take()
    }

    pub fn clear_dirty(&mut self)
        ensures
            final(self).dirty_range.is_none(),
            final(self).line == old(self).line,
            final(self).item_line == old(self).item_line,
            final(self).cell_to_item == old(self).cell_to_item,
    {
        self.dirty_range = None;
    }

    /// Exchanges the cells `left..=right` of the two lines. The cells that
    /// arrive in `target` are flagged dirty, and so is that part of `target`.
    pub fn swap_with(&mut self, target: &mut Self, left: usize, right: usize)
        requires
            left <= right,
            right < old(self).len(),
            right < old(target).len(),
        ensures
            final(self).same_outside(*old(self), left as int, right as int),
            forall|i: int| left <= i <= right ==> #[trigger] final(self).line@[i] == old(target).line@[i],
            final(target).received(*old(target), *old(self), left as int, right as int),
            old(self).dirty_ok() ==> final(self).dirty_ok(),
            old(target).dirty_ok() ==> final(target).dirty_ok(),
    {
        // Reading the length brings into scope that it fits in a usize.
        let _: usize = self.line.len();
        let mut i: usize = left;
        while i <= right
            invariant
                left <= i <= right + 1,
                right < usize::MAX,
                right < self.line@.len(),
                right < target.line@.len(),
                self.line@.len() == old(self).line@.len(),
                target.line@.len() == old(target).line@.len(),
                forall|j: int| left <= j < i ==> #[trigger] self.line@[j] == old(target).line@[j],
                forall|j: int| left <= j < i ==> #[trigger] target.line@[j] == old(self).line@[j],
                forall|j: int| 0 <= j < self.line@.len() && !(left <= j < i) ==> #[trigger] self.line@[j] == old(self).line@[j],
                forall|j: int| 0 <= j < target.line@.len() && !(left <= j < i) ==> #[trigger] target.line@[j] == old(target).line@[j],
                self.item_line == old(self).item_line,
                self.cell_to_item == old(self).cell_to_item,
                self.dirty_range == old(self).dirty_range,
                target.item_line == old(target).item_line,
                target.cell_to_item == old(target).cell_to_item,
                target.dirty_range == old(target).dirty_range,
            decreases right + 1 - i,
        {
            std::mem::swap(&mut self.line[i], &mut target.line[i]);
            i = i + 1;
        }
        target.mark_dirty(left, right);
        // Reading the length brings into scope that it fits in a usize.
        let _: usize = self.line.len();
        let mut i: usize = left;
        while i <= right
            invariant
                left <= i <= right + 1,
                right < usize::MAX,
                right < target.line@.len(),
                target.line@.len() == old(target).line@.len(),
                forall|j: int| left <= j < i ==> #[trigger] target.line@[j] == old(self).line@[j].with_dirty(),
                forall|j: int| i <= j <= right ==> #[trigger] target.line@[j] == old(self).line@[j],
                forall|j: int| 0 <= j < target.line@.len() && !(left <= j <= right) ==> #[trigger] target.line@[j] == old(target).line@[j],
                target.item_line == old(target).item_line,
                target.cell_to_item == old(target).cell_to_item,
                target.dirty_range == marked(old(target).dirty_range, old(target).len(), left as int, right as int),
            decreases right + 1 - i,
        {
            target.line[i].dirty = true;
            i = i + 1;
        }
    }

    /// Blanks the cells `left..=right` with the highlight `default_hl` and marks
    /// them dirty.
    pub fn clear(&mut self, left: usize, right: usize, default_hl: &Rc<Highlight>)
        requires
            left <= right < old(self).len(),
        ensures
            final(self).cleared(*old(self), left as int, right as int, **default_hl),
            old(self).dirty_ok() ==> final(self).dirty_ok(),
    {
        // Reading the length brings into scope that it fits in a usize.
        let _: usize = self.line.len();
        let mut i: usize = left;
        while i <= right
            invariant
                left <= i <= right + 1,
                right < usize::MAX,
                right < self.line@.len(),
                self.line@.len() == old(self).line@.len(),
                forall|j: int| left <= j < i ==> #[trigger] self.line@[j].is_blank_with(**default_hl),
                forall|j: int| 0 <= j < self.line@.len() && !(left <= j < i) ==> #[trigger] self.line@[j] == old(self).line@[j],
                self.item_line == old(self).item_line,
                self.cell_to_item == old(self).cell_to_item,
                self.dirty_range == old(self).dirty_range,
            decreases right + 1 - i,
        {
            self.line[i].clear(rc_clone(default_hl));
            i = i + 1;
        }
        self.mark_dirty(left, right);
    }

    /// Drops every shaped item of the line and marks the whole line dirty.
    pub fn clear_glyphs(&mut self)
        requires
            old(self).wf(),
        ensures
            final(self).wf(),
            final(self).line == old(self).line,
            forall|i: int| 0 <= i < old(self).len() ==> #[trigger] final(self).item_line@[i]@.len() == 0,
            forall|i: int| 0 <= i < old(self).len() ==> #[trigger] final(self).cell_to_item@[i] == -1,
            final(self).dirty_range == if old(self).len() > 0 { whole(old(self).len()) } else { old(self).dirty_range },
            old(self).dirty_ok() ==> final(self).dirty_ok(),
            old(self).len() <= i32::MAX ==> final(self).bindings_ok(),
    {
        let n = self.item_line.len();
        let mut i: usize = 0;
        while i < n
            invariant
                i <= n,
                n == self.line@.len(),
                self.wf(),
                self.line == old(self).line,
                self.dirty_range == old(self).dirty_range,
                forall|j: int| 0 <= j < i ==> #[trigger] self.item_line@[j]@.len() == 0,
                forall|j: int| 0 <= j < i ==> #[trigger] self.cell_to_item@[j] == -1,
            decreases n - i,
        {
            self.item_line.set(i, Vec::new());
            self.cell_to_item.set(i, -1);
            i = i + 1;
        }
        if self.line.len() > 0 {
            self.dirty_range = Some(0..self.line.len());
        }
    }

    /// The cells of the item that covers cell `c`, if the cached binding of
    /// `c` names an item that still covers it.
    pub open spec fn item_bounds_spec(&self, c: int) -> Option<DirtyRange> {
        let it = self.cell_to_item@[c] as int;
        if it < 0 || it >= self.item_line@.len() || it > c {
            None
        } else {
            let count = match max_cells(self.item_line@[it]@) {
                Some(m) => m as int,
                None => 1,
            };
            let end = min_int(it + count, self.len());
            if c < end {
                Some(range_of(it, end))
            } else {
                None
            }
        }
    }


    /// Walking left from cell `i` over the second halves of double-width
    /// characters: the first cell reached that is not one, or cell 0.
    pub open spec fn dw_left(&self, i: int) -> int
        decreases i,
    {
        if i > 0 && self.line@[i].double_width {
            self.dw_left(i - 1)
        } else {
            i
        }
    }

    /// Walking right from position `i` over double-width continuation cells:
    /// the first position that is not one, or the end of the line.
    pub open spec fn dw_right(&self, i: int) -> int
        decreases self.len() - i,
    {
        if 0 <= i < self.len() && self.line@[i].double_width {
            self.dw_right(i + 1)
        } else {
            i
        }
    }

    /// The clamped range, widened so that it neither starts nor ends inside
    /// a double-width character.
    pub open spec fn with_double_width_spec(&self, range: DirtyRange) -> DirtyRange {
        let c = clamp(range, self.len());
        if c.start >= c.end {
            c
        } else {
            range_of(self.dw_left(c.start as int), self.dw_right(c.end as int))
        }
    }

    /// The nearest cell left of `i` that is rendered, i.e. is not the second
    /// half of a double-width character.
    pub open spec fn prev_rc(&self, i: int) -> Option<int>
        decreases i,
    {
        if i <= 0 {
            None
        } else if !self.line@[i - 1].double_width {
            Some(i - 1)
        } else {
            self.prev_rc(i - 1)
        }
    }

    /// The nearest rendered cell at or right of `j`.
    pub open spec fn next_rc_from(&self, j: int) -> Option<int>
        decreases self.len() - j,
    {
        if j >= self.len() || j < 0 {
            None
        } else if !self.line@[j].double_width {
            Some(j)
        } else {
            self.next_rc_from(j + 1)
        }
    }

    /// The nearest rendered cell right of `i`.
    pub open spec fn next_rc(&self, i: int) -> Option<int> {
        self.next_rc_from(i + 1)
    }

    /// Where the ASCII word around cell `c` starts, going left over rendered
    /// cells while they are ASCII words.
    pub open spec fn ascii_left(&self, c: int) -> int
        decreases c,
    {
        match self.prev_rc(c) {
            Some(p) => if 0 <= p < c && cell_kind(self.line@[p]) == ItemizeCellKind::AsciiWord {
                self.ascii_left(p)
            } else {
                c
            },
            None => c,
        }
    }

    /// The last cell of the ASCII word around cell `c`.
    pub open spec fn ascii_right(&self, c: int) -> int
        decreases self.len() - c,
    {
        match self.next_rc(c) {
            Some(n) => if c < n < self.len() && cell_kind(self.line@[n]) == ItemizeCellKind::AsciiWord {
                self.ascii_right(n)
            } else {
                c
            },
            None => c,
        }
    }

    /// Cell `c` is a rendered ASCII-word cell.
    pub open spec fn ascii_cell(&self, c: int) -> bool {
        !self.line@[c].double_width && cell_kind(self.line@[c]) == ItemizeCellKind::AsciiWord
    }

    /// Widens `s..e` by the ASCII words around each ASCII cell in `idx..hi`.
    pub open spec fn ascii_scan(&self, idx: int, hi: int, s: int, e: int) -> (int, int)
        decreases hi - idx,
    {
        if idx >= hi {
            (s, e)
        } else if !self.ascii_cell(idx) {
            self.ascii_scan(idx + 1, hi, s, e)
        } else {
            self.ascii_scan(idx + 1, hi, min_int(s, self.ascii_left(idx)), max_int(e, self.ascii_right(idx) + 1))
        }
    }

    /// The clamped range, widened to whole ASCII words.
    pub open spec fn ascii_runs_spec(&self, range: DirtyRange) -> DirtyRange {
        let c = clamp(range, self.len());
        let se = self.ascii_scan(c.start as int, c.end as int, c.start as int, c.end as int);
        range_of(se.0, se.1)
    }

    /// Widens `s..e` to the items met while walking from `idx` to the end of
    /// the (growing) range; the walk jumps over each item it meets.
    pub open spec fn item_scan(&self, idx: int, s: int, e: int) -> (int, int)
        decreases self.len() - idx,
    {
        if idx >= e || idx >= self.len() || idx < 0 {
            (s, e)
        } else {
            match self.item_bounds_spec(idx) {
                Some(ir) => if ir.end as int > idx {
                    self.item_scan(ir.end as int, min_int(s, ir.start as int), max_int(e, ir.end as int))
                } else {
                    (s, e)
                },
                None => self.item_scan(idx + 1, s, e),
            }
        }
    }

    /// The clamped range, widened to whole items.
    pub open spec fn item_bounds_range_spec(&self, range: DirtyRange) -> DirtyRange {
        let c = clamp(range, self.len());
        let se = self.item_scan(c.start as int, c.start as int, c.end as int);
        range_of(se.0, se.1)
    }

    /// One round of widening: to items, to ASCII words, then to whole
    /// double-width characters.
    pub open spec fn expand_step(&self, range: DirtyRange) -> DirtyRange {
        self.with_double_width_spec(self.ascii_runs_spec(self.item_bounds_range_spec(range)))
    }

    /// `n` rounds of widening.
    pub open spec fn expand_iter(&self, range: DirtyRange, n: nat) -> DirtyRange
        decreases n,
    {
        if n == 0 {
            range
        } else {
            self.expand_step(self.expand_iter(range, (n - 1) as nat))
        }
    }

    #[inline]
    pub fn cell_to_item(&self, cell_idx: usize) -> (r: i32)
        requires
            cell_idx < self.cell_to_item@.len(),
        ensures
            r == self.cell_to_item@[cell_idx as int],
    {
        self.cell_to_item[cell_idx]
    }

    #[inline]
    pub fn is_binded_to_item(&self, cell_idx: usize) -> (r: bool)
        requires
            cell_idx < self.cell_to_item@.len(),
        ensures
            r == (self.cell_to_item@[cell_idx as int] >= 0),
    {
        self.cell_to_item[cell_idx] >= 0
    }

    /// The items bound to cell `cell_idx`; none for an unbound cell.
    pub fn get_items(&self, cell_idx: usize) -> (r: &[Item])
        requires
            cell_idx < self.cell_to_item@.len(),
            self.cell_to_item@[cell_idx as int] >= 0 ==> self.cell_to_item@[cell_idx as int] < self.item_line@.len(),
        ensures
            self.cell_to_item@[cell_idx as int] >= 0 ==> r@ == self.item_line@[self.cell_to_item@[cell_idx as int] as int]@,
            self.cell_to_item@[cell_idx as int] < 0 ==> r@.len() == 0,
    {
        let item_idx = self.cell_to_item(cell_idx);
        if item_idx >= 0 {
            self.item_line[item_idx as usize].as_slice()
        } else {
            &[]
        }
    }

    /// How many cells, from `start_idx` on, belong to the item that covers it;
    /// 1 for an unbound cell.
    pub fn item_len_from_idx(&self, start_idx: usize) -> (r: usize)
        requires
            self.wf(),
            start_idx < self.len(),
            self.cell_to_item@[start_idx as int] >= 0 ==> {
                let it = self.cell_to_item@[start_idx as int] as int;
                &&& it <= start_idx
                &&& max_cells(self.item_line@[it]@) is Some
                &&& start_idx - it <= max_cells(self.item_line@[it]@)->0
            },
        ensures
            self.cell_to_item@[start_idx as int] < 0 ==> r == 1,
            self.cell_to_item@[start_idx as int] >= 0 ==> r == max_cells(self.item_line@[self.cell_to_item@[start_idx as int] as int]@)->0
                - (start_idx - self.cell_to_item@[start_idx as int]),
    {
        let item_idx = self.cell_to_item(start_idx);
        if item_idx >= 0 {
            let item_idx = item_idx as usize;
            let cells_count = match max_cells_count(self.item_line[item_idx].as_slice()) {
                Some(c) => c,
                None => 0,
            };
            let offset = start_idx - item_idx;
            cells_count - offset
        } else {
            1
        }
    }

    pub fn item_bounds(&self, cell_idx: usize) -> (r: Option<DirtyRange>)
        requires
            self.wf(),
            cell_idx < self.len(),
        ensures
            r == self.item_bounds_spec(cell_idx as int),
    {
        let item_idx = self.cell_to_item(cell_idx);
        if item_idx < 0 {
            return None;
        }
        let item_idx = item_idx as usize;
        if item_idx >= self.item_line.len() || item_idx > cell_idx {
            return None;
        }
        let cells_count = match max_cells_count(self.item_line[item_idx].as_slice()) {
            Some(c) => c,
            None => 1,
        };
        let sum = item_idx.saturating_add(cells_count);
        let end = if sum < self.line.len() { sum } else { self.line.len() };
        if item_idx <= cell_idx && cell_idx < end {
            Some(item_idx..end)
        } else {
            None
        }
    }

    /// Unbinds cell `cell_idx` from its item, if it has one, and marks it dirty.
    /// Tells whether the cell was bound.
    pub(crate) fn set_cell_to_empty(&mut self, cell_idx: usize) -> (r: bool)
        requires
            old(self).wf(),
            cell_idx < old(self).len(),
        ensures
            final(self).wf(),
            r == (old(self).cell_to_item@[cell_idx as int] >= 0),
            !r ==> *final(self) == *old(self),
            r ==> final(self).line@ == old(self).line@.update(cell_idx as int, old(self).line@[cell_idx as int].with_dirty()),
            r ==> final(self).item_line@[cell_idx as int]@.len() == 0,
            r ==> forall|i: int| 0 <= i < old(self).len() && i != cell_idx ==> #[trigger] final(self).item_line@[i] == old(self).item_line@[i],
            r ==> final(self).cell_to_item@ == old(self).cell_to_item@.update(cell_idx as int, -1i32),
            r ==> final(self).dirty_range == marked(old(self).dirty_range, old(self).len(), cell_idx as int, cell_idx as int),
    {
        if self.is_binded_to_item(cell_idx) {
            self.item_line.set(cell_idx, Vec::new());
            self.cell_to_item.set(cell_idx, -1);
            self.line[cell_idx].dirty = true;
            self.mark_dirty(cell_idx, cell_idx);
            true
        } else {
            false
        }
    }

    fn clamp_dirty_range(&self, range: DirtyRange) -> (r: DirtyRange)
        ensures
            r == clamp(range, self.len()),
    {
        let len = self.line.len();
        let end = if range.end < len { range.end } else { len };
        let start = if range.start < end { range.start } else { end };
        start..end
    }

    fn include_double_width_cells(&self, range: DirtyRange) -> (r: DirtyRange)
        ensures
            r == self.with_double_width_spec(range),
    {
        let range = self.clamp_dirty_range(range);
        if range.start >= range.end {
            return range;
        }
        let mut start = range.start;
        while start > 0 && self.line[start].double_width
            invariant
                start < self.len(),
                self.dw_left(start as int) == self.dw_left(range.start as int),
            decreases start,
        {
            start = start - 1;
        }
        let mut end = range.end;
        while end < self.line.len() && self.line[end].double_width
            invariant
                end <= self.len(),
                self.dw_right(end as int) == self.dw_right(range.end as int),
            decreases self.len() - end,
        {
            end = end + 1;
        }
        start..end
    }

    fn prev_render_cell(&self, cell_idx: usize) -> (r: Option<usize>)
        requires
            cell_idx <= self.len(),
        ensures
            r is Some == self.prev_rc(cell_idx as int) is Some,
            r is Some ==> r->0 as int == self.prev_rc(cell_idx as int)->0,
            r is Some ==> r->0 < cell_idx,
    {
        if cell_idx == 0 {
            return None;
        }
        let mut idx = cell_idx - 1;
        loop
            invariant
                idx < cell_idx <= self.len(),
                self.prev_rc(idx + 1) == self.prev_rc(cell_idx as int),
            decreases idx,
        {
            if !self.line[idx].double_width {
                return Some(idx);
            }
            if idx == 0 {
                assert(self.prev_rc(0) is None);
                return None;
            }
            idx = idx - 1;
        }
    }

    fn next_render_cell(&self, cell_idx: usize) -> (r: Option<usize>)
        requires
            cell_idx < self.len(),
        ensures
            r is Some == self.next_rc(cell_idx as int) is Some,
            r is Some ==> r->0 as int == self.next_rc(cell_idx as int)->0,
            r is Some ==> cell_idx < r->0 < self.len(),
    {
        // Reading the length brings into scope that it fits in a usize.
        let _: usize = self.line.len();
        let mut idx = cell_idx + 1;
        while idx < self.line.len()
            invariant
                cell_idx < idx <= self.len(),
                self.next_rc_from(idx as int) == self.next_rc(cell_idx as int),
            decreases self.len() - idx,
        {
            if !self.line[idx].double_width {
                return Some(idx);
            }
            idx = idx + 1;
        }
        None
    }

    fn expand_to_item_bounds(&self, range: DirtyRange) -> (r: DirtyRange)
        requires
            self.wf(),
        ensures
            r == self.item_bounds_range_spec(range),
    {
        let range = self.clamp_dirty_range(range);
        let mut cell_idx = range.start;
        let mut expanded = range.start..range.end;
        while cell_idx < expanded.end
            invariant
                self.wf(),
                expanded.end <= self.len(),
                range == clamp(range, self.len()),
                self.item_scan(cell_idx as int, expanded.start as int, expanded.end as int)
                    == self.item_scan(range.start as int, range.start as int, range.end as int),
            decreases self.len() - cell_idx,
        {
            match self.item_bounds(cell_idx) {
                Some(item_range) => {
                    if item_range.start < expanded.start {
                        expanded.start = item_range.start;
                    }
                    if item_range.end > expanded.end {
                        expanded.end = item_range.end;
                    }
                    cell_idx = item_range.end;
                },
                None => {
                    cell_idx = cell_idx + 1;
                },
            }
        }
        expanded
    }

    fn expand_to_ascii_runs(&self, range: DirtyRange) -> (r: DirtyRange)
        requires
            self.wf(),
        ensures
            r == self.ascii_runs_spec(range),
    {
        let range = self.clamp_dirty_range(range);
        let mut expanded = range.start..range.end;
        let mut cell_idx = range.start;
        while cell_idx < range.end
            invariant
                self.wf(),
                range == clamp(range, self.len()),
                range.start <= cell_idx <= range.end,
                range.end <= self.len(),
                self.ascii_scan(cell_idx as int, range.end as int, expanded.start as int, expanded.end as int)
                    == self.ascii_scan(range.start as int, range.end as int, range.start as int, range.end as int),
            decreases range.end - cell_idx,
        {
            if self.line[cell_idx].double_width
                || cell_itemize_kind(&self.line[cell_idx]) != ItemizeCellKind::AsciiWord {
                cell_idx = cell_idx + 1;
                continue;
            }
            let mut left = cell_idx;
            loop
                invariant
                    left <= cell_idx < self.len(),
                    self.ascii_left(left as int) == self.ascii_left(cell_idx as int),
                ensures
                    left <= cell_idx,
                    left as int == self.ascii_left(cell_idx as int),
                decreases left,
            {
                match self.prev_render_cell(left) {
                    Some(prev_idx) => {
                        if cell_itemize_kind(&self.line[prev_idx]) != ItemizeCellKind::AsciiWord {
                            break;
                        }
                        left = prev_idx;
                    },
                    None => {
                        break;
                    },
                }
            }
            let mut right = cell_idx;
            loop
                invariant
                    cell_idx <= right < self.len(),
                    self.ascii_right(right as int) == self.ascii_right(cell_idx as int),
                ensures
                    cell_idx <= right < self.len(),
                    right as int == self.ascii_right(cell_idx as int),
                decreases self.len() - right,
            {
                match self.next_render_cell(right) {
                    Some(next_idx) => {
                        if cell_itemize_kind(&self.line[next_idx]) != ItemizeCellKind::AsciiWord {
                            break;
                        }
                        right = next_idx;
                    },
                    None => {
                        break;
                    },
                }
            }
            if left < expanded.start {
                expanded.start = left;
            }
            if right + 1 > expanded.end {
                expanded.end = right + 1;
            }
            cell_idx = cell_idx + 1;
        }
        expanded
    }

    proof fn lemma_dw_left(&self, i: int)
        requires
            0 <= i,
        ensures
            0 <= self.dw_left(i) <= i,
        decreases i,
    {
        if i > 0 && self.line@[i].double_width {
            self.lemma_dw_left(i - 1);
        }
    }

    proof fn lemma_dw_right(&self, i: int)
        requires
            i <= self.len(),
        ensures
            i <= self.dw_right(i) <= self.len(),
        decreases self.len() - i,
    {
        if 0 <= i < self.len() && self.line@[i].double_width {
            self.lemma_dw_right(i + 1);
        }
    }

    /// Widening to whole double-width characters gives a range within the line
    /// that covers the clamped input.
    proof fn lemma_with_double_width(&self, range: DirtyRange)
        requires
            self.wf(),
        ensures
            valid_range(self.with_double_width_spec(range), self.len()),
            covers(self.with_double_width_spec(range), clamp(range, self.len())),
    {
        let c = clamp(range, self.len());
        if c.start < c.end {
            self.lemma_dw_left(c.start as int);
            self.lemma_dw_right(c.end as int);
        }
    }

    proof fn lemma_prev_rc(&self, i: int)
        ensures
            self.prev_rc(i) matches Some(p) ==> 0 <= p < i,
        decreases i,
    {
        if i > 0 && self.line@[i - 1].double_width {
            self.lemma_prev_rc(i - 1);
        }
    }

    proof fn lemma_ascii_left(&self, c: int)
        requires
            0 <= c,
        ensures
            0 <= self.ascii_left(c) <= c,
        decreases c,
    {
        self.lemma_prev_rc(c);
        match self.prev_rc(c) {
            Some(p) => {
                if 0 <= p < c && cell_kind(self.line@[p]) == ItemizeCellKind::AsciiWord {
                    self.lemma_ascii_left(p);
                }
            },
            None => {},
        }
    }

    proof fn lemma_ascii_right(&self, c: int)
        requires
            0 <= c < self.len(),
        ensures
            c <= self.ascii_right(c) < self.len(),
        decreases self.len() - c,
    {
        match self.next_rc(c) {
            Some(n) => {
                if c < n < self.len() && cell_kind(self.line@[n]) == ItemizeCellKind::AsciiWord {
                    self.lemma_ascii_right(n);
                }
            },
            None => {},
        }
    }

    proof fn lemma_ascii_scan(&self, idx: int, hi: int, s: int, e: int)
        requires
            0 <= idx,
            hi <= self.len(),
            0 <= s <= e <= self.len(),
        ensures
            0 <= self.ascii_scan(idx, hi, s, e).0 <= s,
            e <= self.ascii_scan(idx, hi, s, e).1 <= self.len(),
        decreases hi - idx,
    {
        if idx < hi {
            if !self.ascii_cell(idx) {
                self.lemma_ascii_scan(idx + 1, hi, s, e);
            } else {
                self.lemma_ascii_left(idx);
                self.lemma_ascii_right(idx);
                self.lemma_ascii_scan(
                    idx + 1,
                    hi,
                    min_int(s, self.ascii_left(idx)),
                    max_int(e, self.ascii_right(idx) + 1),
                );
            }
        }
    }

    /// Widening to ASCII words gives a range within the line that covers the
    /// clamped input.
    proof fn lemma_ascii_runs(&self, range: DirtyRange)
        requires
            self.wf(),
        ensures
            valid_range(self.ascii_runs_spec(range), self.len()),
            covers(self.ascii_runs_spec(range), clamp(range, self.len())),
    {
        let c = clamp(range, self.len());
        self.lemma_ascii_scan(c.start as int, c.end as int, c.start as int, c.end as int);
    }

    proof fn lemma_item_scan(&self, idx: int, s: int, e: int)
        requires
            self.wf(),
            0 <= s <= e <= self.len(),
        ensures
            0 <= self.item_scan(idx, s, e).0 <= s,
            e <= self.item_scan(idx, s, e).1 <= self.len(),
        decreases self.len() - idx,
    {
        if !(idx >= e || idx >= self.len() || idx < 0) {
            match self.item_bounds_spec(idx) {
                Some(ir) => {
                    if ir.end as int > idx {
                        self.lemma_item_scan(ir.end as int, min_int(s, ir.start as int), max_int(e, ir.end as int));
                    }
                },
                None => {
                    self.lemma_item_scan(idx + 1, s, e);
                },
            }
        }
    }

    /// Widening to whole items gives a range within the line that covers the
    /// clamped input.
    proof fn lemma_item_bounds_range(&self, range: DirtyRange)
        requires
            self.wf(),
        ensures
            valid_range(self.item_bounds_range_spec(range), self.len()),
            covers(self.item_bounds_range_spec(range), clamp(range, self.len())),
    {
        let c = clamp(range, self.len());
        self.lemma_item_scan(c.start as int, c.start as int, c.end as int);
    }

    /// A round of widening keeps a range of the line within the line and
    /// never drops a cell of it.
    pub proof fn law_widening_keeps_range(&self, range: DirtyRange)
        requires
            self.wf(),
            valid_range(range, self.len()),
        ensures
            valid_range(self.expand_step(range), self.len()),
            covers(self.expand_step(range), range),
    {
        let a = self.item_bounds_range_spec(range);
        let b = self.ascii_runs_spec(a);
        self.lemma_item_bounds_range(range);
        self.lemma_ascii_runs(a);
        self.lemma_with_double_width(b);
    }

    /// A non-empty range neither ends on, nor (away from cell 0) starts on,
    /// the second half of a double-width character.
    pub open spec fn keeps_wide_chars_whole(&self, r: DirtyRange) -> bool {
        r.start < r.end ==> {
            &&& (r.end < self.len() ==> !self.line@[r.end as int].double_width)
            &&& (r.start > 0 ==> !self.line@[r.start as int].double_width)
        }
    }

    /// Every rendered ASCII-word cell of `r` has its rendered neighbours in
    /// `r` whenever they are ASCII words too, so `r` cuts no ASCII word.
    pub open spec fn keeps_ascii_words_whole(&self, r: DirtyRange) -> bool {
        forall|x: int| r.start <= x < r.end && #[trigger] self.ascii_cell(x) ==> {
            &&& (self.prev_rc(x) matches Some(p) ==> (cell_kind(self.line@[p]) == ItemizeCellKind::AsciiWord ==> r.start <= p))
            &&& (self.next_rc(x) matches Some(n) ==> (cell_kind(self.line@[n]) == ItemizeCellKind::AsciiWord ==> n < r.end))
        }
    }

    proof fn lemma_dw_left_stop(&self, i: int)
        requires
            0 <= i < self.len(),
        ensures
            self.dw_left(i) == 0 || !self.line@[self.dw_left(i)].double_width,
        decreases i,
    {
        if i > 0 && self.line@[i].double_width {
            self.lemma_dw_left_stop(i - 1);
        }
    }

    proof fn lemma_dw_right_stop(&self, i: int)
        requires
            0 <= i <= self.len(),
        ensures
            self.dw_right(i) == self.len() || !self.line@[self.dw_right(i)].double_width,
        decreases self.len() - i,
    {
        if 0 <= i < self.len() && self.line@[i].double_width {
            self.lemma_dw_right_stop(i + 1);
        }
    }

    /// Widening over double-width characters leaves no range that ends, or
    /// away from cell 0 starts, on the second half of a wide character.
    pub proof fn law_wide_chars_whole(&self, range: DirtyRange)
        requires
            self.wf(),
        ensures
            self.keeps_wide_chars_whole(self.with_double_width_spec(range)),
    {
        let c = clamp(range, self.len());
        if c.start < c.end {
            self.lemma_dw_left(c.start as int);
            self.lemma_dw_right(c.end as int);
            self.lemma_dw_left_stop(c.start as int);
            self.lemma_dw_right_stop(c.end as int);
        }
    }

    proof fn lemma_next_rc_from(&self, j: int)
        ensures
            self.next_rc_from(j) matches Some(n) ==> j <= n < self.len(),
        decreases self.len() - j,
    {
        if !(j >= self.len() || j < 0) && self.line@[j].double_width {
            self.lemma_next_rc_from(j + 1);
        }
    }

    proof fn lemma_ascii_scan_covers(&self, idx: int, hi: int, s: int, e: int)
        requires
            0 <= idx,
            hi <= self.len(),
            0 <= s <= e <= self.len(),
        ensures
            forall|x: int| idx <= x < hi && #[trigger] self.ascii_cell(x) ==> {
                &&& self.ascii_scan(idx, hi, s, e).0 <= self.ascii_left(x)
                &&& self.ascii_right(x) + 1 <= self.ascii_scan(idx, hi, s, e).1
            },
        decreases hi - idx,
    {
        if idx < hi {
            if !self.ascii_cell(idx) {
                self.lemma_ascii_scan_covers(idx + 1, hi, s, e);
            } else {
                self.lemma_ascii_left(idx);
                self.lemma_ascii_right(idx);
                let s2 = min_int(s, self.ascii_left(idx));
                let e2 = max_int(e, self.ascii_right(idx) + 1);
                self.lemma_ascii_scan(idx + 1, hi, s2, e2);
                self.lemma_ascii_scan_covers(idx + 1, hi, s2, e2);
            }
        }
    }

    /// Widening to ASCII words cuts no ASCII word that the clamped range
    /// touches: the rendered ASCII-word neighbours of each of its rendered
    /// ASCII-word cells end up in the widened range.
    pub proof fn law_ascii_words_whole(&self, range: DirtyRange)
        requires
            self.wf(),
        ensures
            ({
                let c = clamp(range, self.len());
                let r = self.ascii_runs_spec(range);
                forall|x: int| c.start <= x < c.end && #[trigger] self.ascii_cell(x) ==> {
                    &&& (self.prev_rc(x) matches Some(p) ==> (cell_kind(self.line@[p]) == ItemizeCellKind::AsciiWord ==> r.start <= p))
                    &&& (self.next_rc(x) matches Some(n) ==> (cell_kind(self.line@[n]) == ItemizeCellKind::AsciiWord ==> n < r.end))
                }
            }),
    {
        let c = clamp(range, self.len());
        let r = self.ascii_runs_spec(range);
        self.lemma_ascii_scan(c.start as int, c.end as int, c.start as int, c.end as int);
        self.lemma_ascii_scan_covers(c.start as int, c.end as int, c.start as int, c.end as int);
        assert forall|x: int| c.start <= x < c.end && #[trigger] self.ascii_cell(x) implies {
            &&& (self.prev_rc(x) matches Some(p) ==> (cell_kind(self.line@[p]) == ItemizeCellKind::AsciiWord ==> r.start <= p))
            &&& (self.next_rc(x) matches Some(n) ==> (cell_kind(self.line@[n]) == ItemizeCellKind::AsciiWord ==> n < r.end))
        } by {
            self.lemma_prev_rc(x);
            self.lemma_next_rc_from(x + 1);
            match self.prev_rc(x) {
                Some(p) => {
                    if cell_kind(self.line@[p]) == ItemizeCellKind::AsciiWord {
                        self.lemma_ascii_left(p);
                        assert(self.ascii_left(x) == self.ascii_left(p));
                        assert(r.start <= self.ascii_left(x));
                    }
                },
                None => {},
            }
            match self.next_rc(x) {
                Some(n) => {
                    if cell_kind(self.line@[n]) == ItemizeCellKind::AsciiWord {
                        self.lemma_ascii_right(n);
                        assert(self.ascii_right(x) == self.ascii_right(n));
                        assert(self.ascii_right(x) + 1 <= r.end);
                    }
                },
                None => {},
            }
        }
    }

    /// The dirty range, widened until no widening changes it: to whole items,
    /// to whole ASCII words and to whole double-width characters.
    pub fn expanded_dirty_range(&self) -> (r: Option<DirtyRange>)
        requires
            self.wf(),
        ensures
            r is None <==> self.dirty_range is None,
            r is Some ==> exists|n: nat| r->0 == #[trigger] self.expand_iter(self.with_double_width_spec(self.dirty_range->0), n),
            r is Some ==> self.expand_step(r->0) == r->0,
            r is Some ==> valid_range(r->0, self.len()),
            r is Some ==> covers(r->0, clamp(self.dirty_range->0, self.len())),
            r is Some ==> self.item_bounds_range_spec(r->0) == r->0,
            r is Some ==> self.ascii_runs_spec(r->0) == r->0,
            r is Some ==> self.with_double_width_spec(r->0) == r->0,
            r is Some ==> self.keeps_wide_chars_whole(r->0),
            r is Some ==> self.keeps_ascii_words_whole(r->0),
    {
        let mut range = match &self.dirty_range {
            Some(r) => r.start..r.end,
            None => {
                return None;
            },
        };
        range = self.include_double_width_cells(range);
        proof {
            self.lemma_with_double_width(self.dirty_range->0);
        }
        let ghost init = range;
        let ghost mut n: nat = 0;
        loop
            invariant
                self.wf(),
                self.dirty_range is Some,
                init == self.with_double_width_spec(self.dirty_range->0),
                covers(init, clamp(self.dirty_range->0, self.len())),
                valid_range(range, self.len()),
                covers(range, init),
                range == self.expand_iter(init, n),
            decreases range.start + (self.len() - range.end),
        {
            let prev = range.start..range.end;
            range = self.expand_to_item_bounds(range);
            range = self.expand_to_ascii_runs(range);
            range = self.include_double_width_cells(range);
            proof {
                self.lemma_item_bounds_range(prev);
                self.lemma_ascii_runs(self.item_bounds_range_spec(prev));
                self.lemma_with_double_width(self.ascii_runs_spec(self.item_bounds_range_spec(prev)));
                n = n + 1;
            }
            if range.start == prev.start && range.end == prev.end {
                assert(range == prev);
                proof {
                    self.law_wide_chars_whole(range);
                    self.law_ascii_words_whole(range);
                }
                return Some(range);
            }
        }
    }
}

/// Resizing a line to the width it already has changes nothing: a second
/// resize to the same width is a no-op.
pub proof fn law_resize_twice(a: Line, b: Line, c: Line, columns: int)
    requires
        b.resized_from(a, columns),
        c.resized_from(b, columns),
    ensures
        c == b,
{
}

/// Marking cells dirty only ever widens the dirty range, always covers the
/// marked cells (clamped to the line), and keeps a range that lay within the
/// line within it.
pub proof fn law_marked_covers(dirty: Option<DirtyRange>, len: int, start: int, end: int)
    requires
        0 < len <= usize::MAX,
        0 <= start,
        0 <= end,
        ordered_in(len, start, end),
        dirty matches Some(r) ==> valid_range(r, len),
    ensures
        marked(dirty, len, start, end) matches Some(m) && {
            &&& valid_range(m, len)
            &&& m.start <= min_int(start, len - 1)
            &&& min_int(end, len - 1) + 1 <= m.end
            &&& (dirty matches Some(r) ==> covers(m, r))
        },
{
}

/// Marking is order-free and idempotent: two marks in either order give the
/// same dirty range, and repeating a mark changes nothing.
pub proof fn law_marked_order_free(dirty: Option<DirtyRange>, len: int, a: int, b: int, c: int, d: int)
    requires
        0 < len <= usize::MAX,
        0 <= a,
        0 <= b,
        0 <= c,
        0 <= d,
        ordered_in(len, a, b),
        ordered_in(len, c, d),
        dirty matches Some(r) ==> valid_range(r, len),
    ensures
        marked(marked(dirty, len, a, b), len, c, d) == marked(marked(dirty, len, c, d), len, a, b),
        marked(marked(dirty, len, a, b), len, a, b) == marked(dirty, len, a, b),
{
}

/// A cached item binding is only used while it still covers the cell: the
/// bounds found for a cell lie within the line and contain the cell.
pub proof fn law_item_bounds_in_line(line: Line, c: int)
    requires
        line.wf(),
        0 <= c < line.len(),
    ensures
        line.item_bounds_spec(c) matches Some(r) ==> r.start <= c < r.end <= line.len(),
{
}

/// Widens `range` to also cover `other`.
fn extend_dirty_range(range: &mut DirtyRange, other: DirtyRange)
    ensures
        *final(range) == range_of(
            min_int(old(range).start as int, other.start as int),
            max_int(old(range).end as int, other.end as int),
        ),
{
    range.start = if range.start <= other.start { range.start } else { other.start };
    range.end = if range.end >= other.end { range.end } else { other.end };
}

/// The half-open range that covers `start..=end`.
fn dirty_range_inclusive(start: usize, end: usize) -> (r: DirtyRange)
    requires
        start <= end < usize::MAX,
    ensures
        r == range_of(start as int, end + 1),
{
    start..end + 1
}

} // verus!
