pub mod cell;
pub mod item;
pub mod item_layout;
pub mod line;
pub mod model_rect;
pub mod styled_line;

use std::rc::Rc;
use vstd::prelude::*;

pub use self::cell::{Cell, Highlight};
pub use self::item::{Item, ItemSpan};
pub use self::line::Line;
pub use self::model_rect::ModelRect;
pub use self::styled_line::{StyleAttr, StyledLine, TextAttr, TextAttrKind};
use self::cell::rc_clone;
use self::line::{law_marked_covers, marked, whole};

verus! {

/// `x` clamped to `0..=n-1`, where an empty extent clamps to 0.
pub open spec fn clamp_index(x: int, n: int) -> int {
    let last = if n >= 1 { n - 1 } else { 0 };
    if x <= last { x } else { last }
}

/// The grid of cells that Neovim draws into, with the cursor.
pub struct UiModel {
    pub columns: usize,
    pub rows: usize,
    /// (row, col)
    pub cur_pos: (usize, usize),
    /// (row, col)
    pub flushed_pos: (usize, usize),
    pub model: Vec<Line>,
}

impl Default for UiModel {
    /// An empty grid: no rows, no columns, the cursor at the origin.
    fn default() -> (m: UiModel)
        ensures
            m.wf(),
            m.rows == 0,
            m.columns == 0,
            m.real_cursor() == (0usize, 0usize),
            m.flushed_cursor() == (0usize, 0usize),
            m.dirty_ranges_ok(),
    {
        UiModel { columns: 0, rows: 0, cur_pos: (0, 0), flushed_pos: (0, 0), model: Vec::new() }
    }
}

impl UiModel {
    /// One line per row, each with one cell per column.
    pub open spec fn wf(&self) -> bool {
        &&& self.model@.len() == self.rows
        &&& forall|r: int| 0 <= r < self.rows ==> #[trigger] self.model@[r].wf()
        &&& forall|r: int| 0 <= r < self.rows ==> #[trigger] self.model@[r].len() == self.columns
    }

    /// Every line's dirty range is absent, or non-empty and within the line.
    pub open spec fn dirty_ranges_ok(&self) -> bool {
        forall|r: int| 0 <= r < self.rows ==> #[trigger] self.model@[r].dirty_ok()
    }

    /// This grid is `old` with `repeat` cells of row `row`, from column `col`
    /// on, holding `ch` with the highlight `hl`, flagged dirty, and that part
    /// of the row marked dirty. Nothing else changes.
    pub open spec fn put_from(
        &self,
        old: UiModel,
        row: int,
        col: int,
        ch: Seq<char>,
        double_width: bool,
        repeat: int,
        hl: Highlight,
    ) -> bool {
        &&& self.wf()
        &&& self.rows == old.rows
        &&& self.columns == old.columns
        &&& self.cur_pos == old.cur_pos
        &&& self.flushed_pos == old.flushed_pos
        &&& forall|r: int| 0 <= r < old.rows && r != row ==> #[trigger] self.model@[r] == old.model@[r]
        &&& self.model@[row].item_line == old.model@[row].item_line
        &&& self.model@[row].cell_to_item == old.model@[row].cell_to_item
        &&& self.model@[row].dirty_range == marked(old.model@[row].dirty_range, old.columns as int, col, col + repeat - 1)
        &&& forall|c: int| col <= c < col + repeat ==> {
            &&& (#[trigger] self.cell(row, c)).ch@ == ch
            &&& *self.cell(row, c).hl == hl
            &&& self.cell(row, c).double_width == double_width
            &&& self.cell(row, c).dirty
        }
        &&& forall|c: int| 0 <= c < old.columns && !(col <= c < col + repeat) ==> #[trigger] self.cell(row, c) == old.cell(row, c)
    }

    /// This grid is `old` with every cell blanked with the highlight `hl` and
    /// every line marked dirty.
    pub open spec fn blanked_from(&self, old: UiModel, hl: Highlight) -> bool {
        &&& self.wf()
        &&& self.same_frame(old)
        &&& forall|r: int| 0 <= r < old.rows ==> #[trigger] self.model@[r].cleared(old.model@[r], 0, old.columns - 1, hl)
    }

    /// This grid is `old` with every shaped item dropped and, unless it has
    /// no columns, every line wholly dirty; the cells keep their content.
    pub open spec fn glyphs_cleared_from(&self, old: UiModel) -> bool {
        &&& self.wf()
        &&& self.same_frame(old)
        &&& forall|r: int| 0 <= r < old.rows ==> (#[trigger] self.model@[r]).line == old.model@[r].line
        &&& forall|r: int, c: int| 0 <= r < old.rows && 0 <= c < old.columns ==> {
            &&& (#[trigger] self.model@[r].item_line@[c])@.len() == 0
            &&& self.model@[r].cell_to_item@[c] == -1
        }
        &&& forall|r: int| 0 <= r < old.rows ==> (#[trigger] self.model@[r]).dirty_range == if old.columns > 0 {
            whole(old.columns as int)
        } else {
            old.model@[r].dirty_range
        }
    }

    /// This grid has the same size and lines as `old`; only the cursors may
    /// differ.
    pub open spec fn cells_kept_from(&self, old: UiModel) -> bool {
        &&& self.model == old.model
        &&& self.rows == old.rows
        &&& self.columns == old.columns
    }

    /// This grid is `old` after giving its rows `0..=to_row` to `other`: those
    /// rows hold `other`'s cells in `old`'s columns and keep their own dirty
    /// state; the rows after them are unchanged.
    pub open spec fn swapped_out(&self, old: UiModel, other: UiModel, to_row: int) -> bool {
        &&& self.wf()
        &&& self.same_frame(old)
        &&& forall|r: int| 0 <= r <= to_row ==> #[trigger] self.model@[r].same_outside(old.model@[r], 0, old.columns - 1)
        &&& forall|r: int, c: int| 0 <= r <= to_row && 0 <= c < old.columns ==> #[trigger] self.cell(r, c) == other.cell(r, c)
        &&& forall|r: int| to_row < r < old.rows ==> #[trigger] self.model@[r] == old.model@[r]
    }

    /// This grid is `old` after taking the rows `0..=to_row` of `src` in
    /// `src`'s columns, flagged and marked dirty; the rows after them are
    /// unchanged.
    pub open spec fn swapped_in(&self, old: UiModel, src: UiModel, to_row: int) -> bool {
        &&& self.wf()
        &&& self.same_frame(old)
        &&& forall|r: int| 0 <= r <= to_row ==> #[trigger] self.model@[r].received(old.model@[r], src.model@[r], 0, src.columns - 1)
        &&& forall|r: int| to_row < r < old.rows ==> #[trigger] self.model@[r] == old.model@[r]
    }

    /// The grid is well formed and every line's dirty range is absent, or
    /// non-empty and within the line.
    pub open spec fn grid_ok(&self) -> bool {
        self.wf() && self.dirty_ranges_ok()
    }

    /// Both cursors of `old` moved onto this grid: a coordinate past the last
    /// row or column lands on it, any other stays (an empty extent gives 0).
    pub open spec fn cursors_clamped_from(&self, old: UiModel) -> bool {
        let last_row = if self.rows > 0 { self.rows - 1 } else { 0 };
        let last_col = if self.columns > 0 { self.columns - 1 } else { 0 };
        &&& self.cur_pos.0 == if old.cur_pos.0 <= last_row { old.cur_pos.0 as int } else { last_row }
        &&& self.cur_pos.1 == if old.cur_pos.1 <= last_col { old.cur_pos.1 as int } else { last_col }
        &&& self.flushed_pos.0 == if old.flushed_pos.0 <= last_row { old.flushed_pos.0 as int } else { last_row }
        &&& self.flushed_pos.1 == if old.flushed_pos.1 <= last_col { old.flushed_pos.1 as int } else { last_col }
    }

    /// The cell at row `r`, column `c`.
    pub open spec fn cell(&self, r: int, c: int) -> Cell {
        self.model@[r].line@[c]
    }

    /// The cursor position, (row, col), as last set.
    pub open spec fn real_cursor(&self) -> (usize, usize) {
        self.cur_pos
    }

    /// The cursor position, (row, col), at the last flush.
    pub open spec fn flushed_cursor(&self) -> (usize, usize) {
        self.flushed_pos
    }

    /// This grid is `old` resized to `rows` by `columns`: cells that stay keep
    /// their content, new cells are empty, lines whose width changes become
    /// wholly dirty, and the cursors are clamped into the grid. Nothing changes
    /// when the size is the same.
    pub open spec fn resized_from(&self, old: UiModel, rows: int, columns: int) -> bool {
        &&& self.wf()
        &&& self.rows == rows
        &&& self.columns == columns
        &&& (old.rows == rows && old.columns == columns ==> *self == old)
        &&& (!(old.rows == rows && old.columns == columns) ==> self.real_cursor().0 == clamp_index(old.real_cursor().0 as int, rows))
        &&& (!(old.rows == rows && old.columns == columns) ==> self.real_cursor().1 == clamp_index(old.real_cursor().1 as int, columns))
        &&& (!(old.rows == rows && old.columns == columns) ==> self.flushed_cursor().0 == clamp_index(old.flushed_cursor().0 as int, rows))
        &&& (!(old.rows == rows && old.columns == columns) ==> self.flushed_cursor().1 == clamp_index(old.flushed_cursor().1 as int, columns))
        &&& forall|r: int, c: int| 0 <= r < rows && r < old.rows && 0 <= c < columns && c < old.columns
            ==> #[trigger] self.model@[r].same_at(&old.model@[r], c)
        &&& forall|r: int, c: int| 0 <= r < rows && 0 <= c < columns && (r >= old.rows || c >= old.columns)
            ==> #[trigger] self.model@[r].fresh_at(c)
        &&& forall|r: int| 0 <= r < rows && r < old.rows && columns == old.columns
            ==> #[trigger] self.model@[r] == old.model@[r]
        &&& forall|r: int| 0 <= r < rows && (r >= old.rows || columns != old.columns)
            ==> #[trigger] self.model@[r].dirty_range == whole(columns)
    }

    pub fn new(rows: u64, columns: u64) -> (m: UiModel)
        requires
            rows <= usize::MAX,
            columns <= usize::MAX,
        ensures
            m.wf(),
            m.rows == rows,
            m.columns == columns,
            m.real_cursor() == (0usize, 0usize),
            m.flushed_cursor() == (0usize, 0usize),
            forall|r: int, c: int| 0 <= r < rows && 0 <= c < columns ==> #[trigger] m.model@[r].fresh_at(c),
            forall|r: int| 0 <= r < rows ==> #[trigger] m.model@[r].dirty_range == whole(columns as int),
            m.dirty_ranges_ok(),
            m.grid_ok(),
    {
        let rows = rows as usize;
        let columns = columns as usize;
        let mut model: Vec<Line> = Vec::new();
        let mut i: usize = 0;
        while i < rows
            invariant
                i <= rows,
                model@.len() == i,
                forall|r: int| 0 <= r < i ==> #[trigger] model@[r].wf(),
                forall|r: int| 0 <= r < i ==> #[trigger] model@[r].len() == columns,
                forall|r: int, c: int| 0 <= r < i && 0 <= c < columns ==> #[trigger] model@[r].fresh_at(c),
                forall|r: int| 0 <= r < i ==> #[trigger] model@[r].dirty_range == whole(columns as int),
            decreases rows - i,
        {
            model.push(Line::new(columns));
            i = i + 1;
        }
        UiModel { columns, rows, cur_pos: (0, 0), flushed_pos: (0, 0), model }
    }

    #[inline]
    pub fn model(&self) -> (r: &[Line])
        ensures
            r@ == self.model@,
    {
        self.model.as_slice()
    }

    #[inline]
    pub fn model_mut(&mut self) -> (r: &mut [Line])
        ensures
            r@ == old(self).model@,
            final(r)@ == final(self).model@,
            final(self).rows == old(self).rows,
            final(self).columns == old(self).columns,
            final(self).real_cursor() == old(self).real_cursor(),
            final(self).flushed_cursor() == old(self).flushed_cursor(),
    {
        self.model.as_mut_slice()
    }

    /// The cell under the cursor, as a rectangle.
    pub fn cur_real_point(&self) -> (r: ModelRect)
        ensures
            r.top == self.real_cursor().0,
            r.bot == self.real_cursor().0,
            r.left == self.real_cursor().1,
            r.right == self.real_cursor().1,
    {
        let (row, col) = self.cur_pos;
        ModelRect::point(col, row)
    }

    #[inline]
    pub fn set_cursor(&mut self, row: usize, col: usize)
        ensures
            final(self).real_cursor() == (row, col),
            final(self).flushed_cursor() == old(self).flushed_cursor(),
            final(self).model == old(self).model,
            final(self).rows == old(self).rows,
            final(self).columns == old(self).columns,
            old(self).dirty_ranges_ok() ==> final(self).dirty_ranges_ok(),
            final(self).cells_kept_from(*old(self)),
    {
        self.cur_pos = (row, col);
    }

    #[inline]
    pub fn flush_cursor(&mut self)
        ensures
            final(self).flushed_cursor() == old(self).real_cursor(),
            final(self).real_cursor() == old(self).real_cursor(),
            final(self).model == old(self).model,
            final(self).rows == old(self).rows,
            final(self).columns == old(self).columns,
            old(self).dirty_ranges_ok() ==> final(self).dirty_ranges_ok(),
            final(self).cells_kept_from(*old(self)),
    {
        self.flushed_pos = self.cur_pos;
    }

    /// The cursor as last set; what grid operations should use.
    #[inline]
    pub fn get_real_cursor(&self) -> (r: (usize, usize))
        ensures
            r == self.real_cursor(),
    {
        self.cur_pos
    }

    /// The cursor at the last flush; what a snapshot should show.
    #[inline]
    pub fn get_flushed_cursor(&self) -> (r: (usize, usize))
        ensures
            r == self.flushed_cursor(),
    {
        self.flushed_pos
    }

    /// Changes the grid size. Cells that stay keep their content; new cells
    /// are empty; the cursors are clamped into the new grid. Lines whose width
    /// changes become wholly dirty. Nothing changes when the size is the same.
    pub fn resize(&mut self, rows: u64, columns: u64)
        requires
            old(self).wf(),
            rows <= usize::MAX,
            columns <= usize::MAX,
        ensures
            final(self).resized_from(*old(self), rows as int, columns as int),
            !(old(self).rows == rows && old(self).columns == columns) ==> final(self).cursors_clamped_from(*old(self)),
            old(self).dirty_ranges_ok() ==> final(self).dirty_ranges_ok(),
    {
        let rows = rows as usize;
        let columns = columns as usize;
        if self.rows == rows && self.columns == columns {
            return;
        }
        self.model.truncate(rows);
        let kept = self.model.len();
        let mut i: usize = 0;
        while i < kept
            invariant
                i <= kept,
                kept == self.model@.len(),
                kept <= old(self).rows,
                self.cur_pos == old(self).cur_pos,
                self.flushed_pos == old(self).flushed_pos,
                kept <= rows,
                old(self).wf(),
                forall|r: int| 0 <= r < kept ==> #[trigger] self.model@[r].wf(),
                forall|r: int| 0 <= r < i ==> #[trigger] self.model@[r].len() == columns,
                forall|r: int| i <= r < kept ==> #[trigger] self.model@[r] == old(self).model@[r],
                forall|r: int, c: int| 0 <= r < i && 0 <= c < columns && c < old(self).columns
                    ==> #[trigger] self.model@[r].same_at(&old(self).model@[r], c),
                forall|r: int, c: int| 0 <= r < i && old(self).columns <= c < columns
                    ==> #[trigger] self.model@[r].fresh_at(c),
                forall|r: int| 0 <= r < i && columns == old(self).columns
                    ==> #[trigger] self.model@[r] == old(self).model@[r],
                forall|r: int| 0 <= r < i && columns != old(self).columns
                    ==> #[trigger] self.model@[r].dirty_range == whole(columns as int),
            decreases kept - i,
        {
            assert(self.model@[i as int] == old(self).model@[i as int]);
            self.model[i].resize(columns as usize);
            i = i + 1;
        }
        while self.model.len() < rows
            invariant
                kept <= self.model@.len() <= rows,
                kept <= old(self).rows,
                self.cur_pos == old(self).cur_pos,
                self.flushed_pos == old(self).flushed_pos,
                kept == rows || kept == old(self).rows,
                old(self).wf(),
                forall|r: int| 0 <= r < self.model@.len() ==> #[trigger] self.model@[r].wf(),
                forall|r: int| 0 <= r < self.model@.len() ==> #[trigger] self.model@[r].len() == columns,
                forall|r: int, c: int| 0 <= r < kept && 0 <= c < columns && c < old(self).columns
                    ==> #[trigger] self.model@[r].same_at(&old(self).model@[r], c),
                forall|r: int, c: int| 0 <= r < kept && old(self).columns <= c < columns
                    ==> #[trigger] self.model@[r].fresh_at(c),
                forall|r: int| 0 <= r < kept && columns == old(self).columns
                    ==> #[trigger] self.model@[r] == old(self).model@[r],
                forall|r: int| 0 <= r < kept && columns != old(self).columns
                    ==> #[trigger] self.model@[r].dirty_range == whole(columns as int),
                forall|r: int, c: int| kept <= r < self.model@.len() && 0 <= c < columns
                    ==> #[trigger] self.model@[r].fresh_at(c),
                forall|r: int| kept <= r < self.model@.len() ==> #[trigger] self.model@[r].dirty_range == whole(columns as int),
            decreases rows - self.model@.len(),
        {
            self.model.push(Line::new(columns));
        }
        self.rows = rows;
        self.columns = columns;
        self.cur_pos = Self::clamp_pos(self.cur_pos, rows, columns);
        self.flushed_pos = Self::clamp_pos(self.flushed_pos, rows, columns);
    }

    /// Writes `ch` once at (`row`, `col`).
    pub fn put_one(&mut self, row: usize, col: usize, ch: &str, double_width: bool, hl: Rc<Highlight>)
        requires
            old(self).wf(),
            row < old(self).rows,
            col < old(self).columns,
        ensures
            final(self).put_from(*old(self), row as int, col as int, ch@, double_width, 1, *hl),
            old(self).dirty_ranges_ok() ==> final(self).dirty_ranges_ok(),
    {
        self.put(row, col, ch, double_width, 1, hl);
    }

    /// Writes `ch` into `repeat` cells of `row`, from `col` on, with the highlight
    /// `hl`, and marks them dirty.
    pub fn put(&mut self, row: usize, col: usize, ch: &str, double_width: bool, repeat: usize, hl: Rc<Highlight>)
        requires
            old(self).wf(),
            row < old(self).rows,
            1 <= repeat,
            col + repeat <= old(self).columns,
        ensures
            final(self).put_from(*old(self), row as int, col as int, ch@, double_width, repeat as int, *hl),
            old(self).dirty_ranges_ok() ==> final(self).dirty_ranges_ok(),
    {
        self.model[row].mark_dirty(col, col + repeat - 1);
        let mut offset: usize = 0;
        while offset < repeat
            invariant
                offset <= repeat,
                old(self).wf(),
                row < old(self).rows,
                col + repeat <= old(self).columns,
                self.rows == old(self).rows,
                self.columns == old(self).columns,
                self.cur_pos == old(self).cur_pos,
                self.flushed_pos == old(self).flushed_pos,
                self.model@.len() == old(self).model@.len(),
                forall|r: int| 0 <= r < old(self).rows && r != row ==> #[trigger] self.model@[r] == old(self).model@[r],
                self.model@[row as int].line@.len() == old(self).columns,
                self.model@[row as int].item_line == old(self).model@[row as int].item_line,
                self.model@[row as int].cell_to_item == old(self).model@[row as int].cell_to_item,
                self.model@[row as int].dirty_range == marked(
                    old(self).model@[row as int].dirty_range,
                    old(self).columns as int,
                    col as int,
                    col + repeat - 1,
                ),
                forall|c: int| col <= c < col + offset ==> {
                    &&& (#[trigger] self.cell(row as int, c)).ch@ == ch@
                    &&& *self.cell(row as int, c).hl == *hl
                    &&& self.cell(row as int, c).double_width == double_width
                    &&& self.cell(row as int, c).dirty
                },
                forall|c: int| 0 <= c < old(self).columns && !(col <= c < col + offset)
                    ==> #[trigger] self.cell(row as int, c) == old(self).cell(row as int, c),
            decreases repeat - offset,
        {
            let idx = col + offset;
            let ghost prev = *self;
            self.model[row].line[idx].ch = ch.to_owned();
            self.model[row].line[idx].hl = rc_clone(&hl);
            self.model[row].line[idx].double_width = double_width;
            self.model[row].line[idx].dirty = true;
            assert forall|c: int| 0 <= c < old(self).columns && c != idx implies #[trigger] self.cell(row as int, c) == prev.cell(row as int, c) by {}
            assert forall|r: int| 0 <= r < old(self).rows && r != row implies #[trigger] self.model@[r] == prev.model@[r] by {}
            offset = offset + 1;
        }
        assert forall|r: int| #![trigger self.model@[r]] 0 <= r < self.rows implies self.model@[r].wf() && self.model@[r].len() == self.columns by {
            assert(old(self).model@[r].wf());
            if r != row {
                assert(self.model@[r] == old(self).model@[r]);
            }
        }
        proof {
            if old(self).dirty_ranges_ok() {
                assert forall|r: int| 0 <= r < self.rows implies #[trigger] self.model@[r].dirty_ok() by {
                    assert(old(self).model@[r].dirty_ok());
                    if r == row {
                        assert(old(self).model@[r].wf());
                        assert(old(self).model@[r].len() == old(self).columns);
                        lemma_marked_line_ok(self.model@[r], old(self).model@[r], col as int, col + repeat - 1);
                    } else {
                        assert(self.model@[r] == old(self).model@[r]);
                    }
                }
            }
        }
    }

    /// The grid dimensions and cursors of `self` and `old` agree.
    pub open spec fn same_frame(&self, old: UiModel) -> bool {
        &&& self.rows == old.rows
        &&& self.columns == old.columns
        &&& self.cur_pos == old.cur_pos
        &&& self.flushed_pos == old.flushed_pos
        &&& self.model@.len() == old.model@.len()
    }

    /// Blanks the rectangle of rows `top..=bot` and columns `left..=right`.
    fn clear_region(&mut self, top: usize, bot: usize, left: usize, right: usize, default_hl: &Rc<Highlight>)
        requires
            old(self).wf(),
            top <= bot < old(self).rows,
            left <= right < old(self).columns,
        ensures
            final(self).wf(),
            final(self).same_frame(*old(self)),
            forall|r: int| top <= r <= bot ==> #[trigger] final(self).model@[r].cleared(old(self).model@[r], left as int, right as int, **default_hl),
            forall|r: int| 0 <= r < old(self).rows && !(top <= r <= bot) ==> #[trigger] final(self).model@[r] == old(self).model@[r],
    {
        let mut row = top;
        while row <= bot
            invariant
                top <= row <= bot + 1,
                bot < old(self).rows,
                left <= right < old(self).columns,
                old(self).wf(),
                self.same_frame(*old(self)),
                forall|r: int| top <= r < row ==> #[trigger] self.model@[r].cleared(old(self).model@[r], left as int, right as int, **default_hl),
                forall|r: int| 0 <= r < old(self).rows && !(top <= r < row) ==> #[trigger] self.model@[r] == old(self).model@[r],
            decreases bot + 1 - row,
        {
            assert(self.model@[row as int] == old(self).model@[row as int]);
            assert(old(self).model@[row as int].len() == old(self).columns);
            self.model[row].clear(left, right, default_hl);
            row = row + 1;
        }
        assert forall|r: int| #![trigger self.model@[r]] 0 <= r < self.rows implies self.model@[r].wf() && self.model@[r].len() == self.columns by {
            assert(old(self).model@[r].wf());
            assert(old(self).model@[r].len() == old(self).columns);
            if top <= r <= bot {
                assert(self.model@[r].cleared(old(self).model@[r], left as int, right as int, **default_hl));
            } else {
                assert(self.model@[r] == old(self).model@[r]);
            }
        }
    }

    /// Blanks the whole grid with the highlight `default_hl`.
    pub fn clear(&mut self, default_hl: &Rc<Highlight>)
        requires
            old(self).wf(),
            old(self).rows > 0,
            old(self).columns > 0,
        ensures
            final(self).blanked_from(*old(self), **default_hl),
            old(self).dirty_ranges_ok() ==> final(self).dirty_ranges_ok(),
    {
        let rows = self.rows;
        let columns = self.columns;
        self.clear_region(0, rows - 1, 0, columns - 1, default_hl);
        proof {
            if old(self).dirty_ranges_ok() {
                assert forall|r: int| 0 <= r < self.rows implies #[trigger] self.model@[r].dirty_ok() by {
                    assert(old(self).model@[r].dirty_ok());
                    assert(old(self).model@[r].wf());
                    assert(old(self).model@[r].len() == old(self).columns);
                    assert(self.model@[r].cleared(old(self).model@[r], 0, old(self).columns - 1, **default_hl));
                    lemma_marked_line_ok(self.model@[r], old(self).model@[r], 0, old(self).columns - 1);
                }
            }
        }
    }

    /// Drops the shaped items of every line.
    pub fn clear_glyphs(&mut self)
        requires
            old(self).wf(),
        ensures
            final(self).glyphs_cleared_from(*old(self)),
            old(self).dirty_ranges_ok() ==> final(self).dirty_ranges_ok(),
    {
        let n = self.model.len();
        let mut row: usize = 0;
        while row < n
            invariant
                row <= n,
                n == old(self).rows,
                old(self).wf(),
                self.same_frame(*old(self)),
                forall|r: int| 0 <= r < n ==> (#[trigger] self.model@[r]).wf(),
                forall|r: int| 0 <= r < n ==> (#[trigger] self.model@[r]).line == old(self).model@[r].line,
                forall|r: int| row <= r < n ==> #[trigger] self.model@[r] == old(self).model@[r],
                forall|r: int, c: int| 0 <= r < row && 0 <= c < old(self).columns ==> {
                    &&& (#[trigger] self.model@[r].item_line@[c])@.len() == 0
                    &&& self.model@[r].cell_to_item@[c] == -1
                },
                forall|r: int| 0 <= r < row ==> (#[trigger] self.model@[r]).dirty_range == if old(self).columns > 0 {
                    whole(old(self).columns as int)
                } else {
                    old(self).model@[r].dirty_range
                },
            decreases n - row,
        {
            assert(old(self).model@[row as int].len() == old(self).columns);
            let ghost prev = *self;
            self.model[row].clear_glyphs();
            assert forall|r: int, c: int| 0 <= r < row + 1 && 0 <= c < old(self).columns implies {
                &&& (#[trigger] self.model@[r].item_line@[c])@.len() == 0
                &&& self.model@[r].cell_to_item@[c] == -1
            } by {
                if r < row {
                    assert(self.model@[r] == prev.model@[r]);
                    assert(prev.model@[r].item_line@[c]@.len() == 0);
                }
            }
            row = row + 1;
        }
        assert forall|r: int| #![trigger self.model@[r]] 0 <= r < self.rows implies self.model@[r].wf() && self.model@[r].len() == self.columns by {
            assert(old(self).model@[r].len() == old(self).columns);
            assert(self.model@[r].line == old(self).model@[r].line);
        }
        proof {
            if old(self).dirty_ranges_ok() {
                assert forall|r: int| 0 <= r < self.rows implies #[trigger] self.model@[r].dirty_ok() by {
                    assert(old(self).model@[r].dirty_ok());
                    assert(old(self).model@[r].len() == old(self).columns);
                }
            }
        }
    }

    /// Exchanges, between the two grids, the cells of rows `0..=to_row` in
    /// columns `0..columns`. The rows that arrive in `target` are flagged dirty.
    pub fn swap_rows(&mut self, target: &mut UiModel, to_row: usize)
        requires
            old(self).wf(),
            old(target).wf(),
            old(self).columns > 0,
            old(self).columns <= old(target).columns,
            to_row < old(self).rows,
            to_row < old(target).rows,
        ensures
            final(self).swapped_out(*old(self), *old(target), to_row as int),
            final(target).swapped_in(*old(target), *old(self), to_row as int),
            old(self).dirty_ranges_ok() ==> final(self).dirty_ranges_ok(),
            old(target).dirty_ranges_ok() ==> final(target).dirty_ranges_ok(),
    {
        let right = self.columns - 1;
        let mut row: usize = 0;
        while row <= to_row
            invariant
                row <= to_row + 1,
                to_row < old(self).rows,
                to_row < old(target).rows,
                right == old(self).columns - 1,
                old(self).columns <= old(target).columns,
                old(self).wf(),
                old(target).wf(),
                self.same_frame(*old(self)),
                target.same_frame(*old(target)),
                forall|r: int| 0 <= r < row ==> #[trigger] target.model@[r].received(
                    old(target).model@[r],
                    old(self).model@[r],
                    0,
                    right as int,
                ),
                forall|r: int| 0 <= r < row ==> #[trigger] self.model@[r].same_outside(old(self).model@[r], 0, right as int),
                forall|r: int, c: int| 0 <= r < row && 0 <= c <= right ==> #[trigger] self.cell(r, c) == old(target).cell(r, c),
                forall|r: int| row <= r < old(self).rows ==> #[trigger] self.model@[r] == old(self).model@[r],
                forall|r: int| row <= r < old(target).rows ==> #[trigger] target.model@[r] == old(target).model@[r],
            decreases to_row + 1 - row,
        {
            assert(old(self).model@[row as int].len() == old(self).columns);
            assert(old(target).model@[row as int].len() == old(target).columns);
            let ghost prev = *self;
            self.model[row].swap_with(&mut target.model[row], 0, right);
            assert forall|r: int, c: int| 0 <= r < row + 1 && 0 <= c <= right implies #[trigger] self.cell(r, c) == old(target).cell(r, c) by {
                if r < row {
                    assert(self.model@[r] == prev.model@[r]);
                    assert(prev.cell(r, c) == old(target).cell(r, c));
                } else {
                    assert(self.model@[r].line@[c] == old(target).model@[r].line@[c]);
                }
            }
            row = row + 1;
        }
        assert forall|r: int| #![trigger self.model@[r]] 0 <= r < self.rows implies self.model@[r].wf() && self.model@[r].len() == self.columns by {
            assert(old(self).model@[r].wf());
            assert(old(self).model@[r].len() == old(self).columns);
            if r <= to_row {
                assert(self.model@[r].same_outside(old(self).model@[r], 0, right as int));
            }
        }
        assert forall|r: int| #![trigger target.model@[r]] 0 <= r < target.rows implies target.model@[r].wf() && target.model@[r].len() == target.columns by {
            assert(old(target).model@[r].wf());
            assert(old(target).model@[r].len() == old(target).columns);
            if r <= to_row {
                assert(target.model@[r].received(old(target).model@[r], old(self).model@[r], 0, right as int));
            }
        }
        proof {
            if old(self).dirty_ranges_ok() {
                assert forall|r: int| 0 <= r < self.rows implies #[trigger] self.model@[r].dirty_ok() by {
                    assert(old(self).model@[r].dirty_ok());
                    assert(old(self).model@[r].len() == old(self).columns);
                    if r <= to_row {
                        assert(self.model@[r].same_outside(old(self).model@[r], 0, old(self).columns - 1));
                    }
                }
            }
            if old(target).dirty_ranges_ok() {
                assert forall|r: int| 0 <= r < target.rows implies #[trigger] target.model@[r].dirty_ok() by {
                    assert(old(target).model@[r].dirty_ok());
                    assert(old(target).model@[r].wf());
                    assert(old(target).model@[r].len() == old(target).columns);
                    if r <= to_row {
                        assert(target.model@[r].received(old(target).model@[r], old(self).model@[r], 0, old(self).columns - 1));
                        lemma_marked_line_ok(target.model@[r], old(target).model@[r], 0, old(self).columns - 1);
                    }
                }
            }
        }
    }

    /// Moves the cells `left..=right` of row `target_row + offset` into row
    /// `target_row`; the source row gets the target's old cells.
    fn swap_row(&mut self, target_row: i64, offset: i64, left: usize, right: usize)
        requires
            old(self).wf(),
            offset != 0,
            0 <= target_row < old(self).rows,
            0 <= target_row + offset < old(self).rows,
            target_row + offset <= i64::MAX,
            left <= right < old(self).columns,
        ensures
            final(self).wf(),
            final(self).same_frame(*old(self)),
            final(self).model@[target_row as int].received(
                old(self).model@[target_row as int],
                old(self).model@[target_row + offset],
                left as int,
                right as int,
            ),
            final(self).model@[target_row + offset].same_outside(old(self).model@[target_row + offset], left as int, right as int),
            forall|r: int| 0 <= r < old(self).rows && r != target_row && r != target_row + offset
                ==> #[trigger] final(self).model@[r] == old(self).model@[r],
    {
        let from_row = (target_row + offset) as usize;
        let to_row = target_row as usize;
        let mut source = Line::new(0);
        std::mem::swap(&mut self.model[from_row], &mut source);
        assert(old(self).model@[to_row as int].len() == old(self).columns);
        assert(source.len() == old(self).columns);
        source.swap_with(&mut self.model[to_row], left, right);
        std::mem::swap(&mut self.model[from_row], &mut source);
        assert forall|r: int| #![trigger self.model@[r]] 0 <= r < self.rows implies self.model@[r].wf() && self.model@[r].len() == self.columns by {
            assert(old(self).model@[r].wf());
            assert(old(self).model@[r].len() == old(self).columns);
        }
    }

    /// Row `r` takes the cells of row `r + count` when scrolling the rows
    /// `top..=bot` by `count`: both rows lie in the region.
    pub open spec fn scroll_moves(top: int, bot: int, count: int, r: int) -> bool {
        top <= r <= bot && top <= r + count <= bot
    }

    /// Row `r` is blanked when scrolling the rows `top..=bot` by `count`: the
    /// last `count` rows of the region for a positive count, the first
    /// `-count` rows for a negative one.
    pub open spec fn scroll_blanks(top: int, bot: int, count: int, r: int) -> bool {
        if count > 0 {
            bot - count + 1 <= r <= bot
        } else {
            top <= r <= top - count - 1
        }
    }

    /// This grid is `old` with the rows `top..=bot` scrolled by `count` over
    /// the columns `left..=right`: a row whose source row `r + count` is in
    /// the region takes that row's cells, flagged dirty; the rows left over
    /// are blanked with the highlight `hl`; both are marked dirty over those
    /// columns. Nothing else changes.
    pub open spec fn scrolled_from(&self, old: UiModel, top: int, bot: int, left: int, right: int, count: int, hl: Highlight) -> bool {
        &&& self.wf()
        &&& self.same_frame(old)
        &&& forall|r: int| 0 <= r < old.rows && !Self::scroll_moves(top, bot, count, r) && !Self::scroll_blanks(top, bot, count, r)
            ==> #[trigger] self.model@[r] == old.model@[r]
        &&& forall|r: int| Self::scroll_moves(top, bot, count, r) ==> #[trigger] self.model@[r].received(
            old.model@[r],
            old.model@[r + count],
            left,
            right,
        )
        &&& forall|r: int| Self::scroll_blanks(top, bot, count, r) ==> #[trigger] self.model@[r].cleared(
            old.model@[r],
            left,
            right,
            hl,
        )
    }

    /// Scrolls the rows `top..=bot` by `count` rows over the columns
    /// `left..=right` (see `scrolled_from`).
    pub fn scroll(&mut self, top: i64, bot: i64, left: usize, right: usize, count: i64, default_hl: &Rc<Highlight>)
        requires
            old(self).wf(),
            0 <= top,
            bot < old(self).rows,
            left <= right < old(self).columns,
            count == 0 ==> bot < top <= old(self).rows,
            count > 0 ==> 0 <= bot - count + 1,
            count < 0 ==> top - count - 1 < old(self).rows && top - count <= i64::MAX && bot < i64::MAX,
        ensures
            final(self).scrolled_from(*old(self), top as int, bot as int, left as int, right as int, count as int, **default_hl),
            old(self).dirty_ranges_ok() ==> final(self).dirty_ranges_ok(),
    {
        if count == 0 {
            return;
        }
        if count > 0 {
            let end = bot - count + 1;
            let mut row = top;
            while row < end
                invariant
                    old(self).wf(),
                    self.wf(),
                    self.same_frame(*old(self)),
                    0 <= top,
                    bot < old(self).rows,
                    left <= right < old(self).columns,
                    count > 0,
                    end == bot - count + 1,
                    0 <= end,
                    top <= row,
                    row <= end || row == top,
                    forall|r: int| 0 <= r < old(self).rows && !(top <= r <= bot) ==> #[trigger] self.model@[r] == old(self).model@[r],
                    forall|r: int| top <= r < row ==> #[trigger] self.model@[r].received(
                        old(self).model@[r],
                        old(self).model@[r + count],
                        left as int,
                        right as int,
                    ),
                    forall|r: int| row <= r <= bot ==> #[trigger] self.model@[r].same_outside(old(self).model@[r], left as int, right as int),
                    forall|r: int| row + count <= r <= bot ==> #[trigger] self.model@[r] == old(self).model@[r],
                decreases end - row,
            {
                let ghost prev = *self;
                self.swap_row(row, count, left, right);
                assert forall|r: int| top <= r < row + 1 implies #[trigger] self.model@[r].received(
                    old(self).model@[r],
                    old(self).model@[r + count],
                    left as int,
                    right as int,
                ) by {
                    if r < row {
                        assert(prev.model@[r].received(old(self).model@[r], old(self).model@[r + count], left as int, right as int));
                    } else {
                        assert(prev.model@[r + count] == old(self).model@[r + count]);
                        assert(prev.model@[r].same_outside(old(self).model@[r], left as int, right as int));
                    }
                }
                assert forall|r: int| row + 1 <= r <= bot implies #[trigger] self.model@[r].same_outside(old(self).model@[r], left as int, right as int) by {
                    assert(prev.model@[r].same_outside(old(self).model@[r], left as int, right as int));
                    if r == row + count {
                        assert(prev.model@[r] == old(self).model@[r]);
                    }
                }
                row = row + 1;
            }
            let ghost mid = *self;
            self.clear_region(end as usize, bot as usize, left, right, default_hl);
            proof {
                assert forall|r: int| Self::scroll_blanks(top as int, bot as int, count as int, r) implies #[trigger] self.model@[r].cleared(
                    old(self).model@[r],
                    left as int,
                    right as int,
                    **default_hl,
                ) by {
                    if top <= r {
                        assert(mid.model@[r].same_outside(old(self).model@[r], left as int, right as int));
                    } else {
                        assert(mid.model@[r] == old(self).model@[r]);
                    }
                    assert(self.model@[r].cleared(mid.model@[r], left as int, right as int, **default_hl));
                }
                assert forall|r: int| Self::scroll_moves(top as int, bot as int, count as int, r) implies #[trigger] self.model@[r].received(
                    old(self).model@[r],
                    old(self).model@[r + count],
                    left as int,
                    right as int,
                ) by {
                    assert(mid.model@[r].received(old(self).model@[r], old(self).model@[r + count], left as int, right as int));
                }
            }
        } else {
            let start = top - count;
            let mut row = bot;
            while row >= start
                invariant
                    old(self).wf(),
                    self.wf(),
                    self.same_frame(*old(self)),
                    0 <= top,
                    bot < old(self).rows,
                    left <= right < old(self).columns,
                    count < 0,
                    bot < i64::MAX,
                    start == top - count,
                    row <= bot,
                    row >= start - 1 || row == bot,
                    forall|r: int| 0 <= r < old(self).rows && !(top <= r <= bot) ==> #[trigger] self.model@[r] == old(self).model@[r],
                    forall|r: int| row < r <= bot ==> #[trigger] self.model@[r].received(
                        old(self).model@[r],
                        old(self).model@[r + count],
                        left as int,
                        right as int,
                    ),
                    forall|r: int| top <= r <= row ==> #[trigger] self.model@[r].same_outside(old(self).model@[r], left as int, right as int),
                    forall|r: int| top <= r <= row + count ==> #[trigger] self.model@[r] == old(self).model@[r],
                decreases row - start + 1,
            {
                let ghost prev = *self;
                self.swap_row(row, count, left, right);
                assert forall|r: int| row - 1 < r <= bot implies #[trigger] self.model@[r].received(
                    old(self).model@[r],
                    old(self).model@[r + count],
                    left as int,
                    right as int,
                ) by {
                    if r > row {
                        assert(prev.model@[r].received(old(self).model@[r], old(self).model@[r + count], left as int, right as int));
                    } else {
                        assert(prev.model@[r + count] == old(self).model@[r + count]);
                        assert(prev.model@[r].same_outside(old(self).model@[r], left as int, right as int));
                    }
                }
                assert forall|r: int| top <= r <= row - 1 implies #[trigger] self.model@[r].same_outside(old(self).model@[r], left as int, right as int) by {
                    assert(prev.model@[r].same_outside(old(self).model@[r], left as int, right as int));
                    if r == row + count {
                        assert(prev.model@[r] == old(self).model@[r]);
                    }
                }
                row = row - 1;
            }
            let ghost mid = *self;
            self.clear_region(top as usize, (start - 1) as usize, left, right, default_hl);
            proof {
                assert forall|r: int| Self::scroll_blanks(top as int, bot as int, count as int, r) implies #[trigger] self.model@[r].cleared(
                    old(self).model@[r],
                    left as int,
                    right as int,
                    **default_hl,
                ) by {
                    if r <= bot {
                        assert(mid.model@[r].same_outside(old(self).model@[r], left as int, right as int));
                    } else {
                        assert(mid.model@[r] == old(self).model@[r]);
                    }
                    assert(self.model@[r].cleared(mid.model@[r], left as int, right as int, **default_hl));
                }
                assert forall|r: int| Self::scroll_moves(top as int, bot as int, count as int, r) implies #[trigger] self.model@[r].received(
                    old(self).model@[r],
                    old(self).model@[r + count],
                    left as int,
                    right as int,
                ) by {
                    assert(mid.model@[r].received(old(self).model@[r], old(self).model@[r + count], left as int, right as int));
                }
            }
        }
        proof {
            if old(self).dirty_ranges_ok() {
                let hl = **default_hl;
                lemma_scroll_dirty_ok(*old(self), *self, top as int, bot as int, left as int, right as int, count as int, hl);
            }
        }
    }

    #[inline]
    fn clamp_pos(pos: (usize, usize), rows: usize, columns: usize) -> (r: (usize, usize))
        ensures
            r.0 == clamp_index(pos.0 as int, rows as int),
            r.1 == clamp_index(pos.1 as int, columns as int),
    {
        let (row, col) = pos;
        let last_row = rows.saturating_sub(1);
        let last_col = columns.saturating_sub(1);
        (if row <= last_row { row } else { last_row }, if col <= last_col { col } else { last_col })
    }
}

/// A line whose cells `left..=right` were marked dirty keeps a dirty range
/// that is absent, or non-empty and within the line.
proof fn lemma_marked_line_ok(l: Line, old: Line, left: int, right: int)
    requires
        old.wf(),
        old.dirty_ok(),
        0 <= left <= right < old.len(),
        l.line@.len() == old.line@.len(),
        l.dirty_range == marked(old.dirty_range, old.len(), left, right),
    ensures
        l.dirty_ok(),
{
    law_marked_covers(old.dirty_range, old.len(), left, right);
}

/// Scrolling keeps every dirty range absent, or non-empty and within the line.
proof fn lemma_scroll_dirty_ok(
    a: UiModel,
    b: UiModel,
    top: int,
    bot: int,
    left: int,
    right: int,
    count: int,
    hl: Highlight,
)
    requires
        b.scrolled_from(a, top, bot, left, right, count, hl),
        a.wf(),
        a.dirty_ranges_ok(),
        0 <= left <= right < a.columns,
    ensures
        b.dirty_ranges_ok(),
{
    assert forall|r: int| 0 <= r < b.rows implies #[trigger] b.model@[r].dirty_ok() by {
        assert(a.model@[r].dirty_ok());
        assert(a.model@[r].wf());
        assert(a.model@[r].len() == a.columns);
        if UiModel::scroll_moves(top, bot, count, r) {
            assert(b.model@[r].received(a.model@[r], a.model@[r + count], left, right));
            lemma_marked_line_ok(b.model@[r], a.model@[r], left, right);
        } else if UiModel::scroll_blanks(top, bot, count, r) {
            assert(b.model@[r].cleared(a.model@[r], left, right, hl));
            lemma_marked_line_ok(b.model@[r], a.model@[r], left, right);
        } else {
            assert(b.model@[r] == a.model@[r]);
        }
    }
}

/// One call on a grid, with its arguments, as far as the grid's own
/// contracts state it.
pub enum GridStep {
    /// `resize(rows, columns)`.
    Resize(u64, u64),
    /// `put(row, col, ch, double_width, repeat, hl)`, or `put_one` with a
    /// repeat of 1.
    Put(usize, usize, String, bool, usize, Highlight),
    /// `scroll(top, bot, left, right, count, hl)`.
    Scroll(i64, i64, usize, usize, i64, Highlight),
    /// `clear(hl)`.
    Clear(Highlight),
    /// `clear_glyphs()`.
    ClearGlyphs,
    /// `set_cursor` or `flush_cursor`.
    MoveCursor,
    /// `swap_rows` on this grid, with the other grid as it was and `to_row`.
    SwapRowsOut(UiModel, usize),
    /// `swap_rows` into this grid, from the source grid as it was, with `to_row`.
    SwapRowsIn(UiModel, usize),
}

/// `b` is what the call `step` leaves of `a`, on arguments that meet the
/// call's `requires`.
pub open spec fn applied(a: UiModel, step: GridStep, b: UiModel) -> bool {
    match step {
        GridStep::Resize(rows, columns) => b.resized_from(a, rows as int, columns as int),
        GridStep::Put(row, col, ch, double_width, repeat, hl) => {
            &&& row < a.rows
            &&& 1 <= repeat
            &&& col + repeat <= a.columns
            &&& b.put_from(a, row as int, col as int, ch@, double_width, repeat as int, hl)
        },
        GridStep::Scroll(top, bot, left, right, count, hl) => {
            &&& left <= right < a.columns
            &&& b.scrolled_from(a, top as int, bot as int, left as int, right as int, count as int, hl)
        },
        GridStep::Clear(hl) => a.rows > 0 && a.columns > 0 && b.blanked_from(a, hl),
        GridStep::ClearGlyphs => b.glyphs_cleared_from(a),
        GridStep::MoveCursor => b.cells_kept_from(a),
        GridStep::SwapRowsOut(other, to_row) => {
            &&& a.columns > 0
            &&& to_row < a.rows
            &&& b.swapped_out(a, other, to_row as int)
        },
        GridStep::SwapRowsIn(src, to_row) => {
            &&& src.wf()
            &&& src.columns > 0
            &&& src.columns <= a.columns
            &&& to_row < a.rows
            &&& to_row < src.rows
            &&& b.swapped_in(a, src, to_row as int)
        },
    }
}

/// In a sound grid every row has `columns` cells, glyph lists and item
/// bindings, and its dirty range is absent or a non-empty part of
/// `0..columns`.
pub proof fn law_grid_ok_lines(m: UiModel)
    requires
        m.grid_ok(),
    ensures
        m.model@.len() == m.rows,
        forall|r: int| 0 <= r < m.rows ==> {
            &&& (#[trigger] m.model@[r]).line@.len() == m.columns
            &&& m.model@[r].item_line@.len() == m.columns
            &&& m.model@[r].cell_to_item@.len() == m.columns
            &&& (m.model@[r].dirty_range matches Some(d) ==> d.start < d.end <= m.columns)
        },
{
    assert forall|r: int| 0 <= r < m.rows implies {
        &&& (#[trigger] m.model@[r]).line@.len() == m.columns
        &&& m.model@[r].item_line@.len() == m.columns
        &&& m.model@[r].cell_to_item@.len() == m.columns
        &&& (m.model@[r].dirty_range matches Some(d) ==> d.start < d.end <= m.columns)
    } by {
        assert(m.model@[r].wf());
        assert(m.model@[r].len() == m.columns);
        assert(m.model@[r].dirty_ok());
    }
}

/// Every call keeps a grid sound.
pub proof fn law_step_keeps_grid_ok(a: UiModel, step: GridStep, b: UiModel)
    requires
        a.grid_ok(),
        applied(a, step, b),
    ensures
        b.grid_ok(),
{
    match step {
        GridStep::Resize(rows, columns) => {
            assert forall|r: int| 0 <= r < b.rows implies #[trigger] b.model@[r].dirty_ok() by {
                if !(a.rows == rows && a.columns == columns) && r < a.rows && columns == a.columns {
                    assert(a.model@[r].dirty_ok());
                    assert(a.model@[r].len() == a.columns);
                } else if a.rows == rows && a.columns == columns {
                    assert(a.model@[r].dirty_ok());
                }
            }
        },
        GridStep::Put(row, col, ch, double_width, repeat, hl) => {
            assert forall|r: int| 0 <= r < b.rows implies #[trigger] b.model@[r].dirty_ok() by {
                assert(a.model@[r].dirty_ok());
                assert(a.model@[r].wf());
                assert(a.model@[r].len() == a.columns);
                if r != row {
                    assert(b.model@[r] == a.model@[r]);
                } else {
                    assert(b.model@[r].len() == b.columns);
                    lemma_marked_line_ok(b.model@[r], a.model@[r], col as int, col + repeat - 1);
                }
            }
        },
        GridStep::Scroll(top, bot, left, right, count, hl) => {
            lemma_scroll_dirty_ok(a, b, top as int, bot as int, left as int, right as int, count as int, hl);
        },
        GridStep::Clear(hl) => {
            assert forall|r: int| 0 <= r < b.rows implies #[trigger] b.model@[r].dirty_ok() by {
                assert(a.model@[r].dirty_ok());
                assert(a.model@[r].wf());
                assert(a.model@[r].len() == a.columns);
                assert(b.model@[r].cleared(a.model@[r], 0, a.columns - 1, hl));
                lemma_marked_line_ok(b.model@[r], a.model@[r], 0, a.columns - 1);
            }
        },
        GridStep::ClearGlyphs => {
            assert forall|r: int| 0 <= r < b.rows implies #[trigger] b.model@[r].dirty_ok() by {
                assert(a.model@[r].dirty_ok());
                assert(a.model@[r].len() == a.columns);
                assert(b.model@[r].line == a.model@[r].line);
            }
        },
        GridStep::MoveCursor => {
            assert forall|r: int| 0 <= r < b.rows implies #[trigger] b.model@[r].dirty_ok() by {
                assert(a.model@[r].dirty_ok());
            }
        },
        GridStep::SwapRowsOut(other, to_row) => {
            assert forall|r: int| 0 <= r < b.rows implies #[trigger] b.model@[r].dirty_ok() by {
                assert(a.model@[r].dirty_ok());
                assert(a.model@[r].len() == a.columns);
                if r <= to_row {
                    assert(b.model@[r].same_outside(a.model@[r], 0, a.columns - 1));
                }
            }
        },
        GridStep::SwapRowsIn(src, to_row) => {
            assert forall|r: int| 0 <= r < b.rows implies #[trigger] b.model@[r].dirty_ok() by {
                assert(a.model@[r].dirty_ok());
                assert(a.model@[r].wf());
                assert(a.model@[r].len() == a.columns);
                if r <= to_row {
                    assert(b.model@[r].received(a.model@[r], src.model@[r], 0, src.columns - 1));
                    lemma_marked_line_ok(b.model@[r], a.model@[r], 0, src.columns - 1);
                }
            }
        },
    }
}

/// A grid made by `new` and changed by any run of calls that meet their
/// `requires` stays sound: well formed, with every dirty range absent or a
/// non-empty part of its line.
pub proof fn law_grid_ok_reachable(ms: Seq<UiModel>, steps: Seq<GridStep>)
    requires
        ms.len() == steps.len() + 1,
        ms[0].grid_ok(),
        forall|i: int| 0 <= i < steps.len() ==> applied(ms[i], #[trigger] steps[i], ms[i + 1]),
    ensures
        forall|i: int| 0 <= i < ms.len() ==> (#[trigger] ms[i]).grid_ok(),
    decreases steps.len(),
{
    if steps.len() > 0 {
        let n = steps.len() - 1;
        law_grid_ok_reachable(ms.take(n + 1), steps.take(n));
        assert(ms.take(n + 1)[n] == ms[n]);
        assert(applied(ms[n], steps[n], ms[n + 1]));
        law_step_keeps_grid_ok(ms[n], steps[n], ms[n + 1]);
        assert forall|i: int| 0 <= i < ms.len() implies (#[trigger] ms[i]).grid_ok() by {
            if i <= n {
                assert(ms.take(n + 1)[i] == ms[i]);
            }
        }
    }
}

/// Resizing the grid to the size it already has changes nothing: a second
/// resize to the same size is a no-op.
pub proof fn law_resize_twice(a: UiModel, b: UiModel, c: UiModel, rows: int, columns: int)
    requires
        b.resized_from(a, rows, columns),
        c.resized_from(b, rows, columns),
    ensures
        c == b,
{
}

/// After a resize to a non-empty grid of another size, both cursors are on
/// the grid; a cursor that was on both the old and the new grid stays where
/// it was.
pub proof fn law_resize_keeps_cursor_on_grid(a: UiModel, b: UiModel, rows: int, columns: int)
    requires
        b.resized_from(a, rows, columns),
        rows > 0,
        columns > 0,
        !(a.rows == rows && a.columns == columns),
    ensures
        b.real_cursor().0 < rows && b.real_cursor().1 < columns,
        b.flushed_cursor().0 < rows && b.flushed_cursor().1 < columns,
        a.real_cursor().0 < rows && a.real_cursor().1 < columns ==> b.real_cursor() == a.real_cursor(),
        a.flushed_cursor().0 < rows && a.flushed_cursor().1 < columns ==> b.flushed_cursor() == a.flushed_cursor(),
{
}

/// A resize to another size moves each cursor coordinate that lies past the
/// new last row or column onto that last row or column, and leaves the others
/// where they were.
pub proof fn law_resize_clamps_cursors(a: UiModel, b: UiModel, rows: int, columns: int)
    requires
        b.resized_from(a, rows, columns),
        !(a.rows == rows && a.columns == columns),
    ensures
        b.cursors_clamped_from(a),
        rows > 0 && a.real_cursor().0 >= rows ==> b.real_cursor().0 == rows - 1,
        columns > 0 && a.real_cursor().1 >= columns ==> b.real_cursor().1 == columns - 1,
        rows > 0 && a.flushed_cursor().0 >= rows ==> b.flushed_cursor().0 == rows - 1,
        columns > 0 && a.flushed_cursor().1 >= columns ==> b.flushed_cursor().1 == columns - 1,
{
}

/// Scrolling a region by `count` rows and back again gives every row that
/// stayed in the region both times its cells back, flagged dirty; cells
/// outside the region's columns are as they were.
pub proof fn law_scroll_round_trip(
    a: UiModel,
    b: UiModel,
    c: UiModel,
    top: int,
    bot: int,
    left: int,
    right: int,
    count: int,
    hl: Highlight,
    r: int,
    col: int,
)
    requires
        b.scrolled_from(a, top, bot, left, right, count, hl),
        c.scrolled_from(b, top, bot, left, right, -count, hl),
        0 <= top <= r <= bot < a.rows,
        top <= r - count <= bot,
        0 <= col < a.columns,
        a.wf(),
    ensures
        left <= col <= right ==> c.model@[r].line@[col] == a.model@[r].line@[col].with_dirty(),
        !(left <= col <= right) ==> c.model@[r].line@[col] == a.model@[r].line@[col],
{
    assert(b.model@[r - count].received(a.model@[r - count], a.model@[(r - count) + count], left, right));
    assert(c.model@[r].received(b.model@[r], b.model@[r + -count], left, right));
    assert(a.model@[r].len() == a.columns);
    if top <= r + count <= bot {
        assert(b.model@[r].received(a.model@[r], a.model@[r + count], left, right));
    } else {
        assert(b.model@[r].cleared(a.model@[r], left, right, hl));
    }
}

} // verus!
