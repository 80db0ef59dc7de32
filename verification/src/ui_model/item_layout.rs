use vstd::prelude::*;

use super::item::{Item, ItemSpan};
use super::line::{marked, max_cells, max_cells_count, max_int, DirtyRange, Line};
use super::styled_line::StyledLine;

verus! {

/// Every span is non-empty and lies within the `n` bytes of a styled line.
pub open spec fn spans_ok(spans: Seq<ItemSpan>, n: int) -> bool {
    forall|i: int| 0 <= i < spans.len() ==> 1 <= (#[trigger] spans[i]).length && spans[i].offset + spans[i].length <= n
}

/// How far into the styled line the spans reach: the end of the span that
/// ends last, or 0 without spans.
pub open spec fn span_reach(spans: Seq<ItemSpan>) -> int
    decreases spans.len(),
{
    if spans.len() == 0 {
        0
    } else {
        max_int(span_reach(spans.drop_last()), spans.last().offset + spans.last().length)
    }
}

/// Every span ends within the reach of the spans.
proof fn lemma_span_reach(spans: Seq<ItemSpan>)
    ensures
        0 <= span_reach(spans),
        forall|i: int| 0 <= i < spans.len() ==> (#[trigger] spans[i]).offset + spans[i].length <= span_reach(spans),
    decreases spans.len(),
{
    if spans.len() > 0 {
        let init = spans.drop_last();
        lemma_span_reach(init);
        assert forall|i: int| 0 <= i < spans.len() implies (#[trigger] spans[i]).offset + spans[i].length <= span_reach(spans) by {
            if i < spans.len() - 1 {
                assert(spans[i] == init[i]);
            }
        }
    }
}

/// The cell of the first byte of span `i`.
pub open spec fn first_cell(spans: Seq<ItemSpan>, c2b: Seq<usize>, i: int) -> int {
    c2b[spans[i].offset as int] as int
}

/// The cell of the last byte of span `i`.
pub open spec fn last_cell(spans: Seq<ItemSpan>, c2b: Seq<usize>, i: int) -> int {
    c2b[spans[i].offset + spans[i].length - 1] as int
}

/// Gathering spans from `j` on into a group that so far ends at cell `end`:
/// a span joins while its first cell is at most the group's last cell, and
/// may push that last cell further. Gives the first span left out and the
/// group's last cell.
pub open spec fn group_end(spans: Seq<ItemSpan>, c2b: Seq<usize>, j: int, end: int) -> (int, int)
    decreases spans.len() - j,
{
    if j >= spans.len() || j < 0 || first_cell(spans, c2b, j) > end {
        (j, end)
    } else {
        group_end(spans, c2b, j + 1, if last_cell(spans, c2b, j) > end { last_cell(spans, c2b, j) } else { end })
    }
}

/// A group of spans that render over the cells `start..=end`.
pub struct PangoItemPosition {
    pub items: Vec<ItemSpan>,
    pub start_cell: usize,
    pub end_cell: usize,
}

impl PangoItemPosition {
    /// The number of cells the group covers.
    #[inline]
    pub fn cells_count(&self) -> (r: i32)
        requires
            self.start_cell <= self.end_cell,
            self.end_cell - self.start_cell + 1 <= i32::MAX,
        ensures
            r == self.end_cell - self.start_cell + 1,
    {
        (self.end_cell - self.start_cell) as i32 + 1
    }
}

/// Walks the spans of a shaped line, group by group.
pub struct PangoItemPositionIterator<'a> {
    pub spans: &'a [ItemSpan],
    pub next_idx: usize,
    pub styled_line: &'a StyledLine,
}

impl<'a> PangoItemPositionIterator<'a> {
    pub fn new(items: &'a [ItemSpan], styled_line: &'a StyledLine) -> (it: Self)
        ensures
            it.spans@ == items@,
            it.next_idx == 0,
            it.styled_line == styled_line,
    {
        PangoItemPositionIterator { spans: items, next_idx: 0, styled_line }
    }

    /// The spans are well formed, and the cells of the bytes they reach never
    /// decrease from byte to byte.
    pub open spec fn inv(&self) -> bool {
        &&& spans_ok(self.spans@, self.styled_line.cell_to_byte@.len() as int)
        &&& forall|a: int, b: int| 0 <= a <= b < span_reach(self.spans@)
            ==> self.styled_line.cell_to_byte@[a] <= self.styled_line.cell_to_byte@[b]
        &&& self.next_idx <= self.spans@.len()
    }

    /// The next group: the next span together with the spans after it that
    /// start within the cells the group covers so far.
    pub fn next(&mut self) -> (r: Option<PangoItemPosition>)
        requires
            old(self).inv(),
        ensures
            final(self).inv(),
            final(self).spans == old(self).spans,
            final(self).styled_line == old(self).styled_line,
            old(self).next_idx >= old(self).spans@.len() ==> r is None && final(self).next_idx == old(self).next_idx,
            old(self).next_idx < old(self).spans@.len() ==> (r matches Some(p) && {
                let spans = old(self).spans@;
                let c2b = old(self).styled_line.cell_to_byte@;
                let i = old(self).next_idx as int;
                let g = group_end(spans, c2b, i + 1, last_cell(spans, c2b, i));
                &&& p.start_cell == first_cell(spans, c2b, i)
                &&& p.end_cell == g.1
                &&& final(self).next_idx == g.0
                &&& p.items@ == spans.subrange(i, g.0)
                &&& p.start_cell <= p.end_cell
            }),
    {
        if self.next_idx >= self.spans.len() {
            return None;
        }
        let ghost spans = self.spans@;
        let ghost c2b = self.styled_line.cell_to_byte@;
        let ghost i = self.next_idx as int;
        // Reading the length brings into scope that it fits in a usize.
        let _: usize = self.styled_line.cell_to_byte.len();
        let first_item = self.spans[self.next_idx];
        self.next_idx = self.next_idx + 1;
        let mut items: Vec<ItemSpan> = Vec::new();
        items.push(first_item);
        assert(items@ =~= spans.subrange(i, i + 1));
        let length = first_item.length;
        let offset = first_item.offset;
        let start_cell = self.styled_line.cell_to_byte[offset];
        let mut end_cell = self.styled_line.cell_to_byte[offset + length - 1];
        proof {
            lemma_span_reach(spans);
            assert(spans[i].offset + spans[i].length <= span_reach(spans));
        }
        while self.next_idx < self.spans.len()
            invariant
                self.inv(),
                self.spans == old(self).spans,
                self.styled_line == old(self).styled_line,
                c2b.len() <= usize::MAX,
                self.spans@ == spans,
                self.styled_line.cell_to_byte@ == c2b,
                0 <= i < self.next_idx <= spans.len(),
                start_cell == first_cell(spans, c2b, i),
                start_cell <= end_cell,
                group_end(spans, c2b, self.next_idx as int, end_cell as int)
                    == group_end(spans, c2b, i + 1, last_cell(spans, c2b, i)),
                items@ == spans.subrange(i, self.next_idx as int),
            ensures
                self.inv(),
                self.spans == old(self).spans,
                self.styled_line == old(self).styled_line,
                0 <= i < self.next_idx <= spans.len(),
                start_cell == first_cell(spans, c2b, i),
                start_cell <= end_cell,
                (self.next_idx as int, end_cell as int) == group_end(spans, c2b, i + 1, last_cell(spans, c2b, i)),
                items@ == spans.subrange(i, self.next_idx as int),
            decreases spans.len() - self.next_idx,
        {
            let next_item = self.spans[self.next_idx];
            let next_offset = next_item.offset;
            if self.styled_line.cell_to_byte[next_offset] > end_cell {
                break;
            }
            let next_len = next_item.length;
            let next_end_cell = self.styled_line.cell_to_byte[next_offset + next_len - 1];
            if next_end_cell > end_cell {
                end_cell = next_end_cell;
            }
            let ghost old_items = items@;
            let ghost k = self.next_idx as int;
            assert(next_item == spans[k]);
            assert(k < spans.len());
            items.push(next_item);
            assert(items@ == old_items.push(spans[k]));
            assert(old_items == spans.subrange(i, k));
            self.next_idx = self.next_idx + 1;
            assert(self.next_idx == k + 1);
            assert(items@ =~= spans.subrange(i, self.next_idx as int));
        }
        Some(PangoItemPosition { items, start_cell, end_cell })
    }
}

/// The groups of the spans from `i` on, as (first cell, last cell, first
/// span, one past the last span).
pub open spec fn positions_from(spans: Seq<ItemSpan>, c2b: Seq<usize>, i: int) -> Seq<(int, int, int, int)>
    decreases spans.len() - i,
{
    if i < 0 || i >= spans.len() {
        Seq::empty()
    } else {
        let g = group_end(spans, c2b, i + 1, last_cell(spans, c2b, i));
        if i < g.0 <= spans.len() {
            seq![(first_cell(spans, c2b, i), g.1, i, g.0)] + positions_from(spans, c2b, g.0)
        } else {
            Seq::empty()
        }
    }
}

/// What the layout pass does to a cell.
pub enum Treatment {
    /// The cell is left as it is.
    Untouched,
    /// The cell is unbound from any item.
    Emptied,
    /// The cell belongs to the given group.
    Laid(usize),
}

/// The layout pass over the cells `idx..hi`, with the groups from `k` on
/// still to place: a cell before the next group's first cell is emptied; at
/// that cell the group is laid out and the pass jumps past it; a cell past
/// the first cell of the pending group (which began before the pass) is left
/// as it is. Gives what happens to cell `c`.
pub open spec fn treat(ps: Seq<(int, int, int, int)>, k: int, idx: int, hi: int, c: int) -> Treatment
    decreases hi - idx,
{
    if idx >= hi || c < idx {
        Treatment::Untouched
    } else if k < 0 || k >= ps.len() {
        if c == idx {
            Treatment::Emptied
        } else {
            treat(ps, k, idx + 1, hi, c)
        }
    } else if idx < ps[k].0 {
        if c == idx {
            Treatment::Emptied
        } else {
            treat(ps, k, idx + 1, hi, c)
        }
    } else if idx == ps[k].0 {
        if c <= ps[k].1 {
            Treatment::Laid(k as usize)
        } else if idx < ps[k].1 + 1 <= hi {
            treat(ps, k + 1, ps[k].1 + 1, hi, c)
        } else {
            Treatment::Untouched
        }
    } else {
        if c == idx {
            Treatment::Untouched
        } else {
            treat(ps, k, idx + 1, hi, c)
        }
    }
}

/// Over the bytes that the spans reach, the cells of the styled line never
/// decrease from byte to byte and all lie before cell `len`.
pub open spec fn cells_ok(c2b: Seq<usize>, spans: Seq<ItemSpan>, len: int) -> bool {
    &&& forall|a: int, b: int| 0 <= a <= b < span_reach(spans) ==> c2b[a] <= c2b[b]
    &&& forall|a: int| 0 <= a < span_reach(spans) ==> (#[trigger] c2b[a]) < len
}

proof fn lemma_group_end(spans: Seq<ItemSpan>, c2b: Seq<usize>, j: int, end: int, len: int)
    requires
        spans_ok(spans, c2b.len() as int),
        cells_ok(c2b, spans, len),
        0 <= j,
        end < len,
    ensures
        j <= group_end(spans, c2b, j, end).0,
        j <= spans.len() ==> group_end(spans, c2b, j, end).0 <= spans.len(),
        end <= group_end(spans, c2b, j, end).1 < len,
    decreases spans.len() - j,
{
    if !(j >= spans.len() || j < 0 || first_cell(spans, c2b, j) > end) {
        let e2 = if last_cell(spans, c2b, j) > end { last_cell(spans, c2b, j) } else { end };
        lemma_span_reach(spans);
        assert(spans[j].offset + spans[j].length <= span_reach(spans));
        assert(c2b[spans[j].offset + spans[j].length - 1] < len);
        lemma_group_end(spans, c2b, j + 1, e2, len);
    }
}

/// The groups of the spans from `i` on, after the first: those from the
/// end of the first group on.
proof fn lemma_positions_unfold(spans: Seq<ItemSpan>, c2b: Seq<usize>, i: int, len: int)
    requires
        spans_ok(spans, c2b.len() as int),
        cells_ok(c2b, spans, len),
        0 <= i < spans.len(),
    ensures
        ({
            let g = group_end(spans, c2b, i + 1, last_cell(spans, c2b, i));
            &&& i < g.0 <= spans.len()
            &&& positions_from(spans, c2b, i) == seq![(first_cell(spans, c2b, i), g.1, i, g.0)] + positions_from(spans, c2b, g.0)
            &&& g.1 < len
        }),
{
    lemma_span_reach(spans);
    assert(spans[i].offset + spans[i].length <= span_reach(spans));
    assert(c2b[spans[i].offset + spans[i].length - 1] < len);
    lemma_group_end(spans, c2b, i + 1, last_cell(spans, c2b, i), len);
}

/// The items of a group of `spans` that renders over `count` cells.
pub open spec fn layout(spans: Seq<ItemSpan>, count: int) -> Seq<Item> {
    Seq::new(spans.len(), |j: int| Item { span: spans[j], cells_count: count as usize })
}

impl Line {
    /// Whether laying the group `start..=end` out from scratch is needed: the
    /// cells are not bound to an item that starts at `start`, covers `end`
    /// and spans exactly this many cells.
    pub open spec fn needs_init(&self, start: int, end: int) -> bool {
        ||| self.cell_to_item@[start] != start
        ||| self.cell_to_item@[end] == -1
        ||| max_cells(self.item_line@[start]@) != Some((end - start + 1) as usize)
    }

    /// Cell `c` of the group `s..=e` is bound as the group demands: either
    /// `old` already held a layout of exactly this extent starting at `s`, or
    /// the cell is now bound to `s`, with no items of its own unless it is the
    /// first cell.
    pub open spec fn laid_whole(&self, old: Line, s: int, e: int, c: int) -> bool {
        ||| {
            &&& old.cell_to_item@[s] == s
            &&& old.cell_to_item@[e] != -1
            &&& max_cells(old.item_line@[s]@) == Some((e - s + 1) as usize)
        }
        ||| {
            &&& self.cell_to_item@[c] == s
            &&& (c > s ==> self.item_line@[c]@.len() == 0)
        }
    }

    /// After a layout pass, every cell that a group was laid over is bound to
    /// the group's first cell, with no items of its own past that cell, unless
    /// the line already held a layout of exactly the group's extent there.
    pub proof fn law_groups_laid_whole(&self, old: Line, spans: Seq<ItemSpan>, ps: Seq<(int, int, int, int)>, lo: int, hi: int)
        requires
            forall|c: int| 0 <= c < old.len() ==> #[trigger] self.treated(old, spans, ps, c, treat(ps, 0, lo, hi, c)),
        ensures
            forall|c: int| 0 <= c < old.len() ==> (#[trigger] treat(ps, 0, lo, hi, c) matches Treatment::Laid(k)
                ==> self.laid_whole(old, ps[k as int].0, ps[k as int].1, c)),
    {
        assert forall|c: int| 0 <= c < old.len() implies (#[trigger] treat(ps, 0, lo, hi, c) matches Treatment::Laid(k)
            ==> self.laid_whole(old, ps[k as int].0, ps[k as int].1, c)) by {
            assert(self.treated(old, spans, ps, c, treat(ps, 0, lo, hi, c)));
        }
    }

    /// Some cell of `start..=end` changed since the last layout.
    pub open spec fn any_dirty(&self, start: int, end: int) -> bool {
        exists|c: int| start <= c <= end && (#[trigger] self.line@[c]).dirty
    }

    /// Cell `c` has the same content, items and binding in both lines.
    pub open spec fn same_cell(&self, old: Line, c: int) -> bool {
        &&& self.line@[c] == old.line@[c]
        &&& self.item_line@[c] == old.item_line@[c]
        &&& self.cell_to_item@[c] == old.cell_to_item@[c]
    }

    /// Cell `c` of this line is cell `c` of `old` after the treatment `t` of a
    /// layout pass over `spans`, grouped as `ps`.
    pub open spec fn treated(&self, old: Line, spans: Seq<ItemSpan>, ps: Seq<(int, int, int, int)>, c: int, t: Treatment) -> bool {
        match t {
            Treatment::Untouched => self.same_cell(old, c),
            Treatment::Emptied => if old.cell_to_item@[c] >= 0 {
                &&& self.line@[c] == old.line@[c].with_dirty()
                &&& self.item_line@[c]@.len() == 0
                &&& self.cell_to_item@[c] == -1
            } else {
                self.same_cell(old, c)
            },
            Treatment::Laid(k) => {
                let (s, e, lo, hi) = ps[k as int];
                if old.needs_init(s, e) {
                    &&& self.line@[c] == old.line@[c].with_dirty()
                    &&& self.cell_to_item@[c] == s
                    &&& c == s ==> self.item_line@[c]@ == layout(spans.subrange(lo, hi), e - s + 1)
                    &&& c != s ==> self.item_line@[c]@.len() == 0
                } else if old.any_dirty(s, e) && c == s {
                    &&& self.line@[c] == old.line@[c].with_dirty()
                    &&& self.item_line@[c]@ == layout(spans.subrange(lo, hi), e - s + 1)
                    &&& self.cell_to_item@[c] == old.cell_to_item@[c]
                } else {
                    self.same_cell(old, c)
                }
            },
        }
    }

    /// The part of `self` that the treatment `t` of cell `c` marks dirty, added
    /// to `dr`.
    pub open spec fn mark_of(&self, ps: Seq<(int, int, int, int)>, dr: Option<DirtyRange>, c: int, t: Treatment) -> Option<DirtyRange> {
        match t {
            Treatment::Untouched => dr,
            Treatment::Emptied => if self.cell_to_item@[c] >= 0 {
                marked(dr, self.len(), c, c)
            } else {
                dr
            },
            Treatment::Laid(k) => {
                let (s, e, lo, hi) = ps[k as int];
                if c != s {
                    dr
                } else if self.needs_init(s, e) {
                    marked(dr, self.len(), s, e)
                } else if self.any_dirty(s, e) {
                    marked(dr, self.len(), s, s)
                } else {
                    dr
                }
            },
        }
    }

    /// The dirty range after the layout pass has treated the cells `0..n`.
    pub open spec fn dirty_after(&self, ps: Seq<(int, int, int, int)>, lo: int, hi: int, n: int) -> Option<DirtyRange>
        decreases n,
    {
        if n <= 0 {
            self.dirty_range
        } else {
            self.mark_of(ps, self.dirty_after(ps, lo, hi, n - 1), n - 1, treat(ps, 0, lo, hi, n - 1))
        }
    }

    /// Each cell is unbound or bound to an item that starts at or before it,
    /// and the line and its items fit the `i32` cell indices that the
    /// bindings use.
    pub open spec fn bindings_ok(&self) -> bool {
        &&& self.wf()
        &&& self.len() <= i32::MAX
        &&& forall|c: int| 0 <= c < self.len() ==> (#[trigger] self.cell_to_item@[c]) <= c
        &&& forall|c: int, j: int| 0 <= c < self.len() && 0 <= j < self.item_line@[c]@.len()
            ==> (#[trigger] self.item_line@[c]@[j]).cells_count <= i32::MAX
    }

    fn collect_items(new_item: &PangoItemPosition, cells_count: usize) -> (r: Vec<Item>)
        ensures
            r@ == layout(new_item.items@, cells_count as int),
    {
        let mut items: Vec<Item> = Vec::new();
        let mut j: usize = 0;
        while j < new_item.items.len()
            invariant
                j <= new_item.items@.len(),
                items@ == layout(new_item.items@.subrange(0, j as int), cells_count as int),
            decreases new_item.items@.len() - j,
        {
            items.push(Item::new(&new_item.items[j], cells_count));
            j = j + 1;
            assert(items@ =~= layout(new_item.items@.subrange(0, j as int), cells_count as int));
        }
        assert(new_item.items@.subrange(0, j as int) =~= new_item.items@);
        items
    }

    /// Binds the cells of the group to a fresh layout of its items.
    fn initialize_cell_item(&mut self, new_item: &PangoItemPosition)
        requires
            old(self).bindings_ok(),
            new_item.start_cell <= new_item.end_cell < old(self).len(),
        ensures
            final(self).bindings_ok(),
            ({
                let s = new_item.start_cell as int;
                let e = new_item.end_cell as int;
                &&& final(self).line@.len() == old(self).line@.len()
                &&& forall|c: int| s <= c <= e ==> #[trigger] final(self).line@[c] == old(self).line@[c].with_dirty()
                &&& forall|c: int| s <= c <= e ==> #[trigger] final(self).cell_to_item@[c] == s
                &&& final(self).item_line@[s]@ == layout(new_item.items@, e - s + 1)
                &&& forall|c: int| s < c <= e ==> (#[trigger] final(self).item_line@[c])@.len() == 0
                &&& forall|c: int| 0 <= c < old(self).len() && !(s <= c <= e) ==> {
                    &&& #[trigger] final(self).line@[c] == old(self).line@[c]
                    &&& final(self).item_line@[c] == old(self).item_line@[c]
                    &&& final(self).cell_to_item@[c] == old(self).cell_to_item@[c]
                }
                &&& final(self).dirty_range == marked(old(self).dirty_range, old(self).len(), s, e)
            }),
    {
        let s = new_item.start_cell;
        let e = new_item.end_cell;
        let mut i = s;
        while i <= e
            invariant
                old(self).bindings_ok(),
                s <= i <= e + 1,
                e < old(self).len(),
                self.wf(),
                self.line@.len() == old(self).line@.len(),
                self.item_line == old(self).item_line,
                self.dirty_range == old(self).dirty_range,
                forall|c: int| s <= c < i ==> #[trigger] self.line@[c] == old(self).line@[c].with_dirty(),
                forall|c: int| s <= c < i ==> #[trigger] self.cell_to_item@[c] == s,
                forall|c: int| 0 <= c < old(self).len() && !(s <= c < i) ==> #[trigger] self.line@[c] == old(self).line@[c],
                forall|c: int| 0 <= c < old(self).len() && !(s <= c < i) ==> #[trigger] self.cell_to_item@[c] == old(self).cell_to_item@[c],
            decreases e + 1 - i,
        {
            self.line[i].dirty = true;
            self.cell_to_item.set(i, s as i32);
            i = i + 1;
        }
        let mut i = s + 1;
        while i <= e
            invariant
                old(self).bindings_ok(),
                s + 1 <= i <= e + 1,
                e < old(self).len(),
                self.wf(),
                self.line@.len() == old(self).line@.len(),
                self.item_line@.len() == old(self).item_line@.len(),
                forall|c: int| s < c < i ==> (#[trigger] self.item_line@[c])@.len() == 0,
                forall|c: int| 0 <= c < old(self).len() && !(s < c < i) ==> #[trigger] self.item_line@[c] == old(self).item_line@[c],
                forall|c: int| s <= c <= e ==> #[trigger] self.line@[c] == old(self).line@[c].with_dirty(),
                forall|c: int| s <= c <= e ==> #[trigger] self.cell_to_item@[c] == s,
                forall|c: int| 0 <= c < old(self).len() && !(s <= c <= e) ==> #[trigger] self.line@[c] == old(self).line@[c],
                forall|c: int| 0 <= c < old(self).len() && !(s <= c <= e) ==> #[trigger] self.cell_to_item@[c] == old(self).cell_to_item@[c],
                self.dirty_range == old(self).dirty_range,
            decreases e + 1 - i,
        {
            self.item_line.set(i, Vec::new());
            i = i + 1;
        }
        let cells_count = e - s + 1;
        self.item_line.set(s, Self::collect_items(new_item, cells_count));
        self.mark_dirty(s, e);
        assert forall|c: int, j: int| 0 <= c < self.len() && 0 <= j < self.item_line@[c]@.len()
            implies (#[trigger] self.item_line@[c]@[j]).cells_count <= i32::MAX by {
            if c != s && !(s < c <= e) {
                assert(self.item_line@[c] == old(self).item_line@[c]);
            }
        }
    }

    /// Rebinds the items of the group's first cell and marks that cell dirty.
    pub fn update_cell_item(&mut self, new_item: &PangoItemPosition) -> (changed: bool)
        requires
            old(self).wf(),
            new_item.start_cell <= new_item.end_cell < old(self).len(),
        ensures
            changed,
            final(self).wf(),
            old(self).bindings_ok() && new_item.end_cell - new_item.start_cell + 1 <= i32::MAX ==> final(self).bindings_ok(),
            ({
                let s = new_item.start_cell as int;
                let e = new_item.end_cell as int;
                &&& final(self).line@ == old(self).line@.update(s, old(self).line@[s].with_dirty())
                &&& final(self).item_line@ == old(self).item_line@.update(s, final(self).item_line@[s])
                &&& final(self).item_line@[s]@ == layout(new_item.items@, e - s + 1)
                &&& final(self).cell_to_item == old(self).cell_to_item
                &&& final(self).dirty_range == marked(old(self).dirty_range, old(self).len(), s, s)
            }),
    {
        let s = new_item.start_cell;
        let cells_count = new_item.end_cell - s + 1;
        let ghost target = layout(new_item.items@, cells_count as int);
        if self.item_line[s].len() == new_item.items.len() {
            let mut j: usize = 0;
            let n = new_item.items.len();
            while j < n
                invariant
                    j <= n,
                    n == new_item.items@.len(),
                    target == layout(new_item.items@, cells_count as int),
                    s < self.item_line@.len(),
                    self.item_line@.len() == old(self).item_line@.len(),
                    self.item_line@[s as int]@.len() == n,
                    forall|c: int| 0 <= c < self.item_line@.len() && c != s ==> #[trigger] self.item_line@[c] == old(self).item_line@[c],
                    forall|k: int| 0 <= k < j ==> #[trigger] self.item_line@[s as int]@[k] == target[k],
                    self.line == old(self).line,
                    self.cell_to_item == old(self).cell_to_item,
                    self.dirty_range == old(self).dirty_range,
                decreases n - j,
            {
                self.item_line[s][j].update(&new_item.items[j], cells_count);
                j = j + 1;
            }
            assert(self.item_line@[s as int]@ =~= target);
        } else {
            self.item_line.set(s, Self::collect_items(new_item, cells_count));
        }
        assert(self.item_line@ =~= old(self).item_line@.update(s as int, self.item_line@[s as int]));
        self.line[s].dirty = true;
        self.mark_dirty(s, s);
        assert forall|c: int, j: int| 0 <= c < self.len() && 0 <= j < self.item_line@[c]@.len()
            implies (#[trigger] self.item_line@[c]@[j]).cells_count == old(self).item_line@[c]@[j].cells_count
                || (c == s && self.item_line@[c]@[j].cells_count == cells_count) by {}
        true
    }

    /// Lays the group out over its cells, unless the cells already carry a
    /// layout of this extent: then only a changed group is refreshed, in its
    /// first cell. Tells whether anything changed.
    fn set_cell_to_item(&mut self, new_item: &PangoItemPosition) -> (changed: bool)
        requires
            old(self).bindings_ok(),
            new_item.start_cell <= new_item.end_cell < old(self).len(),
        ensures
            final(self).bindings_ok(),
            changed == (old(self).needs_init(new_item.start_cell as int, new_item.end_cell as int)
                || old(self).any_dirty(new_item.start_cell as int, new_item.end_cell as int)),
            ({
                let s = new_item.start_cell as int;
                let e = new_item.end_cell as int;
                &&& old(self).needs_init(s, e) ==> {
                    &&& final(self).line@.len() == old(self).line@.len()
                    &&& forall|c: int| s <= c <= e ==> #[trigger] final(self).line@[c] == old(self).line@[c].with_dirty()
                    &&& forall|c: int| s <= c <= e ==> #[trigger] final(self).cell_to_item@[c] == s
                    &&& final(self).item_line@[s]@ == layout(new_item.items@, e - s + 1)
                    &&& forall|c: int| s < c <= e ==> (#[trigger] final(self).item_line@[c])@.len() == 0
                    &&& forall|c: int| 0 <= c < old(self).len() && !(s <= c <= e) ==> {
                        &&& #[trigger] final(self).line@[c] == old(self).line@[c]
                        &&& final(self).item_line@[c] == old(self).item_line@[c]
                        &&& final(self).cell_to_item@[c] == old(self).cell_to_item@[c]
                    }
                    &&& final(self).dirty_range == marked(old(self).dirty_range, old(self).len(), s, e)
                }
                &&& !old(self).needs_init(s, e) && old(self).any_dirty(s, e) ==> {
                    &&& final(self).line@ == old(self).line@.update(s, old(self).line@[s].with_dirty())
                    &&& final(self).item_line@ == old(self).item_line@.update(s, final(self).item_line@[s])
                    &&& final(self).item_line@[s]@ == layout(new_item.items@, e - s + 1)
                    &&& final(self).cell_to_item == old(self).cell_to_item
                    &&& final(self).dirty_range == marked(old(self).dirty_range, old(self).len(), s, s)
                }
                &&& !old(self).needs_init(s, e) && !old(self).any_dirty(s, e) ==> *final(self) == *old(self)
            }),
    {
        let s = new_item.start_cell;
        let e = new_item.end_cell;
        let start_item_idx = self.cell_to_item(s);
        let start_item_cells_count: Option<usize> = if start_item_idx >= 0 {
            max_cells_count(self.item_line[start_item_idx as usize].as_slice())
        } else {
            None
        };
        let end_item_idx = self.cell_to_item(e);
        let cell_count = e - s + 1;
        let same_count = match start_item_cells_count {
            Some(c) => c == cell_count,
            None => false,
        };
        if start_item_idx != s as i32 || !same_count || start_item_idx == -1 || end_item_idx == -1 {
            self.initialize_cell_item(new_item);
            true
        } else {
            let mut any_dirty = false;
            let mut c = s;
            while c <= e
                invariant
                    s <= c <= e + 1,
                    e < self.line@.len() <= usize::MAX,
                    any_dirty == exists|d: int| s <= d < c && (#[trigger] self.line@[d]).dirty,
                decreases e + 1 - c,
            {
                if self.line[c].dirty {
                    any_dirty = true;
                }
                c = c + 1;
            }
            if any_dirty {
                self.update_cell_item(new_item)
            } else {
                false
            }
        }
    }
}

proof fn lemma_positions_len(spans: Seq<ItemSpan>, c2b: Seq<usize>, i: int)
    requires
        0 <= i,
    ensures
        positions_from(spans, c2b, i).len() <= if i <= spans.len() { spans.len() - i } else { 0 },
    decreases spans.len() - i,
{
    if 0 <= i < spans.len() {
        let g = group_end(spans, c2b, i + 1, last_cell(spans, c2b, i));
        if i < g.0 <= spans.len() {
            lemma_positions_len(spans, c2b, g.0);
        }
    }
}

impl Line {
    proof fn lemma_dirty_after_skip(&self, ps: Seq<(int, int, int, int)>, lo: int, hi: int, n1: int, n2: int)
        requires
            0 <= n1 <= n2,
            forall|c: int, dr: Option<DirtyRange>| n1 <= c < n2 ==> #[trigger] self.mark_of(ps, dr, c, treat(ps, 0, lo, hi, c)) == dr,
        ensures
            self.dirty_after(ps, lo, hi, n2) == self.dirty_after(ps, lo, hi, n1),
        decreases n2 - n1,
    {
        if n1 < n2 {
            self.lemma_dirty_after_skip(ps, lo, hi, n1, n2 - 1);
            assert(self.mark_of(ps, self.dirty_after(ps, lo, hi, n2 - 1), n2 - 1, treat(ps, 0, lo, hi, n2 - 1))
                == self.dirty_after(ps, lo, hi, n2 - 1));
        }
    }

    /// Lays out the cells of the whole line from the shaped spans of its
    /// styled text.
    pub fn merge(&mut self, old_items: &StyledLine, pango_items: &[ItemSpan])
        requires
            old(self).bindings_ok(),
            spans_ok(pango_items@, old_items.cell_to_byte@.len() as int),
            cells_ok(old_items.cell_to_byte@, pango_items@, old(self).len()),
        ensures
            final(self).bindings_ok(),
            ({
                let ps = positions_from(pango_items@, old_items.cell_to_byte@, 0);
                &&& final(self).line@.len() == old(self).line@.len()
                &&& forall|c: int| 0 <= c < old(self).len() ==> #[trigger] final(self).treated(
                    *old(self),
                    pango_items@,
                    ps,
                    c,
                    treat(ps, 0, 0, old(self).len(), c),
                )
                &&& forall|c: int| 0 <= c < old(self).len() ==> (#[trigger] treat(ps, 0, 0, old(self).len(), c) matches Treatment::Laid(k)
                    ==> final(self).laid_whole(*old(self), ps[k as int].0, ps[k as int].1, c))
                &&& final(self).dirty_range == old(self).dirty_after(ps, 0, old(self).len(), old(self).len())
            }),
    {
        if self.line.len() == 0 {
            return;
        }
        let n = self.line.len();
        self.merge_range(old_items, pango_items, 0..n);
    }

    /// Lays out the cells in `range` from the shaped spans of the styled text:
    /// the spans are grouped into runs of cells, each group is bound to its
    /// cells, and cells that no group reaches are unbound.
    pub fn merge_range(&mut self, old_items: &StyledLine, pango_items: &[ItemSpan], range: DirtyRange)
        requires
            old(self).bindings_ok(),
            range.end <= old(self).len(),
            spans_ok(pango_items@, old_items.cell_to_byte@.len() as int),
            cells_ok(old_items.cell_to_byte@, pango_items@, old(self).len()),
        ensures
            final(self).bindings_ok(),
            ({
                let ps = positions_from(pango_items@, old_items.cell_to_byte@, 0);
                &&& final(self).line@.len() == old(self).line@.len()
                &&& forall|c: int| 0 <= c < old(self).len() ==> #[trigger] final(self).treated(
                    *old(self),
                    pango_items@,
                    ps,
                    c,
                    treat(ps, 0, range.start as int, range.end as int, c),
                )
                &&& forall|c: int| 0 <= c < old(self).len() ==> (#[trigger] treat(ps, 0, range.start as int, range.end as int, c) matches Treatment::Laid(k)
                    ==> final(self).laid_whole(*old(self), ps[k as int].0, ps[k as int].1, c))
                &&& final(self).dirty_range == old(self).dirty_after(ps, range.start as int, range.end as int, old(self).len())
            }),
    {
        let ghost spans = pango_items@;
        let ghost c2b = old_items.cell_to_byte@;
        let ghost len = self.len();
        let ghost lo = range.start as int;
        let ghost hi = range.end as int;
        let ghost ps = positions_from(spans, c2b, 0);
        if range.start >= range.end {
            proof {
                assert forall|c: int, dr: Option<DirtyRange>| 0 <= c < len implies #[trigger] old(self).mark_of(
                    ps,
                    dr,
                    c,
                    treat(ps, 0, lo, hi, c),
                ) == dr by {}
                old(self).lemma_dirty_after_skip(ps, lo, hi, 0, len);
                assert forall|c: int| 0 <= c < len implies #[trigger] self.treated(*old(self), spans, ps, c, treat(ps, 0, lo, hi, c)) by {}
                self.law_groups_laid_whole(*old(self), spans, ps, lo, hi);
            }
            return;
        }
        // Reading the length brings into scope that it fits in a usize.
        let _: usize = pango_items.len();
        let mut pango_item_iter = PangoItemPositionIterator::new(pango_items, old_items);
        proof {
            lemma_positions_len(spans, c2b, 0);
            if spans.len() > 0 {
                lemma_positions_unfold(spans, c2b, 0, len);
            }
            assert forall|c: int, dr: Option<DirtyRange>| 0 <= c < lo implies #[trigger] old(self).mark_of(
                ps,
                dr,
                c,
                treat(ps, 0, lo, hi, c),
            ) == dr by {}
            old(self).lemma_dirty_after_skip(ps, lo, hi, 0, lo);
        }
        let mut next_item = pango_item_iter.next();
        proof {
            if spans.len() > 0 {
                assert(ps.skip(1) =~= positions_from(spans, c2b, pango_item_iter.next_idx as int));
            }
        }
        let ghost mut k: int = 0;
        let mut cell_idx = range.start;
        while cell_idx < range.end
            invariant
                old(self).bindings_ok(),
                self.bindings_ok(),
                self.line@.len() == len,
                len == old(self).len(),
                spans == pango_items@,
                c2b == old_items.cell_to_byte@,
                lo == range.start,
                hi == range.end,
                hi <= len,
                spans_ok(spans, c2b.len() as int),
                cells_ok(c2b, spans, len),
                ps == positions_from(spans, c2b, 0),
                pango_item_iter.inv(),
                pango_item_iter.spans@ == spans,
                pango_item_iter.styled_line == old_items,
                pango_item_iter.next_idx <= spans.len(),
                0 <= k <= ps.len(),
                ps.len() <= spans.len() <= usize::MAX,
                next_item is None ==> k == ps.len(),
                next_item matches Some(p) ==> {
                    &&& k < ps.len()
                    &&& p.start_cell == ps[k].0
                    &&& p.end_cell == ps[k].1
                    &&& p.start_cell <= p.end_cell < len
                    &&& p.items@ == spans.subrange(ps[k].2, ps[k].3)
                    &&& positions_from(spans, c2b, pango_item_iter.next_idx as int) == ps.skip(k + 1)
                },
                lo <= cell_idx <= len,
                forall|c: int| cell_idx <= c < len ==> #[trigger] treat(ps, 0, lo, hi, c) == treat(ps, k, cell_idx as int, hi, c),
                forall|c: int| cell_idx <= c < len ==> #[trigger] self.same_cell(*old(self), c),
                forall|c: int| 0 <= c < cell_idx ==> #[trigger] self.treated(*old(self), spans, ps, c, treat(ps, 0, lo, hi, c)),
                self.dirty_range == old(self).dirty_after(ps, lo, hi, cell_idx as int),
            decreases len - cell_idx,
        {
            let ghost pre = *self;
            let ghost c0 = cell_idx as int;
            let mut move_to_next_item = false;
            let empty_here = match &next_item {
                None => true,
                Some(new_item) => cell_idx < new_item.start_cell,
            };
            if empty_here {
                self.set_cell_to_empty(cell_idx);
                proof {
                    assert(treat(ps, 0, lo, hi, c0) == Treatment::Emptied);
                    assert(pre.same_cell(*old(self), c0));
                    assert forall|c: int| 0 <= c < c0 + 1 implies #[trigger] self.treated(*old(self), spans, ps, c, treat(ps, 0, lo, hi, c)) by {
                        if c < c0 {
                            assert(pre.treated(*old(self), spans, ps, c, treat(ps, 0, lo, hi, c)));
                            assert(self.same_cell(pre, c));
                        }
                    }
                    assert forall|c: int| c0 + 1 <= c < len implies #[trigger] self.same_cell(*old(self), c) by {
                        assert(pre.same_cell(*old(self), c));
                        assert(self.same_cell(pre, c));
                    }
                    assert forall|c: int| c0 + 1 <= c < len implies #[trigger] treat(ps, 0, lo, hi, c) == treat(ps, k, c0 + 1, hi, c) by {
                        assert(treat(ps, 0, lo, hi, c) == treat(ps, k, c0, hi, c));
                    }
                }
                cell_idx = cell_idx + 1;
            } else {
                match &next_item {
                    Some(new_item) => {
                        if cell_idx == new_item.start_cell {
                            move_to_next_item = true;
                            let ghost s = new_item.start_cell as int;
                            let ghost e = new_item.end_cell as int;
                            proof {
                                assert forall|c: int| s <= c <= e implies pre.line@[c] == old(self).line@[c] by {
                                    assert(pre.same_cell(*old(self), c));
                                }
                                assert(pre.same_cell(*old(self), s));
                                assert(pre.same_cell(*old(self), e));
                                assert(pre.needs_init(s, e) == old(self).needs_init(s, e));
                                if pre.any_dirty(s, e) {
                                    let w = choose|w: int| s <= w <= e && (#[trigger] pre.line@[w]).dirty;
                                    assert(old(self).line@[w].dirty);
                                }
                                if old(self).any_dirty(s, e) {
                                    let w = choose|w: int| s <= w <= e && (#[trigger] old(self).line@[w]).dirty;
                                    assert(pre.line@[w].dirty);
                                }
                                assert(pre.any_dirty(s, e) == old(self).any_dirty(s, e));
                            }
                            self.set_cell_to_item(new_item);
                            proof {
                                assert forall|c: int| 0 <= c < len && !(s <= c <= e) implies #[trigger] self.same_cell(pre, c) by {}
                                assert forall|c: int| 0 <= c < e + 1 implies #[trigger] self.treated(*old(self), spans, ps, c, treat(ps, 0, lo, hi, c)) by {
                                    if c < c0 {
                                        assert(pre.treated(*old(self), spans, ps, c, treat(ps, 0, lo, hi, c)));
                                        assert(self.same_cell(pre, c));
                                    } else {
                                        assert(treat(ps, 0, lo, hi, c) == treat(ps, k, c0, hi, c));
                                        assert(treat(ps, k, c0, hi, c) == Treatment::Laid(k as usize));
                                        assert(pre.same_cell(*old(self), c));
                                    }
                                }
                                assert forall|c: int| e + 1 <= c < len implies #[trigger] self.same_cell(*old(self), c) by {
                                    assert(pre.same_cell(*old(self), c));
                                    assert(self.same_cell(pre, c));
                                }
                                assert forall|c: int| e + 1 <= c < len implies #[trigger] treat(ps, 0, lo, hi, c) == treat(ps, k + 1, e + 1, hi, c) by {
                                    assert(treat(ps, 0, lo, hi, c) == treat(ps, k, c0, hi, c));
                                }
                                assert forall|c: int, dr: Option<DirtyRange>| c0 + 1 <= c < e + 1 implies #[trigger] old(self).mark_of(
                                    ps,
                                    dr,
                                    c,
                                    treat(ps, 0, lo, hi, c),
                                ) == dr by {
                                    assert(treat(ps, 0, lo, hi, c) == treat(ps, k, c0, hi, c));
                                }
                                old(self).lemma_dirty_after_skip(ps, lo, hi, c0 + 1, e + 1);
                                assert(treat(ps, 0, lo, hi, c0) == Treatment::Laid(k as usize));
                            }
                        } else {
                            proof {
                                assert(treat(ps, 0, lo, hi, c0) == Treatment::Untouched);
                                assert forall|c: int| 0 <= c < c0 + 1 implies #[trigger] self.treated(*old(self), spans, ps, c, treat(ps, 0, lo, hi, c)) by {
                                    if c == c0 {
                                        assert(pre.same_cell(*old(self), c));
                                    }
                                }
                                assert forall|c: int| c0 + 1 <= c < len implies #[trigger] treat(ps, 0, lo, hi, c) == treat(ps, k, c0 + 1, hi, c) by {
                                    assert(treat(ps, 0, lo, hi, c) == treat(ps, k, c0, hi, c));
                                }
                            }
                        }
                    },
                    None => {},
                }
                if move_to_next_item {
                    let end_cell = match &next_item {
                        Some(new_item) => new_item.end_cell,
                        None => cell_idx,
                    };
                    cell_idx = end_cell + 1;
                    let ghost idx_before = pango_item_iter.next_idx as int;
                    proof {
                        if idx_before < spans.len() {
                            lemma_positions_unfold(spans, c2b, idx_before, len);
                        }
                    }
                    next_item = pango_item_iter.next();
                    proof {
                        let rest = ps.skip(k + 1);
                        if idx_before < spans.len() {
                            assert(rest[0] == ps[k + 1]);
                            assert(ps.skip(k + 2) =~= rest.skip(1));
                            assert(rest.skip(1) =~= positions_from(spans, c2b, pango_item_iter.next_idx as int));
                        } else {
                            assert(rest.len() == 0);
                        }
                        k = k + 1;
                    }
                } else {
                    cell_idx = cell_idx + 1;
                }
            }
        }
        proof {
            assert forall|c: int| 0 <= c < len implies #[trigger] self.treated(*old(self), spans, ps, c, treat(ps, 0, lo, hi, c)) by {
                if c >= cell_idx {
                    assert(treat(ps, 0, lo, hi, c) == treat(ps, k, cell_idx as int, hi, c));
                    assert(self.same_cell(*old(self), c));
                }
            }
            assert forall|c: int, dr: Option<DirtyRange>| cell_idx <= c < len implies #[trigger] old(self).mark_of(
                ps,
                dr,
                c,
                treat(ps, 0, lo, hi, c),
            ) == dr by {
                assert(treat(ps, 0, lo, hi, c) == treat(ps, k, cell_idx as int, hi, c));
            }
            old(self).lemma_dirty_after_skip(ps, lo, hi, cell_idx as int, len);
            self.law_groups_laid_whole(*old(self), spans, ps, lo, hi);
        }
    }
}

} // verus!
