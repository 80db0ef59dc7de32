use std::ops::Range;
use vstd::prelude::*;
use vstd::string::StringExecFns;
use vstd::utf8::encode_utf8;

use super::cell::Cell;
use super::line::{cell_text, Line};

verus! {

/// A run of text bytes that share one style.
pub struct StyleAttr {
    pub italic: bool,
    pub bold: bool,
    pub foreground: Option<u32>,
    pub background: Option<u32>,
    /// The run covers no cell yet.
    pub empty: bool,
    /// The run started on a cell without text.
    pub space: bool,
    pub start_idx: usize,
    pub end_idx: usize,
}

/// The style of the text of `cell`, covering bytes `start..end`.
pub open spec fn style_of(start: usize, end: usize, cell: Cell) -> StyleAttr {
    StyleAttr {
        italic: cell.hl.italic,
        bold: cell.hl.bold,
        foreground: cell.hl.foreground,
        background: cell.hl.background,
        empty: false,
        space: cell.ch@.len() == 0,
        start_idx: start,
        end_idx: end,
    }
}

/// Two runs render alike: same attributes, colours and emptiness.
pub open spec fn same_style(a: StyleAttr, b: StyleAttr) -> bool {
    &&& a.italic == b.italic
    &&& a.bold == b.bold
    &&& a.foreground == b.foreground
    &&& a.empty == b.empty
    &&& a.background == b.background
}

/// Feeding the cell `cell`, at bytes `start..end`, to the run `attr`: the run
/// either grows to `end`, or it ends and a new run for the cell begins. A run
/// that started on a cell without text swallows following cells without text.
pub open spec fn style_step(attr: StyleAttr, start: usize, end: usize, cell: Cell) -> (StyleAttr, Option<StyleAttr>) {
    if attr.space && cell.ch@.len() == 0 {
        (StyleAttr { end_idx: end, ..attr }, None)
    } else if !same_style(attr, style_of(start, end, cell)) {
        (attr, Some(style_of(start, end, cell)))
    } else {
        (StyleAttr { end_idx: end, ..attr }, None)
    }
}

/// The run before any cell.
pub open spec fn style_start() -> StyleAttr {
    StyleAttr {
        italic: false,
        bold: false,
        foreground: None,
        background: None,
        empty: true,
        space: false,
        start_idx: 0,
        end_idx: 0,
    }
}

/// `runs` with `attr` appended, unless `attr` covers nothing.
pub open spec fn emit(runs: Seq<StyleAttr>, attr: StyleAttr) -> Seq<StyleAttr> {
    if attr.empty { runs } else { runs.push(attr) }
}

/// The number of UTF-8 bytes that cell `cell` contributes to a styled line.
pub open spec fn piece_len(cell: Cell) -> int {
    encode_utf8(cell_text(cell)).len() as int
}

/// The text of the rendered cells `lo..hi`: each contributes its text, or a
/// space when it has none; second halves of double-width characters
/// contribute nothing.
pub open spec fn text_of(cells: Seq<Cell>, lo: int, hi: int) -> Seq<char>
    decreases hi - lo,
{
    if hi <= lo {
        Seq::empty()
    } else if cells[hi - 1].double_width {
        text_of(cells, lo, hi - 1)
    } else {
        text_of(cells, lo, hi - 1) + cell_text(cells[hi - 1])
    }
}

/// For each byte of `text_of(cells, lo, hi)`, the index of the cell it came from.
pub open spec fn byte_cells(cells: Seq<Cell>, lo: int, hi: int) -> Seq<usize>
    decreases hi - lo,
{
    if hi <= lo {
        Seq::empty()
    } else if cells[hi - 1].double_width {
        byte_cells(cells, lo, hi - 1)
    } else {
        byte_cells(cells, lo, hi - 1) + Seq::new(piece_len(cells[hi - 1]) as nat, |_i: int| (hi - 1) as usize)
    }
}

/// The finished runs and the open run after the rendered cells `lo..hi`.
pub open spec fn style_scan(cells: Seq<Cell>, lo: int, hi: int) -> (Seq<StyleAttr>, StyleAttr)
    decreases hi - lo,
{
    if hi <= lo {
        (Seq::empty(), style_start())
    } else {
        let (runs, cur) = style_scan(cells, lo, hi - 1);
        if cells[hi - 1].double_width {
            (runs, cur)
        } else {
            let start = byte_cells(cells, lo, hi - 1).len();
            let end = start + piece_len(cells[hi - 1]);
            let (cur2, next) = style_step(cur, start as usize, end as usize, cells[hi - 1]);
            match next {
                Some(n) => (emit(runs, cur2), n),
                None => (runs, cur2),
            }
        }
    }
}

/// All style runs of the rendered cells `lo..hi`.
pub open spec fn style_runs(cells: Seq<Cell>, lo: int, hi: int) -> Seq<StyleAttr> {
    let (runs, cur) = style_scan(cells, lo, hi);
    emit(runs, cur)
}

fn opt_eq(a: Option<u32>, b: Option<u32>) -> (r: bool)
    ensures
        r == (a == b),
{
    match (a, b) {
        (Some(x), Some(y)) => x == y,
        (None, None) => true,
        _ => false,
    }
}

impl StyleAttr {
    pub fn new() -> (s: StyleAttr)
        ensures
            s == style_start(),
    {
        StyleAttr {
            italic: false,
            bold: false,
            foreground: None,
            background: None,
            empty: true,
            space: false,
            start_idx: 0,
            end_idx: 0,
        }
    }

    pub fn from(start_idx: usize, end_idx: usize, cell: &Cell) -> (s: StyleAttr)
        ensures
            s == style_of(start_idx, end_idx, *cell),
    {
        StyleAttr {
            italic: cell.hl.italic,
            bold: cell.hl.bold,
            foreground: cell.hl.foreground,
            background: cell.hl.background,
            empty: false,
            space: cell.ch.as_str().is_empty(),
            start_idx,
            end_idx,
        }
    }

    /// Whether two runs render alike.
    pub fn same_style(&self, other: &StyleAttr) -> (r: bool)
        ensures
            r == same_style(*self, *other),
    {
        self.italic == other.italic && self.bold == other.bold && opt_eq(self.foreground, other.foreground)
            && self.empty == other.empty && opt_eq(self.background, other.background)
    }

    /// Feeds the next cell to this run; returns the run that the cell starts,
    /// if it does not continue this one.
    pub fn next(&mut self, start_idx: usize, end_idx: usize, cell: &Cell) -> (r: Option<StyleAttr>)
        ensures
            (*final(self), r) == style_step(*old(self), start_idx, end_idx, *cell),
    {
        // don't check attr for space
        if self.space && cell.ch.as_str().is_empty() {
            self.end_idx = end_idx;
            return None;
        }
        let style_attr = Self::from(start_idx, end_idx, cell);
        if !self.same_style(&style_attr) {
            Some(style_attr)
        } else {
            self.end_idx = end_idx;
            None
        }
    }
}

/// The run renders a cell as the cell's highlight asks: same slant, weight,
/// foreground and background.
pub open spec fn run_matches_cell(run: StyleAttr, cell: Cell) -> bool {
    &&& run.italic == cell.hl.italic
    &&& run.bold == cell.hl.bold
    &&& run.foreground == cell.hl.foreground
    &&& run.background == cell.hl.background
}

/// Every byte that a run covers is a byte of the text, and when its cell has
/// text, the run renders that cell as the cell's highlight asks.
pub open spec fn runs_follow_cells(runs: Seq<StyleAttr>, c2b: Seq<usize>, cells: Seq<Cell>) -> bool {
    forall|k: int, b: int|
        #![trigger runs[k], c2b[b]]
        0 <= k < runs.len() && runs[k].start_idx <= b < runs[k].end_idx ==> {
            &&& b < c2b.len()
            &&& (cells[c2b[b] as int].ch@.len() > 0 ==> run_matches_cell(runs[k], cells[c2b[b] as int]))
        }
}

proof fn lemma_byte_cells_grow(cells: Seq<Cell>, lo: int, hi: int)
    requires
        lo < hi,
    ensures
        byte_cells(cells, lo, hi - 1).len() <= byte_cells(cells, lo, hi).len(),
        forall|b: int| 0 <= b < byte_cells(cells, lo, hi - 1).len() ==> #[trigger] byte_cells(cells, lo, hi)[b] == byte_cells(cells, lo, hi - 1)[b],
        forall|b: int| byte_cells(cells, lo, hi - 1).len() <= b < byte_cells(cells, lo, hi).len() ==> #[trigger] byte_cells(cells, lo, hi)[b] == (hi - 1) as usize,
{
}

proof fn lemma_style_scan_follows(cells: Seq<Cell>, lo: int, hi: int)
    requires
        0 <= lo <= hi <= cells.len(),
        cells.len() <= usize::MAX,
        byte_cells(cells, lo, hi).len() <= usize::MAX,
    ensures
        ({
            let (runs, cur) = style_scan(cells, lo, hi);
            let bc = byte_cells(cells, lo, hi);
            &&& runs_follow_cells(runs, bc, cells)
            &&& cur.empty ==> !cur.space && cur.end_idx == 0
            &&& !cur.empty ==> cur.end_idx == bc.len() && runs_follow_cells(seq![cur], bc, cells)
        }),
    decreases hi - lo,
{
    if hi > lo {
        lemma_byte_cells_grow(cells, lo, hi);
        lemma_style_scan_follows(cells, lo, hi - 1);
        let (runs, cur) = style_scan(cells, lo, hi - 1);
        let bc0 = byte_cells(cells, lo, hi - 1);
        let bc = byte_cells(cells, lo, hi);
        let x = cells[hi - 1];
        assert(runs_follow_cells(runs, bc0, cells));
        if !x.double_width {
            let start = bc0.len();
            let end = start + piece_len(x);
            assert(bc.len() == end);
            let (cur2, next) = style_step(cur, start as usize, end as usize, x);
            assert forall|k: int, b: int| #![trigger runs[k], bc[b]] 0 <= k < runs.len() && runs[k].start_idx <= b < runs[k].end_idx implies {
                &&& b < bc.len()
                &&& (cells[bc[b] as int].ch@.len() > 0 ==> run_matches_cell(runs[k], cells[bc[b] as int]))
            } by {
                assert(b < bc0.len() && (cells[bc0[b] as int].ch@.len() > 0 ==> run_matches_cell(runs[k], cells[bc0[b] as int])));
                assert(bc[b] == bc0[b]);
            }
            assert(runs_follow_cells(runs, bc, cells));
            if !cur.empty {
                assert forall|k: int, b: int| #![trigger seq![cur][k], bc[b]] 0 <= k < 1 && seq![cur][k].start_idx <= b < seq![cur][k].end_idx implies {
                    &&& b < bc.len()
                    &&& (cells[bc[b] as int].ch@.len() > 0 ==> run_matches_cell(seq![cur][k], cells[bc[b] as int]))
                } by {
                    assert(seq![cur][k] == cur);
                    assert(b < bc0.len() && (cells[bc0[b] as int].ch@.len() > 0 ==> run_matches_cell(cur, cells[bc0[b] as int])));
                    assert(bc[b] == bc0[b]);
                }
            }
            match next {
                Some(n) => {
                    assert(n == style_of(start as usize, end as usize, x));
                    assert forall|k: int, b: int| #![trigger seq![n][k], bc[b]] 0 <= k < 1 && seq![n][k].start_idx <= b < seq![n][k].end_idx implies {
                        &&& b < bc.len()
                        &&& (cells[bc[b] as int].ch@.len() > 0 ==> run_matches_cell(seq![n][k], cells[bc[b] as int]))
                    } by {
                        assert(seq![n][k] == n);
                        assert(bc[b] == (hi - 1) as usize);
                    }
                    let runs2 = emit(runs, cur2);
                    assert forall|k: int, b: int| #![trigger runs2[k], bc[b]] 0 <= k < runs2.len() && runs2[k].start_idx <= b < runs2[k].end_idx implies {
                        &&& b < bc.len()
                        &&& (cells[bc[b] as int].ch@.len() > 0 ==> run_matches_cell(runs2[k], cells[bc[b] as int]))
                    } by {
                        if k < runs.len() {
                            assert(runs2[k] == runs[k]);
                        } else {
                            assert(runs2[k] == cur);
                            assert(seq![cur][0] == cur);
                        }
                    }
                },
                None => {
                    assert forall|k: int, b: int| #![trigger seq![cur2][k], bc[b]] 0 <= k < 1 && seq![cur2][k].start_idx <= b < seq![cur2][k].end_idx implies {
                        &&& b < bc.len()
                        &&& (cells[bc[b] as int].ch@.len() > 0 ==> run_matches_cell(seq![cur2][k], cells[bc[b] as int]))
                    } by {
                        assert(seq![cur2][k] == cur2);
                        assert(seq![cur][0] == cur);
                        if b < start {
                            assert(bc[b] == bc0[b]);
                        } else {
                            assert(bc[b] == (hi - 1) as usize);
                        }
                    }
                },
            }
        }
    }
}

/// Within every style run, each cell with text is rendered as its own
/// highlight asks: a run never spans cells of different slant, weight or
/// colours.
pub proof fn law_style_runs_follow_cells(cells: Seq<Cell>, lo: int, hi: int)
    requires
        0 <= lo <= hi <= cells.len(),
        cells.len() <= usize::MAX,
        byte_cells(cells, lo, hi).len() <= usize::MAX,
    ensures
        runs_follow_cells(style_runs(cells, lo, hi), byte_cells(cells, lo, hi), cells),
{
    lemma_style_scan_follows(cells, lo, hi);
    let (runs, cur) = style_scan(cells, lo, hi);
    let bc = byte_cells(cells, lo, hi);
    let all = emit(runs, cur);
    assert forall|k: int, b: int| #![trigger all[k], bc[b]] 0 <= k < all.len() && all[k].start_idx <= b < all[k].end_idx implies {
        &&& b < bc.len()
        &&& (cells[bc[b] as int].ch@.len() > 0 ==> run_matches_cell(all[k], cells[bc[b] as int]))
    } by {
        if k < runs.len() {
            assert(all[k] == runs[k]);
        } else {
            assert(all[k] == cur);
            assert(seq![cur][0] == cur);
        }
    }
}

/// What a text attribute sets: slant, weight, or a colour as 16-bit red,
/// green and blue channels.
pub enum TextAttrKind {
    Italic,
    Bold,
    Foreground(u16, u16, u16),
    Background(u16, u16, u16),
}

/// A text attribute over the bytes `start_idx..end_idx` of a styled line.
pub struct TextAttr {
    pub kind: TextAttrKind,
    pub start_idx: usize,
    pub end_idx: usize,
}

/// An 8-bit channel of a `0xRRGGBB` colour widened to 16 bits, so that
/// `0xff` becomes `0xffff`.
pub open spec fn channel16(color: u32, unit: u32) -> u16 {
    (((color / unit) % 256) * 257) as u16
}

/// The 16-bit channels of a `0xRRGGBB` colour.
pub open spec fn rgb16(color: u32) -> (u16, u16, u16) {
    (channel16(color, 0x10000), channel16(color, 0x100), channel16(color, 1))
}

/// The attribute `kind` over the bytes of `run`.
pub open spec fn attr_over(run: StyleAttr, kind: TextAttrKind) -> TextAttr {
    TextAttr { kind, start_idx: run.start_idx, end_idx: run.end_idx }
}

/// The attribute `kind` over `run` when `on`, else nothing.
pub open spec fn attr_if(on: bool, run: StyleAttr, kind: TextAttrKind) -> Seq<TextAttr> {
    if on { seq![attr_over(run, kind)] } else { Seq::empty() }
}

/// The text attributes of a style run, in the order slant, weight,
/// foreground, background; none for a run that covers nothing.
pub open spec fn run_attrs(run: StyleAttr) -> Seq<TextAttr> {
    if run.empty {
        Seq::empty()
    } else {
        let (fr, fg, fb) = rgb16(run.foreground.unwrap_or(0));
        let (br, bg, bb) = rgb16(run.background.unwrap_or(0));
        attr_if(run.italic, run, TextAttrKind::Italic)
            + attr_if(run.bold, run, TextAttrKind::Bold)
            + attr_if(run.foreground is Some, run, TextAttrKind::Foreground(fr, fg, fb))
            + attr_if(run.background is Some, run, TextAttrKind::Background(br, bg, bb))
    }
}

/// Widens one 8-bit channel of `color`.
fn channel(color: u32, unit: u32) -> (c: u16)
    requires
        unit > 0,
    ensures
        c == channel16(color, unit),
{
    let byte = (color / unit) % 256;
    assert(byte * 257 <= 255 * 257) by (nonlinear_arith)
        requires
            byte < 256,
    ;
    (byte * 257) as u16
}

/// Computes `rgb16`.
fn color16(color: u32) -> (c: (u16, u16, u16))
    ensures
        c == rgb16(color),
{
    (channel(color, 0x10000), channel(color, 0x100), channel(color, 1))
}

impl StyleAttr {
    /// The text attributes that render this run.
    pub fn text_attrs(&self) -> (r: Vec<TextAttr>)
        ensures
            r@ == run_attrs(*self),
    {
        let mut attrs: Vec<TextAttr> = Vec::new();
        if self.empty {
            return attrs;
        }
        let ghost run = *self;
        if self.italic {
            attrs.push(TextAttr { kind: TextAttrKind::Italic, start_idx: self.start_idx, end_idx: self.end_idx });
        }
        assert(attrs@ == attr_if(run.italic, run, TextAttrKind::Italic));
        let ghost s1 = attrs@;
        if self.bold {
            attrs.push(TextAttr { kind: TextAttrKind::Bold, start_idx: self.start_idx, end_idx: self.end_idx });
        }
        assert(attrs@ == s1 + attr_if(run.bold, run, TextAttrKind::Bold));
        let ghost s2 = attrs@;
        let (fr, fg, fb) = color16(match self.foreground { Some(c) => c, None => 0 });
        if self.foreground.is_some() {
            attrs.push(TextAttr { kind: TextAttrKind::Foreground(fr, fg, fb), start_idx: self.start_idx, end_idx: self.end_idx });
        }
        assert(attrs@ == s2 + attr_if(run.foreground is Some, run, TextAttrKind::Foreground(fr, fg, fb)));
        let ghost s3 = attrs@;
        let (br, bg, bb) = color16(match self.background { Some(c) => c, None => 0 });
        if self.background.is_some() {
            attrs.push(TextAttr { kind: TextAttrKind::Background(br, bg, bb), start_idx: self.start_idx, end_idx: self.end_idx });
        }
        assert(attrs@ == s3 + attr_if(run.background is Some, run, TextAttrKind::Background(br, bg, bb)));
        attrs
    }
}

/// The text of (part of) a line as it is handed to the text shaper: the text,
/// the cell that each byte came from, and its style runs.
pub struct StyledLine {
    pub line_str: String,
    pub cell_to_byte: Vec<usize>,
    pub style_runs: Vec<StyleAttr>,
}

impl StyledLine {
    /// The styled text of the whole line.
    pub fn from(line: &Line) -> (s: StyledLine)
        ensures
            s.line_str@ == text_of(line.line@, 0, line.line@.len() as int),
            s.cell_to_byte@ == byte_cells(line.line@, 0, line.line@.len() as int),
            s.style_runs@ == style_runs(line.line@, 0, line.line@.len() as int),
            runs_follow_cells(s.style_runs@, s.cell_to_byte@, line.line@),
    {
        if line.line.len() == 0 {
            return StyledLine { line_str: String::new(), cell_to_byte: Vec::new(), style_runs: Vec::new() };
        }
        Self::from_range(line, 0..line.line.len())
    }

    /// The styled text of the cells in `range`.
    pub fn from_range(line: &Line, range: Range<usize>) -> (s: StyledLine)
        requires
            range.start <= range.end <= line.line@.len(),
        ensures
            s.line_str@ == text_of(line.line@, range.start as int, range.end as int),
            s.cell_to_byte@ == byte_cells(line.line@, range.start as int, range.end as int),
            s.style_runs@ == style_runs(line.line@, range.start as int, range.end as int),
            runs_follow_cells(s.style_runs@, s.cell_to_byte@, line.line@),
    {
        let ghost cells = line.line@;
        let ghost lo = range.start as int;
        let mut line_str = String::new();
        let mut cell_to_byte: Vec<usize> = Vec::new();
        let mut style_runs: Vec<StyleAttr> = Vec::new();
        let mut style_attr = StyleAttr::new();
        let mut byte_offset: usize = 0;
        let mut cell_idx = range.start;
        while cell_idx < range.end
            invariant
                cells == line.line@,
                lo == range.start,
                range.start <= cell_idx <= range.end <= cells.len(),
                line_str@ == text_of(cells, lo, cell_idx as int),
                cell_to_byte@ == byte_cells(cells, lo, cell_idx as int),
                byte_offset == cell_to_byte@.len(),
                (style_runs@, style_attr) == style_scan(cells, lo, cell_idx as int),
            decreases range.end - cell_idx,
        {
            let cell = &line.line[cell_idx];
            if cell.double_width {
                cell_idx = cell_idx + 1;
                continue;
            }
            let piece: &str = if cell.ch.as_str().is_empty() {
                " "
            } else {
                cell.ch.as_str()
            };
            proof {
                reveal_strlit(" ");
            }
            assert(piece@ == cell_text(*cell));
            line_str.append(piece);
            let len = piece.as_bytes().len();
            let ghost before = cell_to_byte@;
            let mut k: usize = 0;
            while k < len
                invariant
                    k <= len,
                    len == piece_len(*cell),
                    cell_to_byte@ == before + Seq::new(k as nat, |_i: int| cell_idx),
                decreases len - k,
            {
                cell_to_byte.push(cell_idx);
                k = k + 1;
                assert(cell_to_byte@ =~= before + Seq::new(k as nat, |_i: int| cell_idx));
            }
            let end = cell_to_byte.len();
            let next = style_attr.next(byte_offset, end, cell);
            match next {
                Some(next) => {
                    if !style_attr.empty {
                        style_runs.push(style_attr);
                    }
                    style_attr = next;
                },
                None => {},
            }
            byte_offset = end;
            cell_idx = cell_idx + 1;
        }
        if !style_attr.empty {
            style_runs.push(style_attr);
        }
        // Reading the lengths brings into scope that they fit in a usize.
        let _: usize = cell_to_byte.len();
        let _: usize = line.line.len();
        proof {
            law_style_runs_follow_cells(cells, lo, range.end as int);
        }
        StyledLine { line_str, cell_to_byte, style_runs }
    }
}

} // verus!
