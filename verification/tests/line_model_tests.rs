use std::rc::Rc;

use neovim_gtk_ui::ui_model::item_layout::{PangoItemPosition, PangoItemPositionIterator};
use neovim_gtk_ui::ui_model::line::{cell_itemize_kind, max_cells_count, ItemizeCellKind};
use neovim_gtk_ui::ui_model::{Cell, Highlight, Item, ItemSpan, Line, StyleAttr, StyledLine, TextAttrKind};

fn text_line(text: &str) -> Line {
    let mut line = Line::new(text.chars().count());
    for (idx, ch) in text.chars().enumerate() {
        line.line[idx].ch = ch.to_string();
    }
    line
}

fn cell(text: &str) -> Cell {
    let mut c = Cell::new_empty();
    c.ch = text.to_owned();
    c
}

#[test]
fn new_line_is_empty_unbound_and_wholly_dirty() {
    let line = Line::new(3);
    assert_eq!(3, line.line.len());
    assert_eq!(3, line.item_line.len());
    assert_eq!(vec![-1, -1, -1], line.cell_to_item);
    assert!(line.line.iter().all(|c| c.ch.is_empty() && c.dirty && !c.double_width));
    assert_eq!(Some(0..3), line.dirty_range());
    assert_eq!(None, Line::new(0).dirty_range());
}

#[test]
fn mark_dirty_clamps_and_widens() {
    let mut line = Line::new(5);
    line.clear_dirty();
    assert!(!line.is_dirty());
    line.mark_dirty(2, 2);
    assert_eq!(Some(2..3), line.dirty_range());
    line.mark_dirty(0, 0);
    assert_eq!(Some(0..3), line.dirty_range());
    // Both ends are clamped to the last cell.
    line.mark_dirty(7, 9);
    assert_eq!(Some(0..5), line.dirty_range());
    assert_eq!(Some(0..5), line.take_dirty_range());
    assert_eq!(None, line.dirty_range());

    let mut empty = Line::new(0);
    empty.mark_dirty(0, 3);
    assert_eq!(None, empty.dirty_range());
}

#[test]
fn resize_to_same_width_twice_is_a_no_op() {
    let mut line = text_line("ab");
    line.resize(4);
    line.line[3].ch = "z".to_owned();
    line.clear_dirty();
    line.resize(4);
    assert_eq!(None, line.dirty_range());
    assert_eq!("z", line.line[3].ch);
    assert_eq!(4, line.line.len());
}

#[test]
fn swap_with_exchanges_cells_and_dirties_target() {
    let mut a = text_line("abc");
    let mut b = text_line("xyz");
    for c in a.line.iter_mut().chain(b.line.iter_mut()) {
        c.dirty = false;
    }
    a.clear_dirty();
    b.clear_dirty();

    a.swap_with(&mut b, 1, 2);

    assert_eq!("a", a.line[0].ch);
    assert_eq!("y", a.line[1].ch);
    assert_eq!("z", a.line[2].ch);
    assert!(!a.line[1].dirty);
    assert_eq!(None, a.dirty_range());
    assert_eq!("x", b.line[0].ch);
    assert_eq!("b", b.line[1].ch);
    assert_eq!("c", b.line[2].ch);
    assert!(!b.line[0].dirty);
    assert!(b.line[1].dirty && b.line[2].dirty);
    assert_eq!(Some(1..3), b.dirty_range());
}

#[test]
fn clear_blanks_cells_with_the_highlight() {
    let mut line = text_line("abcd");
    line.clear_dirty();
    let hl = Rc::new(Highlight { foreground: Some(0xff0000), background: None, italic: true, bold: false });
    line.clear(1, 2, &hl);
    assert_eq!("a", line.line[0].ch);
    assert_eq!("", line.line[1].ch);
    assert_eq!("", line.line[2].ch);
    assert_eq!("d", line.line[3].ch);
    assert!(Rc::ptr_eq(&hl, &line.line[1].hl));
    assert!(Rc::ptr_eq(&hl, &line.line[2].hl));
    assert!(!Rc::ptr_eq(&hl, &line.line[0].hl));
    assert_eq!(Some(1..3), line.dirty_range());
}

#[test]
fn clear_glyphs_unbinds_every_cell() {
    let mut line = Line::new(3);
    line.cell_to_item = vec![0, 0, 2];
    line.item_line[0].push(Item::new(&ItemSpan { offset: 0, length: 2 }, 2));
    line.clear_dirty();
    line.clear_glyphs();
    assert_eq!(vec![-1, -1, -1], line.cell_to_item);
    assert!(line.item_line.iter().all(|items| items.is_empty()));
    assert_eq!(Some(0..3), line.dirty_range());
}

#[test]
fn item_bindings_are_reported() {
    let mut line = Line::new(4);
    line.cell_to_item = vec![0, 0, -1, -1];
    line.item_line[0].push(Item::new(&ItemSpan { offset: 0, length: 3 }, 2));
    line.item_line[0].push(Item::new(&ItemSpan { offset: 3, length: 1 }, 1));

    assert_eq!(0, line.cell_to_item(1));
    assert!(line.is_binded_to_item(1));
    assert!(!line.is_binded_to_item(2));
    assert_eq!(2, line.get_items(1).len());
    assert_eq!(3, line.get_items(0)[0].span.length);
    assert!(line.get_items(3).is_empty());
    assert_eq!(2, line.item_len_from_idx(0));
    assert_eq!(1, line.item_len_from_idx(1));
    assert_eq!(1, line.item_len_from_idx(2));
    assert_eq!(Some(0..2), line.item_bounds(0));
    assert_eq!(Some(0..2), line.item_bounds(1));
    assert_eq!(None, line.item_bounds(2));
}

#[test]
fn item_bounds_are_cut_at_the_line_end() {
    let mut line = Line::new(3);
    line.cell_to_item = vec![-1, 1, 1];
    line.item_line[1].push(Item::new(&ItemSpan { offset: 0, length: 4 }, 5));
    assert_eq!(Some(1..3), line.item_bounds(2));
    // A binding to an item that starts after the cell is ignored.
    line.cell_to_item[0] = 1;
    assert_eq!(None, line.item_bounds(0));
}

#[test]
fn max_cells_count_finds_the_widest_item() {
    assert_eq!(None, max_cells_count(&[]));
    let items = [
        Item::new(&ItemSpan { offset: 0, length: 1 }, 2),
        Item::new(&ItemSpan { offset: 1, length: 1 }, 5),
        Item::new(&ItemSpan { offset: 2, length: 1 }, 3),
    ];
    assert_eq!(Some(5), max_cells_count(&items));
}

#[test]
fn cells_are_classified_for_itemization() {
    assert!(cell_itemize_kind(&cell("")) == ItemizeCellKind::Whitespace);
    assert!(cell_itemize_kind(&cell(" ")) == ItemizeCellKind::Whitespace);
    assert!(cell_itemize_kind(&cell("\t")) == ItemizeCellKind::Whitespace);
    assert!(cell_itemize_kind(&cell("\u{3000}")) == ItemizeCellKind::Whitespace);
    assert!(cell_itemize_kind(&cell("\u{a0}")) == ItemizeCellKind::Whitespace);
    assert!(cell_itemize_kind(&cell("a")) == ItemizeCellKind::AsciiWord);
    assert!(cell_itemize_kind(&cell("a ")) == ItemizeCellKind::AsciiWord);
    assert!(cell_itemize_kind(&cell("é")) == ItemizeCellKind::Complex);
    assert!(cell_itemize_kind(&cell("好")) == ItemizeCellKind::Complex);
    assert!(cell_itemize_kind(&cell("\u{200b}")) == ItemizeCellKind::Complex);
}

#[test]
fn expanded_dirty_range_covers_whole_items() {
    let mut line = text_line("ab  cd");
    line.line[2].ch = "é".to_owned();
    line.line[3].ch = "é".to_owned();
    line.cell_to_item = vec![-1, -1, 2, 2, -1, -1];
    line.item_line[2].push(Item::new(&ItemSpan { offset: 2, length: 4 }, 2));
    line.clear_dirty();
    line.mark_dirty(3, 3);
    assert_eq!(Some(2..4), line.expanded_dirty_range());
    line.clear_dirty();
    assert_eq!(None, line.expanded_dirty_range());
}

#[test]
fn expanded_dirty_range_stops_at_complex_cells() {
    let mut line = text_line("abxycd");
    line.line[2].ch = "é".to_owned();
    line.line[3].ch = "ü".to_owned();
    line.cell_to_item = vec![-1, -1, 2, 2, -1, -1];
    line.item_line[2].push(Item::new(&ItemSpan { offset: 2, length: 4 }, 2));
    line.clear_dirty();
    line.mark_dirty(1, 1);
    assert_eq!(Some(0..2), line.expanded_dirty_range());
}

#[test]
fn expanded_dirty_range_chains_items_and_ascii_words() {
    // Cells 1..3 form one item; it covers the end of the ASCII word "ab".
    let mut line = text_line("abxycd");
    line.line[2].ch = "é".to_owned();
    line.line[3].ch = "ü".to_owned();
    line.cell_to_item = vec![-1, 1, 1, -1, -1, -1];
    line.item_line[1].push(Item::new(&ItemSpan { offset: 1, length: 3 }, 2));
    line.clear_dirty();
    line.mark_dirty(2, 2);
    assert_eq!(Some(0..3), line.expanded_dirty_range());
}

#[test]
fn styled_line_runs_follow_the_highlights() {
    let mut line = text_line("abcd");
    let bold = Rc::new(Highlight { foreground: None, background: None, italic: false, bold: true });
    line.line[2].hl = bold.clone();
    line.line[3].hl = bold;
    let styled = StyledLine::from(&line);
    assert_eq!("abcd", styled.line_str);
    assert_eq!(2, styled.style_runs.len());
    assert_eq!((0, 2), (styled.style_runs[0].start_idx, styled.style_runs[0].end_idx));
    assert!(!styled.style_runs[0].bold);
    assert_eq!((2, 4), (styled.style_runs[1].start_idx, styled.style_runs[1].end_idx));
    assert!(styled.style_runs[1].bold);
}

#[test]
fn styled_line_skips_double_width_tails_and_counts_bytes() {
    let mut line = Line::new(4);
    line.line[0].ch = "好".to_owned();
    line.line[1].double_width = true;
    line.line[2].ch = "a".to_owned();
    let styled = StyledLine::from(&line);
    // The empty last cell renders as a space.
    assert_eq!("好a ", styled.line_str);
    assert_eq!(vec![0, 0, 0, 2, 3], styled.cell_to_byte);
    assert_eq!(1, styled.style_runs.len());
    assert_eq!((0, 5), (styled.style_runs[0].start_idx, styled.style_runs[0].end_idx));
    assert!(!styled.style_runs[0].space);
}

#[test]
fn styled_line_space_run_swallows_empty_cells() {
    let mut line = Line::new(3);
    let bold = Rc::new(Highlight { foreground: Some(0x00ff00), background: None, italic: false, bold: true });
    line.line[1].hl = bold.clone();
    line.line[2].hl = bold;
    line.line[2].ch = "b".to_owned();
    let styled = StyledLine::from(&line);
    assert_eq!("  b", styled.line_str);
    assert_eq!(2, styled.style_runs.len());
    assert_eq!((0, 2), (styled.style_runs[0].start_idx, styled.style_runs[0].end_idx));
    assert!(styled.style_runs[0].space);
    assert!(!styled.style_runs[0].bold);
    assert_eq!((2, 3), (styled.style_runs[1].start_idx, styled.style_runs[1].end_idx));
    assert!(styled.style_runs[1].bold);
    assert_eq!(Some(0x00ff00), styled.style_runs[1].foreground);
}

#[test]
fn item_positions_group_spans_over_shared_cells() {
    let line = text_line("abcd");
    let styled = StyledLine::from(&line);
    let spans = [
        ItemSpan { offset: 0, length: 2 },
        ItemSpan { offset: 1, length: 1 },
        ItemSpan { offset: 2, length: 2 },
    ];
    let mut it = PangoItemPositionIterator::new(&spans, &styled);
    let first = it.next().unwrap();
    assert_eq!((0, 1), (first.start_cell, first.end_cell));
    assert_eq!(2, first.items.len());
    assert_eq!(2, first.cells_count());
    let second = it.next().unwrap();
    assert_eq!((2, 3), (second.start_cell, second.end_cell));
    assert_eq!(1, second.items.len());
    assert!(it.next().is_none());
}

#[test]
fn merge_binds_cells_to_their_items() {
    let mut line = text_line("abcd");
    for c in &mut line.line {
        c.dirty = false;
    }
    line.clear_dirty();
    let styled = StyledLine::from(&line);
    let spans = [ItemSpan { offset: 0, length: 2 }, ItemSpan { offset: 2, length: 2 }];

    line.merge(&styled, &spans);

    assert_eq!(vec![0, 0, 2, 2], line.cell_to_item);
    assert_eq!(1, line.item_line[0].len());
    assert_eq!(2, line.item_line[0][0].cells_count);
    assert!(line.item_line[1].is_empty());
    assert_eq!(2, line.item_line[2][0].span.offset);
    assert!(line.line.iter().all(|c| c.dirty));
    assert_eq!(Some(0..4), line.dirty_range());

    // Merging the same layout again over clean cells changes nothing.
    for c in &mut line.line {
        c.dirty = false;
    }
    line.clear_dirty();
    line.merge(&styled, &spans);
    assert_eq!(vec![0, 0, 2, 2], line.cell_to_item);
    assert_eq!(None, line.dirty_range());
}

#[test]
fn merge_range_unbinds_cells_no_item_reaches() {
    let mut line = text_line("abcd");
    line.cell_to_item = vec![0, 0, 2, 2];
    line.item_line[0].push(Item::new(&ItemSpan { offset: 0, length: 2 }, 2));
    line.item_line[2].push(Item::new(&ItemSpan { offset: 2, length: 2 }, 2));
    for c in &mut line.line {
        c.dirty = false;
    }
    line.clear_dirty();
    let styled = StyledLine::from(&line);
    // Only the second half is shaped again, as one item of cell 3.
    let spans = [ItemSpan { offset: 3, length: 1 }];

    line.merge_range(&styled, &spans, 2..4);

    assert_eq!(vec![0, 0, -1, 3], line.cell_to_item);
    assert!(line.item_line[2].is_empty());
    assert_eq!(1, line.item_line[3][0].cells_count);
    assert!(!line.line[0].dirty);
    assert!(line.line[2].dirty && line.line[3].dirty);
    assert_eq!(Some(2..4), line.dirty_range());
}

#[test]
fn update_cell_item_refreshes_items_in_place() {
    let mut line = Line::new(3);
    line.item_line[0].push(Item::new(&ItemSpan { offset: 0, length: 1 }, 1));
    line.clear_dirty();
    let group = PangoItemPosition { items: vec![ItemSpan { offset: 5, length: 3 }], start_cell: 0, end_cell: 2 };
    assert!(line.update_cell_item(&group));
    assert_eq!(1, line.item_line[0].len());
    assert_eq!(5, line.item_line[0][0].span.offset);
    assert_eq!(3, line.item_line[0][0].cells_count);
    assert_eq!(Some(0..1), line.dirty_range());
}

#[test]
fn style_runs_render_as_text_attributes() {

    let empty = StyleAttr::new();
    assert!(empty.text_attrs().is_empty());

    let mut c = cell("x");
    c.hl = Rc::new(Highlight { foreground: Some(0xff8000), background: Some(0x000001), italic: true, bold: true });
    let run = StyleAttr::from(3, 7, &c);
    let attrs = run.text_attrs();
    assert_eq!(4, attrs.len());
    assert!(matches!(attrs[0].kind, TextAttrKind::Italic));
    assert!(matches!(attrs[1].kind, TextAttrKind::Bold));
    assert!(matches!(attrs[2].kind, TextAttrKind::Foreground(0xffff, 0x8080, 0)));
    assert!(matches!(attrs[3].kind, TextAttrKind::Background(0, 0, 0x0101)));
    assert!(attrs.iter().all(|a| a.start_idx == 3 && a.end_idx == 7));

    let plain = StyleAttr::from(0, 1, &cell("y"));
    assert!(plain.text_attrs().is_empty());
}

#[test]
fn style_attr_next_extends_or_starts_a_run() {

    let mut run = StyleAttr::from(0, 1, &cell("a"));
    assert!(run.next(1, 2, &cell("b")).is_none());
    assert_eq!(2, run.end_idx);

    let mut bold = cell("c");
    bold.hl = Rc::new(Highlight { foreground: None, background: None, italic: false, bold: true });
    let next = run.next(2, 3, &bold).unwrap();
    assert_eq!(2, run.end_idx);
    assert!(next.bold);
    assert_eq!((2, 3), (next.start_idx, next.end_idx));
    assert!(!run.same_style(&next));
    assert!(run.same_style(&StyleAttr::from(9, 9, &cell("z"))));
}

#[test]
fn mark_dirty_accepts_ends_that_are_ordered_once_clamped() {
    let mut line = Line::new(3);
    line.clear_dirty();
    line.mark_dirty(10, 5);
    assert_eq!(Some(2..3), line.dirty_range());

    let mut empty = Line::new(0);
    empty.mark_dirty(4, 1);
    assert_eq!(None, empty.dirty_range());
}

#[test]
fn marking_is_order_free_and_idempotent() {
    let mut a = Line::new(6);
    let mut b = Line::new(6);
    a.clear_dirty();
    b.clear_dirty();
    a.mark_dirty(1, 2);
    a.mark_dirty(4, 4);
    b.mark_dirty(4, 4);
    b.mark_dirty(1, 2);
    assert_eq!(Some(1..5), a.dirty_range());
    assert_eq!(a.dirty_range(), b.dirty_range());
    a.mark_dirty(4, 4);
    assert_eq!(Some(1..5), a.dirty_range());
}

#[test]
fn merge_reads_only_the_bytes_the_spans_reach() {
    // The styled text comes from a longer line; the spans stay inside this one.
    let long = text_line("abcdef");
    let styled = StyledLine::from(&long);
    let mut line = text_line("ab");
    line.cell_to_item = vec![0, 0];
    line.item_line[0].push(Item::new(&ItemSpan { offset: 0, length: 2 }, 2));
    line.clear_dirty();
    line.merge(&styled, &[ItemSpan { offset: 0, length: 1 }, ItemSpan { offset: 1, length: 1 }]);
    assert_eq!(vec![0, 1], line.cell_to_item);

    // Without spans every cell is unbound.
    let mut other = text_line("xy");
    other.cell_to_item = vec![0, 0];
    other.item_line[0].push(Item::new(&ItemSpan { offset: 0, length: 2 }, 2));
    other.clear_dirty();
    other.merge(&styled, &[]);
    assert_eq!(vec![-1, -1], other.cell_to_item);
    assert!(other.item_line.iter().all(|items| items.is_empty()));
    assert_eq!(Some(0..2), other.dirty_range());
}

#[test]
fn shrinking_keeps_bindings_that_start_before_the_cell() {
    let mut line = Line::new(4);
    line.cell_to_item = vec![0, 0, 2, 2];
    line.resize(3);
    assert_eq!(vec![0, 0, 2], line.cell_to_item);
    assert!(line.cell_to_item.iter().enumerate().all(|(c, &it)| it < 0 || it as usize <= c));
}
