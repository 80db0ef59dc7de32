use std::rc::Rc;

use neovim_gtk_ui::ui_model::{Highlight, UiModel};

fn filled(rows: u64, columns: u64) -> UiModel {
    let hl = Rc::new(Highlight::new());
    let mut model = UiModel::new(rows, columns);
    for r in 0..rows as usize {
        for c in 0..columns as usize {
            model.put_one(r, c, &format!("{r}{c}"), false, hl.clone());
        }
    }
    for line in model.model_mut() {
        line.clear_dirty();
        for cell in line.line.iter_mut() {
            cell.dirty = false;
        }
    }
    model
}

fn row_text(model: &UiModel, row: usize) -> Vec<String> {
    model.model()[row].line.iter().map(|c| c.ch.clone()).collect()
}

fn strs(items: &[&str]) -> Vec<String> {
    items.iter().map(|s| s.to_string()).collect()
}

#[test]
fn new_grid_is_blank_with_cursor_at_origin() {
    let model = UiModel::new(2, 3);
    assert_eq!(2, model.rows);
    assert_eq!(3, model.columns);
    assert_eq!(2, model.model().len());
    assert!(model.model().iter().all(|l| l.line.len() == 3 && l.dirty_range() == Some(0..3)));
    assert_eq!((0, 0), model.get_real_cursor());
    assert_eq!((0, 0), model.get_flushed_cursor());
}

#[test]
fn cursor_is_flushed_on_demand() {
    let mut model = UiModel::new(3, 3);
    model.set_cursor(2, 1);
    assert_eq!((2, 1), model.get_real_cursor());
    assert_eq!((0, 0), model.get_flushed_cursor());
    let p = model.cur_real_point();
    assert_eq!((2, 2, 1, 1), (p.top, p.bot, p.left, p.right));
    model.flush_cursor();
    assert_eq!((2, 1), model.get_flushed_cursor());
}

#[test]
fn put_repeats_and_shares_the_highlight() {
    let mut model = filled(2, 4);
    let hl = Rc::new(Highlight { foreground: Some(1), background: Some(2), italic: false, bold: true });
    model.put(1, 1, "x", false, 2, hl.clone());
    assert_eq!(strs(&["10", "x", "x", "13"]), row_text(&model, 1));
    assert!(Rc::ptr_eq(&hl, &model.model[1].line[1].hl));
    assert!(Rc::ptr_eq(&hl, &model.model[1].line[2].hl));
    assert!(model.model[1].line[1].dirty && model.model[1].line[2].dirty);
    assert!(!model.model[1].line[3].dirty);
    assert_eq!(Some(1..3), model.model[1].dirty_range());
    assert_eq!(None, model.model[0].dirty_range());
}

#[test]
fn scroll_up_moves_rows_and_blanks_the_bottom() {
    let mut model = filled(5, 3);
    let hl = Rc::new(Highlight::new());
    model.scroll(1, 3, 0, 2, 1, &hl);
    assert_eq!(strs(&["00", "01", "02"]), row_text(&model, 0));
    assert_eq!(strs(&["20", "21", "22"]), row_text(&model, 1));
    assert_eq!(strs(&["30", "31", "32"]), row_text(&model, 2));
    assert_eq!(strs(&["", "", ""]), row_text(&model, 3));
    assert_eq!(strs(&["40", "41", "42"]), row_text(&model, 4));
    assert!(model.model[1].line.iter().all(|c| c.dirty));
    assert_eq!(Some(0..3), model.model[1].dirty_range());
    assert_eq!(Some(0..3), model.model[3].dirty_range());
    assert_eq!(None, model.model[0].dirty_range());
    assert_eq!(None, model.model[4].dirty_range());
}

#[test]
fn scroll_down_moves_rows_and_blanks_the_top() {
    let mut model = filled(5, 3);
    let hl = Rc::new(Highlight::new());
    model.scroll(1, 3, 0, 2, -2, &hl);
    assert_eq!(strs(&["00", "01", "02"]), row_text(&model, 0));
    assert_eq!(strs(&["", "", ""]), row_text(&model, 1));
    assert_eq!(strs(&["", "", ""]), row_text(&model, 2));
    assert_eq!(strs(&["10", "11", "12"]), row_text(&model, 3));
    assert_eq!(strs(&["40", "41", "42"]), row_text(&model, 4));
}

#[test]
fn scroll_only_touches_the_region_columns() {
    let mut model = filled(3, 3);
    let hl = Rc::new(Highlight::new());
    model.scroll(0, 2, 1, 1, 1, &hl);
    assert_eq!(strs(&["00", "11", "02"]), row_text(&model, 0));
    assert_eq!(strs(&["10", "21", "12"]), row_text(&model, 1));
    assert_eq!(strs(&["20", "", "22"]), row_text(&model, 2));
    assert_eq!(Some(1..2), model.model[0].dirty_range());
    assert!(!model.model[0].line[0].dirty);
}

#[test]
fn scroll_there_and_back_restores_the_rows_that_stayed() {
    let mut model = filled(5, 2);
    let hl = Rc::new(Highlight::new());
    model.scroll(0, 4, 0, 1, 2, &hl);
    model.scroll(0, 4, 0, 1, -2, &hl);
    assert_eq!(strs(&["", ""]), row_text(&model, 0));
    assert_eq!(strs(&["", ""]), row_text(&model, 1));
    for r in 2..5 {
        assert_eq!(strs(&[&format!("{r}0"), &format!("{r}1")]), row_text(&model, r));
    }
}

#[test]
fn scroll_by_zero_of_an_empty_region_changes_nothing() {
    let mut model = filled(3, 2);
    let hl = Rc::new(Highlight::new());
    model.scroll(2, 1, 0, 1, 0, &hl);
    for r in 0..3 {
        assert_eq!(strs(&[&format!("{r}0"), &format!("{r}1")]), row_text(&model, r));
        assert_eq!(None, model.model[r].dirty_range());
    }
}

#[test]
fn clear_blanks_every_cell() {
    let mut model = filled(2, 2);
    let hl = Rc::new(Highlight { foreground: None, background: Some(7), italic: false, bold: false });
    model.clear(&hl);
    for r in 0..2 {
        assert_eq!(strs(&["", ""]), row_text(&model, r));
        assert!(model.model[r].line.iter().all(|c| Rc::ptr_eq(&hl, &c.hl) && c.dirty));
        assert_eq!(Some(0..2), model.model[r].dirty_range());
    }
}

#[test]
fn clear_glyphs_keeps_text_and_dirties_lines() {
    let mut model = filled(2, 2);
    model.model[0].cell_to_item = vec![0, 0];
    model.clear_glyphs();
    assert_eq!(vec![-1, -1], model.model[0].cell_to_item);
    assert_eq!(strs(&["00", "01"]), row_text(&model, 0));
    assert_eq!(Some(0..2), model.model[1].dirty_range());
}

#[test]
fn swap_rows_exchanges_leading_rows_between_grids() {
    let mut a = filled(3, 2);
    let mut b = UiModel::new(3, 3);
    for line in b.model_mut() {
        line.clear_dirty();
    }
    a.swap_rows(&mut b, 1);
    assert_eq!(strs(&["", ""]), row_text(&a, 0));
    assert_eq!(strs(&["", ""]), row_text(&a, 1));
    assert_eq!(strs(&["20", "21"]), row_text(&a, 2));
    assert_eq!(strs(&["00", "01", ""]), row_text(&b, 0));
    assert_eq!(strs(&["10", "11", ""]), row_text(&b, 1));
    assert_eq!(Some(0..2), b.model[0].dirty_range());
    assert_eq!(None, b.model[2].dirty_range());
    assert!(b.model[1].line[0].dirty);
}

#[test]
fn resize_twice_to_the_same_size_is_a_no_op() {
    let mut model = filled(2, 2);
    model.set_cursor(1, 1);
    model.resize(3, 1);
    assert_eq!((1, 0), model.get_real_cursor());
    for line in model.model_mut() {
        line.clear_dirty();
    }
    model.resize(3, 1);
    assert!(model.model().iter().all(|l| l.dirty_range().is_none()));
    assert_eq!(strs(&["00"]), row_text(&model, 0));
    assert_eq!(strs(&[""]), row_text(&model, 2));
}

#[test]
fn default_grid_is_empty() {
    let model = UiModel::default();
    assert_eq!(0, model.rows);
    assert_eq!(0, model.columns);
    assert!(model.model().is_empty());
    assert_eq!((0, 0), model.get_real_cursor());
    assert_eq!((0, 0), model.get_flushed_cursor());
}

#[test]
fn put_one_is_put_with_a_repeat_of_one() {
    let hl = Rc::new(Highlight::new());
    let mut a = filled(2, 3);
    let mut b = filled(2, 3);
    a.put_one(1, 2, "q", true, hl.clone());
    b.put(1, 2, "q", true, 1, hl);
    for r in 0..2 {
        assert_eq!(row_text(&a, r), row_text(&b, r));
        assert_eq!(a.model[r].dirty_range(), b.model[r].dirty_range());
    }
    assert!(a.model[1].line[2].double_width && b.model[1].line[2].double_width);
}

#[test]
fn a_run_of_calls_keeps_every_dirty_range_inside_its_line() {
    let hl = Rc::new(Highlight::new());
    let mut model = UiModel::new(4, 5);
    model.put(0, 3, "x", false, 2, hl.clone());
    model.resize(3, 2);
    model.scroll(0, 2, 0, 1, 1, &hl);
    model.clear_glyphs();
    model.resize(5, 6);
    model.clear(&hl);
    for line in model.model() {
        assert_eq!(6, line.line.len());
        assert_eq!(6, line.item_line.len());
        assert_eq!(6, line.cell_to_item.len());
        let d = line.dirty_range().unwrap();
        assert!(d.start < d.end && d.end <= 6);
    }
}
