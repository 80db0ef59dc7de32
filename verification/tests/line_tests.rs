use neovim_gtk_ui::ui_model::item_layout::PangoItemPosition;
use neovim_gtk_ui::ui_model::Line;

#[test]
fn test_resize_preserves_prefix_state_and_only_initializes_new_cells() {
    let mut line = Line::new(2);
    line.line[0].ch.push('a');
    line.line[0].dirty = false;
    line.line[1].dirty = false;
    line.cell_to_item[0] = 0;
    line.clear_dirty();

    line.resize(4);

    assert_eq!(4, line.line.len());
    assert_eq!(4, line.item_line.len());
    assert_eq!(4, line.cell_to_item.len());
    assert_eq!("a", line.line[0].ch);
    assert!(!line.line[0].dirty);
    assert!(!line.line[1].dirty);
    assert!(line.line[2].dirty);
    assert!(line.line[3].dirty);
    assert_eq!(0, line.cell_to_item[0]);
    assert_eq!(-1, line.cell_to_item[2]);
    assert_eq!(-1, line.cell_to_item[3]);
    assert_eq!(Some(0..4), line.dirty_range());
}

#[test]
fn test_resize_shrinks_without_dirtying_remaining_prefix() {
    let mut line = Line::new(4);
    line.line[0].dirty = false;
    line.line[1].dirty = true;
    line.line[2].dirty = false;
    line.line[3].dirty = false;
    line.cell_to_item[0] = 0;
    line.cell_to_item[1] = 0;
    line.cell_to_item[2] = 2;
    line.cell_to_item[3] = 3;
    line.clear_dirty();

    line.resize(3);

    assert_eq!(3, line.line.len());
    assert_eq!(3, line.item_line.len());
    assert_eq!(3, line.cell_to_item.len());
    assert!(!line.line[0].dirty);
    assert!(line.line[1].dirty);
    assert!(!line.line[2].dirty);
    assert_eq!(0, line.cell_to_item[0]);
    assert_eq!(0, line.cell_to_item[1]);
    assert_eq!(2, line.cell_to_item[2]);
    assert_eq!(Some(0..3), line.dirty_range());
}

#[test]
fn test_dirty_range_expands_to_ascii_run() {
    let mut line = Line::new(11);
    for (idx, ch) in "hello world".chars().enumerate() {
        line.line[idx].ch = ch.to_string();
    }
    line.clear_dirty();
    line.mark_dirty(1, 1);

    assert_eq!(Some(0..5), line.expanded_dirty_range(),);
}

#[test]
fn test_dirty_range_expands_from_double_width_tail() {
    let mut line = Line::new(3);
    line.line[0].ch = "好".to_owned();
    line.line[1].double_width = true;
    line.line[2].ch = "a".to_owned();
    line.clear_dirty();
    line.mark_dirty(1, 1);

    assert_eq!(Some(0..2), line.expanded_dirty_range(),);
}

#[test]
fn test_dirty_range_expansion_clamps_to_line_len() {
    let mut line = Line::new(147);
    for cell in &mut line.line {
        cell.ch = "a".to_owned();
    }
    line.dirty_range = Some(0..148);

    assert_eq!(Some(0..147), line.expanded_dirty_range(),);
}

#[test]
fn test_stale_item_mapping_outside_line_is_ignored() {
    let mut line = Line::new(3);
    line.cell_to_item[2] = 3;

    assert_eq!(None, line.item_bounds(2));
}

#[test]
fn test_update_cell_item_marks_dirty_range() {
    let mut line = Line::new(4);
    for cell in &mut line.line {
        cell.dirty = false;
    }
    line.clear_dirty();

    let item = PangoItemPosition {
        items: Vec::new(),
        start_cell: 1,
        end_cell: 3,
    };

    assert!(line.update_cell_item(&item));
    assert!(line.line[1].dirty);
    assert!(!line.line[2].dirty);
    assert!(!line.line[3].dirty);
    assert_eq!(Some(1..2), line.dirty_range());
}
