use neovim_gtk_ui::ui_model::{Line, StyledLine};

#[test]
fn test_styled_line() {
    let mut line = Line::new(3);
    line.line[0].ch = "a".to_owned();
    line.line[1].ch = "b".to_owned();
    line.line[2].ch = "c".to_owned();

    let styled_line = StyledLine::from(&line);
    assert_eq!("abc", styled_line.line_str);
    assert_eq!(3, styled_line.cell_to_byte.len());
    assert_eq!(0, styled_line.cell_to_byte[0]);
    assert_eq!(1, styled_line.cell_to_byte[1]);
    assert_eq!(2, styled_line.cell_to_byte[2]);
}

#[test]
fn test_styled_line_range() {
    let mut line = Line::new(5);
    line.line[0].ch = "a".to_owned();
    line.line[1].ch = "b".to_owned();
    line.line[2].ch = "c".to_owned();
    line.line[3].ch = "d".to_owned();
    line.line[4].ch = "e".to_owned();

    let styled_line = StyledLine::from_range(&line, 1..4);
    assert_eq!("bcd", styled_line.line_str);
    assert_eq!(3, styled_line.cell_to_byte.len());
    assert_eq!(1, styled_line.cell_to_byte[0]);
    assert_eq!(2, styled_line.cell_to_byte[1]);
    assert_eq!(3, styled_line.cell_to_byte[2]);
}
