use std::rc::Rc;

use neovim_gtk_ui::popup_menu::{item_count, reset_change, PopupMenuItem, PopupMenuItemRef};

fn popup_item(word: &str) -> PopupMenuItem {
    PopupMenuItem {
        word: word.to_owned(),
        kind: String::new(),
        menu: String::new(),
        info: String::new(),
    }
}

#[test]
fn item_ref_points_at_existing_entries_only() {
    let items = Rc::new(vec![popup_item("one"), popup_item("two")]);
    let first = PopupMenuItemRef::new(&items, 0).unwrap();
    let second = PopupMenuItemRef::new(&items, 1).unwrap();
    assert_eq!("one", first.item().word);
    assert_eq!("two", second.item().word);
    assert!(PopupMenuItemRef::new(&items, 2).is_none());
    assert!(PopupMenuItemRef::new(&Rc::new(vec![]), 0).is_none());
    // The handle shares the list rather than copying it.
    assert_eq!(3, Rc::strong_count(&items));
}

#[test]
fn cloned_item_ref_points_at_the_same_entry() {
    let items = Rc::new(vec![popup_item("a"), popup_item("b")]);
    let handle = PopupMenuItemRef::new(&items, 1).unwrap();
    let copy = handle.clone();
    assert_eq!("b", copy.item().word);
    assert!(std::ptr::eq(handle.item(), copy.item()));
}

#[test]
fn update_is_announced_as_a_full_reset() {
    assert_eq!((0, 1, 2), reset_change(1, 2));
    assert_eq!((0, 0, 0), reset_change(0, 0));
    assert_eq!((0, 5, 0), reset_change(5, 0));
}

#[test]
fn item_count_is_the_list_length() {
    assert_eq!(0, item_count(&vec![]));
    assert_eq!(2, item_count(&vec![popup_item("x"), popup_item("y")]));
}
