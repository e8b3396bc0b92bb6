use std::collections::HashSet;

use mdcat::kitty_pager::document::{DocItem, KittyDocument, PagerOptions};
use mdcat::kitty_pager::input::{InputMode, Key, Modifiers, Pager, PagerAction, PagerEvent};

fn doc(lines: usize) -> KittyDocument {
    let text: Vec<String> = (0..lines).map(|i| format!("line {i}")).collect();
    KittyDocument { items: vec![DocItem::Text(text.join("\n"))] }
}

fn opts(rows: u16) -> PagerOptions {
    PagerOptions { term_width: 80, term_height: rows, cell_pixel_width: 8, cell_pixel_height: 16 }
}

fn key(c: char) -> PagerEvent {
    PagerEvent::Key(Key::Char(c), Modifiers::Plain)
}

#[test]
fn pager_scrolls_and_undoes() {
    let d = doc(50);
    let mut p = Pager::new(&d, &opts(12)).unwrap();
    assert_eq!(p.top_entry, 0);
    assert_eq!(p.handle_event(&d, key('j')), PagerAction::Redraw);
    assert_eq!(p.top_entry, 1);
    p.handle_event(&d, key('k'));
    assert_eq!(p.top_entry, 0);
    p.handle_event(&d, key('k'));
    assert_eq!(p.top_entry, 0);
    // A page is the screen less two rows.
    p.handle_event(&d, PagerEvent::Key(Key::PageDown, Modifiers::Plain));
    assert_eq!(p.top_entry, 10);
    p.handle_event(&d, key(' '));
    assert_eq!(p.top_entry, 20);
    p.handle_event(&d, key('b'));
    assert_eq!(p.top_entry, 10);
    p.handle_event(&d, PagerEvent::Key(Key::Char('d'), Modifiers::Control));
    assert_eq!(p.top_entry, 15);
    p.handle_event(&d, key('G'));
    assert_eq!(p.top_entry, 49);
    p.handle_event(&d, key('j'));
    assert_eq!(p.top_entry, 49);
    p.handle_event(&d, key('g'));
    assert_eq!(p.top_entry, 0);
}

#[test]
fn pager_quits() {
    let d = doc(3);
    let mut p = Pager::new(&d, &opts(12)).unwrap();
    assert_eq!(p.handle_event(&d, key('q')), PagerAction::Quit);
    assert_eq!(p.handle_event(&d, PagerEvent::Key(Key::Esc, Modifiers::Plain)), PagerAction::Quit);
    assert_eq!(p.handle_event(&d, PagerEvent::Key(Key::Char('c'), Modifiers::Control)), PagerAction::Quit);
    assert_eq!(p.handle_event(&d, key('x')), PagerAction::Ignore);
}

#[test]
fn pager_search_lands_on_matches() {
    let d = KittyDocument { items: vec![DocItem::Text("alpha\nbeta\nGamma\nbeta two\ndelta".to_string())] };
    let mut p = Pager::new(&d, &opts(12)).unwrap();
    p.handle_event(&d, key('/'));
    for c in "BETA".chars() {
        p.handle_event(&d, PagerEvent::Key(Key::Char(c), Modifiers::Shift));
    }
    assert!(matches!(&p.mode, InputMode::SearchInput { buffer, .. } if buffer == "BETA"));
    p.handle_event(&d, PagerEvent::Key(Key::Enter, Modifiers::Plain));
    assert!(matches!(p.mode, InputMode::Normal));
    assert_eq!(p.top_entry, 1);
    assert_eq!(p.search.as_ref().unwrap().matches, vec![1, 3]);
    p.handle_event(&d, key('n'));
    assert_eq!(p.top_entry, 3);
    p.handle_event(&d, key('n'));
    assert_eq!(p.top_entry, 1);
    p.handle_event(&d, key('N'));
    assert_eq!(p.top_entry, 3);
    let mut transmitted = HashSet::new();
    let frame = p.frame(&d, &mut transmitted);
    assert!(frame.contains("/BETA [2/2]"));
}

#[test]
fn pager_backward_search_and_escape() {
    let d = KittyDocument { items: vec![DocItem::Text("x\ny\nx\ny\nx".to_string())] };
    let mut p = Pager::new(&d, &opts(12)).unwrap();
    p.handle_event(&d, key('G'));
    p.handle_event(&d, key('k'));
    assert_eq!(p.top_entry, 3);
    p.handle_event(&d, key('?'));
    p.handle_event(&d, key('x'));
    p.handle_event(&d, PagerEvent::Key(Key::Enter, Modifiers::Plain));
    assert_eq!(p.top_entry, 2);
    p.handle_event(&d, key('/'));
    p.handle_event(&d, key('z'));
    p.handle_event(&d, PagerEvent::Key(Key::Backspace, Modifiers::Plain));
    p.handle_event(&d, PagerEvent::Key(Key::Esc, Modifiers::Plain));
    assert!(matches!(p.mode, InputMode::Normal));
    assert_eq!(p.top_entry, 2);
}

#[test]
fn pager_resize_keeps_position() {
    let d = doc(30);
    let mut p = Pager::new(&d, &opts(12)).unwrap();
    p.handle_event(&d, key('G'));
    assert_eq!(p.handle_event(&d, PagerEvent::Resize(80, 40)), PagerAction::Redraw);
    assert_eq!(p.screen_rows, 40);
    assert_eq!(p.top_entry, 29);
}

#[test]
fn empty_document_has_no_pager() {
    let d = KittyDocument { items: vec![] };
    assert!(Pager::new(&d, &opts(12)).is_none());
}
