use mdcat::kitty_pager::document::DocItem;
use mdcat::render::{build_kitty_document, parse_sentinel, KittyImageStore};

fn make_store_with_image() -> KittyImageStore {
    let mut store = KittyImageStore::new();
    store.push(vec![0u8; 4 * 10 * 10], 10, 10, Some(20));
    store
}

#[test]
fn build_kitty_document_text_only() {
    let store = KittyImageStore::new();
    let doc = build_kitty_document("hello\nworld", &store);
    assert_eq!(doc.items.len(), 1);
    match &doc.items[0] {
        DocItem::Text(s) => assert_eq!(s, "hello\nworld"),
        _ => panic!("expected Text"),
    }
}

#[test]
fn build_kitty_document_parses_sentinel() {
    let store = make_store_with_image();
    let rendered = "before\n\x00KITTY:1:20:10:10\x00\nafter";
    let doc = build_kitty_document(rendered, &store);
    assert_eq!(doc.items.len(), 3);
    match &doc.items[0] {
        DocItem::Text(s) => assert_eq!(s, "before\n"),
        _ => panic!("expected Text"),
    }
    match &doc.items[1] {
        DocItem::Image(img) => {
            assert_eq!(img.id, 1);
            assert_eq!(img.display_cols, Some(20));
        }
        _ => panic!("expected Image"),
    }
    match &doc.items[2] {
        DocItem::Text(s) => assert_eq!(s, "after"),
        _ => panic!("expected Text"),
    }
}

#[test]
fn build_kitty_document_zero_cols_means_none() {
    let mut store = KittyImageStore::new();
    store.push(vec![0u8; 4], 1, 1, None);
    let rendered = "\x00KITTY:1:0:1:1\x00\n";
    let doc = build_kitty_document(rendered, &store);
    assert_eq!(doc.items.len(), 1);
    match &doc.items[0] {
        DocItem::Image(img) => assert_eq!(img.display_cols, None),
        _ => panic!("expected Image"),
    }
}

#[test]
fn parse_sentinel_finds_stored_image() {
    let store = make_store_with_image();
    let img = parse_sentinel("KITTY:1:0:10:10", &store).unwrap();
    assert_eq!(img.id, 1);
    assert_eq!(img.display_cols, None);
    assert_eq!(img.rgba_data.len(), 400);
    assert_eq!(parse_sentinel("KITTY:1:7", &store).unwrap().display_cols, Some(7));
    assert!(parse_sentinel("KITTY:2:0:10:10", &store).is_none());
    assert!(parse_sentinel("KITTY:x:0:10:10", &store).is_none());
    assert!(parse_sentinel("KITTY:1:70000:1:1", &store).is_none());
    assert!(parse_sentinel("IMAGE:1:0:1:1", &store).is_none());
}

#[test]
fn unclosed_sentinel_splits_the_text() {
    let store = make_store_with_image();
    let doc = build_kitty_document("a\x00KITTY:1:0", &store);
    assert_eq!(doc.items.len(), 2);
    match (&doc.items[0], &doc.items[1]) {
        (DocItem::Text(a), DocItem::Text(b)) => {
            assert_eq!(a, "a");
            assert_eq!(b, "\x00KITTY:1:0");
        }
        _ => panic!("expected two text items"),
    }
    let doc = build_kitty_document("\x00KITTY:1", &store);
    assert_eq!(doc.items.len(), 1);
    match &doc.items[0] {
        DocItem::Text(t) => assert_eq!(t, "\x00KITTY:1"),
        _ => panic!("expected text"),
    }
}
