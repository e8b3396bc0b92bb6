use std::collections::HashSet;

use mdcat::kitty_pager::document::{DocItem, KittyDocument, KittyImage};
use mdcat::kitty_pager::input::{find_matches, status_suffix, InputMode, SearchDirection, SearchState};
use mdcat::kitty_pager::renderer::{layout, render_frame, EntryKind};
use mdcat::kitty_pager::terminal::query_cell_pixel_size;

fn text_doc(text: &str) -> KittyDocument {
    KittyDocument { items: vec![DocItem::Text(text.to_string())] }
}

fn image_doc() -> KittyDocument {
    KittyDocument {
        items: vec![DocItem::Image(KittyImage {
            id: 1,
            rgba_data: vec![0u8; 4 * 8 * 8],
            pixel_width: 8,
            pixel_height: 8,
            display_cols: None,
        })],
    }
}

fn make_doc(items: Vec<DocItem>) -> KittyDocument {
    KittyDocument { items }
}

#[test]
fn find_matches_text_entries() {
    let doc = text_doc("hello world\nfoo bar\nhello again");
    let entries = layout(&doc, 8, 16);
    let matches = find_matches(&entries, "hello");
    assert_eq!(matches, vec![0, 2]);
}

#[test]
fn find_matches_ignores_images() {
    let doc = image_doc();
    let entries = layout(&doc, 8, 16);
    let matches = find_matches(&entries, "anything");
    assert!(matches.is_empty());
}

#[test]
fn find_matches_case_insensitive() {
    let doc = text_doc("Hello World");
    let entries = layout(&doc, 8, 16);
    assert!(!find_matches(&entries, "hello").is_empty());
    assert!(!find_matches(&entries, "WORLD").is_empty());
}

#[test]
fn find_matches_no_match() {
    let doc = text_doc("foo bar");
    let entries = layout(&doc, 8, 16);
    assert!(find_matches(&entries, "xyz").is_empty());
}

#[test]
fn find_matches_empty_query_returns_empty() {
    let doc = text_doc("foo bar");
    let entries = layout(&doc, 8, 16);
    assert!(find_matches(&entries, "").is_empty());
}

#[test]
fn status_suffix_search_input_forward() {
    let mode = InputMode::SearchInput { buffer: "foo".to_string(), direction: SearchDirection::Forward };
    assert_eq!(status_suffix(&mode, &None), "/foo_");
}

#[test]
fn status_suffix_search_input_backward() {
    let mode = InputMode::SearchInput { buffer: "bar".to_string(), direction: SearchDirection::Backward };
    assert_eq!(status_suffix(&mode, &None), "?bar_");
}

#[test]
fn status_suffix_normal_with_matches() {
    let search = Some(SearchState { query: "foo".to_string(), matches: vec![0, 5, 10], current: 1 });
    assert_eq!(status_suffix(&InputMode::Normal, &search), "/foo [2/3]");
}

#[test]
fn status_suffix_normal_no_matches() {
    let search = Some(SearchState { query: "xyz".to_string(), matches: vec![], current: 0 });
    assert_eq!(status_suffix(&InputMode::Normal, &search), "/xyz [No matches]");
}

#[test]
fn status_suffix_normal_no_search() {
    assert_eq!(status_suffix(&InputMode::Normal, &None), "");
}

#[test]
fn layout_text_splits_on_newlines() {
    let doc = make_doc(vec![DocItem::Text("line1\nline2\nline3".to_string())]);
    let entries = layout(&doc, 8, 16);
    assert_eq!(entries.len(), 3);
}

#[test]
fn layout_image_expands_to_rows() {
    let img = KittyImage {
        id: 1,
        rgba_data: vec![0u8; 4 * 10 * 35],
        pixel_width: 10,
        pixel_height: 35,
        display_cols: None,
    };
    let doc = make_doc(vec![DocItem::Image(img)]);
    // 35 / 16 = 2.1875 → ceil = 3 → 3 layout entries
    let entries = layout(&doc, 8, 16);
    assert_eq!(entries.len(), 3);
    for (i, e) in entries.iter().enumerate() {
        match &e.kind {
            EntryKind::ImageRow { row_in_image, total_rows } => {
                assert_eq!(*row_in_image, i as u32);
                assert_eq!(*total_rows, 3);
            }
            _ => panic!("expected ImageRow"),
        }
    }
}

#[test]
fn layout_image_minimum_one_row() {
    let img = KittyImage { id: 2, rgba_data: vec![0u8; 4], pixel_width: 1, pixel_height: 1, display_cols: None };
    let doc = make_doc(vec![DocItem::Image(img)]);
    let entries = layout(&doc, 8, 16);
    assert_eq!(entries.len(), 1);
}

#[test]
fn layout_image_accounts_for_display_cols_scaling() {
    // 3000×1500 px shown at 200 columns of 9 px: 1800 px wide, 900 px high,
    // which is 50 rows of 18 px.
    let img = KittyImage {
        id: 10,
        rgba_data: vec![0u8; 4 * 3000 * 1500],
        pixel_width: 3000,
        pixel_height: 1500,
        display_cols: Some(200),
    };
    let doc = make_doc(vec![DocItem::Image(img)]);
    let entries = layout(&doc, 9, 18);
    assert_eq!(entries.len(), 50);
}

#[test]
fn render_frame_contains_status_bar() {
    let doc = make_doc(vec![DocItem::Text("hello".to_string())]);
    let entries = layout(&doc, 8, 16);
    let mut transmitted = HashSet::new();
    let frame = render_frame(&doc, &entries, 0, 24, 8, 16, &mut transmitted);
    assert!(frame.contains("\x1b[7m "));
}

#[test]
fn render_frame_no_screen_clear() {
    let doc = make_doc(vec![DocItem::Text("hello".to_string())]);
    let entries = layout(&doc, 8, 16);
    let mut transmitted = HashSet::new();
    let frame = render_frame(&doc, &entries, 0, 24, 8, 16, &mut transmitted);
    assert!(!frame.contains("\x1b[2J"));
    assert!(frame.contains("a=d,d=a"));
    assert!(frame.contains("\x1b[H"));
}

#[test]
fn render_frame_transmits_then_replaces() {
    let img = KittyImage {
        id: 42,
        rgba_data: vec![255u8; 4 * 4 * 4],
        pixel_width: 4,
        pixel_height: 4,
        display_cols: None,
    };
    let doc = make_doc(vec![DocItem::Image(img)]);
    let entries = layout(&doc, 8, 16);
    let mut transmitted = HashSet::new();

    let frame = render_frame(&doc, &entries, 0, 24, 8, 16, &mut transmitted);
    assert!(frame.contains("a=T"));
    assert!(transmitted.contains(&42));

    let frame2 = render_frame(&doc, &entries, 0, 24, 8, 16, &mut transmitted);
    assert!(frame2.contains("a=p,i=42"));
    assert!(!frame2.contains("a=T"));
}

#[test]
fn render_frame_partial_image_top_cropped() {
    // 80×48 px at 10 columns of 8 px: 48 px high, 3 rows of 16 px.
    let img = KittyImage {
        id: 7,
        rgba_data: vec![0u8; 4 * 80 * 48],
        pixel_width: 80,
        pixel_height: 48,
        display_cols: Some(10),
    };
    let doc = make_doc(vec![DocItem::Image(img)]);
    let entries = layout(&doc, 8, 16);
    assert_eq!(entries.len(), 3);

    let mut transmitted = HashSet::new();
    // Starting at the second image row crops the first 16 px.
    let frame = render_frame(&doc, &entries, 1, 24, 8, 16, &mut transmitted);
    assert!(frame.contains("y=16"));
    assert!(frame.contains("h=32"));
    assert!(frame.contains("r=2"));
}

#[test]
fn render_frame_scaled_image_crop_coordinates() {
    // 3000×1500 px at 200 columns of 9 px: 50 rows of 18 px; from row 1,
    // 49 rows are visible on a 51-row screen.
    let img = KittyImage {
        id: 20,
        rgba_data: vec![0u8; 4 * 3000 * 1500],
        pixel_width: 3000,
        pixel_height: 1500,
        display_cols: Some(200),
    };
    let doc = make_doc(vec![DocItem::Image(img)]);
    let entries = layout(&doc, 9, 18);
    assert_eq!(entries.len(), 50);

    let mut transmitted = HashSet::new();
    let frame = render_frame(&doc, &entries, 1, 51, 9, 18, &mut transmitted);
    assert!(frame.contains("y=30"), "expected y=30 in frame");
    assert!(frame.contains("h=1470"), "expected h=1470 in frame");
    assert!(frame.contains("r=49"), "expected r=49 in frame");
}

#[test]
fn render_frame_partial_image_bottom_cropped() {
    // A 48 px image needs 3 rows; a 3-row screen has 2 content rows.
    let img = KittyImage {
        id: 8,
        rgba_data: vec![0u8; 4 * 4 * 48],
        pixel_width: 4,
        pixel_height: 48,
        display_cols: None,
    };
    let doc = make_doc(vec![DocItem::Image(img)]);
    let entries = layout(&doc, 8, 16);

    let mut transmitted = HashSet::new();
    let frame = render_frame(&doc, &entries, 0, 3, 8, 16, &mut transmitted);
    assert!(frame.contains("h=32"));
    assert!(frame.contains("r=2"));
}

#[test]
fn fallback_values_are_reasonable() {
    let (w, h) = (8u32, 16u32);
    assert!(w > 0);
    assert!(h > 0);
    assert_eq!(query_cell_pixel_size(None), (w, h));
}
