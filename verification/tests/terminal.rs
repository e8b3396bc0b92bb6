use mdcat::kitty_pager::document::PagerOptions;
use mdcat::kitty_pager::terminal::{parse_cell_size_reply, query_cell_pixel_size, reply_complete};
use mdcat::terminal::{cell_pixel_height, cell_pixel_width, detect_image_protocol, ImageProtocol};
use mdcat::text::{strip_ansi, visible_len};

#[test]
fn cell_size_reply_is_parsed() {
    assert_eq!(parse_cell_size_reply(b"\x1b[6;18;9t"), Some((9, 18)));
    assert_eq!(parse_cell_size_reply(b"\x1b[6;0;9t"), None);
    assert_eq!(parse_cell_size_reply(b"\x1b[6;18t"), None);
    assert_eq!(parse_cell_size_reply(&[0xff, 0xfe]), None);
    assert_eq!(query_cell_pixel_size(Some(b"\x1b[6;20;10t")), (10, 20));
    assert_eq!(query_cell_pixel_size(Some(b"garbage")), (8, 16));
}

#[test]
fn reply_is_complete_at_t() {
    assert!(reply_complete(&b"\x1b[6;18;9t".to_vec()));
    assert!(!reply_complete(&b"\x1b[6;18".to_vec()));
}

#[test]
fn cell_width_falls_back() {
    assert_eq!(cell_pixel_width(Some(b"\x1b[6;18;9t"), Some((800, 80))), 9);
    assert_eq!(cell_pixel_width(None, Some((800, 80))), 10);
    assert_eq!(cell_pixel_width(None, Some((1000, 80))), 12);
    assert_eq!(cell_pixel_width(None, None), 10);
    assert_eq!(cell_pixel_height(Some(b"\x1b[6;18;9t"), None), 18);
    assert_eq!(cell_pixel_height(None, Some((480, 24))), 20);
    assert_eq!(cell_pixel_height(None, None), 20);
}

#[test]
fn protocol_detection() {
    assert_eq!(detect_image_protocol(Some("kitty"), None, None, false), ImageProtocol::Kitty);
    assert_eq!(detect_image_protocol(Some("iterm2"), Some("xterm-kitty"), None, false), ImageProtocol::ITerm2);
    assert_eq!(detect_image_protocol(Some("sixel"), None, None, false), ImageProtocol::Sixel);
    assert_eq!(detect_image_protocol(Some("auto"), Some("xterm-kitty"), None, false), ImageProtocol::Kitty);
    assert_eq!(detect_image_protocol(Some("auto"), Some("xterm"), None, false), ImageProtocol::Blocks);
    assert_eq!(detect_image_protocol(Some("bogus"), Some("xterm-kitty"), None, false), ImageProtocol::Blocks);
    assert_eq!(detect_image_protocol(None, Some("xterm-kitty"), None, false), ImageProtocol::Kitty);
    assert_eq!(detect_image_protocol(None, Some("xterm-256color"), Some("ghostty"), false), ImageProtocol::Kitty);
    assert_eq!(detect_image_protocol(None, None, Some("iTerm.app"), false), ImageProtocol::ITerm2);
    assert_eq!(detect_image_protocol(None, None, None, true), ImageProtocol::ITerm2);
    assert_eq!(detect_image_protocol(None, None, Some("WezTerm"), false), ImageProtocol::ITerm2);
    assert_eq!(detect_image_protocol(None, Some("xterm"), None, false), ImageProtocol::Blocks);
}

#[test]
fn pager_options_from_terminal() {
    let o = PagerOptions::from_terminal((9, 18), None);
    assert_eq!((o.term_width, o.term_height, o.cell_pixel_width, o.cell_pixel_height), (80, 24, 9, 18));
    let o = PagerOptions::from_terminal((9, 18), Some((120, 40)));
    assert_eq!((o.term_width, o.term_height), (120, 40));
}

#[test]
fn escapes_are_invisible() {
    assert_eq!(strip_ansi("\x1b[1mbold\x1b[0m text"), "bold text");
    assert_eq!(visible_len("\x1b[38;2;1;2;3mabc\x1b[0m"), 3);
    assert_eq!(visible_len(""), 0);
}

#[test]
fn hyperlinks_and_graphics_escapes_are_invisible() {
    let link = "\x1b]8;;https://example.com\x1b\\label\x1b]8;;\x1b\\";
    assert_eq!(visible_len(link), 5);
    assert_eq!(strip_ansi(link), "label");
    assert_eq!(visible_len("\x1b]8;;http://m.example\x07x\x1b]8;;\x07"), 1);
    assert_eq!(strip_ansi("a\x1b_Gf=100;AAAA\x1b\\b"), "ab");
    assert_eq!(strip_ansi("\x1b[2Jmore"), "more");
    assert_eq!(strip_ansi("\x1b7x"), "x");
}

#[test]
fn link_shows_label_and_dim_url() {
    let link = mdcat::render::links::osc8_link("https://example.com", "label");
    assert_eq!(strip_ansi(&link), "label (\u{2192} https://example.com)");
    assert_eq!(visible_len(&link), "label (\u{2192} https://example.com)".chars().count());
}
