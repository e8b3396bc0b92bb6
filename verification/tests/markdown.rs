use mdcat::kitty_pager::document::DocItem;
use mdcat::render::code::{highlight_code, Highlighter};
use mdcat::render::events::parse_markdown;
use mdcat::render::images::RgbaImage;
use mdcat::render::markdown::{
    highlight_blocks, media_requests, render_document, render_events, word_wrap, Media, MediaRequest, ParsedDoc,
};
use mdcat::render::{build_kitty_document, output_plan, render_all, Config, KittyImageStore, OutputPlan, Source};
use mdcat::terminal::ImageProtocol;
use syntect::easy::HighlightLines;
use syntect::highlighting::ThemeSet;
use syntect::parsing::SyntaxSet;
use syntect::util::{as_24_bit_terminal_escaped, LinesWithEndings};

fn config(width: u16) -> Config {
    Config {
        width,
        images: true,
        mermaid: true,
        mermaid_binary: "mmdc".to_string(),
        theme: "base16-ocean.dark".to_string(),
        image_protocol: None,
        protocol: ImageProtocol::Blocks,
        cell_pixel_width: 10,
        kitty_capture: false,
    }
}

fn render(md: &str, media: Vec<Media>, cfg: &Config) -> (String, Vec<String>) {
    let hl = Highlighter::load_defaults();
    let mut store = KittyImageStore::new();
    let r = render_document(md, media, cfg, &hl, &mut store);
    (r.text, r.warnings)
}

fn red_pixel() -> RgbaImage {
    RgbaImage { width: 1, height: 1, data: vec![255, 0, 0, 255] }
}

#[test]
fn word_wrap_joins_words_with_spaces() {
    assert_eq!(word_wrap("hello   world \t again", 80, 0), "hello world again");
}

#[test]
fn word_wrap_keeps_hard_line_breaks() {
    assert_eq!(word_wrap("line one\nline two", 80, 0), "line one\nline two");
    assert_eq!(word_wrap("hello   world\nagain", 80, 2), "hello world\n  again");
    let text = "aaaa bbbb cccc dddd eeee\nx";
    assert_eq!(word_wrap(text, 20, 0), "aaaa bbbb cccc dddd\neeee\nx");
}

#[test]
fn hard_break_in_a_paragraph_survives() {
    let cfg = config(80);
    let hl = Highlighter::load_defaults();
    let mut store = KittyImageStore::new();
    let r = render_document("line one  \nline two\n", Vec::new(), &cfg, &hl, &mut store);
    assert_eq!(r.text, "line one\nline two\n\n");
}

#[test]
fn word_wrap_breaks_long_lines_with_indent() {
    let text = "aaaa bbbb cccc dddd eeee ffff gggg";
    // 24 columns less an indent of 4 leaves 20.
    assert_eq!(word_wrap(text, 24, 4), "aaaa bbbb cccc dddd\n    eeee ffff gggg");
}

#[test]
fn word_wrap_ignores_escape_sequences_in_width() {
    let text = "\x1b[1maaaa\x1b[0m bbbb cccc dddd eeee";
    assert_eq!(word_wrap(text, 20, 0), "\x1b[1maaaa\x1b[0m bbbb cccc dddd\neeee");
}

#[test]
fn word_wrap_keeps_at_least_twenty_columns() {
    let text = "aaaa bbbb cccc dddd eeee";
    assert_eq!(word_wrap(text, 10, 8), "aaaa bbbb cccc dddd\n        eeee");
}

#[test]
fn heading_levels() {
    let cfg = config(80);
    let (out, warnings) = render("# Title\n\n## Sub\n\n### Three\n", vec![], &cfg);
    assert!(warnings.is_empty());
    let rule1 = "\u{2550}".repeat(9);
    let rule2 = "\u{2500}".repeat(5);
    assert_eq!(
        out,
        format!(
            "\n\x1b[1;34m{rule1}\x1b[0m\n\x1b[1;34m  Title\x1b[0m\n\x1b[1;34m{rule1}\x1b[0m\n\n\
             \n\x1b[1;36mSub\x1b[0m\n\x1b[36m{rule2}\x1b[0m\n\n\
             \n\x1b[1;33m### Three\x1b[0m\n\n"
        )
    );
}

#[test]
fn heading_rule_is_capped_at_width() {
    let cfg = config(6);
    let (out, _) = render("# Title\n", vec![], &cfg);
    assert!(out.starts_with(&format!("\n\x1b[1;34m{}\x1b[0m\n", "\u{2550}".repeat(6))));
}

#[test]
fn widths_count_characters_not_bytes() {
    let cfg = config(80);
    let (out, _) = render("## \u{00dc}ber\n", vec![], &cfg);
    assert_eq!(out, format!("\n\x1b[1;36m\u{00dc}ber\x1b[0m\n\x1b[36m{}\x1b[0m\n\n", "\u{2500}".repeat(6)));
    let (out, _) = render("| \u{00e9}t\u{00e9} | x |\n|---|---|\n| a | b |\n", vec![], &cfg);
    let bar = "\x1b[2m\u{2502}\x1b[0m";
    assert!(out.starts_with(&format!("\x1b[2m\u{250c}{}\u{252c}", "\u{2500}".repeat(5))));
    assert!(out.contains(&format!("{bar} a   {bar} b {bar}\n")));
}

#[test]
fn paragraph_with_inline_styles() {
    let cfg = config(80);
    let (out, _) = render("Some **bold**, *em*, ~~gone~~ and `code`.\n", vec![], &cfg);
    assert_eq!(
        out,
        "Some \x1b[1mbold\x1b[0m, \x1b[3mem\x1b[0m, \x1b[9mgone\x1b[0m and \x1b[48;5;236m\x1b[96m code \x1b[0m.\n\n"
    );
}

#[test]
fn link_is_osc8() {
    let cfg = config(80);
    let (out, _) = render("[site](https://example.com)\n", vec![], &cfg);
    assert_eq!(
        out,
        "\x1b]8;;https://example.com\x1b\\site\x1b]8;;\x1b\\\x1b[2m (\u{2192} https://example.com)\x1b[0m\n\n"
    );
}

#[test]
fn bullet_and_ordered_lists() {
    let cfg = config(80);
    let (out, _) = render("- one\n- two\n\n1. first\n2. second\n", vec![], &cfg);
    assert_eq!(
        out,
        "\x1b[1m\u{2022}\x1b[0m one\n\x1b[1m\u{2022}\x1b[0m two\n\n\
         \x1b[1m1.\x1b[0m first\n\x1b[1m2.\x1b[0m second\n\n"
    );
}

#[test]
fn ordered_list_counts_from_its_start() {
    let cfg = config(80);
    let (out, _) = render("5. five\n6. six\n", vec![], &cfg);
    assert_eq!(out, "\x1b[1m5.\x1b[0m five\n\x1b[1m6.\x1b[0m six\n\n");
    let (out, _) = render("0. zero\n1. one\n", vec![], &cfg);
    assert!(out.starts_with("\x1b[1m0.\x1b[0m zero\n"));
}

#[test]
fn list_item_text_follows_its_bullet_and_wraps_under_it() {
    let cfg = config(24);
    let (out, _) = render("- aaaa bbbb cccc dddd eeee\n", vec![], &cfg);
    assert_eq!(out, "\x1b[1m\u{2022}\x1b[0m aaaa bbbb cccc dddd\n  eeee\n\n");
    let (out, _) = render("- one\n  - inner\n", vec![], &config(80));
    assert_eq!(out, "\x1b[1m\u{2022}\x1b[0m one\n  \x1b[1m\u{2022}\x1b[0m inner\n\n");
}

#[test]
fn task_list_items() {
    let cfg = config(80);
    let (out, _) = render("- [x] done\n- [ ] todo\n", vec![], &cfg);
    assert!(out.contains("done"));
    assert!(out.contains("todo"));
}

#[test]
fn block_quote_lines_are_barred() {
    let cfg = config(80);
    let (out, _) = render("> quoted\n", vec![], &cfg);
    assert_eq!(out, "\x1b[2m\u{2502}\x1b[0m \x1b[3mquoted\x1b[0m\n\x1b[2m\u{2502}\x1b[0m \x1b[3m\x1b[0m\n\n");
}

#[test]
fn thematic_break_spans_width() {
    let cfg = config(10);
    let (out, _) = render("---\n", vec![], &cfg);
    assert_eq!(out, format!("\x1b[2m{}\x1b[0m\n\n", "\u{2500}".repeat(10)));
}

#[test]
fn code_block_is_boxed_and_highlighted() {
    let cfg = config(80);
    let (out, _) = render("```rust\nfn main() {}\n```\n", vec![], &cfg);
    let line = "\u{2500}".repeat(60);
    assert!(out.starts_with(&format!("\x1b[2m\u{250c} rust {line}\u{2510}\x1b[0m\n\x1b[2m\u{2502}\x1b[0m ")));
    assert!(out.contains("\x1b[38;2;"));
    assert!(out.ends_with(&format!("\x1b[2m\u{2514}{line}\u{2518}\x1b[0m\n\n")));
}

#[test]
fn table_is_boxed_with_padded_columns() {
    let cfg = config(80);
    let (out, _) = render("| a | bb |\n|---|---|\n| ccc | d |\n", vec![], &cfg);
    let bar = "\x1b[2m\u{2502}\x1b[0m";
    let expected = format!(
        "\x1b[2m\u{250c}{a}\u{252c}{b}\u{2510}\x1b[0m\n\
         {bar} \x1b[1ma  \x1b[0m {bar} \x1b[1mbb\x1b[0m {bar}\n\
         \x1b[2m\u{251c}{a}\u{253c}{b}\u{2524}\x1b[0m\n\
         {bar} ccc {bar} d  {bar}\n\
         \x1b[2m\u{2514}{a}\u{2534}{b}\u{2518}\x1b[0m\n\n",
        a = "\u{2500}".repeat(5),
        b = "\u{2500}".repeat(4),
    );
    assert_eq!(out, expected);
}

#[test]
fn images_off_show_alt_text() {
    let mut cfg = config(80);
    cfg.images = false;
    let (out, warnings) = render("![a cat](cat.png)\n", vec![], &cfg);
    assert_eq!(out, "\x1b[2m[image: a cat]\x1b[0m\n\n");
    assert!(warnings.is_empty());
}

#[test]
fn failed_image_warns_and_shows_alt_text() {
    let cfg = config(80);
    let md = "![a cat](cat.png)\n";
    let events = parse_markdown(md);
    let mut media: Vec<Media> = Vec::new();
    for req in media_requests(&events, &cfg) {
        media.push(match req {
            MediaRequest::Image { url } => Media::Failed(format!("no such file: {url}")),
            _ => Media::Absent,
        });
    }
    let (out, warnings) = render(md, media, &cfg);
    assert_eq!(out, "\x1b[2m[image: a cat]\x1b[0m\n\n");
    assert_eq!(warnings, vec!["mdcat: image render failed (cat.png): no such file: cat.png".to_string()]);
}

#[test]
fn loaded_image_is_drawn_in_blocks() {
    let cfg = config(80);
    let md = "![dot](dot.png)\n";
    let events = parse_markdown(md);
    let media: Vec<Media> = media_requests(&events, &cfg)
        .into_iter()
        .map(|req| match req {
            MediaRequest::Image { .. } => Media::Image(red_pixel()),
            _ => Media::Absent,
        })
        .collect();
    let (out, warnings) = render(md, media, &cfg);
    assert!(warnings.is_empty());
    assert!(out.starts_with("\x1b[38;2;255;0;0m\x1b[48;2;255;0;0m\u{2580}\x1b[0m\n\n"));
}

#[test]
fn failed_diagram_falls_back_to_code_block() {
    let cfg = config(80);
    let md = "```mermaid\ngraph TD\n```\n";
    let events = parse_markdown(md);
    let reqs = media_requests(&events, &cfg);
    assert!(reqs.iter().any(|r| matches!(r, MediaRequest::Diagram { source } if source == "graph TD\n")));
    let media: Vec<Media> = reqs
        .into_iter()
        .map(|req| match req {
            MediaRequest::Diagram { .. } => Media::Failed("'mmdc' not found on PATH".to_string()),
            _ => Media::Absent,
        })
        .collect();
    let (out, warnings) = render(md, media, &cfg);
    assert_eq!(warnings, vec!["mdcat: mermaid render failed: 'mmdc' not found on PATH".to_string()]);
    assert!(out.starts_with(&format!("\x1b[2m\u{250c}{}\u{2510}", "\u{2500}".repeat(60))));
    assert!(out.ends_with(
        "\x1b[2m[Install mmdc to render Mermaid diagrams: npm install -g @mermaid-js/mermaid-cli]\x1b[0m\n\n"
    ));
}

#[test]
fn media_requests_follow_config() {
    let mut cfg = config(80);
    cfg.images = false;
    cfg.mermaid = false;
    let events = parse_markdown("![x](x.png)\n\n```mermaid\na\n```\n");
    let reqs = media_requests(&events, &cfg);
    assert_eq!(reqs.len(), events.len());
    assert!(reqs.iter().all(|r| matches!(r, MediaRequest::Nothing)));
}

#[test]
fn highlight_blocks_only_fills_code_blocks() {
    let cfg = config(80);
    let hl = Highlighter::load_defaults();
    let events = parse_markdown("text\n\n```\nx\n```\n");
    let highlights = highlight_blocks(&events, &Vec::new(), &cfg, &hl);
    assert_eq!(highlights.len(), events.len());
    let filled: Vec<&String> = highlights.iter().filter(|h| !h.is_empty()).collect();
    assert_eq!(filled.len(), 1);
    assert!(filled[0].ends_with("\x1b[0m"));
}

#[test]
fn highlight_code_escapes_and_resets() {
    let hl = Highlighter::load_defaults();
    let out = highlight_code("fn main() {}\n", "rust", "base16-ocean.dark", &hl);
    assert!(out.contains("\x1b[38;2;"));
    assert!(out.contains("main"));
    assert!(out.ends_with("\x1b[0m"));
    assert_eq!(highlight_code("", "rust", "no-such-theme", &hl), "\x1b[0m");
}

fn syntect_reference(code: &str, lang: &str, theme: &str) -> String {
    let ss = SyntaxSet::load_defaults_newlines();
    let ts = ThemeSet::load_defaults();
    let syntax = ss.find_syntax_by_token(lang).unwrap_or_else(|| ss.find_syntax_plain_text());
    let mut h = HighlightLines::new(syntax, &ts.themes[theme]);
    let mut out = String::new();
    for line in LinesWithEndings::from(code) {
        let ranges = h.highlight_line(line, &ss).unwrap();
        out.push_str(&as_24_bit_terminal_escaped(&ranges, false));
    }
    out.push_str("\x1b[0m");
    out
}

#[test]
fn highlight_code_matches_syntect_and_keeps_the_text() {
    let hl = Highlighter::load_defaults();
    let code = "fn main() {\n    let x = \"hi\";\n}\nlast";
    let out = highlight_code(code, "rust", "base16-ocean.dark", &hl);
    assert_eq!(out, syntect_reference(code, "rust", "base16-ocean.dark"));
    assert_eq!(mdcat::text::strip_ansi(&out), code);
    let light = highlight_code(code, "rust", "InspiredGitHub", &hl);
    assert_eq!(light, syntect_reference(code, "rust", "InspiredGitHub"));
    assert_ne!(light, out);
    // Unknown language: plain text; unknown theme: base16-ocean.dark.
    let plain = highlight_code(code, "no-such-lang", "no-such-theme", &hl);
    assert_eq!(plain, syntect_reference(code, "txt", "base16-ocean.dark"));
    assert_eq!(highlight_code(code, "", "base16-ocean.dark", &hl), plain);
}

#[test]
fn render_events_of_empty_document() {
    let cfg = config(80);
    let mut store = KittyImageStore::new();
    let doc = ParsedDoc { events: Vec::new(), media: Vec::new(), highlights: Vec::new() };
    let r = render_events(&doc, &cfg, &mut store);
    assert_eq!(r.text, "");
    assert!(r.warnings.is_empty());
}

#[test]
fn render_all_separates_sources() {
    let cfg = config(20);
    let hl = Highlighter::load_defaults();
    let mut store = KittyImageStore::new();
    let sources = vec![
        Source { name: "a.md".to_string(), content: "A\n".to_string(), base_dir: None },
        Source { name: "b.md".to_string(), content: "B\n".to_string(), base_dir: None },
    ];
    let r = render_all(&sources, Vec::new(), &cfg, &hl, &mut store);
    // 20 columns less the header " b.md ": 7 dashes on each side.
    let dashes = "\u{2500}".repeat(7);
    assert_eq!(
        r.text,
        format!("\x1b[2m{dashes} a.md {dashes}\x1b[0m\n\nA\n\n\x1b[2m{dashes} b.md {dashes}\x1b[0m\n\nB\n\n")
    );
    let one = vec![Source { name: "a.md".to_string(), content: "A\n".to_string(), base_dir: None }];
    let mut store = KittyImageStore::new();
    assert_eq!(render_all(&one, Vec::new(), &cfg, &hl, &mut store).text, "A\n\n");
}

#[test]
fn separator_splits_odd_rest_and_keeps_four_dashes() {
    let hl = Highlighter::load_defaults();
    let sources = vec![
        Source { name: "a.md".to_string(), content: "A\n".to_string(), base_dir: None },
        Source { name: "bc.md".to_string(), content: "B\n".to_string(), base_dir: None },
    ];
    let mut store = KittyImageStore::new();
    let r = render_all(&sources, Vec::new(), &config(20), &hl, &mut store);
    // 20 less " bc.md " leaves 13: 6 on the left, 7 on the right.
    let line = format!("\x1b[2m{} bc.md {}\x1b[0m\n\n", "\u{2500}".repeat(6), "\u{2500}".repeat(7));
    assert!(r.text.ends_with(&format!("A\n\n{line}B\n\n")));
    let mut store = KittyImageStore::new();
    let r = render_all(&sources, Vec::new(), &config(8), &hl, &mut store);
    let line = format!("\x1b[2m{} bc.md {}\x1b[0m\n\n", "\u{2500}".repeat(4), "\u{2500}".repeat(4));
    assert!(r.text.ends_with(&format!("A\n\n{line}B\n\n")));
}

#[test]
fn captured_image_comes_back_in_kitty_document() {
    let mut cfg = config(80);
    cfg.kitty_capture = true;
    let md = "before\n\n![dot](dot.png)\n\nafter\n";
    let events = parse_markdown(md);
    let media: Vec<Media> = media_requests(&events, &cfg)
        .into_iter()
        .map(|req| match req {
            MediaRequest::Image { .. } => Media::Image(red_pixel()),
            _ => Media::Absent,
        })
        .collect();
    let hl = Highlighter::load_defaults();
    let mut store = KittyImageStore::new();
    let r = render_document(md, media, &cfg, &hl, &mut store);
    assert!(r.text.contains("\x00KITTY:1:0:1:1\x00\n"));
    assert_eq!(store.images.len(), 1);
    let doc = build_kitty_document(&r.text, &store);
    let kinds: Vec<&str> = doc
        .items
        .iter()
        .map(|i| match i {
            DocItem::Text(_) => "text",
            DocItem::Image(_) => "image",
        })
        .collect();
    assert_eq!(kinds, vec!["text", "image", "text"]);
    match &doc.items[1] {
        DocItem::Image(img) => {
            assert_eq!(img.id, 1);
            assert_eq!(img.rgba_data, vec![255, 0, 0, 255]);
            assert_eq!(img.display_cols, None);
        }
        _ => panic!("expected Image"),
    }
}

#[test]
fn graphics_off_warns_of_nothing_and_captures_nothing() {
    let mut cfg = config(80);
    cfg.images = false;
    cfg.mermaid = false;
    cfg.kitty_capture = true;
    let md = "![x](x.png)\n\n```mermaid\ngraph TD\n```\n";
    let events = parse_markdown(md);
    let media: Vec<Media> = events.iter().map(|_| Media::Failed("boom".to_string())).collect();
    let hl = Highlighter::load_defaults();
    let mut store = KittyImageStore::new();
    let r = render_document(md, media, &cfg, &hl, &mut store);
    assert!(r.warnings.is_empty());
    assert!(store.images.is_empty());
    assert!(r.text.starts_with("\x1b[2m[image: x]\x1b[0m\n\n\x1b[2m\u{250c} mermaid "));
}

#[test]
fn output_plan_routes_by_pager_and_protocol() {
    let mut kitty = config(80);
    kitty.protocol = ImageProtocol::Kitty;
    let (plan, c) = output_plan(true, kitty.clone());
    assert_eq!(plan, OutputPlan::KittyPager);
    assert!(c.kitty_capture && c.images && c.mermaid);

    let (plan, c) = output_plan(false, kitty.clone());
    assert_eq!(plan, OutputPlan::Stdout);
    assert!(!c.kitty_capture && c.images && c.mermaid);

    let mut no_images = kitty.clone();
    no_images.images = false;
    let (plan, c) = output_plan(true, no_images);
    assert_eq!(plan, OutputPlan::TextPager);
    assert!(!c.images && c.mermaid && !c.kitty_capture);

    let mut iterm = config(80);
    iterm.protocol = ImageProtocol::ITerm2;
    let (plan, c) = output_plan(true, iterm.clone());
    assert_eq!(plan, OutputPlan::TextPager);
    assert!(!c.images && !c.mermaid);
    assert_eq!(c.theme, "base16-ocean.dark");

    let (plan, c) = output_plan(true, config(80));
    assert_eq!(plan, OutputPlan::TextPager);
    assert!(c.images && c.mermaid);
}

#[test]
fn bundled_syntax_names_are_distinct() {
    let ss = SyntaxSet::load_defaults_newlines();
    let mut names: Vec<&str> = ss.syntaxes().iter().map(|s| s.name.as_str()).collect();
    let n = names.len();
    names.sort();
    names.dedup();
    assert_eq!(names.len(), n);
    assert!(ss.find_syntax_by_name("Plain Text").is_some());
    assert!(ThemeSet::load_defaults().themes.contains_key("base16-ocean.dark"));
}

#[test]
fn highlight_falls_back_to_plain_text_and_default_theme() {
    let hl = Highlighter::load_defaults();
    let code = "let x = 1;\n";
    let expected = syntect_reference(code, "txt", "base16-ocean.dark");
    assert_eq!(highlight_code(code, "", "nope", &hl), expected);
    assert_eq!(highlight_code(code, "zzz-unknown", "base16-ocean.dark", &hl), expected);
    assert_ne!(highlight_code(code, "rust", "base16-ocean.dark", &hl), expected);
}
