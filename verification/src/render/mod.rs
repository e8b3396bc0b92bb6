//! Rendering markdown sources to ANSI text, and turning rendered text with
//! captured images into a document for the Kitty pager.
use std::path::PathBuf;
use vstd::prelude::*;

use crate::kitty_pager::document::{
    clone_bytes, items_view, DocItem, DocItemView, KittyDocument, KittyImage, KittyImageView,
};
use crate::terminal::ImageProtocol;
use code::Highlighter;
use events::{doc_extensions, markdown_events};
use markdown::{
    document_spec, doc_highlights, media_ok, render_text_into, start_view, state_view,
    strings_view, text_ctx, with_out, DocCtx, Media, RenderView, Rendered,
};
use images::{dynamic_image_spec, sentinel_spec, RgbaImage};
use crate::text::{
    all_digits, dec, is_digit, lemma_dec, lemma_find_seq_absent, lemma_find_seq_after, lemma_first_index_after, lemma_parse_dec, chars_of, find_char, find_pattern, find_seq, first_index_of, lemma_find_seq, lemma_first_index_of, parse_unsigned,
    parse_unsigned_chars, string_of, matches_at, push_repeat, repeat_seq, ansi_scan, lemma_scan_plain,
    lemma_scan_short_sgr, no_esc, strip_ansi_spec, visible_len_spec,
};

pub mod code;
pub mod events;
pub mod images;
pub mod links;
pub mod markdown;
pub mod svg;

verus! {

#[verifier::external_type_specification]
#[verifier::external_body]
pub struct ExPathBuf(PathBuf);

/// One markdown input.
pub struct Source {
    pub name: String,
    pub content: String,
    /// Directory of the source file, for resolving relative image paths.
    pub base_dir: Option<PathBuf>,
}

/// Images captured while rendering for the Kitty pager.
///
/// When `Config::kitty_capture` is set, images are stored here instead of
/// being encoded as escape sequences, and the rendered text holds a
/// sentinel in their place (see `build_kitty_document`).
pub struct KittyImageStore {
    pub images: Vec<KittyImage>,
    /// The id the next image gets.
    pub next_id: u32,
}

impl KittyImageStore {
    /// Ids are handed out from 1 up, one per image, in order.
    pub open spec fn wf(&self) -> bool {
        &&& self.next_id as nat == self.images@.len() + 1
        &&& forall|i: int| 0 <= i < self.images@.len() ==> #[trigger] self.images@[i].id == i + 1
    }

    pub fn new() -> (s: Self)
        ensures
            s.wf(),
            s.images@.len() == 0,
    {
        Self { images: Vec::new(), next_id: 1 }
    }

    /// In a store, image `i` has id `i + 1`: ids are distinct and the next
    /// one follows the last.
    pub proof fn lemma_ids(&self)
        requires
            self.wf(),
        ensures
            forall|i: int| 0 <= i < self.images@.len() ==> #[trigger] self.images@[i].id == i + 1,
            self.next_id as nat == self.images@.len() + 1,
    {
    }

    /// Add an image and return its assigned ID.
    pub fn push(&mut self, rgba_data: Vec<u8>, pixel_width: u32, pixel_height: u32, display_cols: Option<u16>) -> (id: u32)
        requires
            old(self).wf(),
            old(self).images@.len() + 2 <= u32::MAX,
        ensures
            final(self).wf(),
            id == old(self).next_id,
            id as nat == old(self).images@.len() + 1,
            final(self).images@ == old(self).images@.push(
                KittyImage { id, rgba_data, pixel_width, pixel_height, display_cols },
            ),
    {
        let id = self.next_id;
        self.next_id += 1;
        self.images.push(KittyImage { id, rgba_data, pixel_width, pixel_height, display_cols });
        id
    }
}

/// Rendering configuration passed through the pipeline.
#[derive(Clone)]
pub struct Config {
    pub width: u16,
    pub images: bool,
    pub mermaid: bool,
    pub mermaid_binary: String,
    pub theme: String,
    /// The protocol the user asked for, if any.
    pub image_protocol: Option<String>,
    /// The protocol images are encoded with.
    pub protocol: ImageProtocol,
    /// Width of a terminal cell in pixels.
    pub cell_pixel_width: u32,
    /// When set, images are captured into a `KittyImageStore` instead of
    /// being encoded as escape sequences.  Used by the Kitty pager path.
    pub kitty_capture: bool,
}

// ── Output routing ──────────────────────────────────────────────────────────

/// Where rendered output goes.
#[derive(Debug, Clone, Copy, PartialEq, Eq, Structural)]
pub enum OutputPlan {
    /// The built-in pager that keeps Kitty images across pages.
    KittyPager,
    /// The text pager, which passes on CSI sequences only.
    TextPager,
    /// Standard output.
    Stdout,
}

/// Images would be drawn with a graphics protocol (Kitty or iTerm2).
pub open spec fn graphics_active(config: Config) -> bool {
    config.images && (config.protocol == ImageProtocol::Kitty || config.protocol == ImageProtocol::ITerm2)
}

/// Where output goes and the configuration to render it with: the Kitty
/// pager, capturing images, when paging with images on under Kitty; the
/// text pager when paging otherwise, with images and diagrams off (shown
/// as alt text and code) where a graphics protocol would draw them, since
/// it would garble their escapes; standard output when not paging, with
/// the configuration as it is.
pub open spec fn output_plan_spec(use_pager: bool, config: Config) -> (OutputPlan, Config) {
    if use_pager && config.images && config.protocol == ImageProtocol::Kitty {
        (OutputPlan::KittyPager, Config { kitty_capture: true, ..config })
    } else if use_pager {
        (OutputPlan::TextPager, if graphics_active(config) { Config { images: false, mermaid: false, ..config } } else { config })
    } else {
        (OutputPlan::Stdout, config)
    }
}

/// Choose where output goes and the configuration to render it with (see
/// `output_plan_spec`).
pub fn output_plan(use_pager: bool, config: Config) -> (r: (OutputPlan, Config))
    ensures
        r == output_plan_spec(use_pager, config),
{
    let kitty = match config.protocol {
        ImageProtocol::Kitty => true,
        _ => false,
    };
    let iterm = match config.protocol {
        ImageProtocol::ITerm2 => true,
        _ => false,
    };
    if use_pager && config.images && kitty {
        (OutputPlan::KittyPager, Config { kitty_capture: true, ..config })
    } else if use_pager {
        if config.images && (kitty || iterm) {
            (OutputPlan::TextPager, Config { images: false, mermaid: false, ..config })
        } else {
            (OutputPlan::TextPager, config)
        }
    } else {
        (OutputPlan::Stdout, config)
    }
}

// ── Kitty documents ─────────────────────────────────────────────────────────

pub open spec fn sentinel_marker() -> Seq<char> {
    seq!['\0', 'K', 'I', 'T', 'T', 'Y', ':']
}

/// The first image in `images` with id `id`.
pub open spec fn find_image(images: Seq<KittyImageView>, id: nat, k: nat) -> Option<KittyImageView>
    decreases images.len() - k,
{
    if k >= images.len() {
        None
    } else if images[k as int].id == id {
        Some(images[k as int])
    } else {
        find_image(images, id, k + 1)
    }
}

/// The image a sentinel `KITTY:{id}:{cols}[:...]` stands for: the stored
/// image with that id, shown at `cols` columns (natural size for 0).
pub open spec fn parse_sentinel_spec(sentinel: Seq<char>, images: Seq<KittyImageView>) -> Option<KittyImageView> {
    if sentinel.len() >= 6 && sentinel.take(6) == seq!['K', 'I', 'T', 'T', 'Y', ':'] {
        let rest = sentinel.skip(6);
        match first_index_of(rest, ':', 0) {
            Some(k1) => {
                let id_str = rest.take(k1 as int);
                let rest2 = rest.skip(k1 + 1int);
                let cols_str = match first_index_of(rest2, ':', 0) {
                    Some(k2) => rest2.take(k2 as int),
                    None => rest2,
                };
                match (parse_unsigned(id_str, u32::MAX as nat), parse_unsigned(cols_str, u16::MAX as nat)) {
                    (Some(id), Some(cols)) => match find_image(images, id, 0) {
                        Some(img) => Some(
                            KittyImageView {
                                display_cols: if cols == 0 { None } else { Some(cols as u16) },
                                ..img
                            },
                        ),
                        None => None,
                    },
                    _ => None,
                }
            },
            None => None,
        }
    } else {
        None
    }
}

/// One step of splitting rendered text: the items before the first
/// sentinel's end and the text after it, or the last items when no further
/// sentinel is closed.
///
/// The text before a sentinel `\0KITTY:...\0` becomes a text item, the
/// sentinel the image it names, and one newline after the sentinel is
/// dropped.  When a sentinel is never closed, the text before it and the
/// text from it on are the last two text items.
pub open spec fn build_head(s: Seq<char>, images: Seq<KittyImageView>) -> (Seq<DocItemView>, Option<Seq<char>>) {
    match find_seq(s, sentinel_marker(), 0) {
        Some(start) => {
            let text_part = s.take(start as int);
            let pre = if text_part.len() > 0 { seq![DocItemView::Text(text_part)] } else { Seq::empty() };
            let after = s.skip(start + 1int);
            match first_index_of(after, '\0', 0) {
                Some(end) => {
                    let r0 = after.skip(end + 1int);
                    let rest = if r0.len() > 0 && r0[0] == '\n' { r0.skip(1) } else { r0 };
                    let img = match parse_sentinel_spec(after.take(end as int), images) {
                        Some(i) => seq![DocItemView::Image(i)],
                        None => Seq::empty(),
                    };
                    (pre + img, Some(rest))
                },
                None => (pre + seq![DocItemView::Text(s.skip(start as int))], None),
            }
        },
        None => (if s.len() > 0 { seq![DocItemView::Text(s)] } else { Seq::empty() }, None),
    }
}

pub proof fn lemma_build_head_shrinks(s: Seq<char>, images: Seq<KittyImageView>)
    ensures
        build_head(s, images).1 matches Some(rest) ==> rest.len() < s.len(),
{
    lemma_find_seq(s, sentinel_marker(), 0);
    if let Some(start) = find_seq(s, sentinel_marker(), 0) {
        lemma_first_index_of(s.skip(start + 1int), '\0', 0);
    }
}

/// The items of a document built from rendered text (see `build_head`).
pub open spec fn build_items(s: Seq<char>, images: Seq<KittyImageView>) -> Seq<DocItemView>
    decreases s.len(),
{
    let (head, rest) = build_head(s, images);
    match rest {
        Some(r) => {
            proof {
                lemma_build_head_shrinks(s, images);
            }
            head + build_items(r, images)
        },
        None => head,
    }
}

pub open spec fn images_view(images: Seq<KittyImage>) -> Seq<KittyImageView> {
    images.map_values(|i: KittyImage| i@)
}

fn find_marker(cs: &Vec<char>, from: usize) -> (r: Option<usize>)
    requires
        from <= cs@.len(),
    ensures
        match find_seq(cs@.skip(from as int), sentinel_marker(), 0) {
            Some(k) => r == Some((from + k) as usize),
            None => r is None,
        },
{
    let pat: Vec<char> = vec!['\0', 'K', 'I', 'T', 'T', 'Y', ':'];
    assert(pat@ =~= sentinel_marker());
    find_pattern(cs, from, &pat)
}

fn find_image_by_id(store: &KittyImageStore, id: u32) -> (r: Option<usize>)
    ensures
        match find_image(images_view(store.images@), id as nat, 0) {
            Some(img) => r matches Some(k) && k < store.images@.len() && store.images@[k as int]@ == img,
            None => r is None,
        },
{
    let ghost iv = images_view(store.images@);
    let mut k: usize = 0;
    while k < store.images.len()
        invariant
            k <= store.images@.len(),
            iv == images_view(store.images@),
            find_image(iv, id as nat, 0) == find_image(iv, id as nat, k as nat),
        decreases store.images@.len() - k,
    {
        if store.images[k].id == id {
            return Some(k);
        }
        k += 1;
    }
    None
}

fn has_kitty_prefix(cs: &Vec<char>, from: usize, to: usize) -> (b: bool)
    requires
        from <= to <= cs@.len(),
    ensures
        b == (cs@.subrange(from as int, to as int).len() >= 6 && cs@.subrange(from as int, to as int).take(6) == seq![
            'K',
            'I',
            'T',
            'T',
            'Y',
            ':',
        ]),
{
    let ghost sentinel = cs@.subrange(from as int, to as int);
    let pat: Vec<char> = vec!['K', 'I', 'T', 'T', 'Y', ':'];
    if to - from < 6 {
        return false;
    }
    let m = matches_at(cs, &pat, from);
    assert(sentinel.take(6) =~= cs@.subrange(from as int, from + 6));
    assert(pat@ =~= seq!['K', 'I', 'T', 'T', 'Y', ':']);
    m
}

/// Parse the sentinel held in `cs[from..to]`.
fn parse_sentinel_chars(cs: &Vec<char>, from: usize, to: usize, store: &KittyImageStore) -> (r: Option<KittyImage>)
    requires
        from <= to <= cs@.len(),
    ensures
        match parse_sentinel_spec(cs@.subrange(from as int, to as int), images_view(store.images@)) {
            Some(v) => r matches Some(img) && img@ == v,
            None => r is None,
        },
{
    let ghost sentinel = cs@.subrange(from as int, to as int);
    if !has_kitty_prefix(cs, from, to) {
        return None;
    }
    let ghost rest = sentinel.skip(6);
    let a = from + 6;
    assert(rest =~= cs@.subrange(a as int, to as int));
    proof {
        lemma_first_index_of(rest, ':', 0);
    }
    let k1 = match find_char(cs, ':', a, to) {
        Some(k) => k,
        None => return None,
    };
    assert(rest.take(k1 - a) =~= cs@.subrange(a as int, k1 as int));
    let b = k1 + 1;
    let ghost rest2 = rest.skip(k1 - a + 1);
    assert(rest2 =~= cs@.subrange(b as int, to as int));
    proof {
        lemma_first_index_of(rest2, ':', 0);
    }
    let c = match find_char(cs, ':', b, to) {
        Some(k) => k,
        None => to,
    };
    assert(cs@.subrange(b as int, c as int) =~= match first_index_of(rest2, ':', 0) {
        Some(k2) => rest2.take(k2 as int),
        None => rest2,
    });
    let id = match parse_unsigned_chars(cs, a, k1, u32::MAX) {
        Some(v) => v,
        None => return None,
    };
    let cols = match parse_unsigned_chars(cs, b, c, 65535) {
        Some(v) => v as u16,
        None => return None,
    };
    match find_image_by_id(store, id) {
        Some(k) => {
            let img = &store.images[k];
            Some(KittyImage {
                id: img.id,
                rgba_data: clone_bytes(&img.rgba_data),
                pixel_width: img.pixel_width,
                pixel_height: img.pixel_height,
                display_cols: if cols == 0 { None } else { Some(cols) },
            })
        },
        None => None,
    }
}

/// Parse a sentinel `KITTY:{id}:{cols}:{pw}:{ph}` into the stored image it
/// names (see `parse_sentinel_spec`).
pub fn parse_sentinel(sentinel: &str, store: &KittyImageStore) -> (r: Option<KittyImage>)
    ensures
        match parse_sentinel_spec(sentinel@, images_view(store.images@)) {
            Some(v) => r matches Some(img) && img@ == v,
            None => r is None,
        },
{
    let cs = chars_of(sentinel);
    assert(cs@.subrange(0, cs@.len() as int) =~= sentinel@);
    parse_sentinel_chars(&cs, 0, cs.len(), store)
}

/// Split off the head of `cs[pos..]` (see `build_head`) into `items`;
/// returns where the rest starts, if splitting goes on.
#[verifier::rlimit(30)]
fn build_step(cs: &Vec<char>, pos: usize, store: &KittyImageStore, items: &mut Vec<DocItem>) -> (next: Option<usize>)
    requires
        pos <= cs@.len(),
    ensures
        items_view(final(items)@) == items_view(old(items)@) + build_head(
            cs@.skip(pos as int),
            images_view(store.images@),
        ).0,
        match build_head(cs@.skip(pos as int), images_view(store.images@)).1 {
            Some(rest) => next matches Some(p) && pos < p <= cs@.len() && rest == cs@.skip(p as int),
            None => next is None,
        },
{
    let n = cs.len();
    let ghost s = cs@.skip(pos as int);
    let ghost images = images_view(store.images@);
    let ghost before = items_view(items@);
    proof {
        lemma_find_seq(s, sentinel_marker(), 0);
    }
    match find_marker(cs, pos) {
        Some(start) => {
            assert(cs@.subrange(pos as int, start as int) =~= s.take(start - pos));
            if start > pos {
                let t = string_of(cs, pos, start);
                items.push(DocItem::Text(t));
            }
            let ghost pre = if start > pos { seq![DocItemView::Text(s.take(start - pos))] } else { Seq::empty() };
            assert(items_view(items@) =~= before + pre);
            let after = start + 1;
            let ghost aft = s.skip(start - pos + 1);
            assert(aft =~= cs@.subrange(after as int, n as int));
            proof {
                lemma_first_index_of(aft, '\0', 0);
            }
            match find_char(cs, '\0', after, n) {
                Some(end) => {
                    let ghost r0 = aft.skip(end - after + 1);
                    assert(aft.take(end - after) =~= cs@.subrange(after as int, end as int));
                    let img = parse_sentinel_chars(cs, after, end, store);
                    let mut next = end + 1;
                    if next < n && cs[next] == '\n' {
                        next = next + 1;
                    }
                    assert(r0 =~= cs@.skip(end + 1));
                    let ghost rest = if r0.len() > 0 && r0[0] == '\n' { r0.skip(1) } else { r0 };
                    assert(rest =~= cs@.skip(next as int));
                    let ghost mid = items_view(items@);
                    match img {
                        Some(i) => {
                            items.push(DocItem::Image(i));
                        },
                        None => {},
                    }
                    assert(items_view(items@) =~= mid + match parse_sentinel_spec(aft.take(end - after), images) {
                        Some(i) => seq![DocItemView::Image(i)],
                        None => Seq::<DocItemView>::empty(),
                    });
                    Some(next)
                },
                None => {
                    let t = string_of(cs, start, n);
                    assert(t@ =~= s.skip(start - pos));
                    items.push(DocItem::Text(t));
                    assert(items_view(items@) =~= before + pre + seq![DocItemView::Text(s.skip(start - pos))]);
                    None
                },
            }
        },
        None => {
            if pos < n {
                let t = string_of(cs, pos, n);
                assert(t@ =~= s);
                items.push(DocItem::Text(t));
                assert(items_view(items@) =~= before + seq![DocItemView::Text(s)]);
            } else {
                assert(items_view(items@) =~= before + Seq::<DocItemView>::empty());
            }
            None
        },
    }
}

/// Build a `KittyDocument` from a rendered ANSI string and the image store.
///
/// The `rendered` string contains sentinel tokens of the form
/// `\x00KITTY:{id}:{cols}:{pw}:{ph}\x00\n` at the position of each image.
/// This function splits the string on those sentinels and builds a
/// `Vec<DocItem>` interleaving text and image items.
pub fn build_kitty_document(rendered: &str, store: &KittyImageStore) -> (doc: KittyDocument)
    ensures
        items_view(doc.items@) == build_items(rendered@, images_view(store.images@)),
{
    let cs = chars_of(rendered);
    let n = cs.len();
    let ghost images = images_view(store.images@);
    let mut items: Vec<DocItem> = Vec::new();
    let mut pos: usize = 0;
    assert(cs@.skip(0) =~= rendered@);
    assert(items_view(items@) =~= Seq::<DocItemView>::empty());
    loop
        invariant
            cs@ == rendered@,
            n == cs@.len(),
            pos <= n,
            images == images_view(store.images@),
            items_view(items@) + build_items(cs@.skip(pos as int), images) == build_items(rendered@, images),
        decreases n - pos,
    {
        let ghost s = cs@.skip(pos as int);
        let ghost before = items_view(items@);
        let step = build_step(&cs, pos, store, &mut items);
        match step {
            Some(p) => {
                assert(build_items(s, images) == build_head(s, images).0 + build_items(cs@.skip(p as int), images));
                assert(items_view(items@) + build_items(cs@.skip(p as int), images) =~= before + build_items(s, images));
                pos = p;
            },
            None => {
                assert(build_items(s, images) == build_head(s, images).0);
                return KittyDocument { items };
            },
        }
    }
}

// ── Several sources ─────────────────────────────────────────────────────────

/// The dim line between two sources: the name between spaces, with the
/// rest of the width (counted in characters) split into a run of dashes on
/// each side, the left half rounded down; each run has at least 4 dashes.
pub open spec fn separator_spec(name: Seq<char>, width: nat) -> Seq<char> {
    let header_len = name.len() + 2;
    let rest: nat = if width > header_len { (width - header_len) as nat } else { 0 };
    let left: nat = if rest / 2 < 4 { 4 } else { rest / 2 };
    let right: nat = if rest - rest / 2 < 4 { 4 } else { (rest - rest / 2) as nat };
    "\x1b[2m"@ + repeat_seq("\u{2500}"@, left) + " "@ + name + " "@ + repeat_seq("\u{2500}"@, right) + "\x1b[0m\n\n"@
}

proof fn lemma_dashes_no_esc(n: nat)
    ensures
        no_esc(repeat_seq("\u{2500}"@, n)),
        repeat_seq("\u{2500}"@, n).len() == n,
    decreases n,
{
    reveal_strlit("\u{2500}");
    if n > 0 {
        lemma_dashes_no_esc((n - 1) as nat);
        let p = repeat_seq("\u{2500}"@, (n - 1) as nat);
        assert forall|i: int| 0 <= i < repeat_seq("\u{2500}"@, n).len() implies repeat_seq("\u{2500}"@, n)[i] != '\x1b' by {
            if i < p.len() {
                assert(repeat_seq("\u{2500}"@, n)[i] == p[i]);
            } else {
                assert(repeat_seq("\u{2500}"@, n)[i] == "\u{2500}"@[i - p.len()]);
            }
        }
    }
}

/// With room for four dashes on each side, the separator line is exactly
/// as wide as the terminal: less its two closing newlines, it shows
/// `width` characters (for a name without escape characters).
pub proof fn law_separator_fits_width(name: Seq<char>, width: nat)
    requires
        name.len() + 10 <= width,
        no_esc(name),
    ensures
        visible_len_spec(separator_spec(name, width)) == width + 2,
{
    reveal_strlit("\x1b[2m");
    reveal_strlit("\x1b[0m\n\n");
    reveal_strlit(" ");
    let rest = (width - name.len() - 2) as nat;
    let left: nat = rest / 2;
    let right: nat = (rest - rest / 2) as nat;
    let dl = repeat_seq("\u{2500}"@, left);
    let dr = repeat_seq("\u{2500}"@, right);
    lemma_dashes_no_esc(left);
    lemma_dashes_no_esc(right);
    let body = dl + " "@ + name + " "@ + dr;
    assert(no_esc(body)) by {
        assert forall|i: int| 0 <= i < body.len() implies body[i] != '\x1b' by {
            if i < dl.len() {
                assert(body[i] == dl[i]);
            } else if i == dl.len() {
                assert(body[i] == ' ');
            } else if i < dl.len() + 1 + name.len() {
                assert(body[i] == name[i - dl.len() - 1]);
            } else if i == dl.len() + 1 + name.len() {
                assert(body[i] == ' ');
            } else {
                assert(body[i] == dr[i - dl.len() - 2 - name.len()]);
            }
        }
    }
    let e = Seq::<char>::empty();
    assert(ansi_scan(e) == (e, 0u8));
    lemma_scan_short_sgr(e, '2');
    let a1 = e + seq!['\x1b', '[', '2', 'm'];
    lemma_scan_plain(a1, body);
    let a2 = a1 + body;
    lemma_scan_short_sgr(a2, '0');
    let a3 = a2 + seq!['\x1b', '[', '0', 'm'];
    assert(no_esc(seq!['\n', '\n']));
    lemma_scan_plain(a3, seq!['\n', '\n']);
    assert(separator_spec(name, width) =~= a3 + seq!['\n', '\n']);
    assert(ansi_scan(a1).0 =~= e);
    assert(strip_ansi_spec(separator_spec(name, width)) =~= body + seq!['\n', '\n']);
}

/// Rendering the documents `docs` one after the other; when there are
/// several sources (`names`), each comes after a separator naming it.
pub open spec fn all_spec(names: Seq<Seq<char>>, docs: Seq<DocCtx>, width: nat, st: RenderView) -> RenderView
    decreases docs.len(),
{
    if docs.len() == 0 {
        st
    } else {
        let i = docs.len() - 1;
        let prev = all_spec(names, docs.drop_last(), width, st);
        let before = if names.len() > 1 { with_out(prev, prev.out + separator_spec(names[i], width)) } else { prev };
        document_spec(docs[i], before)
    }
}

/// The media given for source `i` (none when the list is shorter).
pub open spec fn media_of(media: Seq<Vec<Media>>, i: int) -> Seq<Media> {
    if 0 <= i < media.len() { media[i]@ } else { Seq::empty() }
}

pub open spec fn source_names(sources: Seq<Source>) -> Seq<Seq<char>> {
    sources.map_values(|s: Source| s.name@)
}

/// The inputs of rendering each source, with the highlighting `hls`.
pub open spec fn source_docs(sources: Seq<Source>, media: Seq<Vec<Media>>, hls: Seq<Seq<Seq<char>>>, config: Config) -> Seq<
    DocCtx,
> {
    Seq::new(sources.len(), |i: int| text_ctx(sources[i].content@, media_of(media, i), hls[i], config))
}

/// The highlighting of each source's code blocks (see `doc_highlights`).
pub open spec fn source_highlights(sources: Seq<Source>, media: Seq<Vec<Media>>, config: Config) -> Seq<Seq<Seq<char>>> {
    Seq::new(
        sources.len(),
        |i: int| doc_highlights(markdown_events(sources[i].content@, doc_extensions()), media_of(media, i), config),
    )
}

fn push_separator(out: &mut String, name: &str, width: u16)
    ensures
        final(out)@ == old(out)@ + separator_spec(name@, width as nat),
{
    let n = chars_of(name).len();
    let rest: usize = if (n as u128) + 2 < (width as u128) { width as usize - n - 2 } else { 0 };
    let half: usize = rest / 2;
    let left: usize = if half < 4 { 4 } else { half };
    let right: usize = if rest - half < 4 { 4 } else { rest - half };
    out.append("\x1b[2m");
    push_repeat(out, "\u{2500}", left);
    out.append(" ");
    out.append(name);
    out.append(" ");
    push_repeat(out, "\u{2500}", right);
    out.append("\x1b[0m\n\n");
    assert(final(out)@ =~= old(out)@ + separator_spec(name@, width as nat));
}

/// Render all sources to a single ANSI string, each with the media given
/// for it (by source, then by event position); with several files, each
/// comes under a dim header line naming it (see `all_spec`).
pub fn render_all(
    sources: &Vec<Source>,
    media: Vec<Vec<Media>>,
    config: &Config,
    hl: &Highlighter,
    store: &mut KittyImageStore,
) -> (r: Rendered)
    requires
        forall|i: int| 0 <= i < media@.len() ==> media_ok(#[trigger] media@[i]@, config.cell_pixel_width),
        old(store).wf(),
    ensures
        final(store).wf(),
        state_view(r.text@, r.warnings@, *final(store)) == all_spec(
            source_names(sources@),
            source_docs(sources@, media@, source_highlights(sources@, media@, *config), *config),
            config.width as nat,
            start_view(images_view(old(store).images@)),
        ),
{
    let ghost orig = media@;
    let ghost names = source_names(sources@);
    let mut media = media;
    let mut out = String::new();
    let mut warnings: Vec<String> = Vec::new();
    let ghost mut hls: Seq<Seq<Seq<char>>> = Seq::empty();
    let ghost st0 = start_view(images_view(store.images@));
    assert(strings_view(warnings@) =~= Seq::<Seq<char>>::empty());
    let mut i: usize = 0;
    while i < sources.len()
        invariant
            i <= sources@.len(),
            names == source_names(sources@),
            media@ == if i <= orig.len() { orig.skip(i as int) } else { Seq::<Vec<Media>>::empty() },
            forall|j: int| 0 <= j < orig.len() ==> media_ok(#[trigger] orig[j]@, config.cell_pixel_width),
            store.wf(),
            hls.len() == i,
            forall|j: int| 0 <= j < i ==> #[trigger] hls[j] == source_highlights(sources@, orig, *config)[j],
            state_view(out@, warnings@, *store) == all_spec(
                names,
                source_docs(sources@, orig, hls, *config).take(i as int),
                config.width as nat,
                st0,
            ),
        decreases sources@.len() - i,
    {
        let ghost prev_docs = source_docs(sources@, orig, hls, *config).take(i as int);
        let m = if media.len() > 0 {
            media.remove(0)
        } else {
            Vec::new()
        };
        assert(m@ == media_of(orig, i as int));
        if sources.len() > 1 {
            push_separator(&mut out, sources[i].name.as_str(), config.width);
        }
        let h = render_text_into(sources[i].content.as_str(), m, config, hl, &mut out, &mut warnings, store);
        proof {
            let new_hls = hls.push(h@);
            let docs = source_docs(sources@, orig, new_hls, *config);
            assert(docs.take(i + 1).drop_last() =~= source_docs(sources@, orig, hls, *config).take(i as int));
            assert(docs.take(i + 1).last() == text_ctx(sources@[i as int].content@, media_of(orig, i as int), h@, *config));
            assert(names[i as int] == sources@[i as int].name@);
            hls = new_hls;
        }
        i += 1;
    }
    assert(source_docs(sources@, orig, hls, *config).take(sources@.len() as int) =~= source_docs(sources@, orig, hls, *config));
    assert(hls =~= source_highlights(sources@, orig, *config));
    Rendered { text: out, warnings }
}

// ── Captured images come back ───────────────────────────────────────────────

proof fn lemma_find_image_id(images: Seq<KittyImageView>, id: nat, k: nat)
    requires
        forall|i: int| 0 <= i < images.len() ==> #[trigger] images[i].id == i + 1,
        1 <= id <= images.len(),
        k <= id - 1,
    ensures
        find_image(images, id, k) == Some(images[id - 1]),
    decreases id - 1 - k,
{
    if k < id - 1 {
        assert(images[k as int].id == k + 1);
        lemma_find_image_id(images, id, k + 1);
    }
}

/// The view of an image captured as the `id`-th of the store.
pub open spec fn captured_view(img: RgbaImage, max_cols: Option<u16>, id: nat) -> KittyImageView {
    KittyImageView {
        id: id as u32,
        rgba_data: img.data@,
        pixel_width: img.width,
        pixel_height: img.height,
        display_cols: max_cols,
    }
}

/// The text that stands for a captured image.
pub open spec fn captured_text(img: RgbaImage, config: Config, max_cols: Option<u16>, images: Seq<KittyImageView>) -> Seq<
    char,
> {
    match dynamic_image_spec(img, config, max_cols, images).0 {
        Ok(s) => s,
        Err(_) => Seq::empty(),
    }
}

/// The text item for `t`, if it is not empty.
pub open spec fn text_item(t: Seq<char>) -> Seq<DocItemView> {
    if t.len() > 0 { seq![DocItemView::Text(t)] } else { Seq::empty() }
}

proof fn lemma_digits_plain(d: Seq<char>)
    requires
        all_digits(d),
    ensures
        forall|i: int| 0 <= i < d.len() ==> d[i] != '\0' && d[i] != ':',
{
    assert forall|i: int| 0 <= i < d.len() implies d[i] != '\0' && d[i] != ':' by {
        assert(is_digit(d[i]));
    }
}

/// What a sentinel holds between its NULs: `KITTY:{id}:{cols}:{w}:{h}`.
pub open spec fn sentinel_core(id: nat, cols: nat, w: nat, h: nat) -> Seq<char> {
    seq!['K', 'I', 'T', 'T', 'Y', ':'] + (dec(id) + seq![':'] + (dec(cols) + seq![':'] + (dec(w) + seq![':'] + dec(h))))
}

/// The columns a sentinel writes: the count, or 0 for the natural size.
pub open spec fn cols_written(max_cols: Option<u16>) -> nat {
    match max_cols {
        Some(c) => c as nat,
        None => 0,
    }
}

proof fn lemma_sentinel_shape(id: nat, max_cols: Option<u16>, w: u32, h: u32)
    ensures
        sentinel_spec(id, max_cols, w, h) == seq!['\0'] + sentinel_core(id, cols_written(max_cols), w as nat, h as nat)
            + seq!['\0'] + seq!['\n'],
        forall|i: int|
            0 <= i < sentinel_core(id, cols_written(max_cols), w as nat, h as nat).len() ==> #[trigger] sentinel_core(
                id,
                cols_written(max_cols),
                w as nat,
                h as nat,
            )[i] != '\0',
{
    let cols = cols_written(max_cols);
    let d1 = dec(id);
    let d2 = dec(cols);
    let d3 = dec(w as nat);
    let d4 = dec(h as nat);
    reveal_strlit("\0KITTY:");
    reveal_strlit(":");
    reveal_strlit("\0\n");
    lemma_dec(id);
    lemma_dec(cols);
    lemma_dec(w as nat);
    lemma_dec(h as nat);
    lemma_digits_plain(d1);
    lemma_digits_plain(d2);
    lemma_digits_plain(d3);
    lemma_digits_plain(d4);
    let core = sentinel_core(id, cols, w as nat, h as nat);
    assert(sentinel_spec(id, max_cols, w, h) =~= seq!['\0'] + core + seq!['\0'] + seq!['\n']);
    let t3 = d4;
    let t2 = d3 + seq![':'] + t3;
    let t1 = d2 + seq![':'] + t2;
    let t0 = d1 + seq![':'] + t1;
    assert forall|i: int| 0 <= i < t2.len() implies t2[i] != '\0' by {
        if i < d3.len() {
            assert(t2[i] == d3[i]);
        } else if i > d3.len() {
            assert(t2[i] == d4[i - d3.len() - 1]);
        }
    }
    assert forall|i: int| 0 <= i < t1.len() implies t1[i] != '\0' by {
        if i < d2.len() {
            assert(t1[i] == d2[i]);
        } else if i > d2.len() {
            assert(t1[i] == t2[i - d2.len() - 1]);
        }
    }
    assert forall|i: int| 0 <= i < t0.len() implies t0[i] != '\0' by {
        if i < d1.len() {
            assert(t0[i] == d1[i]);
        } else if i > d1.len() {
            assert(t0[i] == t1[i - d1.len() - 1]);
        }
    }
    assert forall|i: int| 0 <= i < core.len() implies core[i] != '\0' by {
        if i >= 6 {
            assert(core[i] == t0[i - 6]);
        }
    }
}

proof fn lemma_sentinel_parses(id: nat, max_cols: Option<u16>, w: u32, h: u32, imgs: Seq<KittyImageView>)
    requires
        forall|i: int| 0 <= i < imgs.len() ==> #[trigger] imgs[i].id == i + 1,
        1 <= id <= imgs.len(),
        id <= u32::MAX,
        imgs[id - 1].display_cols == max_cols,
        max_cols != Some(0u16),
    ensures
        parse_sentinel_spec(sentinel_core(id, cols_written(max_cols), w as nat, h as nat), imgs) == Some(imgs[id - 1]),
{
    let cols = cols_written(max_cols);
    let d1 = dec(id);
    let d2 = dec(cols);
    lemma_dec(id);
    lemma_dec(cols);
    lemma_digits_plain(d1);
    lemma_digits_plain(d2);
    let tail2 = dec(w as nat) + seq![':'] + dec(h as nat);
    let tail1 = d2 + seq![':'] + tail2;
    let tail0 = d1 + seq![':'] + tail1;
    let core = sentinel_core(id, cols, w as nat, h as nat);
    assert(core.take(6) =~= seq!['K', 'I', 'T', 'T', 'Y', ':']);
    assert(core.skip(6) =~= tail0);
    lemma_first_index_after(d1, ':', tail1, 0);
    assert(tail0.take(d1.len() as int) =~= d1);
    assert(tail0.skip(d1.len() + 1int) =~= tail1);
    lemma_first_index_after(d2, ':', tail2, 0);
    assert(tail1.take(d2.len() as int) =~= d2);
    lemma_parse_dec(id, u32::MAX as nat);
    lemma_parse_dec(cols, u16::MAX as nat);
    lemma_find_image_id(imgs, id, 0);
}

/// An image captured while rendering for the Kitty pager comes back, at the
/// place of its text, when the document is built from the rendered text:
/// whatever text comes before it (free of NUL characters) stays one text
/// item, the image follows, and the rest is built as it would be alone.
/// (An image shown at zero columns comes back at its natural size, as the
/// sentinel writes no columns as 0.)
pub proof fn law_captured_image_comes_back(
    t: Seq<char>,
    rest: Seq<char>,
    img: RgbaImage,
    config: Config,
    max_cols: Option<u16>,
    images: Seq<KittyImageView>,
)
    requires
        config.kitty_capture,
        forall|i: int| 0 <= i < images.len() ==> #[trigger] images[i].id == i + 1,
        images.len() + 2 <= u32::MAX,
        max_cols != Some(0u16),
        forall|i: int| 0 <= i < t.len() ==> t[i] != '\0',
    ensures
        dynamic_image_spec(img, config, max_cols, images).0 is Ok,
        dynamic_image_spec(img, config, max_cols, images).1 == images.push(
            captured_view(img, max_cols, images.len() + 1),
        ),
        build_items(
            t + captured_text(img, config, max_cols, images) + rest,
            images.push(captured_view(img, max_cols, images.len() + 1)),
        ) == text_item(t) + seq![DocItemView::Image(captured_view(img, max_cols, images.len() + 1))] + build_items(
            rest,
            images.push(captured_view(img, max_cols, images.len() + 1)),
        ),
{
    let id = images.len() + 1;
    let new = captured_view(img, max_cols, id);
    let imgs = images.push(new);
    let cols = cols_written(max_cols);
    let core = sentinel_core(id, cols, img.width as nat, img.height as nat);
    lemma_sentinel_shape(id, max_cols, img.width, img.height);
    let sentinel = sentinel_spec(id, max_cols, img.width, img.height);
    assert(captured_text(img, config, max_cols, images) == sentinel);
    let whole = t + sentinel + rest;
    // The sentinel's marker is the first one.
    let after_marker = core.skip(6) + seq!['\0'] + seq!['\n'] + rest;
    assert(core =~= seq!['K', 'I', 'T', 'T', 'Y', ':'] + core.skip(6));
    assert(whole =~= t + sentinel_marker() + after_marker);
    lemma_find_seq_after(t, sentinel_marker(), after_marker, 0);
    assert(whole.take(t.len() as int) =~= t);
    // Its closing NUL is the first one after it.
    let after = whole.skip(t.len() + 1int);
    assert(after =~= core + seq!['\0'] + (seq!['\n'] + rest));
    lemma_first_index_after(core, '\0', seq!['\n'] + rest, 0);
    assert(after.take(core.len() as int) =~= core);
    let r0 = after.skip(core.len() + 1int);
    assert(r0 =~= seq!['\n'] + rest);
    assert(r0.skip(1) =~= rest);
    // The sentinel names the new image.
    assert forall|i: int| 0 <= i < imgs.len() implies #[trigger] imgs[i].id == i + 1 by {
        if i < images.len() {
            assert(imgs[i] == images[i]);
        }
    }
    lemma_sentinel_parses(id, max_cols, img.width, img.height, imgs);
    assert(imgs[id - 1] == new);
    assert(build_head(whole, imgs) == (text_item(t) + seq![DocItemView::Image(new)], Some(rest)));
}

/// Rendered text without images (no NUL characters) becomes a single text
/// item, or nothing when it is empty.
pub proof fn law_plain_text_is_one_item(s: Seq<char>, images: Seq<KittyImageView>)
    requires
        forall|i: int| 0 <= i < s.len() ==> s[i] != '\0',
    ensures
        build_items(s, images) == text_item(s),
{
    lemma_find_seq_absent(s, sentinel_marker(), 0);
}

/// A sentinel that is never closed splits the text and drops nothing: the
/// text before it, when there is any, and the text from it on are the two
/// last items.
pub proof fn law_unclosed_sentinel_splits(s: Seq<char>, images: Seq<KittyImageView>, start: nat)
    requires
        find_seq(s, sentinel_marker(), 0) == Some(start),
        first_index_of(s.skip(start + 1int), '\0', 0) is None,
    ensures
        build_items(s, images) == text_item(s.take(start as int)) + seq![DocItemView::Text(s.skip(start as int))],
        s.take(start as int) + s.skip(start as int) == s,
{
    lemma_find_seq(s, sentinel_marker(), 0);
    assert(s.take(start as int) + s.skip(start as int) =~= s);
}

} // verus!
