//! Layout of a document into terminal rows, and rendering of one screen frame.
use base64::Engine;
use std::collections::HashSet;
use vstd::prelude::*;

use super::document::{DocItem, KittyDocument, KittyImage};
use crate::text::{chars_of, dec, push_chars, push_decimal, repeat_seq, split_chars, split_on};

verus! {

broadcast use vstd::std_specs::hash::group_hash_axioms;

/// A single terminal row in the laid-out document.
pub struct LayoutEntry {
    /// Which item in `KittyDocument::items` this entry belongs to.
    pub item_idx: usize,
    /// Content kind.
    pub kind: EntryKind,
}

pub enum EntryKind {
    Text(String),
    /// One terminal row of an image.  An image spanning N rows produces N
    /// consecutive entries with `row_in_image` going from 0 to N−1.
    ImageRow { row_in_image: u32, total_rows: u32 },
}

/// What a layout entry holds, with text as characters.
pub enum EntryView {
    TextLine(Seq<char>),
    ImageRow { row_in_image: u32, total_rows: u32 },
}

pub struct LayoutEntryView {
    pub item_idx: usize,
    pub kind: EntryView,
}

impl View for LayoutEntry {
    type V = LayoutEntryView;

    open spec fn view(&self) -> LayoutEntryView {
        LayoutEntryView {
            item_idx: self.item_idx,
            kind: match self.kind {
                EntryKind::Text(s) => EntryView::TextLine(s@),
                EntryKind::ImageRow { row_in_image, total_rows } => EntryView::ImageRow { row_in_image, total_rows },
            },
        }
    }
}

pub open spec fn entries_view(s: Seq<LayoutEntry>) -> Seq<LayoutEntryView> {
    s.map_values(|e: LayoutEntry| e@)
}

// ── Layout ──────────────────────────────────────────────────────────────────

pub open spec fn at_least_one(x: u32) -> nat {
    if x == 0 { 1 } else { x as nat }
}

/// Height in pixels at which the terminal shows `img`: scaled to
/// `display_cols` cells of `cell_w` pixels when that is set (the quotient is
/// truncated to 32 bits), the natural height otherwise.
pub open spec fn displayed_height(img: KittyImage, cell_w: nat) -> nat {
    match img.display_cols {
        Some(cols) => ((img.pixel_height as nat * (cols as nat * cell_w)) / at_least_one(img.pixel_width))
            % 0x1_0000_0000,
        None => img.pixel_height as nat,
    }
}

pub open spec fn ceil_div(a: nat, b: nat) -> nat {
    a / b + if a % b != 0 { 1nat } else { 0nat }
}

/// Number of terminal rows `img` occupies (at least one).
pub open spec fn image_rows(img: KittyImage, cell_px_width: u32, cell_px_height: u32) -> nat {
    let rows = ceil_div(displayed_height(img, at_least_one(cell_px_width)), at_least_one(cell_px_height));
    if rows == 0 { 1 } else { rows }
}

/// The rows that one document item contributes: one per `\n`-separated line
/// of a text, one per cell-height slice of an image.
pub open spec fn item_entries(idx: int, item: DocItem, cell_px_width: u32, cell_px_height: u32) -> Seq<LayoutEntryView> {
    match item {
        DocItem::Text(s) => split_on(s@, '\n').map(
            |j: int, line: Seq<char>| LayoutEntryView { item_idx: idx as usize, kind: EntryView::TextLine(line) },
        ),
        DocItem::Image(img) => {
            let total = image_rows(img, cell_px_width, cell_px_height);
            Seq::new(
                total,
                |r: int| LayoutEntryView {
                    item_idx: idx as usize,
                    kind: EntryView::ImageRow { row_in_image: r as u32, total_rows: total as u32 },
                },
            )
        },
    }
}

/// The rows of a whole document: the rows of each item, in order.
pub open spec fn layout_spec(items: Seq<DocItem>, cell_px_width: u32, cell_px_height: u32) -> Seq<LayoutEntryView>
    decreases items.len(),
{
    if items.len() == 0 {
        Seq::empty()
    } else {
        layout_spec(items.drop_last(), cell_px_width, cell_px_height) + item_entries(
            items.len() - 1,
            items.last(),
            cell_px_width,
            cell_px_height,
        )
    }
}

/// Every scaled image's display width in pixels fits in 32 bits.
pub open spec fn layout_fits(items: Seq<DocItem>, cell_px_width: u32) -> bool {
    forall|i: int|
        0 <= i < items.len() ==> match #[trigger] items[i] {
            DocItem::Image(img) => match img.display_cols {
                Some(cols) => cols as nat * at_least_one(cell_px_width) <= u32::MAX,
                None => true,
            },
            DocItem::Text(_) => true,
        }
}

pub(crate) fn image_total_rows(img: &KittyImage, cell_w: u32, cell_h: u32) -> (total: u32)
    requires
        cell_w >= 1,
        cell_h >= 1,
        match img.display_cols {
            Some(cols) => cols as nat * cell_w <= u32::MAX,
            None => true,
        },
    ensures
        total as nat == image_rows(*img, cell_w, cell_h),
        total >= 1,
{
    let displayed_height: u32 = match img.display_cols {
        Some(cols) => {
            let display_width_px: u32 = cols as u32 * cell_w;
            let pw: u32 = if img.pixel_width == 0 { 1 } else { img.pixel_width };
            let ph = img.pixel_height;
            assert(ph as nat * display_width_px as nat <= u64::MAX) by (nonlinear_arith)
                requires
                    ph <= u32::MAX,
                    display_width_px <= u32::MAX,
            ;
            let scaled: u64 = (ph as u64 * display_width_px as u64) / pw as u64;
            (scaled % 0x1_0000_0000) as u32
        },
        None => img.pixel_height,
    };
    let q = displayed_height / cell_h;
    assert(displayed_height % cell_h != 0 ==> q < u32::MAX) by (nonlinear_arith)
        requires
            cell_h >= 1,
            q == displayed_height / cell_h,
            displayed_height <= u32::MAX,
    {
        if displayed_height % cell_h != 0 {
            assert(cell_h >= 2);
            assert(q * cell_h <= displayed_height);
        }
    }
    let total = if displayed_height % cell_h != 0 { q + 1 } else { q };
    if total == 0 { 1 } else { total }
}

/// Build a flat list of terminal rows from a document.
///
/// Text items are split on `\n`; each line becomes one entry.  Image items
/// are expanded into one entry per terminal row so that scrolling is
/// row-granular and partial images can be displayed.  A zero cell size is
/// taken as one pixel.
pub fn layout(doc: &KittyDocument, cell_px_width: u32, cell_px_height: u32) -> (entries: Vec<LayoutEntry>)
    requires
        layout_fits(doc.items@, cell_px_width),
    ensures
        entries_view(entries@) == layout_spec(doc.items@, cell_px_width, cell_px_height),
{
    let cell_h: u32 = if cell_px_height == 0 { 1 } else { cell_px_height };
    let cell_w: u32 = if cell_px_width == 0 { 1 } else { cell_px_width };
    let mut entries: Vec<LayoutEntry> = Vec::new();
    let mut idx: usize = 0;
    while idx < doc.items.len()
        invariant
            idx <= doc.items@.len(),
            cell_w as nat == at_least_one(cell_px_width),
            cell_h as nat == at_least_one(cell_px_height),
            layout_fits(doc.items@, cell_px_width),
            entries_view(entries@) == layout_spec(doc.items@.take(idx as int), cell_px_width, cell_px_height),
        decreases doc.items@.len() - idx,
    {
        let ghost before = entries_view(entries@);
        let ghost item_rows = item_entries(idx as int, doc.items@[idx as int], cell_px_width, cell_px_height);
        proof {
            assert(doc.items@.take(idx + 1).drop_last() =~= doc.items@.take(idx as int));
        }
        match &doc.items[idx] {
            DocItem::Text(s) => {
                let lines = split_chars(s.as_str(), '\n');
                let mut j: usize = 0;
                while j < lines.len()
                    invariant
                        j <= lines@.len(),
                        lines@.len() == split_on(s@, '\n').len(),
                        forall|k: int| 0 <= k < lines@.len() ==> #[trigger] lines@[k]@ == split_on(s@, '\n')[k],
                        item_rows == item_entries(idx as int, DocItem::Text(*s), cell_px_width, cell_px_height),
                        entries_view(entries@) == before + item_rows.take(j as int),
                    decreases lines@.len() - j,
                {
                    let line = lines[j].clone();
                    let ghost prev = entries@;
                    let e = LayoutEntry { item_idx: idx, kind: EntryKind::Text(line) };
                    assert(e@ == item_rows[j as int]);
                    entries.push(e);
                    proof {
                        assert(entries_view(entries@) =~= entries_view(prev).push(e@));
                        assert(item_rows.take(j + 1) =~= item_rows.take(j as int).push(item_rows[j as int]));
                    }
                    j += 1;
                }
                proof {
                    assert(item_rows.take(j as int) =~= item_rows);
                }
            },
            DocItem::Image(img) => {
                proof {
                    assert(layout_fits(doc.items@, cell_px_width));
                    let it = doc.items@[idx as int];
                    assert(match it {
                        DocItem::Image(img) => match img.display_cols {
                            Some(cols) => cols as nat * at_least_one(cell_px_width) <= u32::MAX,
                            None => true,
                        },
                        DocItem::Text(_) => true,
                    });
                }
                let total_rows = image_total_rows(img, cell_w, cell_h);
                let mut row: u32 = 0;
                while row < total_rows
                    invariant
                        row <= total_rows,
                        total_rows as nat == image_rows(*img, cell_px_width, cell_px_height),
                        item_rows == item_entries(idx as int, DocItem::Image(*img), cell_px_width, cell_px_height),
                        entries_view(entries@) == before + item_rows.take(row as int),
                    decreases total_rows - row,
                {
                    let ghost prev = entries@;
                    let e = LayoutEntry { item_idx: idx, kind: EntryKind::ImageRow { row_in_image: row, total_rows } };
                    assert(e@ == item_rows[row as int]);
                    entries.push(e);
                    proof {
                        assert(entries_view(entries@) =~= entries_view(prev).push(e@));
                        assert(item_rows.take(row + 1) =~= item_rows.take(row as int).push(item_rows[row as int]));
                    }
                    row += 1;
                }
                proof {
                    assert(item_rows.take(row as int) =~= item_rows);
                }
            },
        }
        idx += 1;
    }
    proof {
        assert(doc.items@.take(doc.items@.len() as int) =~= doc.items@);
    }
    entries
}


/// Where a layout row comes from: a text row from a text item; an image
/// row from an image item, with the image's row count and a row inside it.
pub open spec fn layout_row_ok(items: Seq<DocItem>, e: LayoutEntryView, cell_px_width: u32, cell_px_height: u32) -> bool {
    &&& e.item_idx < items.len()
    &&& match e.kind {
        EntryView::ImageRow { row_in_image, total_rows } => match items[e.item_idx as int] {
            DocItem::Image(img) => total_rows as nat == image_rows(img, cell_px_width, cell_px_height)
                && row_in_image < total_rows,
            DocItem::Text(_) => false,
        },
        EntryView::TextLine(_) => items[e.item_idx as int] is Text,
    }
}

proof fn lemma_image_rows_bound(img: KittyImage, cell_px_width: u32, cell_px_height: u32)
    ensures
        1 <= image_rows(img, cell_px_width, cell_px_height) <= u32::MAX,
{
    let a = displayed_height(img, at_least_one(cell_px_width));
    let b = at_least_one(cell_px_height);
    assert(a < 0x1_0000_0000);
    assert(ceil_div(a, b) <= a || a == 0) by (nonlinear_arith)
        requires
            b >= 1,
            ceil_div(a, b) == a / b + if a % b != 0 { 1nat } else { 0nat },
    {
        if b == 1 {
            assert(a / b == a && a % b == 0);
        } else {
            assert(a / b * b <= a);
            assert(a / b < a || a == 0);
        }
    }
    assert(a == 0 ==> ceil_div(a, b) == 0) by (nonlinear_arith)
        requires
            b >= 1,
            ceil_div(a, b) == a / b + if a % b != 0 { 1nat } else { 0nat },
    ;
}

/// Every row of a layout comes from the document as `layout_row_ok` says.
pub proof fn lemma_layout_rows(items: Seq<DocItem>, cell_px_width: u32, cell_px_height: u32)
    requires
        items.len() <= usize::MAX,
    ensures
        forall|i: int|
            0 <= i < layout_spec(items, cell_px_width, cell_px_height).len() ==> layout_row_ok(
                items,
                #[trigger] layout_spec(items, cell_px_width, cell_px_height)[i],
                cell_px_width,
                cell_px_height,
            ),
    decreases items.len(),
{
    if items.len() > 0 {
        let prev = items.drop_last();
        lemma_layout_rows(prev, cell_px_width, cell_px_height);
        let lp = layout_spec(prev, cell_px_width, cell_px_height);
        let tail = item_entries(items.len() - 1, items.last(), cell_px_width, cell_px_height);
        assert(layout_spec(items, cell_px_width, cell_px_height) == lp + tail);
        match items.last() {
            DocItem::Image(img) => lemma_image_rows_bound(img, cell_px_width, cell_px_height),
            DocItem::Text(_) => {},
        }
        assert forall|i: int| 0 <= i < layout_spec(items, cell_px_width, cell_px_height).len() implies layout_row_ok(
            items,
            #[trigger] layout_spec(items, cell_px_width, cell_px_height)[i],
            cell_px_width,
            cell_px_height,
        ) by {
            if i < lp.len() {
                assert(layout_row_ok(prev, lp[i], cell_px_width, cell_px_height));
                assert(items[lp[i].item_idx as int] == prev[lp[i].item_idx as int]);
            } else {
                assert(layout_spec(items, cell_px_width, cell_px_height)[i] == tail[i - lp.len()]);
            }
        }
    }
}

/// Every image of the document has computable crop rectangles for all its
/// rows.
pub open spec fn images_fit(items: Seq<DocItem>, cell_px_width: u32, cell_px_height: u32) -> bool {
    forall|i: int|
        0 <= i < items.len() ==> match #[trigger] items[i] {
            DocItem::Image(img) => crop_fits(img, image_rows(img, cell_px_width, cell_px_height), cell_px_width, cell_px_height),
            DocItem::Text(_) => true,
        }
}

// ── Kitty graphics commands ─────────────────────────────────────────────────

/// The character of the standard base64 alphabet for a six-bit value:
/// `A`–`Z`, `a`–`z`, `0`–`9`, `+`, `/`.
pub open spec fn base64_char(v: nat) -> char {
    if v < 26 {
        (('A' as nat) + v) as char
    } else if v < 52 {
        (('a' as nat) + (v - 26)) as char
    } else if v < 62 {
        (('0' as nat) + (v - 52)) as char
    } else if v == 62 {
        '+'
    } else {
        '/'
    }
}

/// The standard base64 encoding of `data`: each three bytes become four
/// characters of six bits each, and a last group of one or two bytes is
/// padded with `=`.
pub open spec fn base64_standard(data: Seq<u8>) -> Seq<char>
    decreases data.len(),
{
    if data.len() == 0 {
        Seq::empty()
    } else if data.len() == 1 {
        seq![base64_char(data[0] as nat / 4), base64_char((data[0] as nat % 4) * 16), '=', '=']
    } else if data.len() == 2 {
        seq![
            base64_char(data[0] as nat / 4),
            base64_char((data[0] as nat % 4) * 16 + data[1] as nat / 16),
            base64_char((data[1] as nat % 16) * 4),
            '=',
        ]
    } else {
        seq![
            base64_char(data[0] as nat / 4),
            base64_char((data[0] as nat % 4) * 16 + data[1] as nat / 16),
            base64_char((data[1] as nat % 16) * 4 + data[2] as nat / 64),
            base64_char(data[2] as nat % 64),
        ] + base64_standard(data.skip(3))
    }
}

/// `base64::engine::general_purpose::STANDARD.encode`: the standard
/// alphabet with padding (see `base64_standard`).
#[verifier::external_body]
pub(crate) fn base64_encode(data: &[u8]) -> (encoded: String)
    ensures
        encoded@ == base64_standard(data@),
{
    base64::engine::general_purpose::STANDARD.encode(data)
}

/// Size of one base64 chunk of a Kitty transmission.
pub const KITTY_CHUNK: usize = 4096;

pub open spec fn chunk_count(len: nat) -> nat {
    len / 4096 + if len % 4096 != 0 { 1nat } else { 0nat }
}

/// The `k`-th chunk of `b`.
pub open spec fn chunk_of(b: Seq<char>, k: nat) -> Seq<char> {
    let end = if (k + 1) * 4096 <= b.len() { (k + 1) * 4096 } else { b.len() };
    b.subrange((k * 4096) as int, end as int)
}

/// One APC command carrying chunk `k` of `b`: `ESC _G <keys> m=<more>;<chunk> ESC \`,
/// where `keys` only appear on the first chunk and `more` is 1 except on the
/// last chunk.
pub open spec fn apc_piece(b: Seq<char>, keys: Seq<char>, k: nat) -> Seq<char> {
    "\x1b_G"@ + (if k == 0 { keys } else { Seq::empty() }) + "m="@ + (if k + 1 < chunk_count(b.len()) {
        seq!['1']
    } else {
        seq!['0']
    }) + ";"@ + chunk_of(b, k) + "\x1b\\"@
}

/// The APC commands that carry `b` from chunk `k` on.
pub open spec fn apc_chunks(b: Seq<char>, keys: Seq<char>, k: nat) -> Seq<char>
    decreases chunk_count(b.len()) - k,
{
    if k >= chunk_count(b.len()) {
        Seq::empty()
    } else {
        apc_piece(b, keys, k) + apc_chunks(b, keys, k + 1)
    }
}

proof fn lemma_chunk_bounds(len: nat, k: nat)
    requires
        k < chunk_count(len),
    ensures
        k * 4096 < len,
        (k + 1) * 4096 <= len || k + 1 == chunk_count(len),
        k + 1 < chunk_count(len) ==> (k + 1) * 4096 < len,
{
    assert(k * 4096 < len && ((k + 1) * 4096 <= len || k + 1 == chunk_count(len))) by (nonlinear_arith)
        requires
            k < len / 4096 + if len % 4096 != 0 { 1nat } else { 0nat },
    {
        assert(len == (len / 4096) * 4096 + len % 4096);
    }
    assert(k + 1 < chunk_count(len) ==> (k + 1) * 4096 < len) by (nonlinear_arith)
        requires
            chunk_count(len) == len / 4096 + if len % 4096 != 0 { 1nat } else { 0nat },
    {
        assert(len == (len / 4096) * 4096 + len % 4096);
    }
}

fn push_apc_piece(out: &mut String, cs: &Vec<char>, keys: &str, k: usize, pos: usize, total: usize)
    requires
        total == chunk_count(cs@.len()),
        k < total,
        pos == k * 4096,
    ensures
        final(out)@ == old(out)@ + apc_piece(cs@, keys@, k as nat),
{
    proof {
        lemma_chunk_bounds(cs@.len(), k as nat);
    }
    out.append("\x1b_G");
    if k == 0 {
        out.append(keys);
    }
    out.append("m=");
    if k + 1 < total {
        out.push('1');
    } else {
        out.push('0');
    }
    out.append(";");
    let len = cs.len();
    let end = if len - pos >= KITTY_CHUNK { pos + KITTY_CHUNK } else { len };
    push_chars(out, cs, pos, end);
    out.append("\x1b\\");
    assert(final(out)@ =~= old(out)@ + apc_piece(cs@, keys@, k as nat));
}

/// Append the chunked APC transmission of `b64` (see `apc_chunks`).
pub fn push_apc_chunks(out: &mut String, b64: &str, keys: &str)
    ensures
        final(out)@ == old(out)@ + apc_chunks(b64@, keys@, 0),
{
    let cs = chars_of(b64);
    let len = cs.len();
    let total: usize = len / KITTY_CHUNK + if len % KITTY_CHUNK != 0 { 1 } else { 0 };
    let mut k: usize = 0;
    let mut pos: usize = 0;
    while k < total
        invariant
            cs@ == b64@,
            len == cs@.len(),
            total == chunk_count(len as nat),
            k <= total,
            k < total ==> pos == k * 4096,
            out@ + apc_chunks(b64@, keys@, k as nat) == old(out)@ + apc_chunks(b64@, keys@, 0),
        decreases total - k,
    {
        let ghost before = out@;
        push_apc_piece(out, &cs, keys, k, pos, total);
        proof {
            lemma_chunk_bounds(len as nat, k as nat);
            assert(out@ + apc_chunks(b64@, keys@, (k + 1) as nat) =~= before + apc_chunks(b64@, keys@, k as nat));
        }
        if k + 1 < total {
            pos = pos + KITTY_CHUNK;
        }
        k += 1;
    }
}

pub open spec fn cursor_to(row: nat) -> Seq<char> {
    "\x1b["@ + dec(row) + ";1H"@
}

fn push_cursor_to(out: &mut String, row: u64)
    ensures
        final(out)@ == old(out)@ + cursor_to(row as nat),
{
    out.append("\x1b[");
    push_decimal(out, row as u128);
    out.append(";1H");
    assert(final(out)@ =~= old(out)@ + cursor_to(row as nat));
}

pub open spec fn cols_param(cols: Option<u16>) -> Seq<char> {
    match cols {
        Some(c) => ",c="@ + dec(c as nat),
        None => Seq::empty(),
    }
}

pub open spec fn crop_param(crop: bool, crop_top_px: nat, src_height_px: nat, visible_rows: nat) -> Seq<char> {
    if crop {
        ",y="@ + dec(crop_top_px) + ",h="@ + dec(src_height_px) + ",r="@ + dec(visible_rows)
    } else {
        Seq::empty()
    }
}

fn push_cols_param(out: &mut String, cols: Option<u16>)
    ensures
        final(out)@ == old(out)@ + cols_param(cols),
{
    match cols {
        Some(c) => {
            out.append(",c=");
            push_decimal(out, c as u128);
            assert(final(out)@ =~= old(out)@ + cols_param(cols));
        },
        None => {
            assert(final(out)@ =~= old(out)@ + cols_param(cols));
        },
    }
}

fn push_crop_param(out: &mut String, crop: bool, crop_top_px: u32, src_height_px: u32, visible_rows: u32)
    ensures
        final(out)@ == old(out)@ + crop_param(crop, crop_top_px as nat, src_height_px as nat, visible_rows as nat),
{
    if crop {
        out.append(",y=");
        push_decimal(out, crop_top_px as u128);
        out.append(",h=");
        push_decimal(out, src_height_px as u128);
        out.append(",r=");
        push_decimal(out, visible_rows as u128);
    }
    assert(final(out)@ =~= old(out)@ + crop_param(crop, crop_top_px as nat, src_height_px as nat, visible_rows as nat));
}

/// The `a=p` placement command: no pixel data, the terminal's cached copy of
/// image `id` is placed, optionally cropped to `y=`/`h=` source pixels over
/// `r=` rows.
pub open spec fn place_spec(img: KittyImage, crop: bool, crop_top_px: nat, src_height_px: nat, visible_rows: nat) -> Seq<char> {
    "\x1b_Ga=p,i="@ + dec(img.id as nat) + cols_param(img.display_cols) + crop_param(
        crop,
        crop_top_px,
        src_height_px,
        visible_rows,
    ) + ",q=2;\x1b\\"@
}

/// The keys of the first chunk of an `a=T` transmit-and-display command.
pub open spec fn transmit_keys(img: KittyImage, crop: bool, crop_top_px: nat, src_height_px: nat, visible_rows: nat) -> Seq<char> {
    "a=T,f=32,s="@ + dec(img.pixel_width as nat) + ",v="@ + dec(img.pixel_height as nat) + ",i="@ + dec(
        img.id as nat,
    ) + cols_param(img.display_cols) + crop_param(crop, crop_top_px, src_height_px, visible_rows) + ",q=2,"@
}

/// The `a=T` command that transmits the full pixel data in chunks.
pub open spec fn transmit_spec(img: KittyImage, crop: bool, crop_top_px: nat, src_height_px: nat, visible_rows: nat) -> Seq<char> {
    apc_chunks(
        base64_standard(img.rgba_data@),
        transmit_keys(img, crop, crop_top_px, src_height_px, visible_rows),
        0,
    )
}

/// Emit an `a=p` placement command (no pixel data, uses the terminal cache).
///
/// When `crop` is true, the source rectangle is limited via `y=` (pixel
/// offset from top) and `h=` (pixel height to show).  This crops without
/// rescaling.
pub fn kitty_place(img: &KittyImage, crop: bool, crop_top_px: u32, src_height_px: u32, visible_rows: u32) -> (s: String)
    ensures
        s@ == place_spec(*img, crop, crop_top_px as nat, src_height_px as nat, visible_rows as nat),
{
    let mut out = String::new();
    out.append("\x1b_Ga=p,i=");
    push_decimal(&mut out, img.id as u128);
    push_cols_param(&mut out, img.display_cols);
    push_crop_param(&mut out, crop, crop_top_px, src_height_px, visible_rows);
    out.append(",q=2;\x1b\\");
    assert(out@ =~= place_spec(*img, crop, crop_top_px as nat, src_height_px as nat, visible_rows as nat));
    out
}

/// Emit an `a=T` transmit-and-display command with the full pixel data.
pub fn kitty_transmit(img: &KittyImage, crop: bool, crop_top_px: u32, src_height_px: u32, visible_rows: u32) -> (s: String)
    ensures
        s@ == transmit_spec(*img, crop, crop_top_px as nat, src_height_px as nat, visible_rows as nat),
{
    let b64 = base64_encode(img.rgba_data.as_slice());
    let mut keys = String::new();
    keys.append("a=T,f=32,s=");
    push_decimal(&mut keys, img.pixel_width as u128);
    keys.append(",v=");
    push_decimal(&mut keys, img.pixel_height as u128);
    keys.append(",i=");
    push_decimal(&mut keys, img.id as u128);
    push_cols_param(&mut keys, img.display_cols);
    push_crop_param(&mut keys, crop, crop_top_px, src_height_px, visible_rows);
    keys.append(",q=2,");
    assert(keys@ =~= transmit_keys(*img, crop, crop_top_px as nat, src_height_px as nat, visible_rows as nat));
    let mut out = String::new();
    push_apc_chunks(&mut out, b64.as_str(), keys.as_str());
    assert(out@ =~= transmit_spec(*img, crop, crop_top_px as nat, src_height_px as nat, visible_rows as nat));
    out
}


// ── Frames ──────────────────────────────────────────────────────────────────

/// What a frame has produced so far while walking the layout.
pub struct FrameState {
    pub out: Seq<char>,
    pub rows: nat,
    /// Items whose image has been placed in this frame.
    pub placed: Set<usize>,
    /// Image ids whose pixel data the terminal holds.
    pub transmitted: Set<u32>,
}

pub open spec fn min_nat(a: nat, b: nat) -> nat {
    if a <= b { a } else { b }
}

/// Source-pixel offset of the first shown row of `img`: display rows are
/// converted back to source pixels when the terminal scales the image.
pub open spec fn crop_top_spec(img: KittyImage, row_in_image: nat, cell_px_width: u32, cell_px_height: u32) -> nat {
    match img.display_cols {
        Some(cols) => ((row_in_image * cell_px_height as nat * img.pixel_width as nat) / (cols as nat
            * cell_px_width as nat)) % 0x1_0000_0000,
        None => row_in_image * cell_px_height as nat,
    }
}

/// Source-pixel height of `visible_rows` shown rows, before clamping.
pub open spec fn crop_height_spec(img: KittyImage, visible_rows: nat, cell_px_width: u32, cell_px_height: u32) -> nat {
    crop_top_spec(img, visible_rows, cell_px_width, cell_px_height)
}

/// Clear-to-end-of-line on each of the `n` rows after row `base` (1-based).
pub open spec fn clear_rows(base: nat, n: nat) -> Seq<char>
    decreases n,
{
    if n == 0 {
        Seq::empty()
    } else {
        clear_rows(base, (n - 1) as nat) + cursor_to(base + n) + "\x1b[K"@
    }
}

/// Placing one image whose row `row_in_image` of `total_rows` is the first on
/// screen, `st.rows` rows into the frame.
pub open spec fn image_step(
    item_idx: usize,
    img: KittyImage,
    row_in_image: nat,
    total_rows: nat,
    cell_px_width: u32,
    cell_px_height: u32,
    max_rows: nat,
    st: FrameState,
) -> FrameState {
    let visible = min_nat((total_rows - row_in_image) as nat, (max_rows - st.rows) as nat);
    let crop_top = crop_top_spec(img, row_in_image, cell_px_width, cell_px_height);
    let raw_h = crop_height_spec(img, visible, cell_px_width, cell_px_height);
    let remaining_px: nat = if img.pixel_height >= crop_top { (img.pixel_height - crop_top) as nat } else { 0 };
    let src_h = min_nat(raw_h, remaining_px);
    let crop = row_in_image > 0 || visible < total_rows;
    let cmd = if st.transmitted.contains(img.id) {
        place_spec(img, crop, crop_top, src_h, visible)
    } else {
        transmit_spec(img, crop, crop_top, src_h, visible)
    };
    FrameState {
        out: st.out + clear_rows(st.rows, visible) + cursor_to(st.rows + 1) + cmd + cursor_to(st.rows + visible + 1),
        rows: st.rows + visible,
        placed: st.placed.insert(item_idx),
        transmitted: st.transmitted.insert(img.id),
    }
}

/// The effect of one layout row on the frame: a text line is written and
/// cleared to the end of line; the first visible row of an image places the
/// whole visible part of the image; later rows of an image already placed
/// are skipped.
pub open spec fn entry_step(
    items: Seq<DocItem>,
    e: LayoutEntryView,
    cell_px_width: u32,
    cell_px_height: u32,
    max_rows: nat,
    st: FrameState,
) -> FrameState {
    match e.kind {
        EntryView::TextLine(line) => FrameState {
            out: st.out + line + "\x1b[K\r\n"@,
            rows: st.rows + 1,
            ..st
        },
        EntryView::ImageRow { row_in_image, total_rows } => {
            if st.placed.contains(e.item_idx) {
                st
            } else {
                match items[e.item_idx as int] {
                    DocItem::Image(img) => image_step(
                        e.item_idx,
                        img,
                        row_in_image as nat,
                        total_rows as nat,
                        cell_px_width,
                        cell_px_height,
                        max_rows,
                        st,
                    ),
                    DocItem::Text(_) => st,
                }
            }
        },
    }
}

/// Walk the layout from row `i` until it ends or the screen is full.
pub open spec fn frame_from(
    items: Seq<DocItem>,
    layout: Seq<LayoutEntryView>,
    i: int,
    cell_px_width: u32,
    cell_px_height: u32,
    max_rows: nat,
    st: FrameState,
) -> FrameState
    decreases layout.len() - i,
{
    if i < 0 || i >= layout.len() || st.rows >= max_rows {
        st
    } else {
        frame_from(
            items,
            layout,
            i + 1,
            cell_px_width,
            cell_px_height,
            max_rows,
            entry_step(items, layout[i], cell_px_width, cell_px_height, max_rows, st),
        )
    }
}

proof fn lemma_frame_from_grows(
    items: Seq<DocItem>,
    layout: Seq<LayoutEntryView>,
    i: int,
    cell_px_width: u32,
    cell_px_height: u32,
    max_rows: nat,
    st: FrameState,
)
    ensures
        st.transmitted.subset_of(frame_from(items, layout, i, cell_px_width, cell_px_height, max_rows, st).transmitted),
        st.out.is_prefix_of(frame_from(items, layout, i, cell_px_width, cell_px_height, max_rows, st).out),
    decreases layout.len() - i,
{
    if !(i < 0 || i >= layout.len() || st.rows >= max_rows) {
        let next = entry_step(items, layout[i], cell_px_width, cell_px_height, max_rows, st);
        lemma_frame_from_grows(items, layout, i + 1, cell_px_width, cell_px_height, max_rows, next);
        assert(st.transmitted.subset_of(next.transmitted));
        assert(st.out.is_prefix_of(next.out)) by {
            assert(next.out.take(st.out.len() as int) =~= st.out);
        }
        let last = frame_from(items, layout, i + 1, cell_px_width, cell_px_height, max_rows, next).out;
        assert(last.take(st.out.len() as int) =~= next.out.take(st.out.len() as int));
    }
}

/// A frame never forgets a transmitted image: what was transmitted before
/// is still known afterwards, so it is placed from the terminal's cache and
/// never sent again; and every frame begins by deleting all placements and
/// homing the cursor.
pub proof fn law_frames_keep_transmitted(
    items: Seq<DocItem>,
    layout: Seq<LayoutEntryView>,
    top_entry: nat,
    screen_rows: u16,
    cell_px_width: u32,
    cell_px_height: u32,
    transmitted: Set<u32>,
    status: Seq<char>,
)
    ensures
        transmitted.subset_of(
            frame_walk(items, layout, top_entry, screen_rows, cell_px_width, cell_px_height, transmitted).transmitted,
        ),
        frame_start().is_prefix_of(
            frame_spec(items, layout, top_entry, screen_rows, cell_px_width, cell_px_height, transmitted, status),
        ),
{
    let st0 = FrameState { out: frame_start(), rows: 0, placed: Set::empty(), transmitted };
    lemma_frame_from_grows(
        items,
        layout,
        top_entry as int,
        cell_px_width,
        cell_px_height,
        content_rows(screen_rows),
        st0,
    );
    let w = frame_walk(items, layout, top_entry, screen_rows, cell_px_width, cell_px_height, transmitted);
    let f = frame_spec(items, layout, top_entry, screen_rows, cell_px_width, cell_px_height, transmitted, status);
    assert(f.take(frame_start().len() as int) =~= w.out.take(frame_start().len() as int));
}

/// Percentage shown in the status bar.
pub open spec fn percent_spec(top_entry: nat, total: nat) -> nat {
    if total == 0 {
        100
    } else {
        min_nat((top_entry + 1) * 100 / total, 100)
    }
}

pub open spec fn status_text(status: Seq<char>) -> Seq<char> {
    if status.len() == 0 { Seq::empty() } else { seq![' '] + status }
}

/// The status bar on the last screen row, in reverse video.
pub open spec fn status_bar(screen_rows: nat, pct: nat, status: Seq<char>) -> Seq<char> {
    "\x1b["@ + dec(screen_rows) + ";1H\x1b[2K\x1b[7m "@ + dec(pct) + "%"@ + status_text(status) + "\x1b[0m"@
}

pub open spec fn frame_start() -> Seq<char> {
    "\x1b_Ga=d,d=a,q=2;\x1b\\"@ + "\x1b[H"@
}

pub open spec fn content_rows(screen_rows: u16) -> nat {
    if screen_rows >= 1 { (screen_rows - 1) as nat } else { 0 }
}

/// The walk over the layout for a frame whose first row is `top_entry`.
pub open spec fn frame_walk(
    items: Seq<DocItem>,
    layout: Seq<LayoutEntryView>,
    top_entry: nat,
    screen_rows: u16,
    cell_px_width: u32,
    cell_px_height: u32,
    transmitted: Set<u32>,
) -> FrameState {
    frame_from(
        items,
        layout,
        top_entry as int,
        cell_px_width,
        cell_px_height,
        content_rows(screen_rows),
        FrameState { out: frame_start(), rows: 0, placed: Set::empty(), transmitted },
    )
}

/// A whole frame: delete all placements, home the cursor, write the visible
/// rows, clear the rows below, and draw the status bar.
pub open spec fn frame_spec(
    items: Seq<DocItem>,
    layout: Seq<LayoutEntryView>,
    top_entry: nat,
    screen_rows: u16,
    cell_px_width: u32,
    cell_px_height: u32,
    transmitted: Set<u32>,
    status: Seq<char>,
) -> Seq<char> {
    let st = frame_walk(items, layout, top_entry, screen_rows, cell_px_width, cell_px_height, transmitted);
    let pad: nat = if st.rows < content_rows(screen_rows) { (content_rows(screen_rows) - st.rows) as nat } else { 0 };
    st.out + repeat_seq("\x1b[K\r\n"@, pad) + status_bar(screen_rows as nat, percent_spec(top_entry, layout.len()), status)
}

/// The source rectangles of every image row can be computed without
/// overflow or division by zero.
pub open spec fn crop_fits(img: KittyImage, total_rows: nat, cell_px_width: u32, cell_px_height: u32) -> bool {
    match img.display_cols {
        Some(cols) => cols as nat * cell_px_width as nat > 0 && total_rows * cell_px_height as nat
            * img.pixel_width as nat <= u64::MAX,
        None => total_rows * cell_px_height as nat <= u32::MAX,
    }
}

/// Every image row names an item of the document, lies inside its image,
/// and its crop rectangle is computable.
pub open spec fn frame_ok(items: Seq<DocItem>, layout: Seq<LayoutEntryView>, cell_px_width: u32, cell_px_height: u32) -> bool {
    forall|i: int|
        0 <= i < layout.len() ==> match #[trigger] layout[i].kind {
            EntryView::ImageRow { row_in_image, total_rows } => {
                &&& row_in_image < total_rows
                &&& layout[i].item_idx < items.len()
                &&& match items[layout[i].item_idx as int] {
                    DocItem::Image(img) => crop_fits(img, total_rows as nat, cell_px_width, cell_px_height),
                    DocItem::Text(_) => true,
                }
            },
            EntryView::TextLine(_) => true,
        }
}

proof fn lemma_mul_mono3(a: nat, b: nat, c: nat, d: nat)
    requires
        a <= b,
    ensures
        a * c * d <= b * c * d,
{
    assert(a * c * d <= b * c * d) by (nonlinear_arith)
        requires
            a <= b,
    ;
}

fn crop_rows_px(img: &KittyImage, rows: u32, total_rows: u32, cell_px_width: u32, cell_px_height: u32) -> (px: u32)
    requires
        rows <= total_rows,
        crop_fits(*img, total_rows as nat, cell_px_width, cell_px_height),
    ensures
        px as nat == crop_top_spec(*img, rows as nat, cell_px_width, cell_px_height),
{
    match img.display_cols {
        Some(cols) => {
            assert(cols as nat * cell_px_width as nat <= u64::MAX) by (nonlinear_arith)
                requires
                    cols <= u16::MAX,
                    cell_px_width <= u32::MAX,
            ;
            let display_w: u64 = cols as u64 * cell_px_width as u64;
            let pw: u64 = img.pixel_width as u64;
            proof {
                lemma_mul_mono3(rows as nat, total_rows as nat, cell_px_height as nat, pw as nat);
                assert(rows as nat * cell_px_height as nat <= rows as nat * cell_px_height as nat * pw as nat || pw == 0) by (nonlinear_arith);
                assert(rows as nat * cell_px_height as nat <= u64::MAX) by (nonlinear_arith)
                    requires
                        rows <= u32::MAX,
                        cell_px_height <= u32::MAX,
                ;
            }
            let rh: u64 = rows as u64 * cell_px_height as u64;
            let num: u64 = rh * pw;
            let v: u64 = num / display_w;
            (v % 0x1_0000_0000) as u32
        },
        None => {
            proof {
                lemma_mul_mono3(rows as nat, total_rows as nat, cell_px_height as nat, 1);
            }
            rows * cell_px_height
        },
    }
}

fn push_clear_rows(out: &mut String, base: u32, n: u32)
    requires
        base + n <= u32::MAX,
    ensures
        final(out)@ == old(out)@ + clear_rows(base as nat, n as nat),
{
    let mut r: u32 = 0;
    while r < n
        invariant
            r <= n,
            base + n <= u32::MAX,
            out@ == old(out)@ + clear_rows(base as nat, r as nat),
        decreases n - r,
    {
        let ghost before = out@;
        push_cursor_to(out, (base + r + 1) as u64);
        out.append("\x1b[K");
        r += 1;
        assert(out@ =~= old(out)@ + clear_rows(base as nat, r as nat));
    }
}

/// Write the visible part of one image whose first on-screen row is
/// `row_in_image`, `rows_rendered` rows into the frame; returns how many
/// rows it covers.
fn place_image(
    out: &mut String,
    img: &KittyImage,
    row_in_image: u32,
    total_rows: u32,
    rows_rendered: u32,
    max_rows: u32,
    cell_px_width: u32,
    cell_px_height: u32,
    transmitted: &mut HashSet<u32>,
) -> (visible: u32)
    requires
        row_in_image < total_rows,
        rows_rendered < max_rows,
        max_rows <= u16::MAX,
        crop_fits(*img, total_rows as nat, cell_px_width, cell_px_height),
    ensures
        ({
            let st = image_step(
                0,
                *img,
                row_in_image as nat,
                total_rows as nat,
                cell_px_width,
                cell_px_height,
                max_rows as nat,
                FrameState { out: old(out)@, rows: rows_rendered as nat, placed: Set::empty(), transmitted: old(transmitted)@ },
            );
            &&& final(out)@ == st.out
            &&& rows_rendered + visible == st.rows
            &&& final(transmitted)@ == st.transmitted
        }),
        visible >= 1,
{
    let remaining_image = total_rows - row_in_image;
    let remaining_screen = max_rows - rows_rendered;
    let visible_rows = if remaining_image <= remaining_screen { remaining_image } else { remaining_screen };
    let crop_top_px = crop_rows_px(img, row_in_image, total_rows, cell_px_width, cell_px_height);
    let raw_src_h = crop_rows_px(img, visible_rows, total_rows, cell_px_width, cell_px_height);
    let remaining_px = img.pixel_height.saturating_sub(crop_top_px);
    let src_h = if raw_src_h <= remaining_px { raw_src_h } else { remaining_px };
    let needs_crop = row_in_image > 0 || visible_rows < total_rows;
    push_clear_rows(out, rows_rendered, visible_rows);
    push_cursor_to(out, (rows_rendered + 1) as u64);
    if transmitted.contains(&img.id) {
        let cmd = kitty_place(img, needs_crop, crop_top_px, src_h, visible_rows);
        out.append(cmd.as_str());
    } else {
        let cmd = kitty_transmit(img, needs_crop, crop_top_px, src_h, visible_rows);
        out.append(cmd.as_str());
        transmitted.insert(img.id);
    }
    push_cursor_to(out, (rows_rendered + visible_rows + 1) as u64);
    proof {
        assert(transmitted@ =~= old(transmitted)@.insert(img.id));
    }
    visible_rows
}

/// A document's own layout can be framed when its images fit.
pub proof fn lemma_layout_frame_ok(items: Seq<DocItem>, cell_px_width: u32, cell_px_height: u32)
    requires
        items.len() <= usize::MAX,
        images_fit(items, cell_px_width, cell_px_height),
    ensures
        frame_ok(items, layout_spec(items, cell_px_width, cell_px_height), cell_px_width, cell_px_height),
{
    let lv = layout_spec(items, cell_px_width, cell_px_height);
    lemma_layout_rows(items, cell_px_width, cell_px_height);
    assert forall|i: int| 0 <= i < lv.len() implies match #[trigger] lv[i].kind {
        EntryView::ImageRow { row_in_image, total_rows } => {
            &&& row_in_image < total_rows
            &&& lv[i].item_idx < items.len()
            &&& match items[lv[i].item_idx as int] {
                DocItem::Image(img) => crop_fits(img, total_rows as nat, cell_px_width, cell_px_height),
                DocItem::Text(_) => true,
            }
        },
        EntryView::TextLine(_) => true,
    } by {
        assert(layout_row_ok(items, lv[i], cell_px_width, cell_px_height));
        let idx = lv[i].item_idx as int;
        match items[idx] {
            DocItem::Image(img) => {
                assert(match items[idx] {
                    DocItem::Image(img) => crop_fits(img, image_rows(img, cell_px_width, cell_px_height), cell_px_width, cell_px_height),
                    DocItem::Text(_) => true,
                });
            },
            DocItem::Text(_) => {},
        }
    }
}

/// Render a full screen frame, with `status` appended to the status bar.
///
/// Images are placed with source-rectangle cropping so that
/// partially-visible images render correctly when scrolled.  Pixel data is
/// transmitted once (`a=T`) and re-placed cheaply (`a=p`) on later frames;
/// `transmitted` records the ids the terminal holds.
pub fn render_frame_with_status(
    doc: &KittyDocument,
    layout: &Vec<LayoutEntry>,
    top_entry: usize,
    screen_rows: u16,
    cell_px_width: u32,
    cell_px_height: u32,
    transmitted: &mut HashSet<u32>,
    status: &str,
) -> (frame: String)
    requires
        frame_ok(doc.items@, entries_view(layout@), cell_px_width, cell_px_height),
        layout@.len() > 0 ==> (top_entry + 1) * 100 <= usize::MAX,
    ensures
        frame@ == frame_spec(
            doc.items@,
            entries_view(layout@),
            top_entry as nat,
            screen_rows,
            cell_px_width,
            cell_px_height,
            old(transmitted)@,
            status@,
        ),
        final(transmitted)@ == frame_walk(
            doc.items@,
            entries_view(layout@),
            top_entry as nat,
            screen_rows,
            cell_px_width,
            cell_px_height,
            old(transmitted)@,
        ).transmitted,
{
    let ghost items = doc.items@;
    let ghost lv = entries_view(layout@);
    let mut out = String::new();
    // Delete all image placements (keeps cached pixel data), then home the
    // cursor; the screen is not cleared.
    out.append("\x1b_Ga=d,d=a,q=2;\x1b\\");
    out.append("\x1b[H");
    let max_content_rows: u32 = screen_rows.saturating_sub(1) as u32;
    let mut rows_rendered: u32 = 0;
    let mut placed: HashSet<usize> = HashSet::new();
    let ghost init = FrameState { out: out@, rows: 0, placed: Set::empty(), transmitted: old(transmitted)@ };
    assert(out@ =~= frame_start());
    let mut i: usize = top_entry;
    while i < layout.len() && rows_rendered < max_content_rows
        invariant
            items == doc.items@,
            lv == entries_view(layout@),
            max_content_rows as nat == content_rows(screen_rows),
            max_content_rows <= u16::MAX,
            rows_rendered <= max_content_rows,
            i >= top_entry,
            frame_ok(items, lv, cell_px_width, cell_px_height),
            frame_from(items, lv, i as int, cell_px_width, cell_px_height, max_content_rows as nat,
                FrameState { out: out@, rows: rows_rendered as nat, placed: placed@, transmitted: transmitted@ })
                == frame_from(items, lv, top_entry as int, cell_px_width, cell_px_height, max_content_rows as nat, init),
        decreases layout@.len() - i,
    {
        let ghost st = FrameState { out: out@, rows: rows_rendered as nat, placed: placed@, transmitted: transmitted@ };
        let entry = &layout[i];
        assert(lv[i as int] == entry@);
        match &entry.kind {
            EntryKind::Text(line) => {
                out.append(line.as_str());
                out.append("\x1b[K\r\n");
                rows_rendered += 1;
                assert(out@ =~= st.out + line@ + "\x1b[K\r\n"@);
            },
            EntryKind::ImageRow { row_in_image, total_rows } => {
                assert(frame_ok(items, lv, cell_px_width, cell_px_height));
                assert(match lv[i as int].kind {
                    EntryView::ImageRow { row_in_image, total_rows } => {
                        &&& row_in_image < total_rows
                        &&& lv[i as int].item_idx < items.len()
                        &&& match items[lv[i as int].item_idx as int] {
                            DocItem::Image(img) => crop_fits(img, total_rows as nat, cell_px_width, cell_px_height),
                            DocItem::Text(_) => true,
                        }
                    },
                    EntryView::TextLine(_) => true,
                });
                if !placed.contains(&entry.item_idx) {
                    match &doc.items[entry.item_idx] {
                        DocItem::Image(img) => {
                            let visible = place_image(
                                &mut out,
                                img,
                                *row_in_image,
                                *total_rows,
                                rows_rendered,
                                max_content_rows,
                                cell_px_width,
                                cell_px_height,
                                transmitted,
                            );
                            placed.insert(entry.item_idx);
                            rows_rendered = rows_rendered + visible;
                        },
                        DocItem::Text(_) => {},
                    }
                }
            },
        }
        i += 1;
    }
    let ghost walked = FrameState { out: out@, rows: rows_rendered as nat, placed: placed@, transmitted: transmitted@ };
    assert(frame_from(items, lv, i as int, cell_px_width, cell_px_height, max_content_rows as nat, walked) == walked);
    // Clear remaining rows below content.
    let ghost before_pad = out@;
    let ghost pad: nat = (max_content_rows - rows_rendered) as nat;
    let mut r: u32 = rows_rendered;
    while r < max_content_rows
        invariant
            rows_rendered <= r <= max_content_rows,
            out@ == before_pad + repeat_seq("\x1b[K\r\n"@, (r - rows_rendered) as nat),
        decreases max_content_rows - r,
    {
        out.append("\x1b[K\r\n");
        r += 1;
        assert(out@ =~= before_pad + repeat_seq("\x1b[K\r\n"@, (r - rows_rendered) as nat));
    }
    // Status bar.
    let total = layout.len();
    let pct: usize = if total == 0 {
        100
    } else {
        let p = (top_entry + 1) * 100 / total;
        if p > 100 { 100 } else { p }
    };
    let ghost before_status = out@;
    out.append("\x1b[");
    push_decimal(&mut out, screen_rows as u128);
    out.append(";1H\x1b[2K\x1b[7m ");
    push_decimal(&mut out, pct as u128);
    out.append("%");
    if !status.is_empty() {
        out.push(' ');
        out.append(status);
    }
    out.append("\x1b[0m");
    assert(out@ =~= before_status + status_bar(screen_rows as nat, percent_spec(top_entry as nat, total as nat), status@));
    out
}

/// Render a full screen frame with a plain status bar (see
/// `render_frame_with_status`).
pub fn render_frame(
    doc: &KittyDocument,
    layout: &Vec<LayoutEntry>,
    top_entry: usize,
    screen_rows: u16,
    cell_px_width: u32,
    cell_px_height: u32,
    transmitted: &mut HashSet<u32>,
) -> (frame: String)
    requires
        frame_ok(doc.items@, entries_view(layout@), cell_px_width, cell_px_height),
        layout@.len() > 0 ==> (top_entry + 1) * 100 <= usize::MAX,
    ensures
        frame@ == frame_spec(
            doc.items@,
            entries_view(layout@),
            top_entry as nat,
            screen_rows,
            cell_px_width,
            cell_px_height,
            old(transmitted)@,
            Seq::empty(),
        ),
        final(transmitted)@ == frame_walk(
            doc.items@,
            entries_view(layout@),
            top_entry as nat,
            screen_rows,
            cell_px_width,
            cell_px_height,
            old(transmitted)@,
        ).transmitted,
{
    proof {
        reveal_strlit("");
    }
    render_frame_with_status(doc, layout, top_entry, screen_rows, cell_px_width, cell_px_height, transmitted, "")
}

} // verus!
