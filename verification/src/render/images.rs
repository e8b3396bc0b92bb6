//! Encoding decoded images as terminal graphics: Kitty APC transmissions,
//! iTerm2 inline files, Unicode half blocks, or a sentinel that stands for an
//! image captured for the Kitty pager.
use vstd::prelude::*;

use super::{images_view, Config, KittyImageStore};
use crate::kitty_pager::document::KittyImageView;
use crate::kitty_pager::renderer::{apc_chunks, base64_encode, base64_standard, cols_param, push_apc_chunks};
use crate::terminal::ImageProtocol;
use crate::text::{dec, push_decimal};

verus! {

/// A decoded image as 8-bit RGBA pixels, row by row.
pub struct RgbaImage {
    pub width: u32,
    pub height: u32,
    pub data: Vec<u8>,
}

impl RgbaImage {
    /// The pixel data holds exactly `width × height` pixels.
    pub open spec fn wf(&self) -> bool {
        self.data@.len() == 4 * (self.width as nat) * (self.height as nat)
    }
}

// ── Outside encoders ────────────────────────────────────────────────────────

/// The PNG file the `image` crate writes for an RGBA image (`None` when its
/// encoder reports an error).
pub uninterp spec fn png_encoding(width: u32, height: u32, rgba: Seq<u8>) -> Option<Seq<u8>>;

/// The RGBA pixels of an image resized by the `image` crate with its
/// Lanczos3 filter.
pub uninterp spec fn lanczos_resize(width: u32, height: u32, rgba: Seq<u8>, new_width: u32, new_height: u32) -> Seq<u8>;

/// `image::ImageBuffer::write_to` with `ImageFormat::Png`: the bytes written
/// are a function of the pixels, named `png_encoding`; the PNG format is not
/// restated here.
#[verifier::external_body]
fn encode_png(img: &RgbaImage) -> (r: Option<Vec<u8>>)
    requires
        img.wf(),
    ensures
        match r {
            Some(bytes) => png_encoding(img.width, img.height, img.data@) == Some(bytes@),
            None => png_encoding(img.width, img.height, img.data@) is None,
        },
{
    let buf = image::ImageBuffer::<image::Rgba<u8>, &[u8]>::from_raw(img.width, img.height, img.data.as_slice())?;
    let mut out: Vec<u8> = Vec::new();
    match buf.write_to(&mut std::io::Cursor::new(&mut out), image::ImageFormat::Png) {
        Ok(()) => Some(out),
        Err(_) => None,
    }
}

/// `image::imageops::resize` with `FilterType::Lanczos3`: the result has
/// exactly the requested size (four bytes per pixel); its pixels are a
/// function of the input, named `lanczos_resize`.
#[verifier::external_body]
fn resize_lanczos(img: &RgbaImage, new_width: u32, new_height: u32) -> (r: Vec<u8>)
    requires
        img.wf(),
    ensures
        r@ == lanczos_resize(img.width, img.height, img.data@, new_width, new_height),
        r@.len() == 4 * (new_width as nat) * (new_height as nat),
{
    let buf = image::ImageBuffer::<image::Rgba<u8>, &[u8]>::from_raw(img.width, img.height, img.data.as_slice()).unwrap();
    image::imageops::resize(&buf, new_width, new_height, image::imageops::FilterType::Lanczos3).into_raw()
}

// ── Decoding ────────────────────────────────────────────────────────────────

/// The image the `image` crate decodes from `bytes` (its format guessed
/// from their content) as width, height and RGBA pixels; `None` where it
/// reports an error.
pub uninterp spec fn decoded_rgba(bytes: Seq<u8>) -> Option<(u32, u32, Seq<u8>)>;

/// `image::load_from_memory`, then `DynamicImage::to_rgba8`: the decoded
/// image's size and pixels are a function of the bytes, named
/// `decoded_rgba`; no image format is restated here.
#[verifier::external_body]
fn load_rgba(bytes: &[u8]) -> (r: Option<RgbaImage>)
    ensures
        match decoded_rgba(bytes@) {
            Some((w, h, px)) => r matches Some(img) && img.width == w && img.height == h && img.data@ == px,
            None => r is None,
        },
{
    match image::load_from_memory(bytes) {
        Ok(img) => {
            let rgba = img.to_rgba8();
            Some(RgbaImage { width: rgba.width(), height: rgba.height(), data: rgba.into_raw() })
        },
        Err(_) => None,
    }
}

/// The image decoded from `bytes`, when it decodes to pixels that fill it.
pub open spec fn decode_spec(bytes: Seq<u8>) -> Option<(u32, u32, Seq<u8>)> {
    match decoded_rgba(bytes) {
        Some((w, h, px)) => if px.len() == 4 * (w as nat) * (h as nat) {
            Some((w, h, px))
        } else {
            None
        },
        None => None,
    }
}

/// Decode an image file held in memory into RGBA pixels (see
/// `decode_spec`); `None` where it cannot be decoded.
pub fn decode_image(bytes: &[u8]) -> (r: Option<RgbaImage>)
    ensures
        match decode_spec(bytes@) {
            Some((w, h, px)) => r matches Some(img) && img.width == w && img.height == h && img.data@ == px,
            None => r is None,
        },
        r matches Some(img) ==> img.wf(),
{
    match load_rgba(bytes) {
        Some(img) => {
            let n = img.data.len() as u128;
            let w = img.width as u128;
            let h = img.height as u128;
            assert(w * h <= 0xffff_ffff * 0xffff_ffff) by (nonlinear_arith)
                requires
                    w <= 0xffff_ffff,
                    h <= 0xffff_ffff,
            ;
            assert(4 * (w * h) == 4 * (img.width as nat) * (img.height as nat)) by (nonlinear_arith)
                requires
                    w == img.width,
                    h == img.height,
            ;
            if n == 4 * (w * h) {
                assert(img.data@.len() == 4 * (img.width as nat) * (img.height as nat));
                Some(img)
            } else {
                None
            }
        },
        None => None,
    }
}

// ── Kitty ───────────────────────────────────────────────────────────────────

/// The keys of a Kitty transmit-and-display command for raw RGBA data.
pub open spec fn kitty_keys(img: RgbaImage, max_cols: Option<u16>) -> Seq<char> {
    "a=T,f=32,s="@ + dec(img.width as nat) + ",v="@ + dec(img.height as nat) + cols_param(max_cols) + ",q=2,"@
}

/// The RGBA pixels, base64 encoded and sent in 4096-byte chunks, then a
/// newline.  With `max_cols` the terminal scales the image to that many
/// columns; without it, it shows it at its natural size.
pub open spec fn kitty_encode_spec(img: RgbaImage, max_cols: Option<u16>) -> Seq<char> {
    apc_chunks(base64_standard(img.data@), kitty_keys(img, max_cols), 0) + "\n"@
}

fn kitty_encode(img: &RgbaImage, max_cols: Option<u16>) -> (s: String)
    ensures
        s@ == kitty_encode_spec(*img, max_cols),
{
    let b64 = base64_encode(img.data.as_slice());
    let mut keys = String::new();
    keys.append("a=T,f=32,s=");
    push_decimal(&mut keys, img.width as u128);
    keys.append(",v=");
    push_decimal(&mut keys, img.height as u128);
    match max_cols {
        Some(c) => {
            keys.append(",c=");
            push_decimal(&mut keys, c as u128);
        },
        None => {},
    }
    keys.append(",q=2,");
    assert(keys@ =~= kitty_keys(*img, max_cols));
    let mut out = String::new();
    push_apc_chunks(&mut out, b64.as_str(), keys.as_str());
    out.append("\n");
    assert(out@ =~= kitty_encode_spec(*img, max_cols));
    out
}

// ── iTerm2 ──────────────────────────────────────────────────────────────────

pub open spec fn iterm2_width_param(max_cols: Option<u16>) -> Seq<char> {
    match max_cols {
        Some(c) => "width="@ + dec(c as nat) + ";"@,
        None => Seq::empty(),
    }
}

/// An OSC 1337 inline file holding the image as base64 PNG, or the error
/// when the PNG encoder fails.
pub open spec fn iterm2_encode_spec(img: RgbaImage, max_cols: Option<u16>) -> Result<Seq<char>, Seq<char>> {
    match png_encoding(img.width, img.height, img.data@) {
        Some(png) => Ok(
            "\x1b]1337;File=inline=1;"@ + iterm2_width_param(max_cols) + "preserveAspectRatio=1:"@ + base64_standard(
                png,
            ) + "\x07\n"@,
        ),
        None => Err("failed to encode image as PNG for iTerm2"@),
    }
}

fn iterm2_encode(img: &RgbaImage, max_cols: Option<u16>) -> (r: Result<String, String>)
    requires
        img.wf(),
    ensures
        match (r, iterm2_encode_spec(*img, max_cols)) {
            (Ok(s), Ok(t)) => s@ == t,
            (Err(e), Err(f)) => e@ == f,
            _ => false,
        },
{
    let png = match encode_png(img) {
        Some(p) => p,
        None => {
            let e = String::from_str("failed to encode image as PNG for iTerm2");
            return Err(e);
        },
    };
    let b64 = base64_encode(png.as_slice());
    let mut out = String::new();
    out.append("\x1b]1337;File=inline=1;");
    match max_cols {
        Some(c) => {
            out.append("width=");
            push_decimal(&mut out, c as u128);
            out.append(";");
        },
        None => {},
    }
    out.append("preserveAspectRatio=1:");
    out.append(b64.as_str());
    out.append("\x07\n");
    assert(out@ =~= "\x1b]1337;File=inline=1;"@ + iterm2_width_param(max_cols) + "preserveAspectRatio=1:"@
        + base64_standard(png@) + "\x07\n"@);
    Ok(out)
}

// ── Half blocks ─────────────────────────────────────────────────────────────

/// Columns of the half-block picture: the image width, capped at `max_cols`.
pub open spec fn blocks_width(img: RgbaImage, max_cols: u32) -> nat {
    if max_cols < img.width { max_cols as nat } else { img.width as nat }
}

/// Pixel rows of the half-block picture: the height scaled like the width,
/// at least 2, rounded up to an even number (each cell shows two rows).
pub open spec fn blocks_height(img: RgbaImage, target_w: nat) -> nat {
    let h = (img.height as nat * target_w) / (img.width as nat);
    let h = if h < 2 { 2 } else { h };
    if h % 2 == 1 { h + 1 } else { h }
}

/// The half-block picture keeps the image's proportions: its pixel height
/// is even (two rows to a cell), at least 2, and within two rows of the
/// image's height scaled by the same factor as its width.
pub proof fn law_blocks_keep_aspect(img: RgbaImage, target_w: nat)
    requires
        img.width > 0,
    ensures
        blocks_height(img, target_w) % 2 == 0,
        blocks_height(img, target_w) >= 2,
        (blocks_height(img, target_w) - 2) * (img.width as int) <= (img.height as int) * (target_w as int),
        (img.height as int) * (target_w as int) < (blocks_height(img, target_w) + 1) * (img.width as int),
{
    let x: int = (img.height as int) * (target_w as int);
    let w: int = img.width as int;
    let q: int = x / w;
    let hh = blocks_height(img, target_w) as int;
    assert(q == (img.height as nat * target_w) / (img.width as nat));
    assert(q * w <= x < (q + 1) * w) by (nonlinear_arith)
        requires
            w > 0,
            x >= 0,
            q == x / w,
    ;
    assert(q >= 0) by (nonlinear_arith)
        requires
            w > 0,
            x >= 0,
            q == x / w,
    ;
    assert(hh - 2 <= q && q < hh + 1 || (q < 2 && hh == 2));
    assert((hh - 2) * w <= x) by (nonlinear_arith)
        requires
            hh - 2 <= q || hh == 2,
            q * w <= x,
            w > 0,
            x >= 0,
    ;
    assert(x < (hh + 1) * w) by (nonlinear_arith)
        requires
            q <= hh,
            x < (q + 1) * w,
            w > 0,
    ;
}

/// The colour of the pixel whose bytes start at `i`: `{r};{g};{b}`.
pub open spec fn rgb_param(px: Seq<u8>, i: int) -> Seq<char> {
    dec(px[i] as nat) + ";"@ + dec(px[i + 1] as nat) + ";"@ + dec(px[i + 2] as nat)
}

/// One cell: the upper half-block in the colour of the pixel at
/// (`col`, `row`) over the background colour of the pixel below it.
pub open spec fn block_cell(px: Seq<u8>, w: nat, col: nat, row: nat) -> Seq<char> {
    "\x1b[38;2;"@ + rgb_param(px, (4 * (row * w + col)) as int) + "m\x1b[48;2;"@ + rgb_param(
        px,
        (4 * ((row + 1) * w + col)) as int,
    ) + "m\u{2580}"@
}

/// The first `n` cells of the pair of pixel rows starting at `row`.
pub open spec fn block_cells(px: Seq<u8>, w: nat, row: nat, n: nat) -> Seq<char>
    decreases n,
{
    if n == 0 {
        Seq::empty()
    } else {
        block_cells(px, w, row, (n - 1) as nat) + block_cell(px, w, (n - 1) as nat, row)
    }
}

/// The first `n` lines of the picture, each covering two pixel rows and
/// ending with a colour reset.
pub open spec fn block_lines(px: Seq<u8>, w: nat, n: nat) -> Seq<char>
    decreases n,
{
    if n == 0 {
        Seq::empty()
    } else {
        block_lines(px, w, (n - 1) as nat) + block_cells(px, w, 2 * (n - 1) as nat, w) + "\x1b[0m\n"@
    }
}

/// The image scaled to at most `max_cols` columns and drawn with half
/// blocks in 24-bit colour, followed by an empty line; nothing for an empty
/// image.
pub open spec fn blocks_encode_spec(img: RgbaImage, max_cols: u32) -> Seq<char> {
    if img.width == 0 || img.height == 0 {
        Seq::empty()
    } else {
        let tw = blocks_width(img, max_cols);
        let th = blocks_height(img, tw);
        block_lines(lanczos_resize(img.width, img.height, img.data@, tw as u32, th as u32), tw, th / 2) + "\n"@
    }
}

proof fn lemma_blocks_height(img: RgbaImage, tw: nat)
    requires
        img.width > 0,
        tw <= img.width,
        img.height < u32::MAX,
    ensures
        2 <= blocks_height(img, tw) <= u32::MAX,
        blocks_height(img, tw) % 2 == 0,
{
    assert((img.height as nat * tw) / (img.width as nat) <= img.height) by (nonlinear_arith)
        requires
            tw <= img.width,
            img.width > 0,
    {
        assert(img.height as nat * tw <= img.height as nat * img.width);
    }
}

fn push_rgb(out: &mut String, px: &Vec<u8>, i: usize)
    requires
        i + 2 < px@.len(),
    ensures
        final(out)@ == old(out)@ + rgb_param(px@, i as int),
{
    let _len = px.len();
    push_decimal(out, px[i] as u128);
    out.append(";");
    push_decimal(out, px[i + 1] as u128);
    out.append(";");
    push_decimal(out, px[i + 2] as u128);
    assert(final(out)@ =~= old(out)@ + rgb_param(px@, i as int));
}

proof fn lemma_cell_indices(row: nat, w: nat, col: nat, l: nat)
    by (nonlinear_arith)
    requires
        col < w,
        (row + 2) * w * 4 <= l,
    ensures
        row * w <= row * w + col,
        row * w + col < l,
        4 * (row * w + col) + 3 < l,
        row + 1 < l,
        (row + 1) * w <= (row + 1) * w + col,
        (row + 1) * w + col < l,
        4 * ((row + 1) * w + col) + 3 < l,
{
}

fn push_block_cell(out: &mut String, px: &Vec<u8>, w: usize, col: usize, row: usize)
    requires
        col < w,
        (row + 2) * w * 4 <= px@.len(),
    ensures
        final(out)@ == old(out)@ + block_cell(px@, w as nat, col as nat, row as nat),
{
    let len = px.len();
    proof {
        lemma_cell_indices(row as nat, w as nat, col as nat, len as nat);
    }
    let t = 4 * (row * w + col);
    let b = 4 * ((row + 1) * w + col);
    out.append("\x1b[38;2;");
    push_rgb(out, px, t);
    out.append("m\x1b[48;2;");
    push_rgb(out, px, b);
    out.append("m\u{2580}");
    assert(final(out)@ =~= old(out)@ + block_cell(px@, w as nat, col as nat, row as nat));
}

fn blocks_encode(img: &RgbaImage, max_cols: u32) -> (s: String)
    requires
        img.wf(),
        img.height < u32::MAX,
    ensures
        s@ == blocks_encode_spec(*img, max_cols),
{
    if img.width == 0 || img.height == 0 {
        return String::new();
    }
    let tw: u32 = if max_cols < img.width { max_cols } else { img.width };
    assert((img.height as u64) * (tw as u64) <= u64::MAX) by (nonlinear_arith)
        requires
            img.height <= u32::MAX,
            tw <= u32::MAX,
    ;
    let scaled: u64 = (img.height as u64) * (tw as u64) / (img.width as u64);
    assert(scaled == (img.height as nat * tw as nat) / (img.width as nat));
    proof {
        lemma_blocks_height(*img, tw as nat);
    }
    let h0: u64 = if scaled < 2 { 2 } else { scaled };
    let th64: u64 = if h0 % 2 == 1 { h0 + 1 } else { h0 };
    let th = th64 as u32;
    let mut out = String::new();
    let ghost px_spec = lanczos_resize(img.width, img.height, img.data@, tw, th);
    if tw > 0 {
        let px = resize_lanczos(img, tw, th);
        let w = tw as usize;
        let pairs = (th / 2) as usize;
        let mut k: usize = 0;
        while k < pairs
            invariant
                px@ == px_spec,
                px@.len() == 4 * (w as nat) * (th as nat),
                w == tw,
                pairs == th / 2,
                th % 2 == 0,
                k <= pairs,
                out@ == block_lines(px@, w as nat, k as nat),
            decreases pairs - k,
        {
            let row = 2 * k;
            proof {
                assert((row + 2) * w * 4 <= 4 * (w as nat) * (th as nat)) by (nonlinear_arith)
                    requires
                        row + 2 <= th,
                ;
            }
            let mut col: usize = 0;
            while col < w
                invariant
                    px@ == px_spec,
                    (row + 2) * w * 4 <= px@.len(),
                    col <= w,
                    row == 2 * k,
                    out@ == block_lines(px@, w as nat, k as nat) + block_cells(px@, w as nat, row as nat, col as nat),
                decreases w - col,
            {
                push_block_cell(&mut out, &px, w, col, row);
                col += 1;
            }
            out.append("\x1b[0m\n");
            k += 1;
        }
    } else {
        let pairs = (th / 2) as usize;
        let mut k: usize = 0;
        while k < pairs
            invariant
                tw == 0,
                pairs == th / 2,
                k <= pairs,
                out@ == block_lines(px_spec, 0, k as nat),
            decreases pairs - k,
        {
            out.append("\x1b[0m\n");
            k += 1;
            proof {
                assert(block_cells(px_spec, 0, 2 * (k - 1) as nat, 0) =~= Seq::<char>::empty());
            }
        }
    }
    out.append("\n");
    out
}

// ── Choosing the encoding ───────────────────────────────────────────────────

/// The sentinel that stands for captured image `id` in rendered text:
/// `\0KITTY:{id}:{cols}:{pw}:{ph}\0` and a newline, with `cols` 0 for the
/// natural size.
pub open spec fn sentinel_spec(id: nat, max_cols: Option<u16>, w: u32, h: u32) -> Seq<char> {
    "\0KITTY:"@ + dec(id) + ":"@ + dec(
        match max_cols {
            Some(c) => c as nat,
            None => 0,
        },
    ) + ":"@ + dec(w as nat) + ":"@ + dec(h as nat) + "\0\n"@
}

/// What rendering `img` gives, and the captured images afterwards.
///
/// When capturing for the Kitty pager, the pixels are stored under the next
/// id and the sentinel for it is the text (a store that can hand out no
/// further 32-bit id refuses the image).  Otherwise the image is encoded
/// for the configured protocol; Sixel terminals get half blocks, scaled to
/// `max_cols` or the configured width.
pub open spec fn dynamic_image_spec(
    img: RgbaImage,
    config: Config,
    max_cols: Option<u16>,
    images: Seq<KittyImageView>,
) -> (Result<Seq<char>, Seq<char>>, Seq<KittyImageView>) {
    if config.kitty_capture {
        if images.len() + 2 <= u32::MAX {
            let id = images.len() + 1;
            (
                Ok(sentinel_spec(id, max_cols, img.width, img.height)),
                images.push(
                    KittyImageView {
                        id: id as u32,
                        rgba_data: img.data@,
                        pixel_width: img.width,
                        pixel_height: img.height,
                        display_cols: max_cols,
                    },
                ),
            )
        } else {
            (Err("image store is full"@), images)
        }
    } else {
        match config.protocol {
            ImageProtocol::ITerm2 => (iterm2_encode_spec(img, max_cols), images),
            ImageProtocol::Kitty => (Ok(kitty_encode_spec(img, max_cols)), images),
            _ => (
                Ok(
                    blocks_encode_spec(
                        img,
                        match max_cols {
                            Some(c) => c as u32,
                            None => config.width as u32,
                        },
                    ),
                ),
                images,
            ),
        }
    }
}

/// Whether a result of rendering matches its specification.
pub open spec fn outcome_is(r: Result<String, String>, spec: Result<Seq<char>, Seq<char>>) -> bool {
    match (r, spec) {
        (Ok(s), Ok(t)) => s@ == t,
        (Err(e), Err(f)) => e@ == f,
        _ => false,
    }
}

fn push_sentinel(out: &mut String, id: u32, max_cols: Option<u16>, w: u32, h: u32)
    ensures
        final(out)@ == old(out)@ + sentinel_spec(id as nat, max_cols, w, h),
{
    out.append("\0KITTY:");
    push_decimal(out, id as u128);
    out.append(":");
    match max_cols {
        Some(c) => push_decimal(out, c as u128),
        None => push_decimal(out, 0),
    }
    out.append(":");
    push_decimal(out, w as u128);
    out.append(":");
    push_decimal(out, h as u128);
    out.append("\0\n");
    assert(final(out)@ =~= old(out)@ + sentinel_spec(id as nat, max_cols, w, h));
}

/// Render a decoded image as terminal graphics (see `dynamic_image_spec`).
///
/// `max_cols`: `Some(n)` forces the image to exactly n columns (scales up or
/// down); `None` lets the terminal display it at its natural pixel size.
pub fn render_dynamic_image(
    img: &RgbaImage,
    config: &Config,
    max_cols: Option<u16>,
    store: &mut KittyImageStore,
) -> (r: Result<String, String>)
    requires
        img.wf(),
        img.height < u32::MAX,
        old(store).wf(),
    ensures
        final(store).wf(),
        outcome_is(r, dynamic_image_spec(*img, *config, max_cols, images_view(old(store).images@)).0),
        images_view(final(store).images@) == dynamic_image_spec(
            *img,
            *config,
            max_cols,
            images_view(old(store).images@),
        ).1,
{
    if config.kitty_capture {
        if store.images.len() as u64 + 2 <= u32::MAX as u64 {
            let data = img.data.clone();
            assert(data@ =~= img.data@);
            let ghost before = store.images@;
            let id = store.push(data, img.width, img.height, max_cols);
            assert(images_view(store.images@) =~= images_view(before).push(
                KittyImageView {
                    id,
                    rgba_data: img.data@,
                    pixel_width: img.width,
                    pixel_height: img.height,
                    display_cols: max_cols,
                },
            ));
            let mut out = String::new();
            push_sentinel(&mut out, id, max_cols, img.width, img.height);
            assert(out@ =~= sentinel_spec(id as nat, max_cols, img.width, img.height));
            Ok(out)
        } else {
            Err(String::from_str("image store is full"))
        }
    } else {
        match config.protocol {
            ImageProtocol::ITerm2 => iterm2_encode(img, max_cols),
            ImageProtocol::Kitty => Ok(kitty_encode(img, max_cols)),
            _ => {
                let cols: u32 = match max_cols {
                    Some(c) => c as u32,
                    None => config.width as u32,
                };
                Ok(blocks_encode(img, cols))
            },
        }
    }
}

/// Columns to show an image at: its natural width in cells (pixel width
/// over the cell width, at least 1), capped to the configured width; `None`
/// when it fits.
pub open spec fn image_max_cols(img_width: u32, config: Config) -> Option<u16> {
    let cell = if config.cell_pixel_width == 0 { 1 } else { config.cell_pixel_width as nat };
    if img_width as nat / cell > config.width { Some(config.width) } else { None }
}

/// Render a decoded markdown image, scaled down to the configured width
/// when it is wider (see `image_max_cols`).
pub fn render_image(img: &RgbaImage, config: &Config, store: &mut KittyImageStore) -> (r: Result<String, String>)
    requires
        img.wf(),
        img.height < u32::MAX,
        old(store).wf(),
    ensures
        final(store).wf(),
        outcome_is(
            r,
            dynamic_image_spec(*img, *config, image_max_cols(img.width, *config), images_view(old(store).images@)).0,
        ),
        images_view(final(store).images@) == dynamic_image_spec(
            *img,
            *config,
            image_max_cols(img.width, *config),
            images_view(old(store).images@),
        ).1,
{
    let cell: u32 = if config.cell_pixel_width == 0 { 1 } else { config.cell_pixel_width };
    let natural_cols = img.width / cell;
    let max_cols = if natural_cols > config.width as u32 { Some(config.width) } else { None };
    render_dynamic_image(img, config, max_cols, store)
}

/// Columns to show a rendered diagram at: its natural width in cells
/// (capped to what a `u16` holds), and no wider than the configured width.
pub open spec fn diagram_cols(img_width: u32, config: Config) -> u16 {
    let natural = img_width as nat / config.cell_pixel_width as nat;
    let natural = if natural > u16::MAX { u16::MAX as nat } else { natural };
    if natural < config.width { natural as u16 } else { config.width }
}

/// Render a diagram image at its natural size, scaled down only when it is
/// wider than the terminal (see `diagram_cols`).
pub fn render_diagram(img: &RgbaImage, config: &Config, store: &mut KittyImageStore) -> (r: Result<String, String>)
    requires
        img.wf(),
        img.height < u32::MAX,
        config.cell_pixel_width > 0,
        old(store).wf(),
    ensures
        final(store).wf(),
        outcome_is(
            r,
            dynamic_image_spec(*img, *config, Some(diagram_cols(img.width, *config)), images_view(old(store).images@)).0,
        ),
        images_view(final(store).images@) == dynamic_image_spec(
            *img,
            *config,
            Some(diagram_cols(img.width, *config)),
            images_view(old(store).images@),
        ).1,
{
    let natural = img.width / config.cell_pixel_width;
    let natural_cols: u16 = if natural > 65535 { 65535 } else { natural as u16 };
    let display_cols = if natural_cols < config.width { natural_cols } else { config.width };
    render_dynamic_image(img, config, Some(display_cols), store)
}

} // verus!
