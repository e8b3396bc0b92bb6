//! Rasterizing SVG images with `resvg`, and where an image reference
//! points.
use resvg::usvg::{Options, Tree};
use tiny_skia::{Pixmap, Transform};
use vstd::prelude::*;

use super::images::RgbaImage;
use crate::text::{chars_of, matches_at, string_of};

verus! {

#[verifier::external_type_specification]
#[verifier::external_body]
pub struct ExSvgTree(Tree);

/// The size usvg gives the SVG document `svg`, each side rounded up to
/// whole pixels; `None` where usvg reports an error.
pub uninterp spec fn parsed_svg_size(svg: Seq<u8>) -> Option<(u32, u32)>;

/// `usvg::Tree::from_data` with the default options and the system's fonts
/// loaded, then `Tree::size` rounded up.  Whether the document parses and
/// the size it declares follow from its bytes (the fonts only shape its
/// text), named `parsed_svg_size`.
#[verifier::external_body]
fn parse_svg(data: &[u8]) -> (r: Option<(Tree, u32, u32)>)
    ensures
        match parsed_svg_size(data@) {
            Some((w, h)) => r matches Some((_, rw, rh)) && rw == w && rh == h,
            None => r is None,
        },
{
    let mut options = Options::default();
    options.fontdb_mut().load_system_fonts();
    let tree = Tree::from_data(data, &options).ok()?;
    let size = tree.size();
    let (w, h) = (size.width().ceil() as u32, size.height().ceil() as u32);
    Some((tree, w, h))
}

/// A pixmap of `width × height` can be made: both sides nonzero, a row
/// within `i32::MAX` bytes, and all of it within `usize::MAX` bytes.
pub open spec fn pixmap_fits(width: u32, height: u32) -> bool {
    &&& width > 0
    &&& height > 0
    &&& 4 * (width as nat) <= i32::MAX
    &&& 4 * (width as nat) * (height as nat) <= usize::MAX
}

/// `tiny_skia::Pixmap::new`, `resvg::render` of the whole tree onto it,
/// untransformed, and `Pixmap::take`: the pixmap's RGBA bytes, four per
/// pixel (`None` where tiny-skia cannot make a pixmap of that size).  The
/// pixels depend on the fonts the text is drawn with; nothing is stated of
/// them.
#[verifier::external_body]
fn render_svg_pixels(tree: &Tree, width: u32, height: u32) -> (r: Option<Vec<u8>>)
    ensures
        r is Some <==> pixmap_fits(width, height),
        r matches Some(d) ==> d@.len() == 4 * (width as nat) * (height as nat),
{
    let mut pixmap = Pixmap::new(width, height)?;
    resvg::render(tree, Transform::default(), &mut pixmap.as_mut());
    Some(pixmap.take())
}

/// `n`, or 1 for 0.
pub open spec fn at_least_one(n: u32) -> u32 {
    if n == 0 { 1 } else { n }
}

/// The pixmap size for an SVG document of `width × height`: each side at
/// least one pixel.
pub fn svg_canvas_size(width: u32, height: u32) -> (r: (u32, u32))
    ensures
        r == (at_least_one(width), at_least_one(height)),
{
    (if width == 0 { 1 } else { width }, if height == 0 { 1 } else { height })
}

/// What rasterizing the SVG document `svg` gives: the parse error, the
/// pixmap error, or an image of the document's size rounded up (at least
/// one pixel each way).
pub open spec fn rasterize_ok(svg: Seq<u8>, r: Result<RgbaImage, String>) -> bool {
    match parsed_svg_size(svg) {
        None => r matches Err(e) && e@ == "failed to parse SVG"@,
        Some((w, h)) => if pixmap_fits(at_least_one(w), at_least_one(h)) {
            r matches Ok(img) && img.width == at_least_one(w) && img.height == at_least_one(h) && img.wf()
        } else {
            r matches Err(e) && e@ == "failed to create pixmap"@
        },
    }
}

/// Rasterize an SVG document at its own size, rounded up to whole pixels
/// and at least one pixel each way, drawing its text with the system's
/// fonts (see `rasterize_ok`).  The pixels depend on those fonts and are
/// not stated.
pub fn rasterize_svg(svg_data: &[u8]) -> (r: Result<RgbaImage, String>)
    ensures
        rasterize_ok(svg_data@, r),
{
    let (tree, w, h) = match parse_svg(svg_data) {
        Some(t) => t,
        None => return Err(String::from_str("failed to parse SVG")),
    };
    let (width, height) = svg_canvas_size(w, h);
    let data = match render_svg_pixels(&tree, width, height) {
        Some(d) => d,
        None => return Err(String::from_str("failed to create pixmap")),
    };
    image_from_pixels(width, height, data)
}

/// An image of `width × height` pixels from rasterized RGBA bytes, when
/// there are exactly as many bytes as pixels need; the conversion error
/// otherwise.
pub fn image_from_pixels(width: u32, height: u32, data: Vec<u8>) -> (r: Result<RgbaImage, String>)
    ensures
        match r {
            Ok(img) => data@.len() == 4 * (width as nat) * (height as nat) && img.width == width && img.height
                == height && img.data@ == data@,
            Err(e) => data@.len() != 4 * (width as nat) * (height as nat) && e@ == "failed to convert pixmap to image"@,
        },
{
    assert(4 * (width as u128) * (height as u128) <= u128::MAX) by (nonlinear_arith)
        requires
            width <= u32::MAX,
            height <= u32::MAX,
    ;
    if data.len() as u128 == 4 * (width as u128) * (height as u128) {
        Ok(RgbaImage { width, height, data })
    } else {
        Err(String::from_str("failed to convert pixmap to image"))
    }
}

// ── Image references ────────────────────────────────────────────────────────

/// Where an image reference points.
pub enum ImageLocation {
    /// An `http://` or `https://` URL.
    Remote { url: String },
    /// A kind of reference that cannot be loaded.
    Unsupported { reason: String },
    /// A file path (without a `file://` prefix).
    Local { path: String },
}

pub open spec fn has_prefix(s: Seq<char>, p: Seq<char>) -> bool {
    s.len() >= p.len() && s.take(p.len() as int) == p
}

fn starts_with(cs: &Vec<char>, p: &str) -> (b: bool)
    ensures
        b == has_prefix(cs@, p@),
{
    let pc = chars_of(p);
    if pc.len() > cs.len() {
        return false;
    }
    let m = matches_at(cs, &pc, 0);
    assert(cs@.subrange(0, pc@.len() as int) =~= cs@.take(pc@.len() as int));
    m
}

/// Where the image reference `url` points: URLs with `http://` or
/// `https://` are remote, `data:` URIs are not supported, and anything else
/// is a file path (a `file://` prefix taken off).
pub fn image_location(url: &str) -> (r: ImageLocation)
    ensures
        if has_prefix(url@, "http://"@) || has_prefix(url@, "https://"@) {
            r matches ImageLocation::Remote { url: u } && u@ == url@
        } else if has_prefix(url@, "data:"@) {
            r matches ImageLocation::Unsupported { reason } && reason@ == "data: URI images not yet supported"@
        } else if has_prefix(url@, "file://"@) {
            r matches ImageLocation::Local { path } && path@ == url@.skip(7)
        } else {
            r matches ImageLocation::Local { path } && path@ == url@
        },
{
    let cs = chars_of(url);
    if starts_with(&cs, "http://") || starts_with(&cs, "https://") {
        ImageLocation::Remote { url: String::from_str(url) }
    } else if starts_with(&cs, "data:") {
        ImageLocation::Unsupported { reason: String::from_str("data: URI images not yet supported") }
    } else if starts_with(&cs, "file://") {
        proof {
            reveal_strlit("file://");
        }
        let path = string_of(&cs, 7, cs.len());
        assert(path@ =~= url@.skip(7));
        ImageLocation::Local { path }
    } else {
        ImageLocation::Local { path: String::from_str(url) }
    }
}

} // verus!
