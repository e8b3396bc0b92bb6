//! The document model handed to the pager.
use vstd::prelude::*;

verus! {

/// A pre-transmitted Kitty graphics protocol image.
pub struct KittyImage {
    /// Unique image ID used for caching and re-placement.
    pub id: u32,
    /// Raw RGBA8 pixel data (row-major).
    pub rgba_data: Vec<u8>,
    pub pixel_width: u32,
    pub pixel_height: u32,
    /// If `Some(n)`, scale the image to exactly n terminal columns.
    /// `None` lets the terminal display at natural pixel size.
    pub display_cols: Option<u16>,
}

/// A single item in a pageable document.
pub enum DocItem {
    /// ANSI-formatted text (may contain newlines and escape sequences).
    Text(String),
    /// An inline image.
    Image(KittyImage),
}

/// A document that can be displayed by the Kitty pager.
pub struct KittyDocument {
    pub items: Vec<DocItem>,
}

pub struct KittyImageView {
    pub id: u32,
    pub rgba_data: Seq<u8>,
    pub pixel_width: u32,
    pub pixel_height: u32,
    pub display_cols: Option<u16>,
}

impl View for KittyImage {
    type V = KittyImageView;

    open spec fn view(&self) -> KittyImageView {
        KittyImageView {
            id: self.id,
            rgba_data: self.rgba_data@,
            pixel_width: self.pixel_width,
            pixel_height: self.pixel_height,
            display_cols: self.display_cols,
        }
    }
}

pub enum DocItemView {
    Text(Seq<char>),
    Image(KittyImageView),
}

impl View for DocItem {
    type V = DocItemView;

    open spec fn view(&self) -> DocItemView {
        match self {
            DocItem::Text(s) => DocItemView::Text(s@),
            DocItem::Image(img) => DocItemView::Image(img@),
        }
    }
}

pub open spec fn items_view(items: Seq<DocItem>) -> Seq<DocItemView> {
    items.map_values(|d: DocItem| d@)
}

/// A copy of some bytes.
pub fn clone_bytes(v: &Vec<u8>) -> (r: Vec<u8>)
    ensures
        r@ == v@,
{
    let r = v.clone();
    assert(r@ =~= v@);
    r
}

/// Options for the Kitty pager.
pub struct PagerOptions {
    /// Terminal width in columns.
    pub term_width: u16,
    /// Terminal height in rows.
    pub term_height: u16,
    /// Width of one terminal cell in pixels.
    pub cell_pixel_width: u32,
    /// Height of one terminal cell in pixels.
    pub cell_pixel_height: u32,
}

impl PagerOptions {
    /// Options from what the terminal reported: the cell pixel size, and the
    /// terminal size in cells when it could be read (80×24 otherwise).
    pub fn from_terminal(cell_pixel_size: (u32, u32), term_size: Option<(u16, u16)>) -> (o: PagerOptions)
        ensures
            o.cell_pixel_width == cell_pixel_size.0,
            o.cell_pixel_height == cell_pixel_size.1,
            term_size matches Some((w, h)) ==> o.term_width == w && o.term_height == h,
            term_size is None ==> o.term_width == 80 && o.term_height == 24,
    {
        let (term_w, term_h) = match term_size {
            Some(s) => s,
            None => (80, 24),
        };
        PagerOptions {
            term_width: term_w,
            term_height: term_h,
            cell_pixel_width: cell_pixel_size.0,
            cell_pixel_height: cell_pixel_size.1,
        }
    }
}

} // verus!
