//! A row-granular terminal pager that places images with the Kitty graphics
//! protocol.  The pure parts (layout, frame rendering, key handling, search)
//! live here; the event loop that reads keys and writes frames is the
//! caller's.
pub mod document;
pub mod input;
pub mod renderer;
pub mod terminal;

pub use document::{DocItem, KittyDocument, KittyImage, PagerOptions};
