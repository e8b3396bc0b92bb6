//! Terminal markdown rendering and a row-granular pager with inline images.
pub mod kitty_pager;
pub mod render;
pub mod terminal;
pub mod text;
