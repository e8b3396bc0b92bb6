//! Terminal facts the renderer needs: the cell size in pixels and the
//! graphics protocol to use.  Asking the terminal is the caller's part; this
//! module decides from the answers.
use vstd::prelude::*;
use vstd::utf8::{decode_utf8, valid_utf8};

use crate::kitty_pager::terminal::{csi16t_fields, reply_fields};
use crate::text::{parse_unsigned, parse_unsigned_chars, str_eq, utf8_str};

verus! {

/// One field of a `CSI 16 t` reply (`0` the height, `1` the width), when
/// the reply is UTF-8 text and the field parses as a positive `u32`.
pub open spec fn reply_field(reply: Seq<u8>, which: int) -> Option<u32> {
    if !valid_utf8(reply) {
        None
    } else {
        match csi16t_fields(decode_utf8(reply)) {
            Some((h, w)) => match parse_unsigned(if which == 0 { h } else { w }, u32::MAX as nat) {
                Some(v) => if v > 0 { Some(v as u32) } else { None },
                None => None,
            },
            None => None,
        }
    }
}

fn parse_reply_field(reply: &[u8], which: usize) -> (r: Option<u32>)
    ensures
        r == reply_field(reply@, which as int),
{
    let text = match utf8_str(reply) {
        Some(t) => t,
        None => return None,
    };
    match reply_fields(text) {
        Some((cs, a, b, c)) => {
            let v = if which == 0 {
                parse_unsigned_chars(&cs, a, b, u32::MAX)
            } else {
                parse_unsigned_chars(&cs, b + 1, c, u32::MAX)
            };
            match v {
                Some(x) => if x > 0 { Some(x) } else { None },
                None => None,
            }
        },
        None => None,
    }
}

/// Pixels per cell from the window size the kernel reports (`TIOCGWINSZ`):
/// the pixel extent divided by the cell count, when both are positive.
pub open spec fn per_cell(pixels: u16, cells: u16) -> Option<u32> {
    if pixels > 0 && cells > 0 { Some((pixels / cells) as u32) } else { None }
}

pub fn cell_size_from_winsize(pixels: u16, cells: u16) -> (r: Option<u32>)
    ensures
        r == per_cell(pixels, cells),
{
    if pixels > 0 && cells > 0 {
        Some((pixels / cells) as u32)
    } else {
        None
    }
}

/// Returns the terminal's cell pixel width: the width in its reply to
/// `CSI 16 t`, else the kernel's window size (`xpixel`, `cols`), else 10.
pub fn cell_pixel_width(csi_reply: Option<&[u8]>, winsize: Option<(u16, u16)>) -> (w: u32)
    ensures
        w == match csi_reply {
            Some(r) if reply_field(r@, 1) is Some => reply_field(r@, 1)->0,
            _ => match winsize {
                Some((px, cols)) if per_cell(px, cols) is Some => per_cell(px, cols)->0,
                _ => 10u32,
            },
        },
{
    if let Some(r) = csi_reply {
        if let Some(w) = parse_reply_field(r, 1) {
            return w;
        }
    }
    if let Some((px, cols)) = winsize {
        if let Some(w) = cell_size_from_winsize(px, cols) {
            return w;
        }
    }
    10
}

/// Returns the terminal's cell pixel height: the height in its reply to
/// `CSI 16 t`, else the kernel's window size (`ypixel`, `rows`), else 20.
pub fn cell_pixel_height(csi_reply: Option<&[u8]>, winsize: Option<(u16, u16)>) -> (h: u32)
    ensures
        h == match csi_reply {
            Some(r) if reply_field(r@, 0) is Some => reply_field(r@, 0)->0,
            _ => match winsize {
                Some((px, rows)) if per_cell(px, rows) is Some => per_cell(px, rows)->0,
                _ => 20u32,
            },
        },
{
    if let Some(r) = csi_reply {
        if let Some(h) = parse_reply_field(r, 0) {
            return h;
        }
    }
    if let Some((px, rows)) = winsize {
        if let Some(h) = cell_size_from_winsize(px, rows) {
            return h;
        }
    }
    20
}

/// Detected terminal graphics protocol.
#[derive(Debug, Clone, Copy, PartialEq, Eq, Structural)]
pub enum ImageProtocol {
    Kitty,
    ITerm2,
    Sixel,
    /// Unicode half-block fallback.
    Blocks,
}

/// The protocol named by an override (`blocks` for any unknown name; `auto`
/// asks for detection, as no override does), else the one the environment
/// points to: Kitty for `TERM=xterm-kitty`,
/// `TERM=xterm-ghostty` or `TERM_PROGRAM=ghostty`; iTerm2 for
/// `TERM_PROGRAM=iTerm.app`, a set `ITERM_SESSION_ID`, or
/// `TERM_PROGRAM=WezTerm`; blocks otherwise.
pub open spec fn protocol_spec(
    override_: Option<Seq<char>>,
    term: Option<Seq<char>>,
    term_program: Option<Seq<char>>,
    iterm_session_id_set: bool,
) -> ImageProtocol {
    match override_ {
        Some(p) if p != "auto"@ => if p == "kitty"@ {
            ImageProtocol::Kitty
        } else if p == "iterm2"@ {
            ImageProtocol::ITerm2
        } else if p == "sixel"@ {
            ImageProtocol::Sixel
        } else {
            ImageProtocol::Blocks
        },
        _ => if term == Some("xterm-kitty"@) || term == Some("xterm-ghostty"@) || term_program == Some("ghostty"@) {
            ImageProtocol::Kitty
        } else if term_program == Some("iTerm.app"@) || iterm_session_id_set {
            ImageProtocol::ITerm2
        } else if term_program == Some("WezTerm"@) {
            ImageProtocol::ITerm2
        } else {
            ImageProtocol::Blocks
        },
    }
}

/// Asking for `auto` is asking for detection: it gives what no override
/// gives, in every environment.
pub proof fn law_auto_detects(term: Option<Seq<char>>, term_program: Option<Seq<char>>, iterm_session_id_set: bool)
    ensures
        protocol_spec(Some("auto"@), term, term_program, iterm_session_id_set) == protocol_spec(
            None,
            term,
            term_program,
            iterm_session_id_set,
        ),
{
}

fn opt_eq(v: Option<&str>, lit: &str) -> (r: bool)
    ensures
        r == (match v {
            Some(s) => s@ == lit@,
            None => false,
        }),
{
    match v {
        Some(s) => str_eq(s, lit),
        None => false,
    }
}

/// Choose the image protocol from an override and the values of `TERM`,
/// `TERM_PROGRAM` and whether `ITERM_SESSION_ID` is set.
pub fn detect_image_protocol(
    override_: Option<&str>,
    term: Option<&str>,
    term_program: Option<&str>,
    iterm_session_id_set: bool,
) -> (p: ImageProtocol)
    ensures
        p == protocol_spec(
            match override_ { Some(s) => Some(s@), None => None },
            match term { Some(s) => Some(s@), None => None },
            match term_program { Some(s) => Some(s@), None => None },
            iterm_session_id_set,
        ),
{
    if let Some(proto) = override_ {
        if !str_eq(proto, "auto") {
            return if str_eq(proto, "kitty") {
                ImageProtocol::Kitty
            } else if str_eq(proto, "iterm2") {
                ImageProtocol::ITerm2
            } else if str_eq(proto, "sixel") {
                ImageProtocol::Sixel
            } else {
                ImageProtocol::Blocks
            };
        }
    }
    if opt_eq(term, "xterm-kitty") || opt_eq(term, "xterm-ghostty") || opt_eq(term_program, "ghostty") {
        return ImageProtocol::Kitty;
    }
    if opt_eq(term_program, "iTerm.app") || iterm_session_id_set {
        return ImageProtocol::ITerm2;
    }
    if opt_eq(term_program, "WezTerm") {
        return ImageProtocol::ITerm2;
    }
    ImageProtocol::Blocks
}

} // verus!
