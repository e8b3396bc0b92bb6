//! The terminal's cell size in pixels, from its reply to `CSI 16 t`.
use vstd::prelude::*;
use vstd::utf8::{decode_utf8, valid_utf8};

use crate::text::{chars_of, first_index_of, find_char, lemma_first_index_of, parse_unsigned, parse_unsigned_chars, utf8_str};

verus! {

/// The two `;`-separated fields of a reply `ESC [ 6 ; <height> ; <width> t`:
/// the text between the prefix and the final `t`, split at its first `;`.
pub open spec fn csi16t_fields(text: Seq<char>) -> Option<(Seq<char>, Seq<char>)> {
    if text.len() >= 5 && text.take(4) == seq!['\x1b', '[', '6', ';'] && text.last() == 't' {
        let mid = text.subrange(4, text.len() - 1);
        match first_index_of(mid, ';', 0) {
            Some(k) => Some((mid.take(k as int), mid.skip(k + 1int))),
            None => None,
        }
    } else {
        None
    }
}

/// The cell size `(width, height)` a reply reports: it must be UTF-8 text,
/// both fields must parse as `u32`, and both must be positive.
pub open spec fn cell_size_from_reply(reply: Seq<u8>) -> Option<(u32, u32)> {
    if !valid_utf8(reply) {
        None
    } else {
        match csi16t_fields(decode_utf8(reply)) {
            Some((h, w)) => match (parse_unsigned(h, u32::MAX as nat), parse_unsigned(w, u32::MAX as nat)) {
                (Some(hv), Some(wv)) => if hv > 0 && wv > 0 {
                    Some((wv as u32, hv as u32))
                } else {
                    None
                },
                _ => None,
            },
            None => None,
        }
    }
}

/// Split a reply into its two fields (see `csi16t_fields`).
pub fn reply_fields(text: &str) -> (r: Option<(Vec<char>, usize, usize, usize)>)
    ensures
        match csi16t_fields(text@) {
            Some((h, w)) => r matches Some((cs, a, b, c)) && cs@ == text@ && a <= b < c <= cs@.len()
                && cs@.subrange(a as int, b as int) == h && cs@.subrange(b + 1, c as int) == w,
            None => r is None,
        },
{
    let cs = chars_of(text);
    let n = cs.len();
    if n >= 5 && cs[0] == '\x1b' && cs[1] == '[' && cs[2] == '6' && cs[3] == ';' && cs[n - 1] == 't' {
        assert(cs@.take(4) =~= seq!['\x1b', '[', '6', ';']);
        let ghost mid = cs@.subrange(4, n - 1);
        proof {
            lemma_first_index_of(mid, ';', 0);
        }
        match find_char(&cs, ';', 4, n - 1) {
            Some(k) => {
                assert(cs@.subrange(4, k as int) =~= mid.take(k - 4));
                assert(cs@.subrange(k + 1, n - 1) =~= mid.skip(k - 4 + 1));
                Some((cs, 4, k, n - 1))
            },
            None => None,
        }
    } else {
        proof {
            if n >= 5 && cs@.take(4) == seq!['\x1b', '[', '6', ';'] {
                assert(cs@.take(4)[0] == '\x1b' && cs@.take(4)[1] == '[' && cs@.take(4)[2] == '6' && cs@.take(4)[3] == ';');
            }
        }
        None
    }
}

/// The cell size `(width, height)` in a reply to `CSI 16 t`.
pub fn parse_cell_size_reply(reply: &[u8]) -> (r: Option<(u32, u32)>)
    ensures
        r == cell_size_from_reply(reply@),
{
    let text = match utf8_str(reply) {
        Some(t) => t,
        None => return None,
    };
    match reply_fields(text) {
        Some((cs, a, b, c)) => {
            let cell_h = match parse_unsigned_chars(&cs, a, b, u32::MAX) {
                Some(v) => v,
                None => return None,
            };
            let cell_w = match parse_unsigned_chars(&cs, b + 1, c, u32::MAX) {
                Some(v) => v,
                None => return None,
            };
            if cell_w > 0 && cell_h > 0 {
                Some((cell_w, cell_h))
            } else {
                None
            }
        },
        None => None,
    }
}

/// Whether a reply being read byte by byte is over: its last byte is `t`,
/// or more than 64 bytes have come.
pub fn reply_complete(buf: &Vec<u8>) -> (done: bool)
    ensures
        done == ((buf@.len() > 0 && buf@.last() == 116u8) || buf@.len() > 64),
{
    (buf.len() > 0 && buf[buf.len() - 1] == 116u8) || buf.len() > 64
}

/// The terminal's cell pixel size `(width, height)` from its reply to
/// `CSI 16 t` (`None` when the terminal could not be asked).  Falls back to
/// `(8, 16)` when there is no usable reply.
pub fn query_cell_pixel_size(reply: Option<&[u8]>) -> (size: (u32, u32))
    ensures
        size == match reply {
            Some(b) => match cell_size_from_reply(b@) {
                Some(s) => s,
                None => (8u32, 16u32),
            },
            None => (8u32, 16u32),
        },
        size.0 > 0 && size.1 > 0,
{
    if let Some(b) = reply {
        if let Some(size) = parse_cell_size_reply(b) {
            return size;
        }
    }
    (8, 16)
}

} // verus!
