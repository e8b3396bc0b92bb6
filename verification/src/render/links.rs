//! Clickable links.
use vstd::prelude::*;

use crate::text::{
    ansi_scan, lemma_scan_plain, lemma_scan_short_sgr, lemma_scan_step, lemma_scan_string, no_esc,
    strip_ansi_spec,
};

verus! {

/// The OSC 8 hyperlink around `label`, followed by the dimmed URL.
pub open spec fn osc8_link_spec(url: Seq<char>, label: Seq<char>) -> Seq<char> {
    "\x1b]8;;"@ + url + "\x1b\\"@ + label + "\x1b]8;;\x1b\\\x1b[2m (→ "@ + url + ")\x1b[0m"@
}

/// Wrap text in an OSC 8 hyperlink escape sequence.
/// This makes links clickable in terminals that support OSC 8
/// (iTerm2, Kitty, WezTerm, GNOME Terminal, etc.)
pub fn osc8_link(url: &str, label: &str) -> (s: String)
    ensures
        s@ == osc8_link_spec(url@, label@),
{
    let mut out = String::new();
    out.append("\x1b]8;;");
    out.append(url);
    out.append("\x1b\\");
    out.append(label);
    out.append("\x1b]8;;\x1b\\\x1b[2m (→ ");
    out.append(url);
    out.append(")\x1b[0m");
    assert(out@ =~= osc8_link_spec(url@, label@));
    out
}

/// What a link shows: its label, then its URL in brackets; the escape
/// sequences around them show nothing (for a URL and label without escape
/// characters, and a URL without `BEL`).
pub proof fn law_link_shows_label_and_url(url: Seq<char>, label: Seq<char>)
    requires
        no_esc(url),
        no_esc(label),
        forall|i: int| 0 <= i < url.len() ==> url[i] != '\x07',
    ensures
        strip_ansi_spec(osc8_link_spec(url, label)) == label + " (\u{2192} "@ + url + ")"@,
{
    reveal_strlit("\x1b]8;;");
    reveal_strlit("\x1b\\");
    reveal_strlit("\x1b]8;;\x1b\\\x1b[2m (\u{2192} ");
    reveal_strlit(")\x1b[0m");
    reveal_strlit(" (\u{2192} ");
    reveal_strlit(")");
    let e = Seq::<char>::empty();
    let opener = seq!['8', ';', ';'];
    assert(no_esc(opener));
    // ESC ] opens the string sequence that names the URL.
    lemma_scan_step(e, '\x1b');
    let a1 = e.push('\x1b');
    lemma_scan_step(a1, ']');
    let a2 = a1.push(']');
    assert forall|i: int| 0 <= i < (opener + url).len() implies (opener + url)[i] != '\x1b' && (opener + url)[i]
        != '\x07' by {
        if i >= 3 {
            assert((opener + url)[i] == url[i - 3]);
        }
    }
    lemma_scan_string(a2, opener + url);
    let a3 = a2 + (opener + url);
    // ESC \ ends it; the label is text.
    lemma_scan_step(a3, '\x1b');
    let a4 = a3.push('\x1b');
    lemma_scan_step(a4, '\\');
    let a5 = a4.push('\\');
    lemma_scan_plain(a5, label);
    let a6 = a5 + label;
    // The closing hyperlink sequence, then the dim URL.
    lemma_scan_step(a6, '\x1b');
    let b1 = a6.push('\x1b');
    lemma_scan_step(b1, ']');
    let b2 = b1.push(']');
    lemma_scan_string(b2, opener);
    let b3 = b2 + opener;
    lemma_scan_step(b3, '\x1b');
    let b4 = b3.push('\x1b');
    lemma_scan_step(b4, '\\');
    let b5 = b4.push('\\');
    lemma_scan_short_sgr(b5, '2');
    let b6 = b5 + seq!['\x1b', '[', '2', 'm'];
    let tail = " (\u{2192} "@ + url + ")"@;
    assert(no_esc(tail)) by {
        assert forall|i: int| 0 <= i < tail.len() implies tail[i] != '\x1b' by {
            if 4 <= i < 4 + url.len() {
                assert(tail[i] == url[i - 4]);
            }
        }
    }
    lemma_scan_plain(b6, tail);
    let b7 = b6 + tail;
    lemma_scan_short_sgr(b7, '0');
    assert(osc8_link_spec(url, label) =~= b7 + seq!['\x1b', '[', '0', 'm']);
    assert(ansi_scan(a5).0 =~= e);
    assert(ansi_scan(b7).0 =~= label + tail);
}

} // verus!
