//! Rendering a parsed markdown document to ANSI text.
//!
//! The renderer walks the events of the syntax tree (see `events`).  What
//! lies outside the walk comes in by event position: the images and
//! diagrams the caller loaded (`Media`), and the highlighted text of each
//! code block.
use vstd::prelude::*;

use super::events::{
    children_end, close_scan, events_view, lemma_close_scan_bounds, lemma_node_end_children, node_end, MdEvent,
    MdEventView, MdKind, MdKindView,
};
use super::images::{
    diagram_cols, dynamic_image_spec, image_max_cols, render_diagram, render_image, RgbaImage,
};
use super::code::{concat_lines, highlight_code, highlighted, Highlighter};
use super::events::{doc_extensions, markdown_events, parse_markdown};
use super::links::{osc8_link, osc8_link_spec};
use super::{images_view, Config, KittyImageStore};
use crate::kitty_pager::document::KittyImageView;
use crate::text::{
    all_ws, chars_of, push_chars, is_word, lemma_words_append, lemma_words_are_words, lemma_words_single, dec, lines_of, lines_spec, push_decimal, push_repeat, repeat_seq, split_whitespace, str_eq, visible_len,
    visible_len_spec, words, split_on, ansi_scan, contains_seq, is_digit, lemma_repeat_no_esc, lemma_scan_plain,
    lemma_scan_sgr, lemma_scan_shows, no_esc, strip_ansi_spec, split_chars, lemma_split_on_nonempty, words_scan, lemma_scan_append_ws,
};

verus! {

// ── Event positions ─────────────────────────────────────────────────────────

/// The position just after the node opened at `pos`.
fn node_end_of(ev: &Vec<MdEvent>, pos: usize) -> (end: usize)
    requires
        pos < ev@.len(),
    ensures
        end == node_end(events_view(ev@), pos as nat),
        pos < end <= ev@.len(),
{
    let ghost evs = events_view(ev@);
    proof {
        lemma_close_scan_bounds(evs, (pos + 1) as nat, 1);
    }
    let _len = ev.len();
    let mut j = pos + 1;
    let mut depth: usize = 1;
    loop
        invariant
            evs == events_view(ev@),
            pos < ev@.len(),
            pos + 1 <= j <= ev@.len(),
            1 <= depth <= j - pos,
            close_scan(evs, j as nat, depth as nat) == close_scan(evs, (pos + 1) as nat, 1),
            pos < close_scan(evs, (pos + 1) as nat, 1) <= ev@.len(),
        decreases ev@.len() - j,
    {
        if j >= ev.len() {
            return j;
        }
        match &ev[j] {
            MdEvent::Open(_) => {
                depth += 1;
            },
            MdEvent::Close => {
                if depth <= 1 {
                    return j + 1;
                }
                depth -= 1;
            },
        }
        j += 1;
    }
}

// ── Plain text of a node ────────────────────────────────────────────────────

/// The plain text of the node opened at `pos`: text and code as they are,
/// a space for a line break, and the text of the children for the rest.
pub open spec fn collect_node(ev: Seq<MdEventView>, pos: nat) -> Seq<char>
    decreases ev.len() - pos, 0nat,
{
    if pos >= ev.len() {
        Seq::empty()
    } else {
        match ev[pos as int] {
            MdEventView::Open(MdKindView::Text(t)) => t,
            MdEventView::Open(MdKindView::Code(t)) => t,
            MdEventView::Open(MdKindView::SoftBreak) => " "@,
            MdEventView::Open(MdKindView::LineBreak) => " "@,
            MdEventView::Open(_) => collect_children(ev, pos + 1),
            MdEventView::Close => Seq::empty(),
        }
    }
}

/// The plain text of the run of sibling nodes starting at `k`.
pub open spec fn collect_children(ev: Seq<MdEventView>, k: nat) -> Seq<char>
    decreases ev.len() - k, 1nat,
{
    if k >= ev.len() {
        Seq::empty()
    } else {
        match ev[k as int] {
            MdEventView::Close => Seq::empty(),
            MdEventView::Open(_) => {
                proof {
                    lemma_close_scan_bounds(ev, k + 1, 1);
                }
                collect_node(ev, k) + collect_children(ev, node_end(ev, k))
            },
        }
    }
}

/// Append the plain text of the node opened at `pos`; returns where the
/// node ends.
fn collect_text(ev: &Vec<MdEvent>, pos: usize, out: &mut String) -> (end: usize)
    requires
        pos < ev@.len(),
    ensures
        final(out)@ == old(out)@ + collect_node(events_view(ev@), pos as nat),
        end == node_end(events_view(ev@), pos as nat),
        pos < end <= ev@.len(),
    decreases ev@.len() - pos,
{
    let ghost evs = events_view(ev@);
    match &ev[pos] {
        MdEvent::Open(MdKind::Text(t)) => {
            out.append(t.as_str());
            return node_end_of(ev, pos);
        },
        MdEvent::Open(MdKind::Code(t)) => {
            out.append(t.as_str());
            return node_end_of(ev, pos);
        },
        MdEvent::Open(MdKind::SoftBreak) => {
            out.append(" ");
            return node_end_of(ev, pos);
        },
        MdEvent::Open(MdKind::LineBreak) => {
            out.append(" ");
            return node_end_of(ev, pos);
        },
        MdEvent::Close => {
            assert(collect_node(evs, pos as nat) =~= Seq::<char>::empty());
            return node_end_of(ev, pos);
        },
        MdEvent::Open(_) => {},
    }
    assert(collect_node(evs, pos as nat) == collect_children(evs, (pos + 1) as nat));
    proof {
        lemma_node_end_children(evs, (pos + 1) as nat);
    }
    let ghost start = out@;
    let _len = ev.len();
    let mut k = pos + 1;
    loop
        invariant
            evs == events_view(ev@),
            pos < k <= ev@.len(),
            start + collect_children(evs, (pos + 1) as nat) == out@ + collect_children(evs, k as nat),
            children_end(evs, (pos + 1) as nat) == children_end(evs, k as nat),
            node_end(evs, pos as nat) == children_end(evs, (pos + 1) as nat),
            start == old(out)@,
            collect_node(evs, pos as nat) == collect_children(evs, (pos + 1) as nat),
        decreases ev@.len() - k,
    {
        if k >= ev.len() {
            assert(out@ =~= start + collect_children(evs, (pos + 1) as nat));
            return k;
        }
        match &ev[k] {
            MdEvent::Close => {
                assert(out@ =~= start + collect_children(evs, (pos + 1) as nat));
                return k + 1;
            },
            MdEvent::Open(_) => {
                let ghost before = out@;
                let e = collect_text(ev, k, out);
                assert(before + collect_children(evs, k as nat) =~= out@ + collect_children(evs, e as nat));
                k = e;
            },
        }
    }
}

// ── Word wrapping ───────────────────────────────────────────────────────────

/// Scan state of wrapping `words` into lines of at most `avail` visible
/// characters: the text so far and the visible length of its last line.
/// A word that does not fit starts a new line indented by `indent`.
pub open spec fn wrap_scan(ws: Seq<Seq<char>>, avail: nat, indent: nat) -> (Seq<char>, nat)
    decreases ws.len(),
{
    if ws.len() == 0 {
        (Seq::empty(), 0)
    } else {
        let (text, line_len) = wrap_scan(ws.drop_last(), avail, indent);
        let w = ws.last();
        let wl = visible_len_spec(w);
        if line_len == 0 {
            (text + w, wl)
        } else if line_len + 1 + wl > avail {
            (text + "\n"@ + repeat_seq(" "@, indent) + w, wl)
        } else {
            (text + " "@ + w, line_len + 1 + wl)
        }
    }
}

/// Room for text on a line: the width less the indent, at least 20.
pub open spec fn wrap_width(width: nat, indent: nat) -> nat {
    let a = if width > indent { (width - indent) as nat } else { 0 };
    if a < 20 { 20 } else { a }
}

/// The words of `line` (split on whitespace) joined by spaces, a line
/// break and the indent where a word would make a line longer than `avail`
/// visible characters.
pub open spec fn wrap_line(line: Seq<char>, avail: nat, indent: nat) -> Seq<char> {
    wrap_scan(words(line), avail, indent).0
}

/// Each of `lines` wrapped on its own, joined by a line break and the
/// indent.
pub open spec fn wrap_lines(lines: Seq<Seq<char>>, avail: nat, indent: nat) -> Seq<char>
    decreases lines.len(),
{
    if lines.len() == 0 {
        Seq::empty()
    } else if lines.len() == 1 {
        wrap_line(lines[0], avail, indent)
    } else {
        wrap_lines(lines.drop_last(), avail, indent) + "\n"@ + repeat_seq(" "@, indent) + wrap_line(
            lines.last(),
            avail,
            indent,
        )
    }
}

/// `text` wrapped to `wrap_width` visible characters: each line of it (a
/// hard line break ends one) is wrapped on its own, and the lines stay
/// apart, each after the first behind the indent.
pub open spec fn word_wrap_spec(text: Seq<char>, width: nat, indent: nat) -> Seq<char> {
    wrap_lines(split_on(text, '\n'), wrap_width(width, indent), indent)
}

/// Append `line` wrapped to `available` visible characters (see `wrap_line`).
fn push_wrapped_line(result: &mut String, line: &str, available: usize, indent: usize)
    ensures
        final(result)@ == old(result)@ + wrap_line(line@, available as nat, indent as nat),
{
    let ws = split_whitespace(line);
    let ghost wsv = words(line@);
    let ghost start = result@;
    let mut text = String::new();
    let mut line_len: usize = 0;
    let mut i: usize = 0;
    while i < ws.len()
        invariant
            wsv == words(line@),
            ws@.len() == wsv.len(),
            forall|k: int| 0 <= k < ws@.len() ==> #[trigger] ws@[k]@ == wsv[k],
            i <= ws@.len(),
            wrap_scan(wsv.take(i as int), available as nat, indent as nat) == (text@, line_len as nat),
        decreases ws@.len() - i,
    {
        proof {
            assert(wsv.take(i + 1).drop_last() =~= wsv.take(i as int));
        }
        let word = ws[i].as_str();
        let word_len = visible_len(word);
        if line_len == 0 {
            text.append(word);
            line_len = word_len;
        } else if (line_len as u128) + 1 + (word_len as u128) > (available as u128) {
            text.append("\n");
            push_repeat(&mut text, " ", indent);
            text.append(word);
            line_len = word_len;
        } else {
            text.append(" ");
            text.append(word);
            line_len = line_len + 1 + word_len;
        }
        i += 1;
    }
    proof {
        assert(wsv.take(wsv.len() as int) =~= wsv);
    }
    result.append(text.as_str());
}

/// Word-wrap text at the given width, accounting for the current indent
/// (see `word_wrap_spec`).
pub fn word_wrap(text: &str, width: usize, indent: usize) -> (r: String)
    ensures
        r@ == word_wrap_spec(text@, width as nat, indent as nat),
{
    let a: usize = if width > indent { width - indent } else { 0 };
    let available: usize = if a < 20 { 20 } else { a };
    let lines = split_chars(text, '\n');
    let ghost ls = split_on(text@, '\n');
    proof {
        lemma_split_on_nonempty(text@, '\n');
    }
    let mut result = String::new();
    push_wrapped_line(&mut result, lines[0].as_str(), available, indent);
    assert(result@ =~= wrap_lines(ls.take(1), available as nat, indent as nat));
    let mut i: usize = 1;
    while i < lines.len()
        invariant
            ls == split_on(text@, '\n'),
            lines@.len() == ls.len(),
            forall|k: int| 0 <= k < lines@.len() ==> #[trigger] lines@[k]@ == ls[k],
            available == wrap_width(width as nat, indent as nat),
            1 <= i <= lines@.len(),
            result@ == wrap_lines(ls.take(i as int), available as nat, indent as nat),
        decreases lines@.len() - i,
    {
        proof {
            assert(ls.take(i + 1).drop_last() =~= ls.take(i as int));
            assert(ls.take(i + 1).last() == ls[i as int]);
        }
        result.append("\n");
        push_repeat(&mut result, " ", indent);
        push_wrapped_line(&mut result, lines[i].as_str(), available, indent);
        i += 1;
    }
    proof {
        assert(ls.take(ls.len() as int) =~= ls);
    }
    result
}

proof fn lemma_spaces_ws(n: nat)
    ensures
        all_ws(repeat_seq(" "@, n)),
    decreases n,
{
    reveal_strlit(" ");
    if n > 0 {
        lemma_spaces_ws((n - 1) as nat);
        let p = repeat_seq(" "@, (n - 1) as nat);
        assert forall|i: int| 0 <= i < repeat_seq(" "@, n).len() implies crate::text::is_ws(
            #[trigger] repeat_seq(" "@, n)[i],
        ) by {
            if i < p.len() {
                assert(repeat_seq(" "@, n)[i] == p[i]);
            }
        }
    }
}

proof fn lemma_wrap_words(ws: Seq<Seq<char>>, avail: nat, indent: nat)
    requires
        forall|i: int| 0 <= i < ws.len() ==> is_word(#[trigger] ws[i]) && visible_len_spec(ws[i]) > 0,
    ensures
        words(wrap_scan(ws, avail, indent).0) == ws,
        (wrap_scan(ws, avail, indent).1 == 0) == (ws.len() == 0),
    decreases ws.len(),
{
    if ws.len() > 0 {
        let prev = ws.drop_last();
        assert forall|i: int| 0 <= i < prev.len() implies is_word(#[trigger] prev[i]) && visible_len_spec(prev[i]) > 0 by {
            assert(prev[i] == ws[i]);
        }
        lemma_wrap_words(prev, avail, indent);
        let (t, ll) = wrap_scan(prev, avail, indent);
        let w = ws.last();
        assert(is_word(w));
        reveal_strlit(" ");
        reveal_strlit("\n");
        if ll == 0 {
            assert(prev.len() == 0);
            assert(words(t) == prev);
            assert(t =~= Seq::<char>::empty()) by {
                assert(wrap_scan(prev, avail, indent) == (Seq::<char>::empty(), 0nat));
            }
            assert(t + w =~= w);
            lemma_words_single(w);
            assert(seq![w] =~= ws);
        } else if ll + 1 + visible_len_spec(w) > avail {
            let sep = "\n"@ + repeat_seq(" "@, indent);
            lemma_spaces_ws(indent);
            assert(all_ws(sep)) by {
                assert forall|i: int| 0 <= i < sep.len() implies crate::text::is_ws(#[trigger] sep[i]) by {
                    if i > 0 {
                        assert(sep[i] == repeat_seq(" "@, indent)[i - 1]);
                    }
                }
            }
            assert(t + "\n"@ + repeat_seq(" "@, indent) + w =~= t + sep + w);
            lemma_words_append(t, sep, w);
            assert(prev.push(w) =~= ws);
        } else {
            assert(all_ws(" "@));
            lemma_words_append(t, " "@, w);
            assert(prev.push(w) =~= ws);
        }
    }
}

/// Wrapping a line keeps its words, in order: only the whitespace between
/// them changes.  (A word made of escape sequences alone has no visible
/// length; the word after it is joined to it.)
pub proof fn law_wrap_keeps_words(line: Seq<char>, avail: nat, indent: nat)
    requires
        forall|i: int| 0 <= i < words(line).len() ==> visible_len_spec(#[trigger] words(line)[i]) > 0,
    ensures
        words(wrap_line(line, avail, indent)) == words(line),
{
    lemma_words_are_words(line);
    lemma_wrap_words(words(line), avail, indent);
}

/// The words of each of `lines`, one line after the other.
pub open spec fn words_of_lines(lines: Seq<Seq<char>>) -> Seq<Seq<char>>
    decreases lines.len(),
{
    if lines.len() == 0 {
        Seq::empty()
    } else {
        words_of_lines(lines.drop_last()) + words(lines.last())
    }
}

/// Splitting on whitespace goes on from where a finished word left off.
proof fn lemma_words_scan_concat(a: Seq<char>, b: Seq<char>)
    requires
        words_scan(a).1.len() == 0,
    ensures
        words_scan(a + b) == (words_scan(a).0 + words_scan(b).0, words_scan(b).1),
    decreases b.len(),
{
    if b.len() == 0 {
        assert(a + b =~= a);
        assert(words_scan(a).0 + words_scan(b).0 =~= words_scan(a).0);
    } else {
        let b0 = b.drop_last();
        lemma_words_scan_concat(a, b0);
        assert((a + b).drop_last() =~= a + b0);
        assert((a + b).last() == b.last());
        let (d0, c0) = words_scan(b0);
        assert((words_scan(a).0 + d0).push(c0) =~= words_scan(a).0 + d0.push(c0));
    }
}

/// The words of two texts with whitespace between them.
proof fn lemma_words_sep(x: Seq<char>, sep: Seq<char>, y: Seq<char>)
    requires
        sep.len() > 0,
        all_ws(sep),
    ensures
        words(x + sep + y) == words(x) + words(y),
{
    lemma_scan_append_ws(x, sep);
    lemma_words_scan_concat(x + sep, y);
    let (d, c) = words_scan(y);
    if c.len() > 0 {
        assert((words(x) + d).push(c) =~= words(x) + d.push(c));
    }
}

/// Joining the pieces of `s` split on line breaks gives `s` again.
proof fn lemma_split_join(s: Seq<char>)
    ensures
        join(split_on(s, '\n'), "\n"@) == s,
    decreases s.len(),
{
    reveal_strlit("\n");
    lemma_split_on_nonempty(s, '\n');
    if s.len() == 0 {
        assert(join(seq![Seq::<char>::empty()], "\n"@) == Seq::<char>::empty());
    } else {
        let s0 = s.drop_last();
        let c = s.last();
        lemma_split_join(s0);
        lemma_split_on_nonempty(s0, '\n');
        let p = split_on(s0, '\n');
        assert(s =~= s0.push(c));
        if c == '\n' {
            assert(p.push(Seq::<char>::empty()).drop_last() =~= p);
            assert(join(p, "\n"@) + "\n"@ + Seq::<char>::empty() =~= s);
        } else {
            let q = p.update(p.len() - 1, p.last().push(c));
            if p.len() == 1 {
                assert(join(q, "\n"@) == q[0]);
                assert(q[0] =~= s);
            } else {
                assert(q.drop_last() =~= p.drop_last());
                assert(join(p, "\n"@) == join(p.drop_last(), "\n"@) + "\n"@ + p.last());
                assert(join(p.drop_last(), "\n"@) + "\n"@ + p.last().push(c) =~= s);
            }
        }
    }
}

/// The words of lines joined by line breaks are the words of each line.
proof fn lemma_words_join(ls: Seq<Seq<char>>)
    ensures
        words(join(ls, "\n"@)) == words_of_lines(ls),
    decreases ls.len(),
{
    reveal_strlit("\n");
    if ls.len() == 0 {
        assert(words_scan(Seq::<char>::empty()).0.len() == 0);
        assert(words(Seq::<char>::empty()) =~= Seq::<Seq<char>>::empty());
    } else if ls.len() == 1 {
        assert(ls.drop_last() =~= Seq::<Seq<char>>::empty());
        assert(words_of_lines(ls.drop_last()) =~= Seq::<Seq<char>>::empty());
        assert(words_of_lines(ls) =~= words(ls[0]));
    } else {
        lemma_words_join(ls.drop_last());
        assert(all_ws("\n"@));
        lemma_words_sep(join(ls.drop_last(), "\n"@), "\n"@, ls.last());
    }
}

/// Wrapping lines one by one keeps the words of each.
proof fn lemma_words_wrap_lines(ls: Seq<Seq<char>>, avail: nat, indent: nat)
    requires
        forall|i: int| 0 <= i < words_of_lines(ls).len() ==> visible_len_spec(#[trigger] words_of_lines(ls)[i]) > 0,
    ensures
        words(wrap_lines(ls, avail, indent)) == words_of_lines(ls),
    decreases ls.len(),
{
    if ls.len() == 0 {
        assert(words_scan(Seq::<char>::empty()).0.len() == 0);
        assert(words(Seq::<char>::empty()) =~= Seq::<Seq<char>>::empty());
    } else {
        let w0 = words_of_lines(ls.drop_last());
        let wl = words(ls.last());
        assert forall|i: int| 0 <= i < wl.len() implies visible_len_spec(#[trigger] wl[i]) > 0 by {
            assert(words_of_lines(ls)[w0.len() + i] == wl[i]);
        }
        law_wrap_keeps_words(ls.last(), avail, indent);
        if ls.len() == 1 {
            assert(ls.drop_last() =~= Seq::<Seq<char>>::empty());
            assert(w0 =~= Seq::<Seq<char>>::empty());
            assert(ls.last() == ls[0]);
            assert(words_of_lines(ls) =~= wl);
        } else {
            assert forall|i: int| 0 <= i < w0.len() implies visible_len_spec(#[trigger] w0[i]) > 0 by {
                assert(words_of_lines(ls)[i] == w0[i]);
            }
            lemma_words_wrap_lines(ls.drop_last(), avail, indent);
            let sep = "\n"@ + repeat_seq(" "@, indent);
            reveal_strlit("\n");
            lemma_spaces_ws(indent);
            assert(all_ws(sep)) by {
                assert forall|i: int| 0 <= i < sep.len() implies crate::text::is_ws(#[trigger] sep[i]) by {
                    if i > 0 {
                        assert(sep[i] == repeat_seq(" "@, indent)[i - 1]);
                    }
                }
            }
            let x = wrap_lines(ls.drop_last(), avail, indent);
            assert(wrap_lines(ls, avail, indent) =~= x + sep + wrap_line(ls.last(), avail, indent));
            lemma_words_sep(x, sep, wrap_line(ls.last(), avail, indent));
        }
    }
}

/// Word wrapping keeps the words of the text, in order: only the
/// whitespace between them changes, and hard line breaks stay.  (A word
/// made of escape sequences alone has no visible length; the word after it
/// is joined to it.)
pub proof fn law_word_wrap_keeps_words(text: Seq<char>, width: nat, indent: nat)
    requires
        forall|i: int| 0 <= i < words(text).len() ==> visible_len_spec(#[trigger] words(text)[i]) > 0,
    ensures
        words(word_wrap_spec(text, width, indent)) == words(text),
{
    let ls = split_on(text, '\n');
    lemma_split_join(text);
    lemma_words_join(ls);
    lemma_words_wrap_lines(ls, wrap_width(width, indent), indent);
}

// ── Framed lines ────────────────────────────────────────────────────────────

/// Each of `lines` between `pre` and `post`, one after the other.
pub open spec fn framed_lines(lines: Seq<Seq<char>>, pre: Seq<char>, post: Seq<char>) -> Seq<char>
    decreases lines.len(),
{
    if lines.len() == 0 {
        Seq::empty()
    } else {
        framed_lines(lines.drop_last(), pre, post) + pre + lines.last() + post
    }
}

/// Each of `lines` between `pre` and `post`, as a list.
pub open spec fn each_framed(lines: Seq<Seq<char>>, pre: Seq<char>, post: Seq<char>) -> Seq<Seq<char>> {
    Seq::new(lines.len(), |k: int| pre + lines[k] + post)
}

/// Framing keeps every line, in order, each once between `pre` and `post`,
/// and adds nothing else: the framed text is the framed lines one after
/// the other, as long as the lines plus one frame per line.
pub proof fn law_framed_lines_keep_every_line(lines: Seq<Seq<char>>, pre: Seq<char>, post: Seq<char>)
    ensures
        framed_lines(lines, pre, post) == concat_lines(each_framed(lines, pre, post)),
        framed_lines(lines, pre, post).len() == lines.len() * (pre.len() + post.len()) + concat_lines(lines).len(),
    decreases lines.len(),
{
    if lines.len() > 0 {
        let p = lines.drop_last();
        law_framed_lines_keep_every_line(p, pre, post);
        assert(each_framed(lines, pre, post).drop_last() =~= each_framed(p, pre, post));
        assert(each_framed(lines, pre, post).last() == pre + lines.last() + post);
        assert(framed_lines(lines, pre, post) =~= framed_lines(p, pre, post) + (pre + lines.last() + post));
        let c = pre.len() + post.len();
        assert(lines.len() * c == p.len() * c + c) by (nonlinear_arith)
            requires
                lines.len() == p.len() + 1,
        ;
    } else {
        assert(each_framed(lines, pre, post).len() == 0);
    }
}

/// Append each line of `text` (as `str::lines` splits it) between `pre`
/// and `post`.
fn push_framed_lines(out: &mut String, text: &str, pre: &str, post: &str)
    ensures
        final(out)@ == old(out)@ + framed_lines(lines_spec(text@), pre@, post@),
{
    let lines = lines_of(text);
    let ghost ls = lines_spec(text@);
    let mut i: usize = 0;
    while i < lines.len()
        invariant
            ls == lines_spec(text@),
            lines@.len() == ls.len(),
            forall|k: int| 0 <= k < lines@.len() ==> #[trigger] lines@[k]@ == ls[k],
            i <= lines@.len(),
            out@ == old(out)@ + framed_lines(ls.take(i as int), pre@, post@),
        decreases lines@.len() - i,
    {
        proof {
            assert(ls.take(i + 1).drop_last() =~= ls.take(i as int));
        }
        out.append(pre);
        out.append(lines[i].as_str());
        out.append(post);
        i += 1;
        assert(out@ =~= old(out)@ + framed_lines(ls.take(i as int), pre@, post@));
    }
    proof {
        assert(ls.take(ls.len() as int) =~= ls);
    }
}

// ── Code blocks ─────────────────────────────────────────────────────────────

pub open spec fn min_nat(a: nat, b: nat) -> nat {
    if a < b { a } else { b }
}

/// The language label of a code block's top border.
pub open spec fn lang_label(lang: Seq<char>) -> Seq<char> {
    if lang.len() == 0 { Seq::empty() } else { " "@ + lang + " "@ }
}

/// A code block: a dim box (at most 60 wide) with the language on its
/// top border, around the lines of the highlighted code.
pub open spec fn code_block_spec(highlighted: Seq<char>, lang: Seq<char>, width: nat) -> Seq<char> {
    let line = repeat_seq("\u{2500}"@, min_nat(width, 60));
    "\x1b[2m\u{250c}"@ + lang_label(lang) + line + "\u{2510}\x1b[0m\n"@ + framed_lines(
        lines_spec(highlighted),
        "\x1b[2m\u{2502}\x1b[0m "@,
        "\n"@,
    ) + "\x1b[2m\u{2514}"@ + line + "\u{2518}\x1b[0m\n\n"@
}

/// Append a code block whose code was highlighted as `highlighted` (see
/// `code_block_spec`).
fn push_code_block(out: &mut String, highlighted: &str, lang: &str, width: u16)
    ensures
        final(out)@ == old(out)@ + code_block_spec(highlighted@, lang@, width as nat),
{
    let n: usize = if width < 60 { width as usize } else { 60 };
    let ghost line = repeat_seq("\u{2500}"@, n as nat);
    out.append("\x1b[2m\u{250c}");
    if !lang.is_empty() {
        out.append(" ");
        out.append(lang);
        out.append(" ");
    }
    push_repeat(out, "\u{2500}", n);
    out.append("\u{2510}\x1b[0m\n");
    let ghost mid = out@;
    push_framed_lines(out, highlighted, "\x1b[2m\u{2502}\x1b[0m ", "\n");
    out.append("\x1b[2m\u{2514}");
    push_repeat(out, "\u{2500}", n);
    out.append("\u{2518}\x1b[0m\n\n");
    assert(mid =~= old(out)@ + "\x1b[2m\u{250c}"@ + lang_label(lang@) + line + "\u{2510}\x1b[0m\n"@);
    assert(final(out)@ =~= old(out)@ + code_block_spec(highlighted@, lang@, width as nat));
}

// ── Tables ──────────────────────────────────────────────────────────────────

pub open spec fn strings_view(v: Seq<String>) -> Seq<Seq<char>> {
    v.map_values(|s: String| s@)
}

/// The plain text of each node in the run of siblings starting at `k`.
pub open spec fn sibling_texts(ev: Seq<MdEventView>, k: nat) -> Seq<Seq<char>>
    decreases ev.len() - k,
{
    if k >= ev.len() {
        Seq::empty()
    } else {
        match ev[k as int] {
            MdEventView::Close => Seq::empty(),
            MdEventView::Open(_) => {
                proof {
                    lemma_close_scan_bounds(ev, k + 1, 1);
                }
                seq![collect_node(ev, k)] + sibling_texts(ev, node_end(ev, k))
            },
        }
    }
}

/// The rows of a table whose first row opens at `k`: each row the plain
/// text of its cells.
pub open spec fn table_rows(ev: Seq<MdEventView>, k: nat) -> Seq<Seq<Seq<char>>>
    decreases ev.len() - k,
{
    if k >= ev.len() {
        Seq::empty()
    } else {
        match ev[k as int] {
            MdEventView::Close => Seq::empty(),
            MdEventView::Open(_) => {
                proof {
                    lemma_close_scan_bounds(ev, k + 1, 1);
                }
                seq![sibling_texts(ev, k + 1)] + table_rows(ev, node_end(ev, k))
            },
        }
    }
}

pub open spec fn max_nat(a: nat, b: nat) -> nat {
    if a < b { b } else { a }
}

/// The number of columns: the most cells in a row.
pub open spec fn column_count(rows: Seq<Seq<Seq<char>>>) -> nat
    decreases rows.len(),
{
    if rows.len() == 0 {
        0
    } else {
        max_nat(column_count(rows.drop_last()), rows.last().len())
    }
}

/// The width of column `j`: the longest of its cells, in characters.
pub open spec fn column_width(rows: Seq<Seq<Seq<char>>>, j: int) -> nat
    decreases rows.len(),
{
    if rows.len() == 0 {
        0
    } else {
        max_nat(
            column_width(rows.drop_last(), j),
            if 0 <= j < rows.last().len() { rows.last()[j].len() } else { 0 },
        )
    }
}

pub open spec fn column_widths(rows: Seq<Seq<Seq<char>>>) -> Seq<nat> {
    Seq::new(column_count(rows), |j: int| column_width(rows, j))
}

proof fn lemma_column_width_cell(rows: Seq<Seq<Seq<char>>>, i: int, j: int)
    requires
        0 <= i < rows.len(),
        0 <= j < rows[i].len(),
    ensures
        rows[i][j].len() <= column_width(rows, j),
        j < column_count(rows),
    decreases rows.len(),
{
    if i < rows.len() - 1 {
        assert(rows.drop_last()[i] == rows[i]);
        lemma_column_width_cell(rows.drop_last(), i, j);
    }
}

proof fn lemma_column_width_beyond(rows: Seq<Seq<Seq<char>>>, j: int)
    requires
        0 <= j,
        column_count(rows) <= j,
    ensures
        column_width(rows, j) == 0,
    decreases rows.len(),
{
    if rows.len() > 0 {
        lemma_column_width_beyond(rows.drop_last(), j);
    }
}

proof fn lemma_column_width_attained(rows: Seq<Seq<Seq<char>>>, j: int)
    requires
        0 <= j < column_count(rows),
    ensures
        exists|i: int| 0 <= i < rows.len() && j < rows[i].len() && rows[i][j].len() == column_width(rows, j),
    decreases rows.len(),
{
    let p = rows.drop_last();
    let last = rows.last();
    if j < last.len() && last[j].len() >= column_width(p, j) {
        assert(rows[rows.len() - 1] == last);
    } else if j < column_count(p) {
        lemma_column_width_attained(p, j);
        let i = choose|i: int| 0 <= i < p.len() && j < p[i].len() && p[i][j].len() == column_width(p, j);
        assert(rows[i] == p[i]);
    } else {
        lemma_column_width_beyond(p, j);
        assert(j < last.len());
        assert(rows[rows.len() - 1] == last);
    }
}

/// Cell `j` of row `i` is no wider than its column.
pub open spec fn cell_fits(rows: Seq<Seq<Seq<char>>>, i: int, j: int) -> bool {
    j < column_widths(rows).len() && rows[i][j].len() <= column_widths(rows)[j]
}

/// Column `j` is as wide as one of its cells.
pub open spec fn width_attained(rows: Seq<Seq<Seq<char>>>, j: int) -> bool {
    exists|i: int| 0 <= i < rows.len() && j < rows[i].len() && rows[i][j].len() == column_widths(rows)[j]
}

/// Every column is as wide as its widest cell: no cell of any row is
/// longer than its column, and each column's width is the length of one of
/// its cells.
pub proof fn law_columns_fit_cells(rows: Seq<Seq<Seq<char>>>)
    ensures
        forall|i: int, j: int| 0 <= i < rows.len() && 0 <= j < rows[i].len() ==> #[trigger] cell_fits(rows, i, j),
        forall|j: int| 0 <= j < column_widths(rows).len() ==> #[trigger] width_attained(rows, j),
{
    assert forall|i: int, j: int| 0 <= i < rows.len() && 0 <= j < rows[i].len() implies #[trigger] cell_fits(
        rows,
        i,
        j,
    ) by {
        lemma_column_width_cell(rows, i, j);
        assert(column_widths(rows)[j] == column_width(rows, j));
    }
    assert forall|j: int| 0 <= j < column_widths(rows).len() implies #[trigger] width_attained(rows, j) by {
        lemma_column_width_attained(rows, j);
        assert(column_widths(rows)[j] == column_width(rows, j));
    }
}

/// `items` with `sep` between each two of them.
pub open spec fn join(items: Seq<Seq<char>>, sep: Seq<char>) -> Seq<char>
    decreases items.len(),
{
    if items.len() == 0 {
        Seq::empty()
    } else if items.len() == 1 {
        items[0]
    } else {
        join(items.drop_last(), sep) + sep + items.last()
    }
}

/// A horizontal rule over the columns, with `sep` where columns meet.
pub open spec fn table_rule(widths: Seq<nat>, sep: Seq<char>) -> Seq<char> {
    join(Seq::new(widths.len(), |j: int| repeat_seq("\u{2500}"@, widths[j] + 2)), sep)
}

/// `cell` padded with spaces to `width` characters.
pub open spec fn pad_cell(cell: Seq<char>, width: nat) -> Seq<char> {
    if cell.len() < width { cell + repeat_seq(" "@, (width - cell.len()) as nat) } else { cell }
}

/// One cell between spaces, in bold in the header row.
pub open spec fn cell_spec(cell: Seq<char>, width: nat, header: bool) -> Seq<char> {
    if header {
        " \x1b[1m"@ + pad_cell(cell, width) + "\x1b[0m "@
    } else {
        " "@ + pad_cell(cell, width) + " "@
    }
}

/// One row between dim vertical bars.
pub open spec fn row_spec(row: Seq<Seq<char>>, widths: Seq<nat>, header: bool) -> Seq<char> {
    "\x1b[2m\u{2502}\x1b[0m"@ + join(
        Seq::new(row.len(), |j: int| cell_spec(row[j], widths[j], header)),
        "\x1b[2m\u{2502}\x1b[0m"@,
    ) + "\x1b[2m\u{2502}\x1b[0m\n"@
}

pub open spec fn body_rows(rows: Seq<Seq<Seq<char>>>, widths: Seq<nat>) -> Seq<char>
    decreases rows.len(),
{
    if rows.len() == 0 {
        Seq::empty()
    } else {
        body_rows(rows.drop_last(), widths) + row_spec(rows.last(), widths, false)
    }
}

/// A table in a dim box: the header row in bold under the top border and
/// over a rule, then the other rows; each column as wide as its widest
/// cell.  Nothing for a table without rows.
pub open spec fn table_spec(rows: Seq<Seq<Seq<char>>>) -> Seq<char> {
    if rows.len() == 0 {
        Seq::empty()
    } else {
        let widths = column_widths(rows);
        "\x1b[2m\u{250c}"@ + table_rule(widths, "\u{252c}"@) + "\u{2510}\x1b[0m\n"@ + row_spec(rows[0], widths, true)
            + "\x1b[2m\u{251c}"@ + table_rule(widths, "\u{253c}"@) + "\u{2524}\x1b[0m\n"@ + body_rows(
            rows.skip(1),
            widths,
        ) + "\x1b[2m\u{2514}"@ + table_rule(widths, "\u{2534}"@) + "\u{2518}\x1b[0m\n\n"@
    }
}

/// The plain text of each node in the run of siblings at `k`, and where
/// the run's closing ends.
fn collect_siblings(ev: &Vec<MdEvent>, k0: usize) -> (r: (Vec<String>, usize))
    requires
        k0 <= ev@.len(),
    ensures
        strings_view(r.0@) == sibling_texts(events_view(ev@), k0 as nat),
        r.1 == children_end(events_view(ev@), k0 as nat),
        k0 < r.1 <= ev@.len() || (k0 == ev@.len() && r.1 == k0),
{
    let ghost evs = events_view(ev@);
    let mut texts: Vec<String> = Vec::new();
    let mut k = k0;
    loop
        invariant
            evs == events_view(ev@),
            k0 <= k <= ev@.len(),
            strings_view(texts@) + sibling_texts(evs, k as nat) == sibling_texts(evs, k0 as nat),
            children_end(evs, k as nat) == children_end(evs, k0 as nat),
        decreases ev@.len() - k,
    {
        if k >= ev.len() {
            assert(strings_view(texts@) =~= sibling_texts(evs, k0 as nat));
            return (texts, k);
        }
        match &ev[k] {
            MdEvent::Close => {
                assert(strings_view(texts@) =~= sibling_texts(evs, k0 as nat));
                return (texts, k + 1);
            },
            MdEvent::Open(_) => {
                let mut t = String::new();
                let e = collect_text(ev, k, &mut t);
                let ghost before = strings_view(texts@);
                texts.push(t);
                assert(strings_view(texts@) =~= before.push(collect_node(evs, k as nat)));
                assert(strings_view(texts@) + sibling_texts(evs, e as nat) =~= before + sibling_texts(evs, k as nat));
                k = e;
            },
        }
    }
}

pub open spec fn rows_view(rows: Seq<Vec<String>>) -> Seq<Seq<Seq<char>>> {
    rows.map_values(|r: Vec<String>| strings_view(r@))
}

/// The rows of the table opened at `pos`, and where the table ends.
fn collect_rows(ev: &Vec<MdEvent>, pos: usize) -> (r: (Vec<Vec<String>>, usize))
    requires
        pos < ev@.len(),
    ensures
        rows_view(r.0@) == table_rows(events_view(ev@), (pos + 1) as nat),
        r.1 == node_end(events_view(ev@), pos as nat),
        pos < r.1 <= ev@.len(),
{
    let ghost evs = events_view(ev@);
    proof {
        lemma_node_end_children(evs, (pos + 1) as nat);
        lemma_close_scan_bounds(evs, (pos + 1) as nat, 1);
    }
    let _len = ev.len();
    let mut rows: Vec<Vec<String>> = Vec::new();
    let mut k = pos + 1;
    loop
        invariant
            evs == events_view(ev@),
            pos < k <= ev@.len(),
            rows_view(rows@) + table_rows(evs, k as nat) == table_rows(evs, (pos + 1) as nat),
            children_end(evs, k as nat) == children_end(evs, (pos + 1) as nat),
            node_end(evs, pos as nat) == children_end(evs, (pos + 1) as nat),
        decreases ev@.len() - k,
    {
        if k >= ev.len() {
            assert(rows_view(rows@) =~= table_rows(evs, (pos + 1) as nat));
            return (rows, k);
        }
        match &ev[k] {
            MdEvent::Close => {
                assert(rows_view(rows@) =~= table_rows(evs, (pos + 1) as nat));
                return (rows, k + 1);
            },
            MdEvent::Open(_) => {
                proof {
                    lemma_node_end_children(evs, (k + 1) as nat);
                }
                let (cells, e) = collect_siblings(ev, k + 1);
                let ghost before = rows_view(rows@);
                rows.push(cells);
                assert(rows_view(rows@) =~= before.push(sibling_texts(evs, (k + 1) as nat)));
                assert(rows_view(rows@) + table_rows(evs, e as nat) =~= before + table_rows(evs, k as nat));
                k = e;
            },
        }
    }
}

proof fn lemma_column_count(rows: Seq<Seq<Seq<char>>>, i: int)
    requires
        0 <= i < rows.len(),
    ensures
        rows[i].len() <= column_count(rows),
    decreases rows.len(),
{
    if i < rows.len() - 1 {
        lemma_column_count(rows.drop_last(), i);
    }
}

proof fn lemma_join_take(items: Seq<Seq<char>>, sep: Seq<char>, j: int)
    requires
        0 <= j < items.len(),
    ensures
        join(items.take(j + 1), sep) == if j == 0 {
            items[0]
        } else {
            join(items.take(j), sep) + sep + items[j]
        },
{
    if j > 0 {
        assert(items.take(j + 1).drop_last() =~= items.take(j));
    }
}

/// The width of each column of `rows` (see `column_widths`).
fn table_widths(rows: &Vec<Vec<String>>) -> (w: Vec<usize>)
    ensures
        w@.len() == column_widths(rows_view(rows@)).len(),
        forall|j: int| 0 <= j < w@.len() ==> #[trigger] w@[j] as nat == column_widths(rows_view(rows@))[j],
{
    let ghost rv = rows_view(rows@);
    let mut cols: usize = 0;
    let mut i: usize = 0;
    while i < rows.len()
        invariant
            rv == rows_view(rows@),
            i <= rows@.len(),
            cols == column_count(rv.take(i as int)),
        decreases rows@.len() - i,
    {
        assert(rv.take(i + 1).drop_last() =~= rv.take(i as int));
        if rows[i].len() > cols {
            cols = rows[i].len();
        }
        i += 1;
    }
    assert(rv.take(rows@.len() as int) =~= rv);
    let mut widths: Vec<usize> = Vec::new();
    while widths.len() < cols
        invariant
            widths@.len() <= cols,
            forall|j: int| 0 <= j < widths@.len() ==> #[trigger] widths@[j] == 0,
        decreases cols - widths@.len(),
    {
        widths.push(0);
    }
    assert(forall|j: int| 0 <= j < cols ==> column_width(rv.take(0), j) == 0);
    let mut i: usize = 0;
    while i < rows.len()
        invariant
            rv == rows_view(rows@),
            i <= rows@.len(),
            cols == column_count(rv),
            widths@.len() == cols,
            forall|j: int| 0 <= j < cols ==> #[trigger] widths@[j] as nat == column_width(rv.take(i as int), j),
        decreases rows@.len() - i,
    {
        assert(rv.take(i + 1).drop_last() =~= rv.take(i as int));
        proof {
            lemma_column_count(rv, i as int);
        }
        let row = &rows[i];
        let mut j: usize = 0;
        while j < row.len()
            invariant
                rv == rows_view(rows@),
                i < rows@.len(),
                row == rows@[i as int],
                row@.len() <= cols,
                widths@.len() == cols,
                j <= row@.len(),
                forall|x: int| 0 <= x < j ==> #[trigger] widths@[x] as nat == column_width(rv.take(i + 1), x),
                forall|x: int| j <= x < cols ==> #[trigger] widths@[x] as nat == column_width(rv.take(i as int), x),
            decreases row@.len() - j,
        {
            let n = chars_of(row[j].as_str()).len();
            assert(rv.take(i + 1).drop_last() =~= rv.take(i as int));
            assert(rv[i as int][j as int] == row@[j as int]@);
            assert(rv.take(i + 1).last() == rv[i as int]);
            assert(column_width(rv.take(i + 1), j as int) == max_nat(
                column_width(rv.take(i as int), j as int),
                row@[j as int]@.len(),
            ));
            if n > widths[j] {
                widths.set(j, n);
            }
            assert(widths@[j as int] as nat == column_width(rv.take(i + 1), j as int));
            j += 1;
        }
        assert forall|x: int| 0 <= x < cols implies #[trigger] widths@[x] as nat == column_width(rv.take(i + 1), x) by {
            assert(rv.take(i + 1).drop_last() =~= rv.take(i as int));
        }
        i += 1;
    }
    assert(rv.take(rows@.len() as int) =~= rv);
    widths
}

/// Append a horizontal rule over the columns (see `table_rule`).
fn push_rule(out: &mut String, widths: &Vec<usize>, sep: &str, ws: Ghost<Seq<nat>>)
    requires
        widths@.len() == ws@.len(),
        forall|j: int| 0 <= j < ws@.len() ==> #[trigger] widths@[j] as nat == ws@[j],
    ensures
        final(out)@ == old(out)@ + table_rule(ws@, sep@),
{
    let ghost items = Seq::new(ws@.len(), |j: int| repeat_seq("\u{2500}"@, ws@[j] + 2));
    let mut j: usize = 0;
    assert(join(items.take(0), sep@) =~= Seq::<char>::empty());
    while j < widths.len()
        invariant
            widths@.len() == ws@.len(),
            forall|x: int| 0 <= x < ws@.len() ==> #[trigger] widths@[x] as nat == ws@[x],
            items == Seq::new(ws@.len(), |x: int| repeat_seq("\u{2500}"@, ws@[x] + 2)),
            j <= widths@.len(),
            out@ == old(out)@ + join(items.take(j as int), sep@),
        decreases widths@.len() - j,
    {
        proof {
            lemma_join_take(items, sep@, j as int);
        }
        if j > 0 {
            out.append(sep);
        }
        let ghost before = out@;
        push_repeat(out, "\u{2500}", widths[j]);
        out.append("\u{2500}");
        out.append("\u{2500}");
        assert(repeat_seq("\u{2500}"@, ws@[j as int] + 2) == repeat_seq("\u{2500}"@, ws@[j as int] + 1) + "\u{2500}"@);
        assert(repeat_seq("\u{2500}"@, ws@[j as int] + 1) == repeat_seq("\u{2500}"@, ws@[j as int]) + "\u{2500}"@);
        assert(out@ =~= before + repeat_seq("\u{2500}"@, ws@[j as int] + 2));
        j += 1;
    }
    assert(items.take(items.len() as int) =~= items);
}

/// Append a cell (see `cell_spec`).
fn push_cell(out: &mut String, cell: &str, width: usize, header: bool)
    ensures
        final(out)@ == old(out)@ + cell_spec(cell@, width as nat, header),
{
    if header {
        out.append(" \x1b[1m");
    } else {
        out.append(" ");
    }
    out.append(cell);
    let n = crate::text::chars_of(cell).len();
    if n < width {
        push_repeat(out, " ", width - n);
    }
    if header {
        out.append("\x1b[0m ");
    } else {
        out.append(" ");
    }
    assert(final(out)@ =~= old(out)@ + cell_spec(cell@, width as nat, header));
}

/// Append a row (see `row_spec`).
fn push_row(out: &mut String, row: &Vec<String>, widths: &Vec<usize>, header: bool, ws: Ghost<Seq<nat>>)
    requires
        row@.len() <= widths@.len(),
        widths@.len() == ws@.len(),
        forall|j: int| 0 <= j < ws@.len() ==> #[trigger] widths@[j] as nat == ws@[j],
    ensures
        final(out)@ == old(out)@ + row_spec(strings_view(row@), ws@, header),
{
    let ghost rs = strings_view(row@);
    let ghost items = Seq::new(rs.len(), |j: int| cell_spec(rs[j], ws@[j], header));
    out.append("\x1b[2m\u{2502}\x1b[0m");
    let ghost start = out@;
    let mut j: usize = 0;
    assert(join(items.take(0), "\x1b[2m\u{2502}\x1b[0m"@) =~= Seq::<char>::empty());
    while j < row.len()
        invariant
            row@.len() <= widths@.len(),
            widths@.len() == ws@.len(),
            forall|x: int| 0 <= x < ws@.len() ==> #[trigger] widths@[x] as nat == ws@[x],
            rs == strings_view(row@),
            items == Seq::new(rs.len(), |x: int| cell_spec(rs[x], ws@[x], header)),
            j <= row@.len(),
            out@ == start + join(items.take(j as int), "\x1b[2m\u{2502}\x1b[0m"@),
        decreases row@.len() - j,
    {
        proof {
            lemma_join_take(items, "\x1b[2m\u{2502}\x1b[0m"@, j as int);
        }
        if j > 0 {
            out.append("\x1b[2m\u{2502}\x1b[0m");
        }
        push_cell(out, row[j].as_str(), widths[j], header);
        j += 1;
    }
    assert(items.take(items.len() as int) =~= items);
    out.append("\x1b[2m\u{2502}\x1b[0m\n");
}

/// Append the table opened at `pos` (see `table_spec`); returns where it
/// ends.
#[verifier::rlimit(80)]
#[verifier::spinoff_prover]
fn render_table(ev: &Vec<MdEvent>, pos: usize, out: &mut String) -> (end: usize)
    requires
        pos < ev@.len(),
    ensures
        final(out)@ == old(out)@ + table_spec(table_rows(events_view(ev@), (pos + 1) as nat)),
        end == node_end(events_view(ev@), pos as nat),
        pos < end <= ev@.len(),
{
    let (rows, end) = collect_rows(ev, pos);
    let ghost rv = rows_view(rows@);
    if rows.len() == 0 {
        return end;
    }
    let widths = table_widths(&rows);
    let ghost ws = column_widths(rv);
    proof {
        lemma_column_count(rv, 0);
    }
    out.append("\x1b[2m\u{250c}");
    push_rule(out, &widths, "\u{252c}", Ghost(ws));
    out.append("\u{2510}\x1b[0m\n");
    assert(rv[0] == strings_view(rows@[0]@));
    push_row(out, &rows[0], &widths, true, Ghost(ws));
    out.append("\x1b[2m\u{251c}");
    push_rule(out, &widths, "\u{253c}", Ghost(ws));
    out.append("\u{2524}\x1b[0m\n");
    let ghost mid = out@;
    let mut i: usize = 1;
    assert(rv.skip(1).take(0) =~= Seq::<Seq<Seq<char>>>::empty());
    while i < rows.len()
        invariant
            rv == rows_view(rows@),
            ws == column_widths(rv),
            widths@.len() == ws.len(),
            forall|j: int| 0 <= j < ws.len() ==> #[trigger] widths@[j] as nat == ws[j],
            1 <= i <= rows@.len(),
            out@ == mid + body_rows(rv.skip(1).take(i - 1), ws),
        decreases rows@.len() - i,
    {
        proof {
            lemma_column_count(rv, i as int);
            assert(rv.skip(1).take(i as int).drop_last() =~= rv.skip(1).take(i - 1));
        }
        push_row(out, &rows[i], &widths, false, Ghost(ws));
        i += 1;
    }
    assert(rv.skip(1).take(rows@.len() - 1) =~= rv.skip(1));
    out.append("\x1b[2m\u{2514}");
    push_rule(out, &widths, "\u{2534}", Ghost(ws));
    out.append("\u{2518}\x1b[0m\n\n");
    assert(final(out)@ =~= old(out)@ + table_spec(rv));
    end
}

// ── Documents ───────────────────────────────────────────────────────────────

/// What the caller loaded for the node at some position: the decoded
/// image of a markdown image, the diagram drawn for a Mermaid code block,
/// the error that loading gave, or nothing.
pub enum Media {
    Image(RgbaImage),
    Diagram(RgbaImage),
    Failed(String),
    Absent,
}

/// Every image and diagram is whole and less than `u32::MAX` pixels high,
/// and diagrams come with a cell width to size them by.
pub open spec fn media_ok(media: Seq<Media>, cell_pixel_width: u32) -> bool {
    forall|i: int|
        0 <= i < media.len() ==> match #[trigger] media[i] {
            Media::Image(img) => img.wf() && img.height < u32::MAX,
            Media::Diagram(img) => img.wf() && img.height < u32::MAX && cell_pixel_width > 0,
            _ => true,
        }
}

/// A parsed document with what rendering it needs from outside: media and
/// highlighted code, each by event position.
pub struct ParsedDoc {
    pub events: Vec<MdEvent>,
    pub media: Vec<Media>,
    pub highlights: Vec<String>,
}

/// The inputs of rendering, as values.
pub struct DocCtx {
    pub ev: Seq<MdEventView>,
    pub media: Seq<Media>,
    pub hl: Seq<Seq<char>>,
    pub config: Config,
}

pub open spec fn ctx(d: ParsedDoc, config: Config) -> DocCtx {
    DocCtx { ev: events_view(d.events@), media: d.media@, hl: strings_view(d.highlights@), config }
}

/// Rendering state: the text so far, the warnings, and the images captured
/// for the Kitty pager.
pub struct RenderView {
    pub out: Seq<char>,
    pub warnings: Seq<Seq<char>>,
    pub images: Seq<KittyImageView>,
}

pub open spec fn state_view(out: Seq<char>, warnings: Seq<String>, store: KittyImageStore) -> RenderView {
    RenderView { out, warnings: strings_view(warnings), images: images_view(store.images@) }
}

pub open spec fn with_out(st: RenderView, out: Seq<char>) -> RenderView {
    RenderView { out, ..st }
}

pub open spec fn media_at(c: DocCtx, pos: nat) -> Media {
    if pos < c.media.len() { c.media[pos as int] } else { Media::Absent }
}

/// The highlighted text of the code block at `pos` (the code itself when
/// none was supplied).
pub open spec fn hl_at(c: DocCtx, pos: nat, code: Seq<char>) -> Seq<char> {
    if pos < c.hl.len() { c.hl[pos as int] } else { code }
}

/// The language of a code block: the first word of its info string.
pub open spec fn first_word(info: Seq<char>) -> Seq<char> {
    if words(info).len() > 0 { words(info)[0] } else { Seq::empty() }
}

/// A heading: level 1 boxed by double rules, level 2 underlined (rules as
/// long as the text in characters plus a margin, at most the width), levels 3
/// and 4 with their hashes, the rest in bold.
pub open spec fn heading_spec(level: u8, text: Seq<char>, width: nat) -> Seq<char> {
    if level == 1 {
        let line = repeat_seq("\u{2550}"@, min_nat(width, text.len() + 4));
        "\n\x1b[1;34m"@ + line + "\x1b[0m\n"@ + "\x1b[1;34m  "@ + text + "\x1b[0m\n"@ + "\x1b[1;34m"@ + line
            + "\x1b[0m\n\n"@
    } else if level == 2 {
        let line = repeat_seq("\u{2500}"@, min_nat(width, text.len() + 2));
        "\n\x1b[1;36m"@ + text + "\x1b[0m\n"@ + "\x1b[36m"@ + line + "\x1b[0m\n\n"@
    } else if level == 3 {
        "\n\x1b[1;33m### "@ + text + "\x1b[0m\n\n"@
    } else if level == 4 {
        "\n\x1b[1m#### "@ + text + "\x1b[0m\n\n"@
    } else {
        "\n\x1b[1m"@ + text + "\x1b[0m\n\n"@
    }
}

/// An SGR escape with the given parameters.
pub open spec fn sgr(params: Seq<char>) -> Seq<char> {
    seq!['\x1b', '['] + params + seq!['m']
}

pub open spec fn sgr_param(c: char) -> bool {
    is_digit(c) || c == ';'
}

proof fn lemma_sgr_params(p: Seq<char>)
    requires
        p.len() <= 4,
        p.len() > 0 ==> sgr_param(p[0]),
        p.len() > 1 ==> sgr_param(p[1]),
        p.len() > 2 ==> sgr_param(p[2]),
        p.len() > 3 ==> sgr_param(p[3]),
    ensures
        forall|i: int| 0 <= i < p.len() ==> is_digit(#[trigger] p[i]) || p[i] == ';',
{
    assert forall|i: int| 0 <= i < p.len() implies is_digit(#[trigger] p[i]) || p[i] == ';' by {
        if i == 0 {
        } else if i == 1 {
        } else if i == 2 {
        } else {
        }
    }
}

/// Reading an SGR escape in the text state, then plain text: the text state.
proof fn lemma_sgr_then_plain(x: Seq<char>, params: Seq<char>, plain: Seq<char>)
    requires
        ansi_scan(x).1 == 0,
        forall|i: int| 0 <= i < params.len() ==> is_digit(#[trigger] params[i]) || params[i] == ';',
        no_esc(plain),
    ensures
        ansi_scan(x + sgr(params) + plain).1 == 0,
{
    lemma_scan_sgr(x, params);
    lemma_scan_plain(x + sgr(params), plain);
}

/// Every heading shows its text: with the escape sequences taken out, the
/// output of a heading of any level holds its text (for text without
/// escape characters of its own).
pub proof fn law_heading_shows_text(level: u8, text: Seq<char>, width: nat)
    requires
        no_esc(text),
    ensures
        contains_seq(strip_ansi_spec(heading_spec(level, text, width)), text),
{
    reveal_strlit("\n\x1b[1;34m");
    reveal_strlit("\x1b[0m\n");
    reveal_strlit("\x1b[1;34m  ");
    reveal_strlit("\x1b[1;34m");
    reveal_strlit("\x1b[0m\n\n");
    reveal_strlit("\n\x1b[1;36m");
    reveal_strlit("\x1b[36m");
    reveal_strlit("\n\x1b[1;33m### ");
    reveal_strlit("\n\x1b[1m#### ");
    reveal_strlit("\n\x1b[1m");
    reveal_strlit("\u{2550}");
    let e = Seq::<char>::empty();
    assert(ansi_scan(e) == (e, 0u8));
    let nl = seq!['\n'];
    assert(no_esc(nl));
    assert(no_esc(e));
    let p134 = seq!['1', ';', '3', '4'];
    let p136 = seq!['1', ';', '3', '6'];
    let p133 = seq!['1', ';', '3', '3'];
    let p1 = seq!['1'];
    lemma_sgr_params(p134);
    lemma_sgr_params(p136);
    lemma_sgr_params(p133);
    lemma_sgr_params(p1);
    lemma_scan_plain(e, nl);
    assert(e + nl =~= nl);
    if level == 1 {
        let line = repeat_seq("\u{2550}"@, min_nat(width, text.len() + 4));
        assert(no_esc("\u{2550}"@));
        lemma_repeat_no_esc("\u{2550}"@, min_nat(width, text.len() + 4));
        lemma_sgr_then_plain(nl, p134, line);
        let x1 = nl + sgr(p134) + line;
        lemma_sgr_params(seq!['0']);
        lemma_sgr_then_plain(x1, seq!['0'], nl);
        let x2 = x1 + sgr(seq!['0']) + nl;
        let sp = seq![' ', ' '];
        assert(no_esc(sp));
        lemma_sgr_then_plain(x2, p134, sp);
        let x3 = x2 + sgr(p134) + sp;
        let y = "\x1b[0m\n"@ + "\x1b[1;34m"@ + line + "\x1b[0m\n\n"@;
        assert(heading_spec(level, text, width) =~= x3 + text + y);
        lemma_scan_shows(x3, text, y);
    } else if level == 2 {
        lemma_sgr_then_plain(nl, p136, e);
        let x = nl + sgr(p136) + e;
        let y = "\x1b[0m\n"@ + "\x1b[36m"@ + repeat_seq("\u{2500}"@, min_nat(width, text.len() + 2)) + "\x1b[0m\n\n"@;
        assert(heading_spec(level, text, width) =~= x + text + y);
        lemma_scan_shows(x, text, y);
    } else if level == 3 {
        let h = seq!['#', '#', '#', ' '];
        assert(no_esc(h));
        lemma_sgr_then_plain(nl, p133, h);
        let x = nl + sgr(p133) + h;
        let y = "\x1b[0m\n\n"@;
        assert(heading_spec(level, text, width) =~= x + text + y);
        lemma_scan_shows(x, text, y);
    } else if level == 4 {
        let h = seq!['#', '#', '#', '#', ' '];
        assert(no_esc(h));
        lemma_sgr_then_plain(nl, p1, h);
        let x = nl + sgr(p1) + h;
        let y = "\x1b[0m\n\n"@;
        assert(heading_spec(level, text, width) =~= x + text + y);
        lemma_scan_shows(x, text, y);
    } else {
        lemma_sgr_then_plain(nl, p1, e);
        let x = nl + sgr(p1) + e;
        let y = "\x1b[0m\n\n"@;
        assert(heading_spec(level, text, width) =~= x + text + y);
        lemma_scan_shows(x, text, y);
    }
}

/// A paragraph: indented, word-wrapped, and followed by an empty line
/// unless it is in a tight list.
pub open spec fn paragraph_spec(inline: Seq<char>, width: nat, indent: nat, tight: bool) -> Seq<char> {
    repeat_seq(" "@, indent) + word_wrap_spec(inline, width, indent) + "\n"@ + if tight {
        Seq::empty()
    } else {
        "\n"@
    }
}

pub open spec fn quote_pre() -> Seq<char> {
    "\x1b[2m\u{2502}\x1b[0m \x1b[3m"@
}

pub open spec fn quote_post() -> Seq<char> {
    "\x1b[0m\n"@
}

pub open spec fn rule_spec(width: nat) -> Seq<char> {
    "\x1b[2m"@ + repeat_seq("\u{2500}"@, width) + "\x1b[0m\n\n"@
}

pub open spec fn bullet_spec(ordered: bool, counter: nat) -> Seq<char> {
    if ordered { dec(counter) + "."@ } else { "\u{2022}"@ }
}

pub open spec fn mermaid_hint() -> Seq<char> {
    "\x1b[2m[Install mmdc to render Mermaid diagrams: npm install -g @mermaid-js/mermaid-cli]\x1b[0m\n\n"@
}

/// A diagram that could not be shown: a warning, and its source as an
/// unhighlighted code block with a hint on how to get diagrams.
pub open spec fn mermaid_failed(c: DocCtx, pos: nat, literal: Seq<char>, st: RenderView, err: Seq<char>) -> RenderView {
    RenderView {
        out: st.out + code_block_spec(hl_at(c, pos, literal), Seq::empty(), c.config.width as nat) + mermaid_hint(),
        warnings: st.warnings.push("mdcat: mermaid render failed: "@ + err),
        images: st.images,
    }
}

/// A fenced code block: a `mermaid` block is shown as its diagram when
/// diagrams are on and one was supplied; the rest as a code block.
pub open spec fn code_block_node(c: DocCtx, pos: nat, info: Seq<char>, literal: Seq<char>, st: RenderView) -> RenderView {
    let lang = first_word(info);
    let plain = with_out(st, st.out + code_block_spec(hl_at(c, pos, literal), lang, c.config.width as nat));
    if lang == "mermaid"@ && c.config.mermaid {
        match media_at(c, pos) {
            Media::Diagram(img) => {
                let (r, imgs) = dynamic_image_spec(img, c.config, Some(diagram_cols(img.width, c.config)), st.images);
                match r {
                    Ok(s) => RenderView { out: st.out + s, images: imgs, ..st },
                    Err(e) => mermaid_failed(c, pos, literal, RenderView { images: imgs, ..st }, e),
                }
            },
            Media::Failed(e) => mermaid_failed(c, pos, literal, st, e@),
            _ => plain,
        }
    } else {
        plain
    }
}

pub open spec fn alt_text(alt: Seq<char>) -> Seq<char> {
    "\x1b[2m[image: "@ + alt + "]\x1b[0m"@
}

pub open spec fn image_failed(st: RenderView, url: Seq<char>, err: Seq<char>, alt: Seq<char>) -> RenderView {
    RenderView {
        out: st.out + alt_text(alt),
        warnings: st.warnings.push("mdcat: image render failed ("@ + url + "): "@ + err),
        images: st.images,
    }
}

/// An image: drawn when images are on and one was supplied, else (or when
/// drawing fails, with a warning) its alt text.
pub open spec fn image_node(c: DocCtx, pos: nat, url: Seq<char>, st: RenderView) -> RenderView {
    let alt = collect_node(c.ev, pos);
    if !c.config.images {
        with_out(st, st.out + alt_text(alt))
    } else {
        match media_at(c, pos) {
            Media::Image(img) => {
                let (r, imgs) = dynamic_image_spec(img, c.config, image_max_cols(img.width, c.config), st.images);
                match r {
                    Ok(s) => RenderView { out: st.out + s, images: imgs, ..st },
                    Err(e) => image_failed(RenderView { images: imgs, ..st }, url, e, alt),
                }
            },
            Media::Failed(e) => image_failed(st, url, e@, alt),
            _ => with_out(st, st.out + alt_text(alt)),
        }
    }
}

/// Rendering the inline node opened at `pos`.
pub open spec fn inline_node(c: DocCtx, pos: nat, st: RenderView) -> RenderView
    decreases c.ev.len() - pos, 0nat,
{
    if pos >= c.ev.len() {
        st
    } else {
        match c.ev[pos as int] {
            MdEventView::Close => st,
            MdEventView::Open(kind) => match kind {
                MdKindView::Text(t) => with_out(st, st.out + t),
                MdKindView::SoftBreak => with_out(st, st.out + " "@),
                MdKindView::LineBreak => with_out(st, st.out + "\n"@),
                MdKindView::Strong => {
                    let s = inline_children(c, pos + 1, with_out(st, st.out + "\x1b[1m"@));
                    with_out(s, s.out + "\x1b[0m"@)
                },
                MdKindView::Emph => {
                    let s = inline_children(c, pos + 1, with_out(st, st.out + "\x1b[3m"@));
                    with_out(s, s.out + "\x1b[0m"@)
                },
                MdKindView::Strikethrough => {
                    let s = inline_children(c, pos + 1, with_out(st, st.out + "\x1b[9m"@));
                    with_out(s, s.out + "\x1b[0m"@)
                },
                MdKindView::Code(t) => with_out(st, st.out + "\x1b[48;5;236m\x1b[96m "@ + t + " \x1b[0m"@),
                MdKindView::Link { url } => {
                    let label = inline_children(c, pos + 1, with_out(st, Seq::empty()));
                    with_out(label, st.out + osc8_link_spec(url, label.out))
                },
                MdKindView::Image { url } => image_node(c, pos, url, st),
                MdKindView::TaskItem { symbol } => inline_children(
                    c,
                    pos + 1,
                    with_out(st, st.out + (if symbol is Some { "\u{2611} "@ } else { "\u{2610} "@ })),
                ),
                _ => inline_children(c, pos + 1, st),
            },
        }
    }
}

/// Rendering the run of sibling inline nodes starting at `k`.
pub open spec fn inline_children(c: DocCtx, k: nat, st: RenderView) -> RenderView
    decreases c.ev.len() - k, 1nat,
{
    if k >= c.ev.len() {
        st
    } else {
        match c.ev[k as int] {
            MdEventView::Close => st,
            MdEventView::Open(_) => {
                proof {
                    lemma_close_scan_bounds(c.ev, k + 1, 1);
                }
                inline_children(c, node_end(c.ev, k), inline_node(c, k, st))
            },
        }
    }
}

/// Rendering the block node opened at `pos`, indented by `indent`;
/// `tight` when it is in a tight list.
pub open spec fn block_node(c: DocCtx, pos: nat, indent: nat, tight: bool, st: RenderView) -> RenderView
    decreases c.ev.len() - pos, 0nat,
{
    if pos >= c.ev.len() {
        st
    } else {
        match c.ev[pos as int] {
            MdEventView::Close => st,
            MdEventView::Open(kind) => match kind {
                MdKindView::Document => block_children(c, pos + 1, indent, false, st),
                MdKindView::Heading { level } => with_out(
                    st,
                    st.out + heading_spec(level, collect_node(c.ev, pos), c.config.width as nat),
                ),
                MdKindView::Paragraph => {
                    let inner = inline_children(c, pos + 1, with_out(st, Seq::empty()));
                    with_out(inner, st.out + paragraph_spec(inner.out, c.config.width as nat, indent, tight))
                },
                MdKindView::BlockQuote => {
                    let inner = block_children(c, pos + 1, 0, false, with_out(st, Seq::empty()));
                    with_out(inner, st.out + framed_lines(lines_spec(inner.out), quote_pre(), quote_post()) + "\n"@)
                },
                MdKindView::CodeBlock { info, literal } => code_block_node(c, pos, info, literal, st),
                MdKindView::HtmlBlock => st,
                MdKindView::List { ordered, tight: list_tight, start } => {
                    let after = list_items(c, pos + 1, indent, list_tight, ordered, start as nat, st);
                    if tight { after } else { with_out(after, after.out + "\n"@) }
                },
                MdKindView::Item => st,
                MdKindView::ThematicBreak => with_out(st, st.out + rule_spec(c.config.width as nat)),
                MdKindView::Table => with_out(st, st.out + table_spec(table_rows(c.ev, pos + 1))),
                MdKindView::FootnoteDefinition => st,
                _ => block_children(c, pos + 1, indent, tight, st),
            },
        }
    }
}

/// Rendering the run of sibling block nodes starting at `k`.
pub open spec fn block_children(c: DocCtx, k: nat, indent: nat, tight: bool, st: RenderView) -> RenderView
    decreases c.ev.len() - k, 1nat,
{
    if k >= c.ev.len() {
        st
    } else {
        match c.ev[k as int] {
            MdEventView::Close => st,
            MdEventView::Open(_) => {
                proof {
                    lemma_close_scan_bounds(c.ev, k + 1, 1);
                }
                block_children(c, node_end(c.ev, k), indent, tight, block_node(c, k, indent, tight, st))
            },
        }
    }
}

/// `s` without its first `n` characters when they are all spaces.
pub open spec fn drop_lead(s: Seq<char>, n: nat) -> Seq<char> {
    if s.len() >= n && s.take(n as int) == repeat_seq(" "@, n) {
        s.skip(n as int)
    } else {
        s
    }
}

/// Rendering the items of a list from the one opened at `k`: each its
/// bullet (`•`, or its number counting from `counter`) in bold, then its
/// blocks indented two more, the first of them starting right after the
/// bullet (its indent dropped).
pub open spec fn list_items(
    c: DocCtx,
    k: nat,
    indent: nat,
    tight: bool,
    ordered: bool,
    counter: nat,
    st: RenderView,
) -> RenderView
    decreases c.ev.len() - k, 1nat,
{
    if k >= c.ev.len() {
        st
    } else {
        match c.ev[k as int] {
            MdEventView::Close => st,
            MdEventView::Open(_) => {
                proof {
                    lemma_close_scan_bounds(c.ev, k + 1, 1);
                }
                let s1 = with_out(
                    st,
                    st.out + repeat_seq(" "@, indent) + "\x1b[1m"@ + bullet_spec(ordered, counter) + "\x1b[0m "@,
                );
                let inner = block_children(c, k + 1, indent + 2, tight, with_out(s1, Seq::empty()));
                let s2 = with_out(inner, s1.out + drop_lead(inner.out, indent + 2));
                list_items(c, node_end(c.ev, k), indent, tight, ordered, if ordered { counter + 1 } else { counter }, s2)
            },
        }
    }
}

/// Rendering leaves the warnings and the captured images as they were.
pub open spec fn quiet(before: RenderView, after: RenderView) -> bool {
    after.warnings == before.warnings && after.images == before.images
}

proof fn lemma_inline_quiet(c: DocCtx, pos: nat, st: RenderView)
    requires
        !c.config.images,
    ensures
        quiet(st, inline_node(c, pos, st)),
    decreases c.ev.len() - pos, 0nat,
{
    if pos < c.ev.len() {
        if let MdEventView::Open(kind) = c.ev[pos as int] {
            match kind {
                MdKindView::Strong => lemma_inline_children_quiet(c, pos + 1, with_out(st, st.out + "\x1b[1m"@)),
                MdKindView::Emph => lemma_inline_children_quiet(c, pos + 1, with_out(st, st.out + "\x1b[3m"@)),
                MdKindView::Strikethrough => lemma_inline_children_quiet(
                    c,
                    pos + 1,
                    with_out(st, st.out + "\x1b[9m"@),
                ),
                MdKindView::Link { url } => lemma_inline_children_quiet(c, pos + 1, with_out(st, Seq::empty())),
                MdKindView::TaskItem { symbol } => lemma_inline_children_quiet(
                    c,
                    pos + 1,
                    with_out(st, st.out + (if symbol is Some { "\u{2611} "@ } else { "\u{2610} "@ })),
                ),
                MdKindView::Text(_) => {},
                MdKindView::SoftBreak => {},
                MdKindView::LineBreak => {},
                MdKindView::Code(_) => {},
                MdKindView::Image { url } => {},
                _ => lemma_inline_children_quiet(c, pos + 1, st),
            }
        }
    }
}

proof fn lemma_inline_children_quiet(c: DocCtx, k: nat, st: RenderView)
    requires
        !c.config.images,
    ensures
        quiet(st, inline_children(c, k, st)),
    decreases c.ev.len() - k, 1nat,
{
    if k < c.ev.len() {
        if c.ev[k as int] is Open {
            lemma_close_scan_bounds(c.ev, k + 1, 1);
            lemma_inline_quiet(c, k, st);
            lemma_inline_children_quiet(c, node_end(c.ev, k), inline_node(c, k, st));
        }
    }
}

proof fn lemma_block_quiet(c: DocCtx, pos: nat, indent: nat, tight: bool, st: RenderView)
    requires
        !c.config.images,
        !c.config.mermaid,
    ensures
        quiet(st, block_node(c, pos, indent, tight, st)),
    decreases c.ev.len() - pos, 0nat,
{
    if pos < c.ev.len() {
        if let MdEventView::Open(kind) = c.ev[pos as int] {
            match kind {
                MdKindView::Document => lemma_block_children_quiet(c, pos + 1, indent, false, st),
                MdKindView::Paragraph => lemma_inline_children_quiet(c, pos + 1, with_out(st, Seq::empty())),
                MdKindView::BlockQuote => lemma_block_children_quiet(c, pos + 1, 0, false, with_out(st, Seq::empty())),
                MdKindView::List { ordered, tight: list_tight, start } => lemma_list_items_quiet(
                    c,
                    pos + 1,
                    indent,
                    list_tight,
                    ordered,
                    start as nat,
                    st,
                ),
                MdKindView::Heading { level } => {},
                MdKindView::CodeBlock { info, literal } => {},
                MdKindView::HtmlBlock => {},
                MdKindView::Item => {},
                MdKindView::ThematicBreak => {},
                MdKindView::Table => {},
                MdKindView::FootnoteDefinition => {},
                _ => lemma_block_children_quiet(c, pos + 1, indent, tight, st),
            }
        }
    }
}

proof fn lemma_block_children_quiet(c: DocCtx, k: nat, indent: nat, tight: bool, st: RenderView)
    requires
        !c.config.images,
        !c.config.mermaid,
    ensures
        quiet(st, block_children(c, k, indent, tight, st)),
    decreases c.ev.len() - k, 1nat,
{
    if k < c.ev.len() {
        if c.ev[k as int] is Open {
            lemma_close_scan_bounds(c.ev, k + 1, 1);
            lemma_block_quiet(c, k, indent, tight, st);
            lemma_block_children_quiet(c, node_end(c.ev, k), indent, tight, block_node(c, k, indent, tight, st));
        }
    }
}

proof fn lemma_list_items_quiet(
    c: DocCtx,
    k: nat,
    indent: nat,
    tight: bool,
    ordered: bool,
    counter: nat,
    st: RenderView,
)
    requires
        !c.config.images,
        !c.config.mermaid,
    ensures
        quiet(st, list_items(c, k, indent, tight, ordered, counter, st)),
    decreases c.ev.len() - k, 1nat,
{
    if k < c.ev.len() {
        if c.ev[k as int] is Open {
            lemma_close_scan_bounds(c.ev, k + 1, 1);
            let s1 = with_out(
                st,
                st.out + repeat_seq(" "@, indent) + "\x1b[1m"@ + bullet_spec(ordered, counter) + "\x1b[0m "@,
            );
            lemma_block_children_quiet(c, k + 1, indent + 2, tight, with_out(s1, Seq::empty()));
            let inner = block_children(c, k + 1, indent + 2, tight, with_out(s1, Seq::empty()));
            let s2 = with_out(inner, s1.out + drop_lead(inner.out, indent + 2));
            lemma_list_items_quiet(
                c,
                node_end(c.ev, k),
                indent,
                tight,
                ordered,
                if ordered { counter + 1 } else { counter },
                s2,
            );
        }
    }
}

/// With images and diagrams off, rendering warns of nothing and captures
/// no image.
pub proof fn law_no_graphics_when_off(c: DocCtx, st: RenderView)
    requires
        !c.config.images,
        !c.config.mermaid,
    ensures
        quiet(st, document_spec(c, st)),
{
    lemma_block_quiet(c, 0, 0, false, st);
}

/// Rendering a whole document: its root node.
pub open spec fn document_spec(c: DocCtx, st: RenderView) -> RenderView {
    block_node(c, 0, 0, false, st)
}

// ── Rendering ───────────────────────────────────────────────────────────────

/// What rendering needs of its inputs (see `media_ok`).
pub open spec fn doc_ready(d: ParsedDoc, config: Config) -> bool {
    media_ok(d.media@, config.cell_pixel_width)
}

proof fn lemma_strings_push(v: Seq<String>, s: String)
    ensures
        strings_view(v.push(s)) == strings_view(v).push(s@),
{
    assert(strings_view(v.push(s)) =~= strings_view(v).push(s@));
}

/// Append a warning: `prefix`, `url` (if any), `mid`, then `err`.
fn push_warning(warnings: &mut Vec<String>, prefix: &str, url: &str, mid: &str, err: &str)
    ensures
        strings_view(final(warnings)@) == strings_view(old(warnings)@).push(prefix@ + url@ + mid@ + err@),
{
    let mut w = String::new();
    w.append(prefix);
    w.append(url);
    w.append(mid);
    w.append(err);
    proof {
        lemma_strings_push(warnings@, w);
    }
    assert(w@ =~= prefix@ + url@ + mid@ + err@);
    warnings.push(w);
}

fn push_alt(out: &mut String, alt: &str)
    ensures
        final(out)@ == old(out)@ + alt_text(alt@),
{
    out.append("\x1b[2m[image: ");
    out.append(alt);
    out.append("]\x1b[0m");
    assert(final(out)@ =~= old(out)@ + alt_text(alt@));
}

/// Render the image opened at `pos`, whose alt text is `alt` (see
/// `image_node`).
fn render_image_node(
    d: &ParsedDoc,
    config: &Config,
    pos: usize,
    url: &str,
    alt: &str,
    out: &mut String,
    warnings: &mut Vec<String>,
    store: &mut KittyImageStore,
)
    requires
        doc_ready(*d, *config),
        old(store).wf(),
        alt@ == collect_node(events_view(d.events@), pos as nat),
    ensures
        final(store).wf(),
        state_view(final(out)@, final(warnings)@, *final(store)) == image_node(
            ctx(*d, *config),
            pos as nat,
            url@,
            state_view(old(out)@, old(warnings)@, *old(store)),
        ),
{
    let ghost c = ctx(*d, *config);
    let ghost st = state_view(old(out)@, old(warnings)@, *old(store));
    if !config.images {
        push_alt(out, alt);
        return;
    }
    if pos < d.media.len() {
        match &d.media[pos] {
            Media::Image(img) => {
                assert(media_at(c, pos as nat) == Media::Image(*img));
                match render_image(img, config, store) {
                    Ok(s) => {
                        out.append(s.as_str());
                    },
                    Err(e) => {
                        push_warning(warnings, "mdcat: image render failed (", url, "): ", e.as_str());
                        push_alt(out, alt);
                    },
                }
            },
            Media::Failed(e) => {
                push_warning(warnings, "mdcat: image render failed (", url, "): ", e.as_str());
                push_alt(out, alt);
            },
            _ => {
                push_alt(out, alt);
            },
        }
    } else {
        push_alt(out, alt);
    }
}

/// Render the inline node opened at `pos` (see `inline_node`); returns
/// where it ends.
fn render_inline(
    d: &ParsedDoc,
    config: &Config,
    pos: usize,
    out: &mut String,
    warnings: &mut Vec<String>,
    store: &mut KittyImageStore,
) -> (end: usize)
    requires
        doc_ready(*d, *config),
        pos < d.events@.len(),
        old(store).wf(),
    ensures
        final(store).wf(),
        state_view(final(out)@, final(warnings)@, *final(store)) == inline_node(
            ctx(*d, *config),
            pos as nat,
            state_view(old(out)@, old(warnings)@, *old(store)),
        ),
        end == node_end(events_view(d.events@), pos as nat),
        pos < end <= d.events@.len(),
    decreases d.events@.len() - pos, 0nat,
{
    let ev = &d.events;
    let ghost evs = events_view(ev@);
    proof {
        lemma_node_end_children(evs, (pos + 1) as nat);
        lemma_close_scan_bounds(evs, (pos + 1) as nat, 1);
    }
    let _len = ev.len();
    match &ev[pos] {
        MdEvent::Close => node_end_of(ev, pos),
        MdEvent::Open(kind) => match kind {
            MdKind::Text(t) => {
                out.append(t.as_str());
                node_end_of(ev, pos)
            },
            MdKind::SoftBreak => {
                out.append(" ");
                node_end_of(ev, pos)
            },
            MdKind::LineBreak => {
                out.append("\n");
                node_end_of(ev, pos)
            },
            MdKind::Strong => {
                out.append("\x1b[1m");
                let e = render_inline_children(d, config, pos + 1, out, warnings, store);
                out.append("\x1b[0m");
                e
            },
            MdKind::Emph => {
                out.append("\x1b[3m");
                let e = render_inline_children(d, config, pos + 1, out, warnings, store);
                out.append("\x1b[0m");
                e
            },
            MdKind::Strikethrough => {
                out.append("\x1b[9m");
                let e = render_inline_children(d, config, pos + 1, out, warnings, store);
                out.append("\x1b[0m");
                e
            },
            MdKind::Code(t) => {
                out.append("\x1b[48;5;236m\x1b[96m ");
                out.append(t.as_str());
                out.append(" \x1b[0m");
                assert(out@ =~= old(out)@ + "\x1b[48;5;236m\x1b[96m "@ + t@ + " \x1b[0m"@);
                node_end_of(ev, pos)
            },
            MdKind::Link { url } => {
                let mut label = String::new();
                let e = render_inline_children(d, config, pos + 1, &mut label, warnings, store);
                let l = osc8_link(url.as_str(), label.as_str());
                out.append(l.as_str());
                e
            },
            MdKind::Image { url } => {
                let mut alt = String::new();
                let e = collect_text(ev, pos, &mut alt);
                assert(alt@ =~= collect_node(evs, pos as nat));
                render_image_node(d, config, pos, url.as_str(), alt.as_str(), out, warnings, store);
                e
            },
            MdKind::TaskItem { symbol } => {
                if symbol.is_some() {
                    out.append("\u{2611} ");
                } else {
                    out.append("\u{2610} ");
                }
                render_inline_children(d, config, pos + 1, out, warnings, store)
            },
            _ => render_inline_children(d, config, pos + 1, out, warnings, store),
        },
    }
}

/// Render the run of sibling inline nodes starting at `k0` (see
/// `inline_children`); returns where the run's closing ends.
fn render_inline_children(
    d: &ParsedDoc,
    config: &Config,
    k0: usize,
    out: &mut String,
    warnings: &mut Vec<String>,
    store: &mut KittyImageStore,
) -> (end: usize)
    requires
        doc_ready(*d, *config),
        k0 <= d.events@.len(),
        old(store).wf(),
    ensures
        final(store).wf(),
        state_view(final(out)@, final(warnings)@, *final(store)) == inline_children(
            ctx(*d, *config),
            k0 as nat,
            state_view(old(out)@, old(warnings)@, *old(store)),
        ),
        end == children_end(events_view(d.events@), k0 as nat),
        k0 <= end <= d.events@.len(),
    decreases d.events@.len() - k0, 1nat,
{
    let ev = &d.events;
    let ghost evs = events_view(ev@);
    let ghost c = ctx(*d, *config);
    let mut k = k0;
    loop
        invariant
            evs == events_view(d.events@),
            ev@ == d.events@,
            c == ctx(*d, *config),
            doc_ready(*d, *config),
            store.wf(),
            k0 <= k <= d.events@.len(),
            inline_children(c, k as nat, state_view(out@, warnings@, *store)) == inline_children(
                c,
                k0 as nat,
                state_view(old(out)@, old(warnings)@, *old(store)),
            ),
            children_end(evs, k as nat) == children_end(evs, k0 as nat),
        decreases d.events@.len() - k,
    {
        if k >= ev.len() {
            return k;
        }
        match &ev[k] {
            MdEvent::Close => {
                return k + 1;
            },
            MdEvent::Open(_) => {
                k = render_inline(d, config, k, out, warnings, store);
            },
        }
    }
}

/// Append a heading (see `heading_spec`).
fn push_heading(out: &mut String, level: u8, text: &str, width: u16)
    ensures
        final(out)@ == old(out)@ + heading_spec(level, text@, width as nat),
{
    let bl = chars_of(text).len();
    let w = width as usize;
    if level == 1 {
        let n: usize = if bl >= w || bl + 4 >= w { w } else { bl + 4 };
        let ghost line = repeat_seq("\u{2550}"@, n as nat);
        out.append("\n\x1b[1;34m");
        push_repeat(out, "\u{2550}", n);
        out.append("\x1b[0m\n");
        out.append("\x1b[1;34m  ");
        out.append(text);
        out.append("\x1b[0m\n");
        out.append("\x1b[1;34m");
        push_repeat(out, "\u{2550}", n);
        out.append("\x1b[0m\n\n");
    } else if level == 2 {
        let n: usize = if bl >= w || bl + 2 >= w { w } else { bl + 2 };
        out.append("\n\x1b[1;36m");
        out.append(text);
        out.append("\x1b[0m\n");
        out.append("\x1b[36m");
        push_repeat(out, "\u{2500}", n);
        out.append("\x1b[0m\n\n");
    } else if level == 3 {
        out.append("\n\x1b[1;33m### ");
        out.append(text);
        out.append("\x1b[0m\n\n");
    } else if level == 4 {
        out.append("\n\x1b[1m#### ");
        out.append(text);
        out.append("\x1b[0m\n\n");
    } else {
        out.append("\n\x1b[1m");
        out.append(text);
        out.append("\x1b[0m\n\n");
    }
    assert(final(out)@ =~= old(out)@ + heading_spec(level, text@, width as nat));
}

/// Render the code block opened at `pos` (see `code_block_node`).
fn render_code_node(
    d: &ParsedDoc,
    config: &Config,
    pos: usize,
    info: &str,
    literal: &str,
    out: &mut String,
    warnings: &mut Vec<String>,
    store: &mut KittyImageStore,
)
    requires
        doc_ready(*d, *config),
        old(store).wf(),
    ensures
        final(store).wf(),
        state_view(final(out)@, final(warnings)@, *final(store)) == code_block_node(
            ctx(*d, *config),
            pos as nat,
            info@,
            literal@,
            state_view(old(out)@, old(warnings)@, *old(store)),
        ),
{
    let ghost c = ctx(*d, *config);
    proof {
        reveal_strlit("");
    }
    let ws = split_whitespace(info);
    let lang: &str = if ws.len() > 0 { ws[0].as_str() } else { "" };
    assert(lang@ == first_word(info@));
    let hl: &str = if pos < d.highlights.len() { d.highlights[pos].as_str() } else { literal };
    assert(hl@ == hl_at(c, pos as nat, literal@));
    if str_eq(lang, "mermaid") && config.mermaid && pos < d.media.len() {
        match &d.media[pos] {
            Media::Diagram(img) => {
                assert(media_at(c, pos as nat) == Media::Diagram(*img));
                match render_diagram(img, config, store) {
                    Ok(s) => {
                        out.append(s.as_str());
                    },
                    Err(e) => {
                        push_warning(warnings, "mdcat: mermaid render failed: ", "", "", e.as_str());
                        push_code_block(out, hl, "", config.width);
                        out.append("\x1b[2m[Install mmdc to render Mermaid diagrams: npm install -g @mermaid-js/mermaid-cli]\x1b[0m\n\n");
                    },
                }
            },
            Media::Failed(e) => {
                push_warning(warnings, "mdcat: mermaid render failed: ", "", "", e.as_str());
                push_code_block(out, hl, "", config.width);
                out.append("\x1b[2m[Install mmdc to render Mermaid diagrams: npm install -g @mermaid-js/mermaid-cli]\x1b[0m\n\n");
            },
            _ => {
                push_code_block(out, hl, lang, config.width);
            },
        }
    } else {
        push_code_block(out, hl, lang, config.width);
    }
}

/// Render the block node opened at `pos`, indented by `indent` (see
/// `block_node`); returns where it ends.
fn render_block(
    d: &ParsedDoc,
    config: &Config,
    pos: usize,
    indent: usize,
    tight: bool,
    out: &mut String,
    warnings: &mut Vec<String>,
    store: &mut KittyImageStore,
) -> (end: usize)
    requires
        doc_ready(*d, *config),
        pos < d.events@.len(),
        indent <= pos,
        old(store).wf(),
    ensures
        final(store).wf(),
        state_view(final(out)@, final(warnings)@, *final(store)) == block_node(
            ctx(*d, *config),
            pos as nat,
            indent as nat,
            tight,
            state_view(old(out)@, old(warnings)@, *old(store)),
        ),
        end == node_end(events_view(d.events@), pos as nat),
        pos < end <= d.events@.len(),
    decreases d.events@.len() - pos, 0nat,
{
    let ev = &d.events;
    let ghost evs = events_view(ev@);
    proof {
        lemma_node_end_children(evs, (pos + 1) as nat);
        lemma_close_scan_bounds(evs, (pos + 1) as nat, 1);
    }
    let _len = ev.len();
    match &ev[pos] {
        MdEvent::Close => node_end_of(ev, pos),
        MdEvent::Open(kind) => match kind {
            MdKind::Document => render_block_children(d, config, pos + 1, indent, false, out, warnings, store),
            MdKind::Heading { level } => {
                let mut text = String::new();
                let e = collect_text(ev, pos, &mut text);
                assert(text@ =~= collect_node(evs, pos as nat));
                push_heading(out, *level, text.as_str(), config.width);
                e
            },
            MdKind::Paragraph => {
                let mut inner = String::new();
                let e = render_inline_children(d, config, pos + 1, &mut inner, warnings, store);
                let wrapped = word_wrap(inner.as_str(), config.width as usize, indent);
                let ghost before = out@;
                push_repeat(out, " ", indent);
                out.append(wrapped.as_str());
                out.append("\n");
                if !tight {
                    out.append("\n");
                }
                assert(out@ =~= before + paragraph_spec(inner@, config.width as nat, indent as nat, tight));
                e
            },
            MdKind::BlockQuote => {
                let mut inner = String::new();
                let e = render_block_children(d, config, pos + 1, 0, false, &mut inner, warnings, store);
                push_framed_lines(out, inner.as_str(), "\x1b[2m\u{2502}\x1b[0m \x1b[3m", "\x1b[0m\n");
                out.append("\n");
                e
            },
            MdKind::CodeBlock { info, literal } => {
                render_code_node(d, config, pos, info.as_str(), literal.as_str(), out, warnings, store);
                node_end_of(ev, pos)
            },
            MdKind::HtmlBlock => node_end_of(ev, pos),
            MdKind::List { ordered, tight: list_tight, start } => {
                let e = render_list_items(d, config, pos + 1, indent, *list_tight, *ordered, *start, out, warnings, store);
                if !tight {
                    out.append("\n");
                }
                e
            },
            MdKind::Item => node_end_of(ev, pos),
            MdKind::ThematicBreak => {
                out.append("\x1b[2m");
                push_repeat(out, "\u{2500}", config.width as usize);
                out.append("\x1b[0m\n\n");
                assert(out@ =~= old(out)@ + rule_spec(config.width as nat));
                node_end_of(ev, pos)
            },
            MdKind::Table => render_table(ev, pos, out),
            MdKind::FootnoteDefinition => node_end_of(ev, pos),
            _ => render_block_children(d, config, pos + 1, indent, tight, out, warnings, store),
        },
    }
}

/// Render the run of sibling block nodes starting at `k0` (see
/// `block_children`); returns where the run's closing ends.
fn render_block_children(
    d: &ParsedDoc,
    config: &Config,
    k0: usize,
    indent: usize,
    tight: bool,
    out: &mut String,
    warnings: &mut Vec<String>,
    store: &mut KittyImageStore,
) -> (end: usize)
    requires
        doc_ready(*d, *config),
        k0 <= d.events@.len(),
        indent <= k0,
        old(store).wf(),
    ensures
        final(store).wf(),
        state_view(final(out)@, final(warnings)@, *final(store)) == block_children(
            ctx(*d, *config),
            k0 as nat,
            indent as nat,
            tight,
            state_view(old(out)@, old(warnings)@, *old(store)),
        ),
        end == children_end(events_view(d.events@), k0 as nat),
        k0 <= end <= d.events@.len(),
    decreases d.events@.len() - k0, 1nat,
{
    let ev = &d.events;
    let ghost evs = events_view(ev@);
    let ghost c = ctx(*d, *config);
    let mut k = k0;
    loop
        invariant
            evs == events_view(d.events@),
            ev@ == d.events@,
            c == ctx(*d, *config),
            doc_ready(*d, *config),
            store.wf(),
            k0 <= k <= d.events@.len(),
            indent <= k0,
            block_children(c, k as nat, indent as nat, tight, state_view(out@, warnings@, *store)) == block_children(
                c,
                k0 as nat,
                indent as nat,
                tight,
                state_view(old(out)@, old(warnings)@, *old(store)),
            ),
            children_end(evs, k as nat) == children_end(evs, k0 as nat),
        decreases d.events@.len() - k,
    {
        if k >= ev.len() {
            return k;
        }
        match &ev[k] {
            MdEvent::Close => {
                return k + 1;
            },
            MdEvent::Open(_) => {
                k = render_block(d, config, k, indent, tight, out, warnings, store);
            },
        }
    }
}

/// Append `s` without its first `n` characters when they are all spaces
/// (see `drop_lead`).
fn push_without_lead(out: &mut String, s: &str, n: usize)
    ensures
        final(out)@ == old(out)@ + drop_lead(s@, n as nat),
{
    let cs = chars_of(s);
    let mut all_spaces = cs.len() >= n;
    let mut i: usize = 0;
    while all_spaces && i < n
        invariant
            cs@ == s@,
            i <= n,
            all_spaces ==> cs@.len() >= n && forall|k: int| 0 <= k < i ==> cs@[k] == ' ',
            !all_spaces ==> !(cs@.len() >= n && cs@.take(n as int) == repeat_seq(" "@, n as nat)),
        decreases n - i,
    {
        if cs[i] != ' ' {
            proof {
                if cs@.len() >= n && cs@.take(n as int) == repeat_seq(" "@, n as nat) {
                    lemma_repeat_space_at(n as nat, i as int);
                    assert(cs@.take(n as int)[i as int] == cs@[i as int]);
                }
            }
            all_spaces = false;
        }
        i += 1;
    }
    if all_spaces {
        proof {
            assert forall|k: int| 0 <= k < n implies #[trigger] cs@.take(n as int)[k] == repeat_seq(" "@, n as nat)[k] by {
                lemma_repeat_space_at(n as nat, k);
            }
            lemma_repeat_space_at(n as nat, 0);
            assert(cs@.take(n as int) =~= repeat_seq(" "@, n as nat));
        }
        push_chars(out, &cs, n, cs.len());
        assert(cs@.subrange(n as int, cs@.len() as int) =~= s@.skip(n as int));
    } else {
        out.append(s);
    }
}

/// Every character of `n` spaces is a space.
proof fn lemma_repeat_space_at(n: nat, k: int)
    ensures
        repeat_seq(" "@, n).len() == n,
        0 <= k < n ==> repeat_seq(" "@, n)[k] == ' ',
    decreases n,
{
    reveal_strlit(" ");
    if n > 0 {
        lemma_repeat_space_at((n - 1) as nat, k);
        let p = repeat_seq(" "@, (n - 1) as nat);
        assert(" "@.len() == 1 && " "@[0] == ' ');
        if 0 <= k < n - 1 {
            assert(repeat_seq(" "@, n)[k] == p[k]);
        }
    }
}

/// Render the items of a list from the one opened at `k0` (see
/// `list_items`); returns where the list's closing ends.
fn render_list_items(
    d: &ParsedDoc,
    config: &Config,
    k0: usize,
    indent: usize,
    tight: bool,
    ordered: bool,
    counter0: usize,
    out: &mut String,
    warnings: &mut Vec<String>,
    store: &mut KittyImageStore,
) -> (end: usize)
    requires
        doc_ready(*d, *config),
        k0 <= d.events@.len(),
        indent < k0,
        old(store).wf(),
    ensures
        final(store).wf(),
        state_view(final(out)@, final(warnings)@, *final(store)) == list_items(
            ctx(*d, *config),
            k0 as nat,
            indent as nat,
            tight,
            ordered,
            counter0 as nat,
            state_view(old(out)@, old(warnings)@, *old(store)),
        ),
        end == children_end(events_view(d.events@), k0 as nat),
        k0 <= end <= d.events@.len(),
    decreases d.events@.len() - k0, 1nat,
{
    let ev = &d.events;
    let ghost evs = events_view(ev@);
    let ghost c = ctx(*d, *config);
    let mut k = k0;
    let mut counter: u128 = counter0 as u128;
    loop
        invariant
            evs == events_view(d.events@),
            ev@ == d.events@,
            c == ctx(*d, *config),
            doc_ready(*d, *config),
            store.wf(),
            k0 <= k <= d.events@.len(),
            indent < k0,
            counter <= counter0 + k,
            list_items(c, k as nat, indent as nat, tight, ordered, counter as nat, state_view(out@, warnings@, *store))
                == list_items(
                c,
                k0 as nat,
                indent as nat,
                tight,
                ordered,
                counter0 as nat,
                state_view(old(out)@, old(warnings)@, *old(store)),
            ),
            children_end(evs, k as nat) == children_end(evs, k0 as nat),
        decreases d.events@.len() - k,
    {
        if k >= ev.len() {
            return k;
        }
        match &ev[k] {
            MdEvent::Close => {
                return k + 1;
            },
            MdEvent::Open(_) => {
                proof {
                    lemma_node_end_children(evs, (k + 1) as nat);
                    lemma_close_scan_bounds(evs, (k + 1) as nat, 1);
                }
                let ghost before = out@;
                push_repeat(out, " ", indent);
                out.append("\x1b[1m");
                if ordered {
                    push_decimal(out, counter);
                    out.append(".");
                } else {
                    out.append("\u{2022}");
                }
                out.append("\x1b[0m ");
                assert(out@ =~= before + repeat_seq(" "@, indent as nat) + "\x1b[1m"@ + bullet_spec(ordered, counter as nat)
                    + "\x1b[0m "@);
                let mut item = String::new();
                let e = render_block_children(d, config, k + 1, indent + 2, tight, &mut item, warnings, store);
                push_without_lead(out, item.as_str(), indent + 2);
                if ordered {
                    counter = counter + 1;
                }
                k = e;
            },
        }
    }
}

// ── Documents ───────────────────────────────────────────────────────────────

/// A rendered document: the ANSI text, and the warnings to show the user.
pub struct Rendered {
    pub text: String,
    pub warnings: Vec<String>,
}

/// The state rendering starts from: no text, no warnings, and the images
/// already captured.
pub open spec fn start_view(images: Seq<KittyImageView>) -> RenderView {
    RenderView { out: Seq::empty(), warnings: Seq::empty(), images }
}

/// Render a whole parsed document onto `out` (see `document_spec`).
fn render_doc_into(
    d: &ParsedDoc,
    config: &Config,
    out: &mut String,
    warnings: &mut Vec<String>,
    store: &mut KittyImageStore,
)
    requires
        doc_ready(*d, *config),
        old(store).wf(),
    ensures
        final(store).wf(),
        state_view(final(out)@, final(warnings)@, *final(store)) == document_spec(
            ctx(*d, *config),
            state_view(old(out)@, old(warnings)@, *old(store)),
        ),
{
    if d.events.len() > 0 {
        render_block(d, config, 0, 0, false, out, warnings, store);
    }
}

/// Render a parsed document (see `document_spec`).
pub fn render_events(d: &ParsedDoc, config: &Config, store: &mut KittyImageStore) -> (r: Rendered)
    requires
        doc_ready(*d, *config),
        old(store).wf(),
    ensures
        final(store).wf(),
        state_view(r.text@, r.warnings@, *final(store)) == document_spec(
            ctx(*d, *config),
            start_view(images_view(old(store).images@)),
        ),
{
    let mut out = String::new();
    let mut warnings: Vec<String> = Vec::new();
    assert(strings_view(warnings@) =~= Seq::<Seq<char>>::empty());
    render_doc_into(d, config, &mut out, &mut warnings, store);
    Rendered { text: out, warnings }
}

/// The language the code block at `pos` is highlighted in: none for a
/// Mermaid block with a diagram or an error (its source then only shows
/// when the diagram cannot be drawn), else its own.
pub open spec fn code_lang(media: Seq<Media>, config: Config, pos: nat, info: Seq<char>) -> Seq<char> {
    let lang = first_word(info);
    if lang == "mermaid"@ && config.mermaid && pos < media.len() && (media[pos as int] is Diagram
        || media[pos as int] is Failed) {
        Seq::empty()
    } else {
        lang
    }
}

/// The language to highlight the code block at `pos` in (see `code_lang`).
fn block_language(info: &str, media: &Vec<Media>, config: &Config, pos: usize) -> (r: String)
    ensures
        r@ == code_lang(media@, *config, pos as nat, info@),
{
    let ws = split_whitespace(info);
    let first: String = if ws.len() > 0 { ws[0].clone() } else { String::new() };
    if str_eq(first.as_str(), "mermaid") && config.mermaid && pos < media.len() {
        match &media[pos] {
            Media::Diagram(_) | Media::Failed(_) => String::new(),
            _ => first,
        }
    } else {
        first
    }
}

/// The highlighting at `p`: the code of the code block there highlighted
/// in its language (see `code_lang`) with the configured theme, and
/// nothing elsewhere.
pub open spec fn code_highlight(ev: Seq<MdEventView>, media: Seq<Media>, config: Config, p: int) -> Seq<char> {
    match ev[p] {
        MdEventView::Open(MdKindView::CodeBlock { info, literal }) => highlighted(
            literal,
            code_lang(media, config, p as nat, info),
            config.theme@,
        ),
        _ => Seq::empty(),
    }
}

/// The highlighting of every position of a document (see `code_highlight`).
pub open spec fn doc_highlights(ev: Seq<MdEventView>, media: Seq<Media>, config: Config) -> Seq<Seq<char>> {
    Seq::new(ev.len(), |p: int| code_highlight(ev, media, config, p))
}

/// Highlight every code block of a document, by event position (see
/// `doc_highlights`).
pub fn highlight_blocks(events: &Vec<MdEvent>, media: &Vec<Media>, config: &Config, hl: &Highlighter) -> (r: Vec<String>)
    ensures
        strings_view(r@) == doc_highlights(events_view(events@), media@, *config),
{
    let ghost evs = events_view(events@);
    let ghost want = doc_highlights(evs, media@, *config);
    let mut r: Vec<String> = Vec::new();
    let mut p: usize = 0;
    while p < events.len()
        invariant
            evs == events_view(events@),
            want == doc_highlights(evs, media@, *config),
            p <= events@.len(),
            r@.len() == p,
            strings_view(r@) == want.take(p as int),
        decreases events@.len() - p,
    {
        let h = match &events[p] {
            MdEvent::Open(MdKind::CodeBlock { info, literal }) => {
                let lang = block_language(info.as_str(), media, config, p);
                highlight_code(literal.as_str(), lang.as_str(), config.theme.as_str(), hl)
            },
            _ => String::new(),
        };
        assert(h@ == want[p as int]);
        let ghost before = r@;
        r.push(h);
        assert(strings_view(r@) =~= strings_view(before).push(h@));
        assert(want.take(p + 1) =~= want.take(p as int).push(want[p as int]));
        p += 1;
    }
    assert(want.take(want.len() as int) =~= want);
    r
}

/// What the caller is to load for the node at a position.
pub enum MediaRequest {
    Nothing,
    /// The image at this URL or path.
    Image { url: String },
    /// The diagram drawn from this Mermaid source.
    Diagram { source: String },
}

/// Images are asked for when images are on, Mermaid code blocks when
/// diagrams are on; nothing else.
pub open spec fn request_ok(e: MdEventView, config: Config, req: MediaRequest) -> bool {
    match e {
        MdEventView::Open(MdKindView::Image { url }) => if config.images {
            req matches MediaRequest::Image { url: u } && u@ == url
        } else {
            req is Nothing
        },
        MdEventView::Open(MdKindView::CodeBlock { info, literal }) => if first_word(info) == "mermaid"@
            && config.mermaid {
            req matches MediaRequest::Diagram { source } && source@ == literal
        } else {
            req is Nothing
        },
        _ => req is Nothing,
    }
}

/// What to load for each event position of a document (see `request_ok`).
pub fn media_requests(events: &Vec<MdEvent>, config: &Config) -> (r: Vec<MediaRequest>)
    ensures
        r@.len() == events@.len(),
        forall|p: int| 0 <= p < r@.len() ==> #[trigger] request_ok(events_view(events@)[p], *config, r@[p]),
{
    let mut r: Vec<MediaRequest> = Vec::new();
    let mut p: usize = 0;
    while p < events.len()
        invariant
            p <= events@.len(),
            r@.len() == p,
            forall|q: int| 0 <= q < p ==> #[trigger] request_ok(events_view(events@)[q], *config, r@[q]),
        decreases events@.len() - p,
    {
        let req = match &events[p] {
            MdEvent::Open(MdKind::Image { url }) => if config.images {
                MediaRequest::Image { url: url.clone() }
            } else {
                MediaRequest::Nothing
            },
            MdEvent::Open(MdKind::CodeBlock { info, literal }) => {
                let ws = split_whitespace(info.as_str());
                if ws.len() > 0 && str_eq(ws[0].as_str(), "mermaid") && config.mermaid {
                    MediaRequest::Diagram { source: literal.clone() }
                } else {
                    proof {
                        reveal_strlit("mermaid");
                    }
                    MediaRequest::Nothing
                }
            },
            _ => MediaRequest::Nothing,
        };
        r.push(req);
        p += 1;
    }
    r
}

/// The inputs of rendering a markdown text: its events, the media and the
/// highlighting given.
pub open spec fn text_ctx(markdown: Seq<char>, media: Seq<Media>, hl: Seq<Seq<char>>, config: Config) -> DocCtx {
    DocCtx { ev: markdown_events(markdown, doc_extensions()), media, hl, config }
}

/// Parse and render a markdown document onto `out`, highlighting its code
/// blocks; returns the highlighting used.
pub(crate) fn render_text_into(
    markdown: &str,
    media: Vec<Media>,
    config: &Config,
    hl: &Highlighter,
    out: &mut String,
    warnings: &mut Vec<String>,
    store: &mut KittyImageStore,
) -> (hls: Ghost<Seq<Seq<char>>>)
    requires
        media_ok(media@, config.cell_pixel_width),
        old(store).wf(),
    ensures
        final(store).wf(),
        hls@ == doc_highlights(markdown_events(markdown@, doc_extensions()), media@, *config),
        state_view(final(out)@, final(warnings)@, *final(store)) == document_spec(
            text_ctx(markdown@, media@, hls@, *config),
            state_view(old(out)@, old(warnings)@, *old(store)),
        ),
{
    let events = parse_markdown(markdown);
    let highlights = highlight_blocks(&events, &media, config, hl);
    let d = ParsedDoc { events, media, highlights };
    assert(ctx(d, *config) == text_ctx(markdown@, d.media@, strings_view(d.highlights@), *config));
    render_doc_into(&d, config, out, warnings, store);
    Ghost(strings_view(d.highlights@))
}

/// Parse and render a markdown document to ANSI text: the document's
/// events, rendered (see `document_spec`) with `media` by event position
/// and each code block highlighted by syntect.
pub fn render_document(
    markdown: &str,
    media: Vec<Media>,
    config: &Config,
    hl: &Highlighter,
    store: &mut KittyImageStore,
) -> (r: Rendered)
    requires
        media_ok(media@, config.cell_pixel_width),
        old(store).wf(),
    ensures
        final(store).wf(),
        state_view(r.text@, r.warnings@, *final(store)) == document_spec(
            text_ctx(
                markdown@,
                media@,
                doc_highlights(markdown_events(markdown@, doc_extensions()), media@, *config),
                *config,
            ),
            start_view(images_view(old(store).images@)),
        ),
{
    let ghost m = media@;
    let mut out = String::new();
    let mut warnings: Vec<String> = Vec::new();
    assert(strings_view(warnings@) =~= Seq::<Seq<char>>::empty());
    let hls = render_text_into(markdown, media, config, hl, &mut out, &mut warnings, store);
    let r = Rendered { text: out, warnings };
    assert(state_view(r.text@, r.warnings@, *store) == document_spec(
        text_ctx(markdown@, m, hls@, *config),
        start_view(images_view(old(store).images@)),
    ));
    r
}

} // verus!
