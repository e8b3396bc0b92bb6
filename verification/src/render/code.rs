//! Syntax highlighting of code blocks with `syntect`, as 24-bit colour
//! escape sequences.
use syntect::easy::HighlightLines;
use syntect::highlighting::{Theme, ThemeSet};
use syntect::parsing::{SyntaxReference, SyntaxSet};
use vstd::prelude::*;

use crate::text::{
    ansi_scan, chars_of, dec, is_digit, lemma_dec, lemma_no_esc_split, lemma_scan_csi, lemma_scan_plain, lemma_scan_step, no_esc,
    push_decimal,
    strip_ansi_spec,
};

verus! {

#[verifier::external_type_specification]
#[verifier::external_body]
pub struct ExSyntaxSet(SyntaxSet);

#[verifier::external_type_specification]
#[verifier::external_body]
pub struct ExThemeSet(ThemeSet);

#[verifier::external_type_specification]
#[verifier::external_body]
pub struct ExSyntaxReference(SyntaxReference);

#[verifier::external_type_specification]
#[verifier::external_body]
pub struct ExTheme(Theme);

#[verifier::external_type_specification]
#[verifier::external_body]
pub struct ExHighlightLines<'a>(HighlightLines<'a>);

/// The syntax definitions and colour themes highlighting draws on: the
/// sets bundled with syntect (see `Highlighter::load_defaults`).
pub struct Highlighter {
    syntaxes: SyntaxSet,
    themes: ThemeSet,
}

/// A piece of a highlighted line: its foreground colour (red, green, blue,
/// alpha), the background colour (red, green, blue) it is blended onto,
/// and its text.
pub struct StyledPiece {
    pub fg: (u8, u8, u8, u8),
    pub bg: (u8, u8, u8),
    pub text: String,
}

/// A piece of a highlighted line, as values.
pub struct PieceView {
    pub fg: (u8, u8, u8, u8),
    pub bg: (u8, u8, u8),
    pub text: Seq<char>,
}

impl View for StyledPiece {
    type V = PieceView;

    open spec fn view(&self) -> PieceView {
        PieceView { fg: self.fg, bg: self.bg, text: self.text@ }
    }
}

/// The values of `ps`.
pub open spec fn pieces_view(ps: Seq<StyledPiece>) -> Seq<PieceView> {
    ps.map_values(|p: StyledPiece| p@)
}

/// `SyntaxSet::load_defaults_newlines`: syntect's bundled syntaxes, for
/// lines that keep their newline.
#[verifier::external_body]
fn default_syntaxes() -> SyntaxSet {
    SyntaxSet::load_defaults_newlines()
}

/// `ThemeSet::load_defaults`: syntect's bundled themes.
#[verifier::external_body]
fn default_themes() -> ThemeSet {
    ThemeSet::load_defaults()
}

// ── The bundled sets ────────────────────────────────────────────────────────
//
// A `Highlighter` is only ever made by `load_defaults`, so the sets below
// are always syntect's bundled ones.  Syntaxes are told apart by name (the
// bundled names are distinct) and themes by their key in the theme set.

/// The name of the syntax that `SyntaxSet::find_syntax_by_token` finds for
/// `token` in syntect's bundled syntaxes, if any.
pub uninterp spec fn bundled_syntax_for_token(token: Seq<char>) -> Option<Seq<char>>;

/// Syntect's bundled syntaxes hold one called `name`
/// (`SyntaxSet::find_syntax_by_name`).
pub uninterp spec fn bundled_has_syntax(name: Seq<char>) -> bool;

/// Syntect's bundled themes hold one under the key `key`.
pub uninterp spec fn bundled_has_theme(key: Seq<char>) -> bool;

/// The styled pieces syntect's `HighlightLines::highlight_line` gives for
/// `line` in the bundled syntax `syntax` and theme `theme`, after the lines
/// `before` (`None` where it reports an error).
pub uninterp spec fn syntect_line(
    syntax: Seq<char>,
    theme: Seq<char>,
    before: Seq<Seq<char>>,
    line: Seq<char>,
) -> Option<Seq<PieceView>>;

/// A syntax found in the bundled set, with its name.
struct SyntaxChoice<'a> {
    syntax: &'a SyntaxReference,
    name: String,
}

/// A theme found in the bundled set, with its key.
struct ThemeChoice<'a> {
    theme: &'a Theme,
    key: String,
}

/// One text being highlighted: syntect's line highlighter, the names of its
/// syntax and theme, and the lines it has highlighted so far.
struct LineHighlighter<'a> {
    inner: HighlightLines<'a>,
    syntax: String,
    theme: String,
    lines: Ghost<Seq<Seq<char>>>,
}

/// `SyntaxSet::find_syntax_by_token` on the bundled syntaxes: the syntax
/// whose file extension or name matches `token`, named
/// `bundled_syntax_for_token`.
#[verifier::external_body]
fn syntax_by_token<'a>(hl: &'a Highlighter, token: &str) -> (r: Option<SyntaxChoice<'a>>)
    ensures
        match bundled_syntax_for_token(token@) {
            Some(n) => r matches Some(c) && c.name@ == n,
            None => r is None,
        },
{
    hl.syntaxes.find_syntax_by_token(token).map(|s| SyntaxChoice { syntax: s, name: s.name.clone() })
}

/// `SyntaxSet::find_syntax_by_name` on the bundled syntaxes: the syntax
/// called `name`, if there is one.
#[verifier::external_body]
fn syntax_by_name<'a>(hl: &'a Highlighter, name: &str) -> (r: Option<SyntaxChoice<'a>>)
    ensures
        r is Some <==> bundled_has_syntax(name@),
        r matches Some(c) ==> c.name@ == name@,
{
    hl.syntaxes.find_syntax_by_name(name).map(|s| SyntaxChoice { syntax: s, name: s.name.clone() })
}

/// The bundled theme under the key `key`, if any (a lookup in
/// `ThemeSet::themes`).
#[verifier::external_body]
fn theme_by_name<'a>(hl: &'a Highlighter, key: &str) -> (r: Option<ThemeChoice<'a>>)
    ensures
        r is Some <==> bundled_has_theme(key@),
        r matches Some(c) ==> c.key@ == key@,
{
    hl.themes.themes.get(key).map(|t| ThemeChoice { theme: t, key: key.to_string() })
}

/// Sequences of characters in order: by the first character that differs,
/// a prefix first (the order of `String` keys in a `BTreeMap`).
pub open spec fn seq_less(a: Seq<char>, b: Seq<char>) -> bool
    decreases a.len(),
{
    if a.len() == 0 {
        b.len() > 0
    } else if b.len() == 0 {
        false
    } else if a[0] != b[0] {
        a[0] < b[0]
    } else {
        seq_less(a.drop_first(), b.drop_first())
    }
}

/// `k` is the first key of the bundled themes.
pub open spec fn is_first_theme(k: Seq<char>) -> bool {
    bundled_has_theme(k) && forall|k2: Seq<char>| bundled_has_theme(k2) ==> !seq_less(k2, k)
}

/// The first key of the bundled themes, if there are any.
pub open spec fn first_bundled_theme() -> Option<Seq<char>> {
    if exists|k: Seq<char>| is_first_theme(k) {
        Some(choose|k: Seq<char>| is_first_theme(k))
    } else {
        None
    }
}

/// The first bundled theme in key order (`BTreeMap::iter` on
/// `ThemeSet::themes`), if there are any.
#[verifier::external_body]
fn first_theme<'a>(hl: &'a Highlighter) -> (r: Option<ThemeChoice<'a>>)
    ensures
        match r {
            Some(c) => is_first_theme(c.key@),
            None => forall|k: Seq<char>| !bundled_has_theme(k),
        },
{
    hl.themes.themes.iter().next().map(|(k, t)| ThemeChoice { theme: t, key: k.clone() })
}

/// `HighlightLines::new`: a highlighter for one text in the chosen syntax
/// and theme, that has highlighted nothing yet.
#[verifier::external_body]
fn line_highlighter<'a>(syntax: &SyntaxChoice, theme: &ThemeChoice<'a>) -> (r: LineHighlighter<'a>)
    ensures
        r.syntax@ == syntax.name@,
        r.theme@ == theme.key@,
        r.lines@ == Seq::<Seq<char>>::empty(),
{
    LineHighlighter {
        inner: HighlightLines::new(syntax.syntax, theme.theme),
        syntax: syntax.name.clone(),
        theme: theme.key.clone(),
        lines: Ghost(Seq::empty()),
    }
}

/// `HighlightLines::highlight_line`: the styled pieces of the next line,
/// each as its colours and its text (`None` where syntect reports an
/// error), named `syntect_line`.  syntect documents that the pieces'
/// texts, one after the other, make the line.  The line joins the lines
/// highlighted so far.
#[verifier::external_body]
fn highlight_line(h: &mut LineHighlighter, line: &str, hl: &Highlighter) -> (r: Option<Vec<StyledPiece>>)
    ensures
        final(h).syntax == old(h).syntax,
        final(h).theme == old(h).theme,
        final(h).lines@ == old(h).lines@.push(line@),
        match syntect_line(old(h).syntax@, old(h).theme@, old(h).lines@, line@) {
            Some(ps) => r matches Some(v) && pieces_view(v@) == ps,
            None => r is None,
        },
        r matches Some(v) ==> pieces_concat(pieces_view(v@)) == line@,
{
    match h.inner.highlight_line(line, &hl.syntaxes) {
        Ok(v) => Some(
            v.into_iter().map(|(st, t)| StyledPiece {
                fg: (st.foreground.r, st.foreground.g, st.foreground.b, st.foreground.a),
                bg: (st.background.r, st.background.g, st.background.b),
                text: t.to_string(),
            }).collect(),
        ),
        Err(_) => None,
    }
}

/// The texts of `ps`, one after the other.
pub open spec fn pieces_concat(ps: Seq<PieceView>) -> Seq<char>
    decreases ps.len(),
{
    if ps.len() == 0 {
        Seq::empty()
    } else {
        pieces_concat(ps.drop_last()) + ps.last().text
    }
}

// ── 24-bit colour escapes ───────────────────────────────────────────────────

/// A colour channel of `f` at opacity `a` over the channel `b`.
pub open spec fn blend_channel(f: u8, b: u8, a: u8) -> nat {
    ((f * a + b * (255 - a)) / 255) as nat
}

/// The colour a piece is drawn in: its foreground, blended onto the
/// background unless it is opaque.
pub open spec fn piece_colour(p: PieceView) -> (nat, nat, nat) {
    if p.fg.3 == 255 {
        (p.fg.0 as nat, p.fg.1 as nat, p.fg.2 as nat)
    } else {
        (blend_channel(p.fg.0, p.bg.0, p.fg.3), blend_channel(p.fg.1, p.bg.1, p.fg.3), blend_channel(p.fg.2, p.bg.2, p.fg.3))
    }
}

/// The 24-bit escape that sets the foreground colour `c`.
pub open spec fn colour_escape(c: (nat, nat, nat)) -> Seq<char> {
    "\x1b[38;2;"@ + dec(c.0) + ";"@ + dec(c.1) + ";"@ + dec(c.2) + "m"@
}

/// A piece as a 24-bit foreground colour escape and its text.
pub open spec fn escape_piece(p: PieceView) -> Seq<char> {
    colour_escape(piece_colour(p)) + p.text
}

/// The pieces of a line escaped one after the other, as syntect's
/// `as_24_bit_terminal_escaped` writes them without backgrounds.
pub open spec fn escape_pieces(ps: Seq<PieceView>) -> Seq<char>
    decreases ps.len(),
{
    if ps.len() == 0 {
        Seq::empty()
    } else {
        escape_pieces(ps.drop_last()) + escape_piece(ps.last())
    }
}

fn blend(f: u8, b: u8, a: u8) -> (c: u8)
    ensures
        c == blend_channel(f, b, a),
{
    let fa = f as u32;
    let ba = b as u32;
    let aa = a as u32;
    assert(fa * aa <= 255 * 255) by (nonlinear_arith)
        requires
            fa <= 255,
            aa <= 255,
    ;
    assert(ba * (255 - aa) <= 255 * (255 - aa)) by (nonlinear_arith)
        requires
            ba <= 255,
            aa <= 255,
    ;
    assert(fa * aa + ba * (255 - aa) <= 255 * 255) by (nonlinear_arith)
        requires
            fa <= 255,
            aa <= 255,
            ba <= 255,
    ;
    let v = (fa * aa + ba * (255 - aa)) / 255;
    assert(v <= 255);
    v as u8
}

/// Append the pieces of a line in their colours (see `escape_pieces`).
fn push_escaped(out: &mut String, ps: &Vec<StyledPiece>)
    ensures
        final(out)@ == old(out)@ + escape_pieces(pieces_view(ps@)),
{
    let ghost pv = pieces_view(ps@);
    let mut i: usize = 0;
    while i < ps.len()
        invariant
            i <= ps@.len(),
            pv == pieces_view(ps@),
            out@ == old(out)@ + escape_pieces(pv.take(i as int)),
        decreases ps@.len() - i,
    {
        let p = &ps[i];
        let (r, g, b) = if p.fg.3 == 255 {
            (p.fg.0, p.fg.1, p.fg.2)
        } else {
            (blend(p.fg.0, p.bg.0, p.fg.3), blend(p.fg.1, p.bg.1, p.fg.3), blend(p.fg.2, p.bg.2, p.fg.3))
        };
        let ghost before = out@;
        out.append("\x1b[38;2;");
        push_decimal(out, r as u128);
        out.append(";");
        push_decimal(out, g as u128);
        out.append(";");
        push_decimal(out, b as u128);
        out.append("m");
        out.append(p.text.as_str());
        proof {
            assert(pv.take(i + 1).drop_last() =~= pv.take(i as int));
            assert(pv[i as int] == ps@[i as int]@);
            assert(out@ =~= before + escape_piece(pv[i as int]));
        }
        i += 1;
    }
    proof {
        assert(pv.take(pv.len() as int) =~= pv);
    }
}

impl Highlighter {
    /// The bundled syntaxes and themes; the only way to make a
    /// highlighter.
    pub fn load_defaults() -> Highlighter {
        Highlighter { syntaxes: default_syntaxes(), themes: default_themes() }
    }
}

// ── Lines ───────────────────────────────────────────────────────────────────

/// Scan state for splitting into lines that keep their newline: the lines
/// finished and the line being read.
pub open spec fn lines_scan(s: Seq<char>) -> (Seq<Seq<char>>, Seq<char>)
    decreases s.len(),
{
    if s.len() == 0 {
        (Seq::empty(), Seq::empty())
    } else {
        let (done, cur) = lines_scan(s.drop_last());
        if s.last() == '\n' {
            (done.push(cur.push('\n')), Seq::empty())
        } else {
            (done, cur.push(s.last()))
        }
    }
}

/// The lines of `s`, each with its newline, and a last line without one
/// when `s` does not end with a newline (`syntect::util::LinesWithEndings`).
pub open spec fn lines_with_endings(s: Seq<char>) -> Seq<Seq<char>> {
    let (done, cur) = lines_scan(s);
    if cur.len() > 0 { done.push(cur) } else { done }
}

fn split_lines_with_endings(s: &str) -> (r: Vec<String>)
    ensures
        r@.len() == lines_with_endings(s@).len(),
        forall|i: int| 0 <= i < r@.len() ==> #[trigger] r@[i]@ == lines_with_endings(s@)[i],
{
    let cs = chars_of(s);
    let mut done: Vec<String> = Vec::new();
    let mut cur = String::new();
    let mut i: usize = 0;
    while i < cs.len()
        invariant
            i <= cs@.len(),
            cs@ == s@,
            done@.len() == lines_scan(cs@.take(i as int)).0.len(),
            forall|k: int| 0 <= k < done@.len() ==> #[trigger] done@[k]@ == lines_scan(cs@.take(i as int)).0[k],
            cur@ == lines_scan(cs@.take(i as int)).1,
        decreases cs@.len() - i,
    {
        proof {
            assert(cs@.take(i + 1).drop_last() =~= cs@.take(i as int));
        }
        let c = cs[i];
        cur.push(c);
        if c == '\n' {
            let line = cur;
            done.push(line);
            cur = String::new();
        }
        i += 1;
    }
    proof {
        assert(cs@.take(cs@.len() as int) =~= s@);
    }
    if !cur.as_str().is_empty() {
        done.push(cur);
    }
    done
}

// ── Highlighting ────────────────────────────────────────────────────────────

/// A line as it is output: its pieces in their colours, or the line
/// itself where it was not highlighted.
pub open spec fn line_piece(line: Seq<char>, pieces: Option<Seq<PieceView>>) -> Seq<char> {
    match pieces {
        Some(ps) => escape_pieces(ps),
        None => line,
    }
}

pub open spec fn pieces_text(lines: Seq<Seq<char>>, pieces: Seq<Option<Seq<PieceView>>>) -> Seq<char>
    decreases lines.len(),
{
    if lines.len() == 0 {
        Seq::empty()
    } else {
        pieces_text(lines.drop_last(), pieces.take(lines.len() - 1)) + line_piece(
            lines.last(),
            pieces[lines.len() - 1],
        )
    }
}

/// `pieces` is a highlighting of `lines`: for each line, no pieces, or
/// pieces whose texts make the line.
pub open spec fn pieces_fit(lines: Seq<Seq<char>>, pieces: Seq<Option<Seq<PieceView>>>) -> bool {
    &&& pieces.len() == lines.len()
    &&& forall|i: int| 0 <= i < lines.len() ==> (#[trigger] pieces[i] matches Some(ps) ==> pieces_concat(ps) == lines[i])
}

/// `r` is what highlighting `code` gives for some colouring by syntect:
/// the lines one after the other, each cut into pieces that make it and
/// drawn in their colours (or left as it is, where syntect failed), then
/// a colour reset.
pub open spec fn highlight_outcome(code: Seq<char>, r: Seq<char>) -> bool {
    exists|pieces: Seq<Option<Seq<PieceView>>>|
        pieces_fit(lines_with_endings(code), pieces) && r == #[trigger] pieces_text(
            lines_with_endings(code),
            pieces,
        ) + "\x1b[0m"@
}

proof fn lemma_pieces_text_push(lines: Seq<Seq<char>>, escaped: Seq<Option<Seq<PieceView>>>, i: int, e: Option<Seq<PieceView>>)
    requires
        0 <= i < lines.len(),
        escaped.len() == i,
    ensures
        pieces_text(lines.take(i + 1), escaped.push(e)) == pieces_text(lines.take(i), escaped) + line_piece(
            lines[i],
            e,
        ),
{
    assert(lines.take(i + 1).drop_last() =~= lines.take(i));
    assert(escaped.push(e).take(i) =~= escaped);
}

/// The bundled syntax highlighting in `lang` uses: the one its token
/// finds, else (and for no language) plain text, if there is one.
pub open spec fn chosen_syntax(lang: Seq<char>) -> Option<Seq<char>> {
    let found = if lang.len() == 0 { None } else { bundled_syntax_for_token(lang) };
    match found {
        Some(n) => Some(n),
        None => if bundled_has_syntax("Plain Text"@) { Some("Plain Text"@) } else { None },
    }
}

/// The bundled theme highlighting with `name` uses: that one, else
/// `base16-ocean.dark`, else the first one, if there is any.
pub open spec fn chosen_theme(name: Seq<char>) -> Option<Seq<char>> {
    if bundled_has_theme(name) {
        Some(name)
    } else if bundled_has_theme("base16-ocean.dark"@) {
        Some("base16-ocean.dark"@)
    } else {
        first_bundled_theme()
    }
}

/// syntect's pieces for each of `lines`, highlighted one after the other.
pub open spec fn syntect_lines(syntax: Seq<char>, theme: Seq<char>, lines: Seq<Seq<char>>) -> Seq<Option<Seq<PieceView>>> {
    Seq::new(lines.len(), |i: int| syntect_line(syntax, theme, lines.take(i), lines[i]))
}

/// The pieces each line of `code` is drawn with: syntect's, in the chosen
/// syntax and theme, or none (each line as it is) when there is no syntax
/// or no theme to use.
pub open spec fn code_pieces(code: Seq<char>, lang: Seq<char>, theme_name: Seq<char>) -> Seq<Option<Seq<PieceView>>> {
    let lines = lines_with_endings(code);
    match (chosen_syntax(lang), chosen_theme(theme_name)) {
        (Some(syntax), Some(theme)) => syntect_lines(syntax, theme, lines),
        _ => Seq::new(lines.len(), |i: int| None),
    }
}

/// `code` highlighted in `lang` with the theme `theme_name`: its lines in
/// their colours, then a colour reset.
pub open spec fn highlighted(code: Seq<char>, lang: Seq<char>, theme_name: Seq<char>) -> Seq<char> {
    pieces_text(lines_with_endings(code), code_pieces(code, lang, theme_name)) + "\x1b[0m"@
}

proof fn lemma_seq_less_total(a: Seq<char>, b: Seq<char>)
    requires
        a != b,
    ensures
        seq_less(a, b) || seq_less(b, a),
    decreases a.len(),
{
    if a.len() == 0 {
        if b.len() == 0 {
            assert(a =~= b);
        }
    } else if b.len() > 0 && a[0] == b[0] {
        if a.drop_first() == b.drop_first() {
            assert(a =~= seq![a[0]] + a.drop_first());
            assert(b =~= seq![b[0]] + b.drop_first());
        }
        lemma_seq_less_total(a.drop_first(), b.drop_first());
    }
}

/// There is at most one first theme.
proof fn lemma_first_theme(k: Seq<char>)
    requires
        is_first_theme(k),
    ensures
        first_bundled_theme() == Some(k),
{
    let c = choose|k1: Seq<char>| is_first_theme(k1);
    assert(is_first_theme(c));
    if c != k {
        lemma_seq_less_total(c, k);
    }
}

/// Syntax-highlight `code` for the language `lang` with the theme
/// `theme_name`, using 24-bit colour escapes (see `highlighted`; its text
/// is kept, see `highlight_outcome`).
///
/// An empty or unknown language is highlighted as plain text; an unknown
/// theme falls back to `base16-ocean.dark`, then to the first theme.  With
/// no theme or no plain-text syntax to fall back on, the code is left as
/// it is.
pub fn highlight_code(code: &str, lang: &str, theme_name: &str, hl: &Highlighter) -> (r: String)
    ensures
        r@ == highlighted(code@, lang@, theme_name@),
        highlight_outcome(code@, r@),
{
    let syntax = if lang.is_empty() {
        syntax_by_name(hl, "Plain Text")
    } else {
        match syntax_by_token(hl, lang) {
            Some(s) => Some(s),
            None => syntax_by_name(hl, "Plain Text"),
        }
    };
    let theme = match theme_by_name(hl, theme_name) {
        Some(t) => Some(t),
        None => match theme_by_name(hl, "base16-ocean.dark") {
            Some(t) => Some(t),
            None => first_theme(hl),
        },
    };
    proof {
        if let Some(t) = &theme {
            if !bundled_has_theme(theme_name@) && !bundled_has_theme("base16-ocean.dark"@) {
                lemma_first_theme(t.key@);
            }
        } else {
            assert(!(exists|k: Seq<char>| is_first_theme(k)));
        }
    }
    assert(match syntax { Some(c) => chosen_syntax(lang@) == Some(c.name@), None => chosen_syntax(lang@) is None });
    assert(match theme { Some(c) => chosen_theme(theme_name@) == Some(c.key@), None => chosen_theme(theme_name@) is None });
    let lines = split_lines_with_endings(code);
    let ghost all = lines_with_endings(code@);
    let ghost want = code_pieces(code@, lang@, theme_name@);
    let mut out = String::new();
    let ghost mut pieces: Seq<Option<Seq<PieceView>>> = Seq::empty();
    let mut highlighter = match (&syntax, &theme) {
        (Some(s), Some(t)) => Some(line_highlighter(s, t)),
        _ => None,
    };
    let mut i: usize = 0;
    assert(all.take(0) =~= Seq::<Seq<char>>::empty());
    while i < lines.len()
        invariant
            i <= lines@.len(),
            all == lines_with_endings(code@),
            want == code_pieces(code@, lang@, theme_name@),
            want.len() == all.len(),
            lines@.len() == all.len(),
            forall|k: int| 0 <= k < lines@.len() ==> #[trigger] lines@[k]@ == all[k],
            pieces == want.take(i as int),
            forall|k: int| 0 <= k < i ==> (#[trigger] pieces[k] matches Some(ps) ==> pieces_concat(ps) == all[k]),
            out@ == pieces_text(all.take(i as int), pieces),
            match highlighter {
                Some(h) => (chosen_syntax(lang@), chosen_theme(theme_name@)) == (Some(h.syntax@), Some(h.theme@))
                    && h.lines@ == all.take(i as int),
                None => !(chosen_syntax(lang@) is Some && chosen_theme(theme_name@) is Some),
            },
        decreases lines@.len() - i,
    {
        let line = lines[i].as_str();
        let (styled, next) = match highlighter {
            Some(mut h) => {
                let p = highlight_line(&mut h, line, hl);
                (p, Some(h))
            },
            None => (None, None),
        };
        highlighter = next;
        let ghost e: Option<Seq<PieceView>> = match &styled {
            Some(v) => Some(pieces_view(v@)),
            None => None,
        };
        assert(e == want[i as int]);
        proof {
            lemma_pieces_text_push(all, pieces, i as int, e);
        }
        match &styled {
            Some(v) => {
                push_escaped(&mut out, v);
            },
            None => {
                out.append(line);
            },
        }
        proof {
            pieces = pieces.push(e);
            assert(pieces =~= want.take(i + 1));
            assert(all.take(i + 1) =~= all.take(i as int).push(all[i as int]));
        }
        i += 1;
    }
    out.append("\x1b[0m");
    assert(all.take(all.len() as int) =~= all);
    assert(pieces =~= want);
    assert(pieces_fit(all, pieces));
    assert(out@ == pieces_text(all, pieces) + "\x1b[0m"@);
    out
}

/// Highlighted code always ends with a colour reset.
pub proof fn law_highlight_ends_with_reset(code: Seq<char>, r: Seq<char>)
    requires
        highlight_outcome(code, r),
    ensures
        r.len() >= 4,
        r.skip(r.len() - 4) == seq!['\x1b', '[', '0', 'm'],
{
    reveal_strlit("\x1b[0m");
    let pieces = choose|pieces: Seq<Option<Seq<PieceView>>>|
        pieces_fit(lines_with_endings(code), pieces) && r == #[trigger] pieces_text(
            lines_with_endings(code),
            pieces,
        ) + "\x1b[0m"@;
    assert(r.skip(r.len() - 4) =~= seq!['\x1b', '[', '0', 'm']);
}

// ── Highlighting keeps the text ─────────────────────────────────────────────

/// The lines one after the other.
pub open spec fn concat_lines(lines: Seq<Seq<char>>) -> Seq<char>
    decreases lines.len(),
{
    if lines.len() == 0 {
        Seq::empty()
    } else {
        concat_lines(lines.drop_last()) + lines.last()
    }
}

proof fn lemma_csi_body_concat(x: Seq<char>, y: Seq<char>)
    requires
        forall|i: int| 0 <= i < x.len() ==> is_digit(#[trigger] x[i]) || x[i] == ';',
        forall|i: int| 0 <= i < y.len() ==> is_digit(#[trigger] y[i]) || y[i] == ';',
    ensures
        forall|i: int| 0 <= i < (x + y).len() ==> is_digit(#[trigger] (x + y)[i]) || (x + y)[i] == ';',
{
    assert forall|i: int| 0 <= i < (x + y).len() implies is_digit(#[trigger] (x + y)[i]) || (x + y)[i] == ';' by {
        if i < x.len() {
            assert((x + y)[i] == x[i]);
        } else {
            assert((x + y)[i] == y[i - x.len()]);
        }
    }
}

proof fn lemma_dec_csi(n: nat)
    ensures
        forall|i: int| 0 <= i < dec(n).len() ==> is_digit(#[trigger] dec(n)[i]) || dec(n)[i] == ';',
{
    lemma_dec(n);
}

/// A colour escape read in the text state leaves it there, keeping nothing.
proof fn lemma_scan_colour(a: Seq<char>, c: (nat, nat, nat))
    requires
        ansi_scan(a).1 == 0,
    ensures
        ansi_scan(a + colour_escape(c)) == (ansi_scan(a).0, 0u8),
{
    reveal_strlit("\x1b[38;2;");
    reveal_strlit(";");
    reveal_strlit("m");
    let semi = ";"@;
    let mid = seq!['3', '8', ';', '2', ';'];
    assert forall|i: int| 0 <= i < mid.len() implies is_digit(#[trigger] mid[i]) || mid[i] == ';' by {}
    assert forall|i: int| 0 <= i < semi.len() implies is_digit(#[trigger] semi[i]) || semi[i] == ';' by {}
    lemma_dec_csi(c.0);
    lemma_dec_csi(c.1);
    lemma_dec_csi(c.2);
    let t1 = mid + dec(c.0);
    lemma_csi_body_concat(mid, dec(c.0));
    let t2 = t1 + semi;
    lemma_csi_body_concat(t1, semi);
    let t3 = t2 + dec(c.1);
    lemma_csi_body_concat(t2, dec(c.1));
    let t4 = t3 + semi;
    lemma_csi_body_concat(t3, semi);
    let t = t4 + dec(c.2);
    lemma_csi_body_concat(t4, dec(c.2));
    let a1 = a.push('\x1b');
    lemma_scan_step(a, '\x1b');
    let a2 = a1.push('[');
    lemma_scan_step(a1, '[');
    lemma_scan_csi(a2, t);
    lemma_scan_step(a2 + t, 'm');
    assert(a + colour_escape(c) =~= (a2 + t).push('m'));
}

/// The escaped pieces of a line, read in the text state, keep their texts.
proof fn lemma_scan_pieces(a: Seq<char>, ps: Seq<PieceView>)
    requires
        ansi_scan(a).1 == 0,
        no_esc(pieces_concat(ps)),
    ensures
        ansi_scan(a + escape_pieces(ps)) == (ansi_scan(a).0 + pieces_concat(ps), 0u8),
    decreases ps.len(),
{
    if ps.len() == 0 {
        assert(a + escape_pieces(ps) =~= a);
        assert(ansi_scan(a).0 + pieces_concat(ps) =~= ansi_scan(a).0);
    } else {
        let p0 = ps.drop_last();
        let last = ps.last();
        lemma_no_esc_split(pieces_concat(p0), last.text);
        lemma_scan_pieces(a, p0);
        let x = a + escape_pieces(p0);
        lemma_scan_colour(x, piece_colour(last));
        lemma_scan_plain(x + colour_escape(piece_colour(last)), last.text);
        assert(a + escape_pieces(ps) =~= x + colour_escape(piece_colour(last)) + last.text);
        assert(ansi_scan(a).0 + pieces_concat(p0) + last.text =~= ansi_scan(a).0 + pieces_concat(ps));
    }
}

/// The output of highlighting lines, before the reset, keeps just the lines.
proof fn lemma_scan_lines(lines: Seq<Seq<char>>, pieces: Seq<Option<Seq<PieceView>>>)
    requires
        pieces_fit(lines, pieces),
        no_esc(concat_lines(lines)),
    ensures
        ansi_scan(pieces_text(lines, pieces)) == (concat_lines(lines), 0u8),
    decreases lines.len(),
{
    if lines.len() == 0 {
        assert(ansi_scan(Seq::<char>::empty()) == (Seq::<char>::empty(), 0u8));
    } else {
        let n = lines.len() - 1;
        let lp = lines.drop_last();
        let pp = pieces.take(n);
        assert forall|i: int| 0 <= i < lp.len() implies (#[trigger] pp[i] matches Some(ps) ==> pieces_concat(ps) == lp[i]) by {
            assert(pp[i] == pieces[i]);
            assert(lp[i] == lines[i]);
        }
        assert(pieces_fit(lp, pp));
        lemma_no_esc_split(concat_lines(lp), lines.last());
        lemma_scan_lines(lp, pp);
        let x = pieces_text(lp, pp);
        match pieces[n] {
            Some(ps) => {
                assert(pieces_concat(ps) == lines[n]);
                lemma_scan_pieces(x, ps);
            },
            None => {
                lemma_scan_plain(x, lines.last());
            },
        }
    }
}

/// The lines of `s`, with their newlines, make `s` again.
proof fn lemma_lines_scan_concat(s: Seq<char>)
    ensures
        concat_lines(lines_scan(s).0) + lines_scan(s).1 == s,
    decreases s.len(),
{
    if s.len() > 0 {
        let s0 = s.drop_last();
        lemma_lines_scan_concat(s0);
        let (done, cur) = lines_scan(s0);
        assert(s =~= s0.push(s.last()));
        assert(concat_lines(done) + cur.push(s.last()) =~= (concat_lines(done) + cur).push(s.last()));
        if s.last() == '\n' {
            assert(done.push(cur.push('\n')).drop_last() =~= done);
            assert(concat_lines(done.push(cur.push('\n'))) == concat_lines(done) + cur.push('\n'));
            assert(concat_lines(done) + cur.push('\n') + Seq::<char>::empty() =~= concat_lines(done) + cur.push('\n'));
        }
    } else {
        assert(Seq::<char>::empty() + Seq::<char>::empty() =~= s);
    }
}

proof fn lemma_lines_concat(s: Seq<char>)
    ensures
        concat_lines(lines_with_endings(s)) == s,
{
    lemma_lines_scan_concat(s);
    let (done, cur) = lines_scan(s);
    if cur.len() > 0 {
        assert(done.push(cur).drop_last() =~= done);
    } else {
        assert(concat_lines(done) + cur =~= concat_lines(done));
    }
}

/// Highlighting only adds colour escapes: with the escapes taken out, the
/// highlighted code is the code again (code holding no escape character
/// of its own).
pub proof fn law_highlight_keeps_text(code: Seq<char>, r: Seq<char>)
    requires
        highlight_outcome(code, r),
        no_esc(code),
    ensures
        strip_ansi_spec(r) == code,
{
    let lines = lines_with_endings(code);
    let pieces = choose|pieces: Seq<Option<Seq<PieceView>>>|
        pieces_fit(lines, pieces) && r == #[trigger] pieces_text(lines, pieces) + "\x1b[0m"@;
    lemma_lines_concat(code);
    lemma_scan_lines(lines, pieces);
    let x = pieces_text(lines, pieces);
    reveal_strlit("\x1b[0m");
    let x1 = x.push('\x1b');
    lemma_scan_step(x, '\x1b');
    let x2 = x1.push('[');
    lemma_scan_step(x1, '[');
    let x3 = x2.push('0');
    lemma_scan_step(x2, '0');
    lemma_scan_step(x3, 'm');
    assert(r =~= x3.push('m'));
}

} // verus!
