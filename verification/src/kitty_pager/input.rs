//! Key handling and search for the pager.  The caller reads terminal events,
//! turns them into `PagerEvent`s, hands them to `Pager::handle_event`, and
//! writes `Pager::frame` whenever a redraw is asked for.
use std::collections::HashSet;
use vstd::prelude::*;

use super::document::{DocItem, KittyDocument, KittyImage, PagerOptions};
use super::renderer::{
    at_least_one, crop_fits, entries_view, frame_spec, frame_walk, image_rows, layout,
    image_total_rows, images_fit, layout_fits, layout_spec, lemma_layout_frame_ok, render_frame_with_status, EntryKind, EntryView,
    LayoutEntry, LayoutEntryView,
};
use crate::text::{
    chars_of, contains_chars, contains_seq, dec, lowercase, push_decimal, string_of, strip_ansi, strip_ansi_spec,
    to_lowercase,
};

verus! {

// ── Search types ────────────────────────────────────────────────────────────

#[derive(Debug, Clone, Copy, PartialEq, Eq, Structural)]
pub enum SearchDirection {
    Forward,
    Backward,
}

pub struct SearchState {
    pub query: String,
    /// Sorted layout-entry indices whose plain text contains the query.
    pub matches: Vec<usize>,
    /// Current position within `matches`.
    pub current: usize,
}

pub enum InputMode {
    Normal,
    SearchInput { buffer: String, direction: SearchDirection },
}

// ── Matching ────────────────────────────────────────────────────────────────

/// A layout row matches a (lower-cased) query when it is a text row whose
/// escape-free, lower-cased text contains it.  Image rows never match.
pub open spec fn row_matches(kind: EntryView, lower_query: Seq<char>) -> bool {
    match kind {
        EntryView::TextLine(line) => contains_seq(lowercase(strip_ansi_spec(line)), lower_query),
        EntryView::ImageRow { .. } => false,
    }
}

/// Indices below `n` of the rows that match, in increasing order.
pub open spec fn matches_below(rows: Seq<LayoutEntryView>, lower_query: Seq<char>, n: nat) -> Seq<usize>
    decreases n,
{
    if n == 0 {
        Seq::empty()
    } else {
        let p = matches_below(rows, lower_query, (n - 1) as nat);
        if row_matches(rows[n - 1].kind, lower_query) {
            p.push((n - 1) as usize)
        } else {
            p
        }
    }
}

/// The indices of the rows that contain `query`, ignoring case and escape
/// sequences; nothing for an empty query.
pub open spec fn find_matches_spec(rows: Seq<LayoutEntryView>, query: Seq<char>) -> Seq<usize> {
    if query.len() == 0 {
        Seq::empty()
    } else {
        matches_below(rows, lowercase(query), rows.len())
    }
}

/// Return the layout-entry indices (in order) whose text contains `query`
/// (case-insensitive).  Image rows are never matched.
pub fn find_matches(entries: &Vec<LayoutEntry>, query: &str) -> (m: Vec<usize>)
    ensures
        m@ == find_matches_spec(entries_view(entries@), query@),
{
    if query.is_empty() {
        return Vec::new();
    }
    let lower = to_lowercase(query);
    let lower_chars = chars_of(lower.as_str());
    let ghost rows = entries_view(entries@);
    let mut out: Vec<usize> = Vec::new();
    let mut i: usize = 0;
    while i < entries.len()
        invariant
            i <= entries@.len(),
            rows == entries_view(entries@),
            lower_chars@ == lowercase(query@),
            out@ == matches_below(rows, lowercase(query@), i as nat),
        decreases entries@.len() - i,
    {
        assert(rows[i as int] == entries@[i as int]@);
        match &entries[i].kind {
            EntryKind::Text(line) => {
                let plain = strip_ansi(line.as_str());
                let lowered = to_lowercase(plain.as_str());
                let hay = chars_of(lowered.as_str());
                if contains_chars(&hay, &lower_chars) {
                    out.push(i);
                }
            },
            EntryKind::ImageRow { .. } => {},
        }
        i += 1;
    }
    out
}

/// Every match index is a row of the layout, the indices strictly increase,
/// and each one is a matching row; every matching row is among them.
pub proof fn lemma_matches_sound_complete(rows: Seq<LayoutEntryView>, lower_query: Seq<char>, n: nat)
    requires
        n <= rows.len(),
        rows.len() <= usize::MAX,
    ensures
        forall|k: int| 0 <= k < matches_below(rows, lower_query, n).len() ==> {
            &&& #[trigger] matches_below(rows, lower_query, n)[k] < n
            &&& row_matches(rows[matches_below(rows, lower_query, n)[k] as int].kind, lower_query)
        },
        forall|a: int, b: int|
            0 <= a < b < matches_below(rows, lower_query, n).len() ==> #[trigger] matches_below(rows, lower_query, n)[a]
                < #[trigger] matches_below(rows, lower_query, n)[b],
        forall|j: int|
            0 <= j < n && #[trigger] row_matches(rows[j].kind, lower_query) ==> matches_below(rows, lower_query, n).contains(
                j as usize,
            ),
    decreases n,
{
    if n > 0 {
        lemma_matches_sound_complete(rows, lower_query, (n - 1) as nat);
        let p = matches_below(rows, lower_query, (n - 1) as nat);
        if row_matches(rows[n - 1].kind, lower_query) {
            assert(p.push((n - 1) as usize)[p.len() as int] == (n - 1) as usize);
            assert forall|j: int| 0 <= j < n && #[trigger] row_matches(rows[j].kind, lower_query) implies p.push(
                (n - 1) as usize,
            ).contains(j as usize) by {
                if j < n - 1 {
                    let k = choose|k: int| 0 <= k < p.len() && p[k] == j as usize;
                    assert(p.push((n - 1) as usize)[k] == j as usize);
                }
            }
        }
    }
}

// ── Status line ─────────────────────────────────────────────────────────────

/// The text appended to the status bar.
pub open spec fn status_suffix_spec(mode: InputMode, search: Option<SearchState>) -> Seq<char> {
    match mode {
        InputMode::SearchInput { buffer, direction } => {
            let prefix = match direction {
                SearchDirection::Forward => '/',
                SearchDirection::Backward => '?',
            };
            seq![prefix] + buffer@ + seq!['_']
        },
        InputMode::Normal => match search {
            Some(s) => if s.matches@.len() == 0 {
                seq!['/'] + s.query@ + " [No matches]"@
            } else {
                seq!['/'] + s.query@ + " ["@ + dec(s.current as nat + 1) + seq!['/'] + dec(s.matches@.len()) + seq![']']
            },
            None => Seq::empty(),
        },
    }
}

/// Build the string to append to the status bar based on the current mode and
/// search state.  Empty string means nothing extra is shown.
pub fn status_suffix(mode: &InputMode, search: &Option<SearchState>) -> (s: String)
    requires
        search matches Some(st) ==> (st.matches@.len() > 0 ==> st.current < usize::MAX),
    ensures
        s@ == status_suffix_spec(*mode, *search),
{
    let mut out = String::new();
    match mode {
        InputMode::SearchInput { buffer, direction } => {
            let prefix = match direction {
                SearchDirection::Forward => '/',
                SearchDirection::Backward => '?',
            };
            out.push(prefix);
            out.append(buffer.as_str());
            out.push('_');
        },
        InputMode::Normal => match search {
            Some(s) => {
                out.push('/');
                out.append(s.query.as_str());
                if s.matches.len() == 0 {
                    out.append(" [No matches]");
                } else {
                    out.append(" [");
                    push_decimal(&mut out, (s.current + 1) as u128);
                    out.push('/');
                    push_decimal(&mut out, s.matches.len() as u128);
                    out.push(']');
                }
            },
            None => {},
        },
    }
    assert(out@ =~= status_suffix_spec(*mode, *search));
    out
}


// ── Events ──────────────────────────────────────────────────────────────────

/// A key, as far as the pager tells keys apart.
#[derive(Debug, Clone, Copy, PartialEq, Eq, Structural)]
pub enum Key {
    Char(char),
    Esc,
    Enter,
    Backspace,
    Up,
    Down,
    PageUp,
    PageDown,
    Home,
    End,
    Other,
}

/// The modifier keys held with a key: exactly none, exactly shift, exactly
/// control, or some other combination.
#[derive(Debug, Clone, Copy, PartialEq, Eq, Structural)]
pub enum Modifiers {
    Plain,
    Shift,
    Control,
    Other,
}

/// A terminal event.
#[derive(Debug, Clone, Copy, PartialEq, Eq, Structural)]
pub enum PagerEvent {
    Key(Key, Modifiers),
    Resize(u16, u16),
    Other,
}

/// What the caller does after an event.
#[derive(Debug, Clone, Copy, PartialEq, Eq, Structural)]
pub enum PagerAction {
    /// Write a new frame.
    Redraw,
    /// Nothing changed; wait for the next event.
    Ignore,
    /// Leave the pager.
    Quit,
}

// ── Pager state ─────────────────────────────────────────────────────────────

pub struct SearchView {
    pub query: Seq<char>,
    pub matches: Seq<usize>,
    pub current: usize,
}

pub enum ModeView {
    Normal,
    SearchInput { buffer: Seq<char>, direction: SearchDirection },
}

pub struct PagerView {
    pub rows: Seq<LayoutEntryView>,
    pub top_entry: usize,
    pub screen_rows: u16,
    pub cell_w: u32,
    pub cell_h: u32,
    pub mode: ModeView,
    pub search: Option<SearchView>,
}

/// The interactive state of the pager over one document.
pub struct Pager {
    pub entries: Vec<LayoutEntry>,
    pub top_entry: usize,
    pub screen_rows: u16,
    pub cell_w: u32,
    pub cell_h: u32,
    pub mode: InputMode,
    pub search: Option<SearchState>,
}

pub open spec fn mode_view(m: InputMode) -> ModeView {
    match m {
        InputMode::Normal => ModeView::Normal,
        InputMode::SearchInput { buffer, direction } => ModeView::SearchInput { buffer: buffer@, direction },
    }
}

pub open spec fn search_view(s: Option<SearchState>) -> Option<SearchView> {
    match s {
        Some(st) => Some(SearchView { query: st.query@, matches: st.matches@, current: st.current }),
        None => None,
    }
}

impl View for Pager {
    type V = PagerView;

    open spec fn view(&self) -> PagerView {
        PagerView {
            rows: entries_view(self.entries@),
            top_entry: self.top_entry,
            screen_rows: self.screen_rows,
            cell_w: self.cell_w,
            cell_h: self.cell_h,
            mode: mode_view(self.mode),
            search: search_view(self.search),
        }
    }
}

/// The document can be laid out and framed with cells of this size.
pub open spec fn doc_fits(items: Seq<DocItem>, cell_w: u32, cell_h: u32) -> bool {
    &&& layout_fits(items, cell_w)
    &&& images_fit(items, cell_w, cell_h)
}

/// The pager's invariant: the rows are the document's layout, the top row
/// is one of them, and a search holds exactly the matching rows with the
/// current match among them.
pub open spec fn pager_wf(items: Seq<DocItem>, v: PagerView) -> bool {
    &&& v.cell_w >= 1
    &&& v.cell_h >= 1
    &&& items.len() <= usize::MAX
    &&& doc_fits(items, v.cell_w, v.cell_h)
    &&& v.rows == layout_spec(items, v.cell_w, v.cell_h)
    &&& v.rows.len() > 0
    &&& v.rows.len() * 100 <= usize::MAX
    &&& v.top_entry < v.rows.len()
    &&& v.search matches Some(s) ==> {
        &&& s.matches == find_matches_spec(v.rows, s.query)
        &&& s.matches.len() > 0 ==> s.current < s.matches.len()
    }
}

/// Rows scrolled by a page: the screen minus the status bar and one row of
/// context, at least one.
pub open spec fn full_page(screen_rows: u16) -> nat {
    if screen_rows >= 3 { (screen_rows - 2) as nat } else { 1 }
}

pub open spec fn half_page(screen_rows: u16) -> nat {
    full_page(screen_rows) / 2
}

pub open spec fn scroll_down(v: PagerView, by: nat) -> usize {
    let max_top = (v.rows.len() - 1) as nat;
    if v.top_entry + by <= max_top { (v.top_entry + by) as usize } else { max_top as usize }
}

pub open spec fn scroll_up(v: PagerView, by: nat) -> usize {
    if v.top_entry >= by { (v.top_entry - by) as usize } else { 0 }
}

pub open spec fn with_top(v: PagerView, top: usize) -> PagerView {
    PagerView { top_entry: top, ..v }
}

/// Index of the first match at or below row `top`, from position `k` on.
pub open spec fn first_match_from(m: Seq<usize>, top: usize, k: nat) -> Option<nat>
    decreases m.len() - k,
{
    if k >= m.len() {
        None
    } else if m[k as int] >= top {
        Some(k)
    } else {
        first_match_from(m, top, k + 1)
    }
}

/// Index of the last match at or above row `top`, among the first `n`.
pub open spec fn last_match_below(m: Seq<usize>, top: usize, n: nat) -> Option<nat>
    decreases n,
{
    if n == 0 {
        None
    } else if m[n - 1] <= top {
        Some((n - 1) as nat)
    } else {
        last_match_below(m, top, (n - 1) as nat)
    }
}

/// Where a new search starts: the first match at or after the top row going
/// forward (else the first match), the last match at or before it going
/// backward (else the last match).
pub open spec fn start_match(m: Seq<usize>, top: usize, direction: SearchDirection) -> nat {
    if m.len() == 0 {
        0
    } else {
        match direction {
            SearchDirection::Forward => match first_match_from(m, top, 0) {
                Some(k) => k,
                None => 0,
            },
            SearchDirection::Backward => match last_match_below(m, top, m.len()) {
                Some(k) => k,
                None => (m.len() - 1) as nat,
            },
        }
    }
}

/// Keys while a search query is typed.
pub open spec fn search_input_step(v: PagerView, buffer: Seq<char>, direction: SearchDirection, key: Key, mods: Modifiers) -> (PagerView, PagerAction) {
    match key {
        Key::Esc => (PagerView { mode: ModeView::Normal, ..v }, PagerAction::Redraw),
        Key::Enter => {
            let matches = find_matches_spec(v.rows, buffer);
            let current = start_match(matches, v.top_entry, direction);
            let top = if matches.len() > 0 { matches[current as int] } else { v.top_entry };
            (
                PagerView {
                    top_entry: top,
                    mode: ModeView::Normal,
                    search: Some(SearchView { query: buffer, matches, current: current as usize }),
                    ..v
                },
                PagerAction::Redraw,
            )
        },
        Key::Backspace => {
            let b = if buffer.len() > 0 { buffer.drop_last() } else { buffer };
            (PagerView { mode: ModeView::SearchInput { buffer: b, direction }, ..v }, PagerAction::Redraw)
        },
        Key::Char(c) => if mods == Modifiers::Plain || mods == Modifiers::Shift {
            (PagerView { mode: ModeView::SearchInput { buffer: buffer.push(c), direction }, ..v }, PagerAction::Redraw)
        } else {
            (v, PagerAction::Ignore)
        },
        _ => (v, PagerAction::Ignore),
    }
}

/// Moving to the next (`forward`) or previous match.
pub open spec fn match_step(v: PagerView, forward: bool) -> (PagerView, PagerAction) {
    match v.search {
        Some(s) => if s.matches.len() > 0 {
            let cur: nat = if forward {
                ((s.current + 1) % (s.matches.len() as int)) as nat
            } else if s.current > 0 {
                (s.current - 1) as nat
            } else {
                (s.matches.len() - 1) as nat
            };
            (
                PagerView {
                    top_entry: s.matches[cur as int],
                    search: Some(SearchView { current: cur as usize, ..s }),
                    ..v
                },
                PagerAction::Redraw,
            )
        } else {
            (v, PagerAction::Redraw)
        },
        None => (v, PagerAction::Ignore),
    }
}

/// Keys in normal mode: scrolling, search, quitting.
pub open spec fn normal_step(v: PagerView, key: Key, mods: Modifiers) -> (PagerView, PagerAction) {
    let max_top = (v.rows.len() - 1) as usize;
    let redraw = |top: usize| (with_top(v, top), PagerAction::Redraw);
    match key {
        Key::Char(c) => {
            if c == 'q' || c == 'Q' || (c == 'c' && mods == Modifiers::Control) {
                (v, PagerAction::Quit)
            } else if c == '/' {
                (PagerView { mode: ModeView::SearchInput { buffer: Seq::empty(), direction: SearchDirection::Forward }, ..v }, PagerAction::Redraw)
            } else if c == '?' {
                (PagerView { mode: ModeView::SearchInput { buffer: Seq::empty(), direction: SearchDirection::Backward }, ..v }, PagerAction::Redraw)
            } else if c == 'n' {
                match_step(v, true)
            } else if c == 'N' {
                match_step(v, false)
            } else if c == 'j' {
                redraw(scroll_down(v, 1))
            } else if c == 'k' {
                redraw(scroll_up(v, 1))
            } else if c == 'd' && mods == Modifiers::Control {
                redraw(scroll_down(v, half_page(v.screen_rows)))
            } else if c == 'b' && mods == Modifiers::Control {
                redraw(scroll_up(v, half_page(v.screen_rows)))
            } else if c == 'f' || c == ' ' {
                redraw(scroll_down(v, full_page(v.screen_rows)))
            } else if c == 'b' {
                redraw(scroll_up(v, full_page(v.screen_rows)))
            } else if c == 'g' {
                redraw(0)
            } else if c == 'G' {
                redraw(max_top)
            } else {
                (v, PagerAction::Ignore)
            }
        },
        Key::Esc => (v, PagerAction::Quit),
        Key::Down => redraw(scroll_down(v, 1)),
        Key::Up => redraw(scroll_up(v, 1)),
        Key::PageDown => redraw(scroll_down(v, full_page(v.screen_rows))),
        Key::PageUp => redraw(scroll_up(v, full_page(v.screen_rows))),
        Key::Home => redraw(0),
        Key::End => redraw(max_top),
        _ => (v, PagerAction::Ignore),
    }
}

/// A resize changes the screen height; the top row and the current match are
/// kept inside the layout and the search is run again.
pub open spec fn resize_step(v: PagerView, new_rows: u16) -> (PagerView, PagerAction) {
    let search = match v.search {
        Some(s) => {
            let m = find_matches_spec(v.rows, s.query);
            let cur = if m.len() > 0 && s.current >= m.len() { (m.len() - 1) as usize } else { s.current };
            Some(SearchView { query: s.query, matches: m, current: cur })
        },
        None => None,
    };
    let max_top = (v.rows.len() - 1) as usize;
    (
        PagerView {
            screen_rows: new_rows,
            top_entry: if v.top_entry <= max_top { v.top_entry } else { max_top },
            search,
            ..v
        },
        PagerAction::Redraw,
    )
}

/// The pager's response to one event.
pub open spec fn step_spec(v: PagerView, ev: PagerEvent) -> (PagerView, PagerAction) {
    match ev {
        PagerEvent::Key(key, mods) => match v.mode {
            ModeView::SearchInput { buffer, direction } => search_input_step(v, buffer, direction, key, mods),
            ModeView::Normal => normal_step(v, key, mods),
        },
        PagerEvent::Resize(_cols, rows) => resize_step(v, rows),
        PagerEvent::Other => (v, PagerAction::Ignore),
    }
}

/// `s` without its last character (unchanged when empty).
fn drop_last_char(s: &String) -> (r: String)
    ensures
        r@ == if s@.len() > 0 { s@.drop_last() } else { s@ },
{
    let cs = chars_of(s.as_str());
    if cs.len() == 0 {
        string_of(&cs, 0, 0)
    } else {
        let r = string_of(&cs, 0, cs.len() - 1);
        assert(r@ =~= s@.drop_last());
        r
    }
}

fn first_match_at_or_after(m: &Vec<usize>, top: usize) -> (k: Option<usize>)
    ensures
        k matches Some(i) ==> first_match_from(m@, top, 0) == Some(i as nat),
        k is None ==> first_match_from(m@, top, 0) is None,
{
    let mut i: usize = 0;
    while i < m.len()
        invariant
            i <= m@.len(),
            first_match_from(m@, top, 0) == first_match_from(m@, top, i as nat),
        decreases m@.len() - i,
    {
        if m[i] >= top {
            return Some(i);
        }
        i += 1;
    }
    None
}

fn last_match_at_or_before(m: &Vec<usize>, top: usize) -> (k: Option<usize>)
    ensures
        k matches Some(i) ==> last_match_below(m@, top, m@.len()) == Some(i as nat),
        k is None ==> last_match_below(m@, top, m@.len()) is None,
{
    let mut n: usize = m.len();
    while n > 0
        invariant
            n <= m@.len(),
            last_match_below(m@, top, m@.len()) == last_match_below(m@, top, n as nat),
        decreases n,
    {
        if m[n - 1] <= top {
            return Some(n - 1);
        }
        n -= 1;
    }
    None
}

proof fn lemma_first_match_from(m: Seq<usize>, top: usize, k: nat)
    ensures
        first_match_from(m, top, k) matches Some(i) ==> k <= i < m.len(),
    decreases m.len() - k,
{
    if k < m.len() && m[k as int] < top {
        lemma_first_match_from(m, top, k + 1);
    }
}

proof fn lemma_last_match_below(m: Seq<usize>, top: usize, n: nat)
    ensures
        last_match_below(m, top, n) matches Some(i) ==> i < n,
    decreases n,
{
    if n > 0 && m[n - 1] > top {
        lemma_last_match_below(m, top, (n - 1) as nat);
    }
}

/// Every event keeps the pager's invariant.
pub proof fn lemma_step_keeps_wf(items: Seq<DocItem>, v: PagerView, ev: PagerEvent)
    requires
        pager_wf(items, v),
    ensures
        pager_wf(items, step_spec(v, ev).0),
{
    let (w, _a) = step_spec(v, ev);
    lemma_matches_sound_complete(v.rows, lowercase(Seq::<char>::empty()), v.rows.len());
    match ev {
        PagerEvent::Key(key, mods) => match v.mode {
            ModeView::SearchInput { buffer, direction } => {
                if key == Key::Enter {
                    let m = find_matches_spec(v.rows, buffer);
                    lemma_start_match_in_range(m, v.top_entry, direction);
                    if buffer.len() > 0 {
                        lemma_matches_sound_complete(v.rows, lowercase(buffer), v.rows.len());
                    }
                }
            },
            ModeView::Normal => {
                if let Some(s) = v.search {
                    if s.matches.len() > 0 {
                        lemma_matches_sound_complete(v.rows, lowercase(s.query), v.rows.len());
                    }
                }
            },
        },
        _ => {},
    }
}

/// A new search starts at one of its matches.
pub proof fn lemma_start_match_in_range(m: Seq<usize>, top: usize, direction: SearchDirection)
    ensures
        m.len() > 0 ==> start_match(m, top, direction) < m.len(),
{
    lemma_first_match_from(m, top, 0);
    lemma_last_match_below(m, top, m.len());
}

/// The matches of a search are the rows that contain the query (ignoring
/// case and escape sequences), each once and in increasing order.
pub proof fn law_search_matches(rows: Seq<LayoutEntryView>, query: Seq<char>)
    requires
        rows.len() <= usize::MAX,
        query.len() > 0,
    ensures
        forall|k: int|
            0 <= k < find_matches_spec(rows, query).len() ==> {
                &&& #[trigger] find_matches_spec(rows, query)[k] < rows.len()
                &&& row_matches(rows[find_matches_spec(rows, query)[k] as int].kind, lowercase(query))
            },
        forall|a: int, b: int|
            0 <= a < b < find_matches_spec(rows, query).len() ==> #[trigger] find_matches_spec(rows, query)[a]
                < #[trigger] find_matches_spec(rows, query)[b],
        forall|j: int|
            0 <= j < rows.len() && #[trigger] row_matches(rows[j].kind, lowercase(query)) ==> find_matches_spec(
                rows,
                query,
            ).contains(j as usize),
{
    lemma_matches_sound_complete(rows, lowercase(query), rows.len());
}

proof fn lemma_matches_len(rows: Seq<LayoutEntryView>, lower_query: Seq<char>, n: nat)
    ensures
        matches_below(rows, lower_query, n).len() <= n,
    decreases n,
{
    if n > 0 {
        lemma_matches_len(rows, lower_query, (n - 1) as nat);
    }
}

/// Scrolling down one row and back up returns to the same row, unless the
/// last row was already at the top.
pub proof fn law_down_then_up(items: Seq<DocItem>, v: PagerView, mods: Modifiers)
    requires
        pager_wf(items, v),
        v.mode == ModeView::Normal,
        v.top_entry + 1 < v.rows.len(),
    ensures
        step_spec(step_spec(v, PagerEvent::Key(Key::Char('j'), mods)).0, PagerEvent::Key(Key::Char('k'), mods)).0
            == v,
{
    let w = step_spec(v, PagerEvent::Key(Key::Char('j'), mods)).0;
    assert(w == with_top(v, (v.top_entry + 1) as usize));
    assert(step_spec(w, PagerEvent::Key(Key::Char('k'), mods)).0 =~= v);
}

/// In normal mode the arrow keys scroll as `k` and `j` do: Up moves one
/// row towards the top (staying at the first row), Down one row towards the
/// end (staying at the last row).
pub proof fn law_arrows_scroll_like_k_and_j(v: PagerView, mods: Modifiers)
    requires
        v.mode == ModeView::Normal,
        v.top_entry < v.rows.len() <= usize::MAX,
    ensures
        step_spec(v, PagerEvent::Key(Key::Up, mods)) == step_spec(v, PagerEvent::Key(Key::Char('k'), mods)),
        step_spec(v, PagerEvent::Key(Key::Down, mods)) == step_spec(v, PagerEvent::Key(Key::Char('j'), mods)),
        step_spec(v, PagerEvent::Key(Key::Up, mods)).1 == PagerAction::Redraw,
        v.top_entry > 0 ==> step_spec(v, PagerEvent::Key(Key::Up, mods)).0.top_entry == v.top_entry - 1,
        v.top_entry == 0 ==> step_spec(v, PagerEvent::Key(Key::Up, mods)).0.top_entry == 0,
        v.top_entry + 1 < v.rows.len() ==> step_spec(v, PagerEvent::Key(Key::Down, mods)).0.top_entry == v.top_entry + 1,
        v.top_entry + 1 == v.rows.len() ==> step_spec(v, PagerEvent::Key(Key::Down, mods)).0.top_entry == v.top_entry,
        step_spec(v, PagerEvent::Key(Key::Up, mods)).0 == with_top(v, step_spec(v, PagerEvent::Key(Key::Up, mods)).0.top_entry),
{
}

/// A page down followed by a page up returns to the same row, when the
/// page down did not stop at the last row.
pub proof fn law_page_down_then_up(items: Seq<DocItem>, v: PagerView)
    requires
        pager_wf(items, v),
        v.mode == ModeView::Normal,
        v.top_entry + full_page(v.screen_rows) < v.rows.len(),
    ensures
        step_spec(
            step_spec(v, PagerEvent::Key(Key::PageDown, Modifiers::Plain)).0,
            PagerEvent::Key(Key::PageUp, Modifiers::Plain),
        ).0 == v,
{
    let w = step_spec(v, PagerEvent::Key(Key::PageDown, Modifiers::Plain)).0;
    assert(w == with_top(v, (v.top_entry + full_page(v.screen_rows)) as usize));
    assert(step_spec(w, PagerEvent::Key(Key::PageUp, Modifiers::Plain)).0 =~= v);
}

/// `g` / Home go to the first row, `G` / End to the last one.
pub proof fn law_top_and_bottom(items: Seq<DocItem>, v: PagerView, mods: Modifiers)
    requires
        pager_wf(items, v),
        v.mode == ModeView::Normal,
    ensures
        step_spec(v, PagerEvent::Key(Key::Char('g'), mods)).0.top_entry == 0,
        step_spec(v, PagerEvent::Key(Key::Home, mods)).0.top_entry == 0,
        step_spec(v, PagerEvent::Key(Key::Char('G'), mods)).0.top_entry == v.rows.len() - 1,
        step_spec(v, PagerEvent::Key(Key::End, mods)).0.top_entry == v.rows.len() - 1,
{
}

/// `q`, `Q`, Esc and Ctrl-C quit the pager.
pub proof fn law_quit_keys(v: PagerView, mods: Modifiers)
    requires
        v.mode == ModeView::Normal,
    ensures
        step_spec(v, PagerEvent::Key(Key::Char('q'), mods)).1 == PagerAction::Quit,
        step_spec(v, PagerEvent::Key(Key::Char('Q'), mods)).1 == PagerAction::Quit,
        step_spec(v, PagerEvent::Key(Key::Esc, mods)).1 == PagerAction::Quit,
        step_spec(v, PagerEvent::Key(Key::Char('c'), Modifiers::Control)).1 == PagerAction::Quit,
{
}

/// The state after the next match and then the previous one.
pub open spec fn next_then_previous(v: PagerView) -> PagerView {
    step_spec(
        step_spec(v, PagerEvent::Key(Key::Char('n'), Modifiers::Plain)).0,
        PagerEvent::Key(Key::Char('N'), Modifiers::Plain),
    ).0
}

/// Going to the next match and back to the previous one returns to the
/// same match, with its row at the top.
pub proof fn law_next_then_previous_match(items: Seq<DocItem>, v: PagerView)
    requires
        pager_wf(items, v),
        v.mode == ModeView::Normal,
        v.search matches Some(s) && s.matches.len() > 0,
    ensures
        next_then_previous(v).search == v.search,
        next_then_previous(v).top_entry == v.search->0.matches[v.search->0.current as int],
{
    let s = v.search->0;
    let n = s.matches.len() as int;
    lemma_matches_len(v.rows, lowercase(s.query), v.rows.len());
    assert(s.current < n);
    if s.current + 1 < n {
        vstd::arithmetic::div_mod::lemma_small_mod((s.current + 1) as nat, n as nat);
    } else {
        vstd::arithmetic::div_mod::lemma_mod_self_0(n);
    }
    let c1 = (s.current + 1) % n;
    assert(0 <= c1 < n);
    let w1 = step_spec(v, PagerEvent::Key(Key::Char('n'), Modifiers::Plain)).0;
    assert(w1.search matches Some(t) && t.current == c1 && t.matches == s.matches && t.query == s.query);
    let w2 = step_spec(w1, PagerEvent::Key(Key::Char('N'), Modifiers::Plain)).0;
    assert(w2.search matches Some(t) && t.current == s.current && t.matches == s.matches && t.query == s.query);
    assert(w2.search == v.search);
}

/// After a search for `buffer` is finished in `w`: back in normal mode, the
/// search holds the query and exactly the matching rows, and when there are
/// matches the top row is one of them.
pub open spec fn search_finished(v: PagerView, w: PagerView, buffer: Seq<char>) -> bool {
    &&& w.mode == ModeView::Normal
    &&& w.search matches Some(s) && s.query == buffer && s.matches == find_matches_spec(v.rows, buffer)
    &&& find_matches_spec(v.rows, buffer).len() > 0 ==> row_matches(v.rows[w.top_entry as int].kind, lowercase(buffer))
}

/// Finishing a search that has matches puts a row that contains the query
/// at the top, and the search holds exactly the matching rows.
pub proof fn law_search_lands_on_match(items: Seq<DocItem>, v: PagerView, buffer: Seq<char>, direction: SearchDirection)
    requires
        pager_wf(items, v),
        v.mode == (ModeView::SearchInput { buffer, direction }),
        buffer.len() > 0,
    ensures
        search_finished(v, step_spec(v, PagerEvent::Key(Key::Enter, Modifiers::Plain)).0, buffer),
{
    let m = find_matches_spec(v.rows, buffer);
    lemma_start_match_in_range(m, v.top_entry, direction);
    lemma_matches_sound_complete(v.rows, lowercase(buffer), v.rows.len());
    if m.len() > 0 {
        let k = start_match(m, v.top_entry, direction) as int;
        assert(0 <= k < m.len());
        assert(row_matches(v.rows[m[k] as int].kind, lowercase(buffer)));
    }
}

/// One item of a document can be laid out and framed with cells of this
/// size.
pub open spec fn item_fits(item: DocItem, cell_w: u32, cell_h: u32) -> bool {
    match item {
        DocItem::Image(img) => {
            &&& match img.display_cols {
                Some(cols) => cols as nat * at_least_one(cell_w) <= u32::MAX,
                None => true,
            }
            &&& crop_fits(img, image_rows(img, cell_w, cell_h), cell_w, cell_h)
        },
        DocItem::Text(_) => true,
    }
}

fn image_fits(img: &KittyImage, cell_w: u32, cell_h: u32) -> (b: bool)
    requires
        cell_w >= 1,
        cell_h >= 1,
    ensures
        b == item_fits(DocItem::Image(*img), cell_w, cell_h),
{
    if let Some(cols) = img.display_cols {
        assert((cols as u64) * (cell_w as u64) <= u64::MAX) by (nonlinear_arith)
            requires
                cols <= u16::MAX,
                cell_w <= u32::MAX,
        ;
        if cols as u64 * cell_w as u64 > u32::MAX as u64 {
            return false;
        }
    }
    let total = image_total_rows(img, cell_w, cell_h);
    match img.display_cols {
        Some(cols) => {
            assert((total as u128) * (cell_h as u128) <= u64::MAX && (total as u128) * (cell_h as u128) * (
            img.pixel_width as u128) <= u128::MAX && (cols as u64) * (cell_w as u64) <= u64::MAX) by (nonlinear_arith)
                requires
                    total <= u32::MAX,
                    cell_h <= u32::MAX,
                    img.pixel_width <= u32::MAX,
                    cols <= u16::MAX,
                    cell_w <= u32::MAX,
            ;
            cols as u64 * cell_w as u64 > 0 && (total as u128) * (cell_h as u128) * (img.pixel_width as u128)
                <= u64::MAX as u128
        },
        None => {
            assert((total as u64) * (cell_h as u64) <= u64::MAX) by (nonlinear_arith)
                requires
                    total <= u32::MAX,
                    cell_h <= u32::MAX,
            ;
            (total as u64) * (cell_h as u64) <= u32::MAX as u64
        },
    }
}

/// Whether `doc` can be laid out and framed with cells of this size (see
/// `doc_fits`): the pixel arithmetic of every image stays in range.
pub fn document_fits(doc: &KittyDocument, cell_w: u32, cell_h: u32) -> (b: bool)
    requires
        cell_w >= 1,
        cell_h >= 1,
    ensures
        b == doc_fits(doc.items@, cell_w, cell_h),
{
    let mut i: usize = 0;
    while i < doc.items.len()
        invariant
            cell_w >= 1,
            cell_h >= 1,
            i <= doc.items@.len(),
            forall|j: int| 0 <= j < i ==> #[trigger] item_fits(doc.items@[j], cell_w, cell_h),
        decreases doc.items@.len() - i,
    {
        let ok = match &doc.items[i] {
            DocItem::Image(img) => image_fits(img, cell_w, cell_h),
            DocItem::Text(_) => true,
        };
        if !ok {
            assert(!item_fits(doc.items@[i as int], cell_w, cell_h));
            assert(!doc_fits(doc.items@, cell_w, cell_h)) by {
                match doc.items@[i as int] {
                    DocItem::Image(img) => {
                        if img.display_cols is Some && !(layout_fits(doc.items@, cell_w)) {
                        } else {
                            assert(!layout_fits(doc.items@, cell_w) || !images_fit(doc.items@, cell_w, cell_h));
                        }
                    },
                    DocItem::Text(_) => {},
                }
            }
            return false;
        }
        i += 1;
    }
    assert(layout_fits(doc.items@, cell_w)) by {
        assert forall|j: int| 0 <= j < doc.items@.len() implies match #[trigger] doc.items@[j] {
            DocItem::Image(img) => match img.display_cols {
                Some(cols) => cols as nat * at_least_one(cell_w) <= u32::MAX,
                None => true,
            },
            DocItem::Text(_) => true,
        } by {
            assert(item_fits(doc.items@[j], cell_w, cell_h));
        }
    }
    assert(images_fit(doc.items@, cell_w, cell_h)) by {
        assert forall|j: int| 0 <= j < doc.items@.len() implies match #[trigger] doc.items@[j] {
            DocItem::Image(img) => crop_fits(img, image_rows(img, cell_w, cell_h), cell_w, cell_h),
            DocItem::Text(_) => true,
        } by {
            assert(item_fits(doc.items@[j], cell_w, cell_h));
        }
    }
    true
}

impl Pager {
    /// Lay out `doc` for the terminal described by `opts` (cell sizes of
    /// zero count as one pixel).  `None` when the document has no rows,
    /// which leaves nothing to page, or more rows than can be numbered as
    /// percentages.
    pub fn new(doc: &KittyDocument, opts: &PagerOptions) -> (p: Option<Pager>)
        requires
            doc_fits(
                doc.items@,
                at_least_one(opts.cell_pixel_width) as u32,
                at_least_one(opts.cell_pixel_height) as u32,
            ),
        ensures
            match p {
                Some(p) => {
                    &&& pager_wf(doc.items@, p@)
                    &&& p@.cell_w == at_least_one(opts.cell_pixel_width)
                    &&& p@.cell_h == at_least_one(opts.cell_pixel_height)
                    &&& p@.top_entry == 0
                    &&& p@.screen_rows == opts.term_height
                    &&& p@.mode == ModeView::Normal
                    &&& p@.search is None
                },
                None => {
                    let rows = layout_spec(
                        doc.items@,
                        at_least_one(opts.cell_pixel_width) as u32,
                        at_least_one(opts.cell_pixel_height) as u32,
                    );
                    rows.len() == 0 || rows.len() * 100 > usize::MAX
                },
            },
    {
        let n_items = doc.items.len();
        let cell_w: u32 = if opts.cell_pixel_width == 0 { 1 } else { opts.cell_pixel_width };
        let cell_h: u32 = if opts.cell_pixel_height == 0 { 1 } else { opts.cell_pixel_height };
        let entries = layout(doc, cell_w, cell_h);
        proof {
            assert(at_least_one(cell_w) == cell_w);
            assert(at_least_one(cell_h) == cell_h);
        }
        if entries.len() == 0 || entries.len() > usize::MAX / 100 {
            return None;
        }
        Some(Pager {
            entries,
            top_entry: 0,
            screen_rows: opts.term_height,
            cell_w,
            cell_h,
            mode: InputMode::Normal,
            search: None,
        })
    }

    fn search_key(&mut self, key: Key, mods: Modifiers) -> (action: PagerAction)
        requires
            old(self)@.mode is SearchInput,
        ensures
            (final(self)@, action) == (match old(self)@.mode {
                ModeView::SearchInput { buffer, direction } => search_input_step(old(self)@, buffer, direction, key, mods),
                ModeView::Normal => (old(self)@, PagerAction::Ignore),
            }),
    {
        let (buffer, direction) = match &self.mode {
            InputMode::SearchInput { buffer, direction } => (buffer.clone(), *direction),
            InputMode::Normal => (String::new(), SearchDirection::Forward),
        };
        match key {
            Key::Esc => {
                self.mode = InputMode::Normal;
                PagerAction::Redraw
            },
            Key::Enter => {
                let matches = find_matches(&self.entries, buffer.as_str());
                let current: usize = if matches.len() == 0 {
                    0
                } else {
                    match direction {
                        SearchDirection::Forward => match first_match_at_or_after(&matches, self.top_entry) {
                            Some(k) => k,
                            None => 0,
                        },
                        SearchDirection::Backward => match last_match_at_or_before(&matches, self.top_entry) {
                            Some(k) => k,
                            None => matches.len() - 1,
                        },
                    }
                };
                proof {
                    lemma_start_match_in_range(matches@, self.top_entry, direction);
                }
                if matches.len() > 0 {
                    self.top_entry = matches[current];
                }
                self.search = Some(SearchState { query: buffer, matches, current });
                self.mode = InputMode::Normal;
                PagerAction::Redraw
            },
            Key::Backspace => {
                let b = drop_last_char(&buffer);
                self.mode = InputMode::SearchInput { buffer: b, direction };
                PagerAction::Redraw
            },
            Key::Char(c) => {
                if mods == Modifiers::Plain || mods == Modifiers::Shift {
                    let mut b = buffer;
                    b.push(c);
                    self.mode = InputMode::SearchInput { buffer: b, direction };
                    PagerAction::Redraw
                } else {
                    PagerAction::Ignore
                }
            },
            _ => PagerAction::Ignore,
        }
    }

    fn match_key(&mut self, forward: bool) -> (action: PagerAction)
        requires
            old(self)@.search matches Some(s) ==> (s.matches.len() > 0 ==> s.current < s.matches.len()),
        ensures
            (final(self)@, action) == match_step(old(self)@, forward),
    {
        let mut search: Option<SearchState> = None;
        std::mem::swap(&mut search, &mut self.search);
        match search {
            Some(mut s) => {
                if s.matches.len() > 0 {
                    let cur = if forward {
                        (s.current + 1) % s.matches.len()
                    } else if s.current > 0 {
                        s.current - 1
                    } else {
                        s.matches.len() - 1
                    };
                    s.current = cur;
                    self.top_entry = s.matches[cur];
                }
                self.search = Some(s);
                PagerAction::Redraw
            },
            None => {
                self.search = None;
                PagerAction::Ignore
            },
        }
    }

    fn normal_key(&mut self, key: Key, mods: Modifiers) -> (action: PagerAction)
        requires
            old(self)@.mode is Normal,
            old(self)@.rows.len() > 0,
            old(self)@.rows.len() * 100 <= usize::MAX,
            old(self)@.top_entry < old(self)@.rows.len(),
            old(self)@.search matches Some(s) ==> (s.matches.len() > 0 ==> s.current < s.matches.len()),
        ensures
            (final(self)@, action) == normal_step(old(self)@, key, mods),
    {
        let max_top = self.entries.len() - 1;
        let full: usize = if self.screen_rows >= 3 { (self.screen_rows - 2) as usize } else { 1 };
        let half: usize = full / 2;
        let top = self.top_entry;
        let down = |by: usize| -> (t: usize)
            requires
                by <= u16::MAX,
            ensures
                t == (if top + by <= max_top { (top + by) as usize } else { max_top }),
        { if top + by <= max_top { top + by } else { max_top } };
        let up = |by: usize| -> (t: usize)
            ensures
                t == (if top >= by { (top - by) as usize } else { 0 }),
        { if top >= by { top - by } else { 0 } };
        let new_top: usize;
        match key {
            Key::Char(c) => {
                if c == 'q' || c == 'Q' || (c == 'c' && mods == Modifiers::Control) {
                    return PagerAction::Quit;
                } else if c == '/' {
                    self.mode = InputMode::SearchInput { buffer: String::new(), direction: SearchDirection::Forward };
                    return PagerAction::Redraw;
                } else if c == '?' {
                    self.mode = InputMode::SearchInput { buffer: String::new(), direction: SearchDirection::Backward };
                    return PagerAction::Redraw;
                } else if c == 'n' {
                    return self.match_key(true);
                } else if c == 'N' {
                    return self.match_key(false);
                } else if c == 'j' {
                    new_top = down(1);
                } else if c == 'k' {
                    new_top = up(1);
                } else if c == 'd' && mods == Modifiers::Control {
                    new_top = down(half);
                } else if c == 'b' && mods == Modifiers::Control {
                    new_top = up(half);
                } else if c == 'f' || c == ' ' {
                    new_top = down(full);
                } else if c == 'b' {
                    new_top = up(full);
                } else if c == 'g' {
                    new_top = 0;
                } else if c == 'G' {
                    new_top = max_top;
                } else {
                    return PagerAction::Ignore;
                }
            },
            Key::Esc => {
                return PagerAction::Quit;
            },
            Key::Down => {
                new_top = down(1);
            },
            Key::Up => {
                new_top = up(1);
            },
            Key::PageDown => {
                new_top = down(full);
            },
            Key::PageUp => {
                new_top = up(full);
            },
            Key::Home => {
                new_top = 0;
            },
            Key::End => {
                new_top = max_top;
            },
            _ => {
                return PagerAction::Ignore;
            },
        }
        self.top_entry = new_top;
        PagerAction::Redraw
    }

    fn resize(&mut self, doc: &KittyDocument, rows: u16) -> (action: PagerAction)
        requires
            pager_wf(doc.items@, old(self)@),
        ensures
            (final(self)@, action) == resize_step(old(self)@, rows),
    {
        self.screen_rows = rows;
        self.entries = layout(doc, self.cell_w, self.cell_h);
        let max_top = self.entries.len() - 1;
        if self.top_entry > max_top {
            self.top_entry = max_top;
        }
        let mut search: Option<SearchState> = None;
        std::mem::swap(&mut search, &mut self.search);
        match search {
            Some(mut s) => {
                s.matches = find_matches(&self.entries, s.query.as_str());
                if s.matches.len() > 0 && s.current >= s.matches.len() {
                    s.current = s.matches.len() - 1;
                }
                self.search = Some(s);
            },
            None => {},
        }
        PagerAction::Redraw
    }

    /// Respond to one terminal event; the caller redraws on `Redraw` and
    /// leaves the pager on `Quit`.
    pub fn handle_event(&mut self, doc: &KittyDocument, ev: PagerEvent) -> (action: PagerAction)
        requires
            pager_wf(doc.items@, old(self)@),
        ensures
            (final(self)@, action) == step_spec(old(self)@, ev),
            pager_wf(doc.items@, final(self)@),
    {
        proof {
            lemma_step_keeps_wf(doc.items@, old(self)@, ev);
        }
        match ev {
            PagerEvent::Key(key, mods) => {
                let searching = match &self.mode {
                    InputMode::SearchInput { .. } => true,
                    InputMode::Normal => false,
                };
                if searching {
                    self.search_key(key, mods)
                } else {
                    self.normal_key(key, mods)
                }
            },
            PagerEvent::Resize(_cols, rows) => self.resize(doc, rows),
            PagerEvent::Other => PagerAction::Ignore,
        }
    }

    /// The current frame, with the search state in the status bar.
    pub fn frame(&self, doc: &KittyDocument, transmitted: &mut HashSet<u32>) -> (frame: String)
        requires
            pager_wf(doc.items@, self@),
        ensures
            frame@ == frame_spec(
                doc.items@,
                self@.rows,
                self.top_entry as nat,
                self.screen_rows,
                self.cell_w,
                self.cell_h,
                old(transmitted)@,
                status_suffix_spec(self.mode, self.search),
            ),
            final(transmitted)@ == frame_walk(
                doc.items@,
                self@.rows,
                self.top_entry as nat,
                self.screen_rows,
                self.cell_w,
                self.cell_h,
                old(transmitted)@,
            ).transmitted,
    {
        proof {
            lemma_layout_frame_ok(doc.items@, self.cell_w, self.cell_h);
            if let Some(st) = &self.search {
                assert(st.matches@.len() == st.matches.len());
            }
        }
        let status = status_suffix(&self.mode, &self.search);
        render_frame_with_status(
            doc,
            &self.entries,
            self.top_entry,
            self.screen_rows,
            self.cell_w,
            self.cell_h,
            transmitted,
            status.as_str(),
        )
    }
}

} // verus!
