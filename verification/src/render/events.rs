//! A markdown document as the flat sequence of node openings and closings
//! that a depth-first walk of its syntax tree produces.
use comrak::arena_tree::NodeEdge;
use comrak::nodes::{ListType, NodeValue};
use vstd::prelude::*;

verus! {

/// What a syntax-tree node is, with the data the renderer reads.
pub enum MdKind {
    Document,
    BlockQuote,
    /// `start` is the number of an ordered list's first item.
    List { ordered: bool, tight: bool, start: usize },
    Item,
    CodeBlock { info: String, literal: String },
    HtmlBlock,
    Paragraph,
    Heading { level: u8 },
    ThematicBreak,
    FootnoteDefinition,
    Table,
    TaskItem { symbol: Option<char> },
    Text(String),
    SoftBreak,
    LineBreak,
    Strong,
    Emph,
    Strikethrough,
    Code(String),
    Link { url: String },
    Image { url: String },
    Other,
}

/// Entering a node, or leaving the node entered last.
pub enum MdEvent {
    Open(MdKind),
    Close,
}

pub enum MdKindView {
    Document,
    BlockQuote,
    List { ordered: bool, tight: bool, start: usize },
    Item,
    CodeBlock { info: Seq<char>, literal: Seq<char> },
    HtmlBlock,
    Paragraph,
    Heading { level: u8 },
    ThematicBreak,
    FootnoteDefinition,
    Table,
    TaskItem { symbol: Option<char> },
    Text(Seq<char>),
    SoftBreak,
    LineBreak,
    Strong,
    Emph,
    Strikethrough,
    Code(Seq<char>),
    Link { url: Seq<char> },
    Image { url: Seq<char> },
    Other,
}

pub enum MdEventView {
    Open(MdKindView),
    Close,
}

impl View for MdKind {
    type V = MdKindView;

    open spec fn view(&self) -> MdKindView {
        match self {
            MdKind::Document => MdKindView::Document,
            MdKind::BlockQuote => MdKindView::BlockQuote,
            MdKind::List { ordered, tight, start } => MdKindView::List { ordered: *ordered, tight: *tight, start: *start },
            MdKind::Item => MdKindView::Item,
            MdKind::CodeBlock { info, literal } => MdKindView::CodeBlock { info: info@, literal: literal@ },
            MdKind::HtmlBlock => MdKindView::HtmlBlock,
            MdKind::Paragraph => MdKindView::Paragraph,
            MdKind::Heading { level } => MdKindView::Heading { level: *level },
            MdKind::ThematicBreak => MdKindView::ThematicBreak,
            MdKind::FootnoteDefinition => MdKindView::FootnoteDefinition,
            MdKind::Table => MdKindView::Table,
            MdKind::TaskItem { symbol } => MdKindView::TaskItem { symbol: *symbol },
            MdKind::Text(t) => MdKindView::Text(t@),
            MdKind::SoftBreak => MdKindView::SoftBreak,
            MdKind::LineBreak => MdKindView::LineBreak,
            MdKind::Strong => MdKindView::Strong,
            MdKind::Emph => MdKindView::Emph,
            MdKind::Strikethrough => MdKindView::Strikethrough,
            MdKind::Code(t) => MdKindView::Code(t@),
            MdKind::Link { url } => MdKindView::Link { url: url@ },
            MdKind::Image { url } => MdKindView::Image { url: url@ },
            MdKind::Other => MdKindView::Other,
        }
    }
}

impl View for MdEvent {
    type V = MdEventView;

    open spec fn view(&self) -> MdEventView {
        match self {
            MdEvent::Open(k) => MdEventView::Open(k@),
            MdEvent::Close => MdEventView::Close,
        }
    }
}

pub open spec fn events_view(ev: Seq<MdEvent>) -> Seq<MdEventView> {
    ev.map_values(|e: MdEvent| e@)
}

// ── Structure ───────────────────────────────────────────────────────────────

/// Scanning from `j` with `depth` nodes open, the position just after the
/// closing that brings the depth to zero (the end of the events if none).
pub open spec fn close_scan(ev: Seq<MdEventView>, j: nat, depth: nat) -> nat
    decreases ev.len() - j,
{
    if j >= ev.len() {
        ev.len()
    } else {
        match ev[j as int] {
            MdEventView::Open(_) => close_scan(ev, j + 1, depth + 1),
            MdEventView::Close => if depth <= 1 {
                j + 1
            } else {
                close_scan(ev, j + 1, (depth - 1) as nat)
            },
        }
    }
}

/// The position just after the node opened at `pos`.
pub open spec fn node_end(ev: Seq<MdEventView>, pos: nat) -> nat {
    close_scan(ev, pos + 1, 1)
}

/// The position just after the closing that ends a run of sibling nodes
/// starting at `c`.
pub open spec fn children_end(ev: Seq<MdEventView>, c: nat) -> nat
    decreases ev.len() - c,
{
    if c >= ev.len() {
        ev.len()
    } else {
        match ev[c as int] {
            MdEventView::Close => c + 1,
            MdEventView::Open(_) => {
                proof {
                    lemma_close_scan_bounds(ev, c + 1, 1);
                }
                children_end(ev, node_end(ev, c))
            },
        }
    }
}

pub proof fn lemma_close_scan_bounds(ev: Seq<MdEventView>, j: nat, depth: nat)
    ensures
        j < ev.len() ==> j < close_scan(ev, j, depth),
        j >= ev.len() ==> close_scan(ev, j, depth) == ev.len(),
        close_scan(ev, j, depth) <= ev.len() || j > ev.len(),
    decreases ev.len() - j,
{
    if j < ev.len() {
        match ev[j as int] {
            MdEventView::Open(_) => lemma_close_scan_bounds(ev, j + 1, depth + 1),
            MdEventView::Close => if depth > 1 {
                lemma_close_scan_bounds(ev, j + 1, (depth - 1) as nat);
            },
        }
    }
}

proof fn lemma_close_scan_nest(ev: Seq<MdEventView>, i: nat, d: nat)
    requires
        d >= 1,
        i <= ev.len(),
    ensures
        close_scan(ev, i, d + 1) == close_scan(ev, close_scan(ev, i, 1), d),
    decreases ev.len() - i,
{
    lemma_close_scan_bounds(ev, i, 1);
    if i < ev.len() {
        match ev[i as int] {
            MdEventView::Open(_) => {
                lemma_close_scan_bounds(ev, i + 1, 1);
                let e = close_scan(ev, i + 1, 1);
                lemma_close_scan_nest(ev, i + 1, d + 1);
                lemma_close_scan_nest(ev, e, d);
                lemma_close_scan_nest(ev, i + 1, 1);
            },
            MdEventView::Close => {},
        }
    }
}

/// A node ends where the run of its children ends.
pub proof fn lemma_node_end_children(ev: Seq<MdEventView>, c: nat)
    requires
        c <= ev.len(),
    ensures
        close_scan(ev, c, 1) == children_end(ev, c),
    decreases ev.len() - c,
{
    if c < ev.len() {
        match ev[c as int] {
            MdEventView::Open(_) => {
                lemma_close_scan_bounds(ev, c + 1, 1);
                lemma_close_scan_nest(ev, c + 1, 1);
                lemma_node_end_children(ev, node_end(ev, c));
            },
            MdEventView::Close => {},
        }
    }
}

// ── Parsing ─────────────────────────────────────────────────────────────────

/// The markdown extensions the parser enables.
#[derive(Clone, Copy)]
pub struct MdExtensions {
    pub strikethrough: bool,
    pub table: bool,
    pub autolink: bool,
    pub tasklist: bool,
    pub footnotes: bool,
}

/// The events of the syntax tree `comrak` builds for a markdown text with
/// the given extensions.
pub uninterp spec fn markdown_events(markdown: Seq<char>, ext: MdExtensions) -> Seq<MdEventView>;

#[verifier::external_type_specification]
#[verifier::external_body]
pub struct ExNodeValue(NodeValue);

/// The container block kinds the renderer tells apart (`None` for the
/// rest); a one-for-one conversion of `comrak`'s node value.
#[verifier::external_body]
fn container_kind(v: &NodeValue) -> Option<MdKind> {
    match v {
        NodeValue::Document => Some(MdKind::Document),
        NodeValue::BlockQuote => Some(MdKind::BlockQuote),
        NodeValue::List(l) => Some(MdKind::List { ordered: match l.list_type { ListType::Bullet => false, ListType::Ordered => true }, tight: l.tight, start: l.start }),
        NodeValue::Item(_) => Some(MdKind::Item),
        NodeValue::HtmlBlock(_) => Some(MdKind::HtmlBlock),
        NodeValue::Paragraph => Some(MdKind::Paragraph),
        NodeValue::FootnoteDefinition(_) => Some(MdKind::FootnoteDefinition),
        NodeValue::Table(_) => Some(MdKind::Table),
        _ => None,
    }
}

/// The leaf block kinds the renderer tells apart (`None` for the rest); a
/// one-for-one conversion of `comrak`'s node value.
#[verifier::external_body]
fn leaf_kind(v: &NodeValue) -> Option<MdKind> {
    match v {
        NodeValue::CodeBlock(c) => Some(MdKind::CodeBlock { info: c.info.clone(), literal: c.literal.clone() }),
        NodeValue::Heading(h) => Some(MdKind::Heading { level: h.level }),
        NodeValue::ThematicBreak => Some(MdKind::ThematicBreak),
        NodeValue::TaskItem(t) => Some(MdKind::TaskItem { symbol: t.symbol }),
        _ => None,
    }
}

/// The inline node kinds the renderer tells apart (`Other` for the rest);
/// a one-for-one conversion of `comrak`'s node value.
#[verifier::external_body]
fn inline_kind(v: &NodeValue) -> MdKind {
    match v {
        NodeValue::Text(t) => MdKind::Text(t.to_string()),
        NodeValue::SoftBreak => MdKind::SoftBreak,
        NodeValue::LineBreak => MdKind::LineBreak,
        NodeValue::Strong => MdKind::Strong,
        NodeValue::Emph => MdKind::Emph,
        NodeValue::Strikethrough => MdKind::Strikethrough,
        NodeValue::Code(c) => MdKind::Code(c.literal.clone()),
        NodeValue::Link(l) => MdKind::Link { url: l.url.clone() },
        NodeValue::Image(l) => MdKind::Image { url: l.url.clone() },
        _ => MdKind::Other,
    }
}

/// The event that opens a node with value `v`: an opening, of the first
/// kind the container, leaf and inline conversions give.
fn open_event(v: &NodeValue) -> (e: MdEvent)
    ensures
        e is Open,
{
    match container_kind(v) {
        Some(k) => MdEvent::Open(k),
        None => match leaf_kind(v) {
            Some(k) => MdEvent::Open(k),
            None => MdEvent::Open(inline_kind(v)),
        },
    }
}

/// `comrak::parse_document`, walked depth first: each node becomes an
/// opening event and a closing event.  The events are a function of the
/// text and the extensions, named `markdown_events`; the markdown grammar
/// is not restated here.
#[verifier::external_body]
fn comrak_events(markdown: &str, ext: MdExtensions) -> (events: Vec<MdEvent>)
    ensures
        events_view(events@) == markdown_events(markdown@, ext),
{
    let arena = comrak::Arena::new();
    let mut options = comrak::Options::default();
    options.extension.strikethrough = ext.strikethrough;
    options.extension.table = ext.table;
    options.extension.autolink = ext.autolink;
    options.extension.tasklist = ext.tasklist;
    options.extension.footnotes = ext.footnotes;
    let root = comrak::parse_document(&arena, markdown, &options);
    root.traverse().map(|edge| match edge {
        NodeEdge::Start(node) => open_event(&node.data().value),
        NodeEdge::End(_) => MdEvent::Close,
    }).collect()
}

/// The extensions documents are parsed with: strikethrough, tables,
/// autolinks, task lists and footnotes.
pub open spec fn doc_extensions() -> MdExtensions {
    MdExtensions { strikethrough: true, table: true, autolink: true, tasklist: true, footnotes: true }
}

/// Parse a markdown document into its events.
pub fn parse_markdown(markdown: &str) -> (events: Vec<MdEvent>)
    ensures
        events_view(events@) == markdown_events(markdown@, doc_extensions()),
{
    comrak_events(
        markdown,
        MdExtensions { strikethrough: true, table: true, autolink: true, tasklist: true, footnotes: true },
    )
}

} // verus!
