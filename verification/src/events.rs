//! The stream of markdown events that documents are built from.

use crate::ast::ColumnAlignment;
use crate::text::option_text;
use crate::uri::{from_bytes, lossy_text};
use pulldown_cmark::{
    Alignment, CodeBlockKind, CowStr, Event, HeadingLevel, LinkType, Options, Parser, Tag, TagEnd,
};
use vstd::prelude::*;
use vstd::utf8::*;

verus! {

broadcast use vstd::seq_lib::group_seq_properties;

#[verifier::external_type_specification]
pub struct ExHeadingLevel(pulldown_cmark::HeadingLevel);

#[verifier::external_type_specification]
pub struct ExAlignment(pulldown_cmark::Alignment);

#[verifier::external_type_specification]
pub struct ExLinkType(pulldown_cmark::LinkType);

#[verifier::external_type_specification]
#[verifier::external_body]
pub struct ExBlockQuoteKind(pulldown_cmark::BlockQuoteKind);

#[verifier::external_type_specification]
#[verifier::external_body]
pub struct ExMetadataBlockKind(pulldown_cmark::MetadataBlockKind);

#[verifier::external_type_specification]
#[verifier::external_body]
pub struct ExCowStr<'a>(pulldown_cmark::CowStr<'a>);

#[verifier::external_type_specification]
pub struct ExCodeBlockKind<'a>(pulldown_cmark::CodeBlockKind<'a>);

#[verifier::external_type_specification]
pub struct ExTag<'a>(pulldown_cmark::Tag<'a>);

#[verifier::external_type_specification]
pub struct ExTagEnd(pulldown_cmark::TagEnd);

#[verifier::external_type_specification]
pub struct ExEvent<'a>(pulldown_cmark::Event<'a>);

/// The start of a markdown element. `CodeBlock` carries the info string of a
/// fence, `List` the number an ordered list starts with, `Link` and `Image`
/// the destination and the title. A link is `auto` where the source writes
/// its destination between angle brackets alone.
#[derive(Debug, PartialEq)]
pub enum MdTag {
    Paragraph,
    Heading(u8),
    BlockQuote,
    CodeBlock(Option<String>),
    HtmlBlock,
    List(Option<u64>),
    Item,
    Table(Vec<ColumnAlignment>),
    TableHead,
    TableRow,
    TableCell,
    Emphasis,
    Strong,
    Strikethrough,
    Link { url: String, title: String, auto: bool },
    Image { url: String, title: String },
    Other,
}

/// The end of a markdown element.
#[derive(Debug, Clone, Copy, PartialEq, Eq, Structural)]
pub enum MdEnd {
    Paragraph,
    Heading(u8),
    BlockQuote,
    CodeBlock,
    HtmlBlock,
    List,
    Item,
    Table,
    TableHead,
    TableRow,
    TableCell,
    Emphasis,
    Strong,
    Strikethrough,
    Link,
    Image,
    Other,
}

/// A markdown event. `Spelled` is a text with the source that stands for it,
/// where the two differ: a backslash before a character, or an entity.
/// `Blank` says that the block that starts next stands behind a blank line.
/// `Other` stands for the events that no block or inline is made of.
#[derive(Debug, PartialEq)]
pub enum MdEvent {
    Start(MdTag),
    End(MdEnd),
    Text(String),
    Spelled { text: String, source: String },
    Code(String),
    Html(String),
    InlineHtml(String),
    SoftBreak,
    HardBreak,
    Rule,
    Blank,
    Other,
}

/// What an [`MdTag`] holds.
pub enum MdTagView {
    Paragraph,
    Heading(u8),
    BlockQuote,
    CodeBlock(Option<Seq<char>>),
    HtmlBlock,
    List(Option<u64>),
    Item,
    Table(Seq<ColumnAlignment>),
    TableHead,
    TableRow,
    TableCell,
    Emphasis,
    Strong,
    Strikethrough,
    Link { url: Seq<char>, title: Seq<char>, auto: bool },
    Image { url: Seq<char>, title: Seq<char> },
    Other,
}

/// What an [`MdEvent`] holds.
pub enum MdEventView {
    Start(MdTagView),
    End(MdEnd),
    Text(Seq<char>),
    Spelled { text: Seq<char>, source: Seq<char> },
    Code(Seq<char>),
    Html(Seq<char>),
    InlineHtml(Seq<char>),
    SoftBreak,
    HardBreak,
    Rule,
    Blank,
    Other,
}

impl View for MdTag {
    type V = MdTagView;

    open spec fn view(&self) -> MdTagView {
        match *self {
            MdTag::Paragraph => MdTagView::Paragraph,
            MdTag::Heading(n) => MdTagView::Heading(n),
            MdTag::BlockQuote => MdTagView::BlockQuote,
            MdTag::CodeBlock(info) => MdTagView::CodeBlock(option_text(info)),
            MdTag::HtmlBlock => MdTagView::HtmlBlock,
            MdTag::List(start) => MdTagView::List(start),
            MdTag::Item => MdTagView::Item,
            MdTag::Table(a) => MdTagView::Table(a@),
            MdTag::TableHead => MdTagView::TableHead,
            MdTag::TableRow => MdTagView::TableRow,
            MdTag::TableCell => MdTagView::TableCell,
            MdTag::Emphasis => MdTagView::Emphasis,
            MdTag::Strong => MdTagView::Strong,
            MdTag::Strikethrough => MdTagView::Strikethrough,
            MdTag::Link { url, title, auto } => MdTagView::Link { url: url@, title: title@, auto },
            MdTag::Image { url, title } => MdTagView::Image { url: url@, title: title@ },
            MdTag::Other => MdTagView::Other,
        }
    }
}

impl View for MdEvent {
    type V = MdEventView;

    open spec fn view(&self) -> MdEventView {
        match *self {
            MdEvent::Start(tag) => MdEventView::Start(tag@),
            MdEvent::End(end) => MdEventView::End(end),
            MdEvent::Text(s) => MdEventView::Text(s@),
            MdEvent::Spelled { text, source } => MdEventView::Spelled {
                text: text@,
                source: source@,
            },
            MdEvent::Code(s) => MdEventView::Code(s@),
            MdEvent::Html(s) => MdEventView::Html(s@),
            MdEvent::InlineHtml(s) => MdEventView::InlineHtml(s@),
            MdEvent::SoftBreak => MdEventView::SoftBreak,
            MdEvent::HardBreak => MdEventView::HardBreak,
            MdEvent::Rule => MdEventView::Rule,
            MdEvent::Blank => MdEventView::Blank,
            MdEvent::Other => MdEventView::Other,
        }
    }
}

/// Events with the byte offsets at which they start.
pub open spec fn events_view(v: Seq<(MdEvent, usize)>) -> Seq<(MdEventView, usize)> {
    v.map_values(|e: (MdEvent, usize)| (e.0@, e.1))
}

// ── from pulldown-cmark ───────────────────────────────────────────────────

/// The text of a `CowStr`.
pub uninterp spec fn cow_text(c: CowStr<'_>) -> Seq<char>;

/// `CowStr::into_string` gives the text.
#[verifier::external_body]
fn cow_string(c: CowStr<'_>) -> (r: String)
    ensures
        r@ == cow_text(c),
{
    c.into_string()
}

/// The level of a heading.
pub open spec fn level_number(level: HeadingLevel) -> u8 {
    match level {
        HeadingLevel::H1 => 1,
        HeadingLevel::H2 => 2,
        HeadingLevel::H3 => 3,
        HeadingLevel::H4 => 4,
        HeadingLevel::H5 => 5,
        HeadingLevel::H6 => 6,
    }
}

/// The level of a heading.
pub fn heading_level_to_u8(level: HeadingLevel) -> (r: u8)
    ensures
        r == level_number(level),
{
    match level {
        HeadingLevel::H1 => 1,
        HeadingLevel::H2 => 2,
        HeadingLevel::H3 => 3,
        HeadingLevel::H4 => 4,
        HeadingLevel::H5 => 5,
        HeadingLevel::H6 => 6,
    }
}

/// The alignment of a column.
pub open spec fn alignment_of(align: Alignment) -> ColumnAlignment {
    match align {
        Alignment::None => ColumnAlignment::Unset,
        Alignment::Left => ColumnAlignment::Left,
        Alignment::Center => ColumnAlignment::Center,
        Alignment::Right => ColumnAlignment::Right,
    }
}

/// The alignment of a column.
pub fn convert_alignment(align: &Alignment) -> (r: ColumnAlignment)
    ensures
        r == alignment_of(*align),
{
    match align {
        Alignment::None => ColumnAlignment::Unset,
        Alignment::Left => ColumnAlignment::Left,
        Alignment::Center => ColumnAlignment::Center,
        Alignment::Right => ColumnAlignment::Right,
    }
}

/// Whether a link is its destination between angle brackets.
pub open spec fn is_auto(link: LinkType) -> bool {
    link is Autolink || link is Email
}

/// Whether a link is its destination between angle brackets.
fn auto_link(link: LinkType) -> (r: bool)
    ensures
        r == is_auto(link),
{
    match link {
        LinkType::Autolink => true,
        LinkType::Email => true,
        _ => false,
    }
}

/// The content of a start tag.
pub open spec fn tag_view(tag: Tag<'_>) -> MdTagView {
    match tag {
        Tag::Paragraph => MdTagView::Paragraph,
        Tag::Heading { level, .. } => MdTagView::Heading(level_number(level)),
        Tag::BlockQuote(_) => MdTagView::BlockQuote,
        Tag::CodeBlock(CodeBlockKind::Indented) => MdTagView::CodeBlock(None),
        Tag::CodeBlock(CodeBlockKind::Fenced(info)) => MdTagView::CodeBlock(Some(cow_text(info))),
        Tag::HtmlBlock => MdTagView::HtmlBlock,
        Tag::List(start) => MdTagView::List(start),
        Tag::Item => MdTagView::Item,
        Tag::Table(a) => MdTagView::Table(a@.map_values(|x: Alignment| alignment_of(x))),
        Tag::TableHead => MdTagView::TableHead,
        Tag::TableRow => MdTagView::TableRow,
        Tag::TableCell => MdTagView::TableCell,
        Tag::Emphasis => MdTagView::Emphasis,
        Tag::Strong => MdTagView::Strong,
        Tag::Strikethrough => MdTagView::Strikethrough,
        Tag::Link { link_type, dest_url, title, .. } => MdTagView::Link {
            url: cow_text(dest_url),
            title: cow_text(title),
            auto: is_auto(link_type),
        },
        Tag::Image { dest_url, title, .. } => MdTagView::Image {
            url: cow_text(dest_url),
            title: cow_text(title),
        },
        _ => MdTagView::Other,
    }
}

/// The kind of an end tag.
pub open spec fn end_view(end: TagEnd) -> MdEnd {
    match end {
        TagEnd::Paragraph => MdEnd::Paragraph,
        TagEnd::Heading(level) => MdEnd::Heading(level_number(level)),
        TagEnd::BlockQuote(_) => MdEnd::BlockQuote,
        TagEnd::CodeBlock => MdEnd::CodeBlock,
        TagEnd::HtmlBlock => MdEnd::HtmlBlock,
        TagEnd::List(_) => MdEnd::List,
        TagEnd::Item => MdEnd::Item,
        TagEnd::Table => MdEnd::Table,
        TagEnd::TableHead => MdEnd::TableHead,
        TagEnd::TableRow => MdEnd::TableRow,
        TagEnd::TableCell => MdEnd::TableCell,
        TagEnd::Emphasis => MdEnd::Emphasis,
        TagEnd::Strong => MdEnd::Strong,
        TagEnd::Strikethrough => MdEnd::Strikethrough,
        TagEnd::Link => MdEnd::Link,
        TagEnd::Image => MdEnd::Image,
        _ => MdEnd::Other,
    }
}

/// The content of an event.
pub open spec fn event_view(event: Event<'_>) -> MdEventView {
    match event {
        Event::Start(tag) => MdEventView::Start(tag_view(tag)),
        Event::End(end) => MdEventView::End(end_view(end)),
        Event::Text(s) => MdEventView::Text(cow_text(s)),
        Event::Code(s) => MdEventView::Code(cow_text(s)),
        Event::Html(s) => MdEventView::Html(cow_text(s)),
        Event::InlineHtml(s) => MdEventView::InlineHtml(cow_text(s)),
        Event::SoftBreak => MdEventView::SoftBreak,
        Event::HardBreak => MdEventView::HardBreak,
        Event::Rule => MdEventView::Rule,
        _ => MdEventView::Other,
    }
}

fn alignments_from(v: Vec<Alignment>) -> (r: Vec<ColumnAlignment>)
    ensures
        r@ == v@.map_values(|x: Alignment| alignment_of(x)),
{
    let mut out: Vec<ColumnAlignment> = Vec::new();
    let mut i: usize = 0;
    while i < v.len()
        invariant
            i <= v.len(),
            out.len() == i,
            forall|k: int| 0 <= k < i ==> #[trigger] out[k] == alignment_of(v[k]),
        decreases v.len() - i,
    {
        out.push(convert_alignment(&v[i]));
        i += 1;
    }
    out
}

fn tag_from(tag: Tag<'_>) -> (r: MdTag)
    ensures
        r@ == tag_view(tag),
{
    match tag {
        Tag::Paragraph => MdTag::Paragraph,
        Tag::Heading { level, .. } => MdTag::Heading(heading_level_to_u8(level)),
        Tag::BlockQuote(_) => MdTag::BlockQuote,
        Tag::CodeBlock(CodeBlockKind::Indented) => MdTag::CodeBlock(None),
        Tag::CodeBlock(CodeBlockKind::Fenced(info)) => MdTag::CodeBlock(Some(cow_string(info))),
        Tag::HtmlBlock => MdTag::HtmlBlock,
        Tag::List(start) => MdTag::List(start),
        Tag::Item => MdTag::Item,
        Tag::Table(a) => MdTag::Table(alignments_from(a)),
        Tag::TableHead => MdTag::TableHead,
        Tag::TableRow => MdTag::TableRow,
        Tag::TableCell => MdTag::TableCell,
        Tag::Emphasis => MdTag::Emphasis,
        Tag::Strong => MdTag::Strong,
        Tag::Strikethrough => MdTag::Strikethrough,
        Tag::Link { link_type, dest_url, title, .. } => MdTag::Link {
            url: cow_string(dest_url),
            title: cow_string(title),
            auto: auto_link(link_type),
        },
        Tag::Image { dest_url, title, .. } => MdTag::Image {
            url: cow_string(dest_url),
            title: cow_string(title),
        },
        _ => MdTag::Other,
    }
}

fn end_from(end: TagEnd) -> (r: MdEnd)
    ensures
        r == end_view(end),
{
    match end {
        TagEnd::Paragraph => MdEnd::Paragraph,
        TagEnd::Heading(level) => MdEnd::Heading(heading_level_to_u8(level)),
        TagEnd::BlockQuote(_) => MdEnd::BlockQuote,
        TagEnd::CodeBlock => MdEnd::CodeBlock,
        TagEnd::HtmlBlock => MdEnd::HtmlBlock,
        TagEnd::List(_) => MdEnd::List,
        TagEnd::Item => MdEnd::Item,
        TagEnd::Table => MdEnd::Table,
        TagEnd::TableHead => MdEnd::TableHead,
        TagEnd::TableRow => MdEnd::TableRow,
        TagEnd::TableCell => MdEnd::TableCell,
        TagEnd::Emphasis => MdEnd::Emphasis,
        TagEnd::Strong => MdEnd::Strong,
        TagEnd::Strikethrough => MdEnd::Strikethrough,
        TagEnd::Link => MdEnd::Link,
        TagEnd::Image => MdEnd::Image,
        _ => MdEnd::Other,
    }
}

/// The library's form of a pulldown-cmark event.
pub fn event_from(event: Event<'_>) -> (r: MdEvent)
    ensures
        r@ == event_view(event),
{
    match event {
        Event::Start(tag) => MdEvent::Start(tag_from(tag)),
        Event::End(end) => MdEvent::End(end_from(end)),
        Event::Text(s) => MdEvent::Text(cow_string(s)),
        Event::Code(s) => MdEvent::Code(cow_string(s)),
        Event::Html(s) => MdEvent::Html(cow_string(s)),
        Event::InlineHtml(s) => MdEvent::InlineHtml(cow_string(s)),
        Event::SoftBreak => MdEvent::SoftBreak,
        Event::HardBreak => MdEvent::HardBreak,
        Event::Rule => MdEvent::Rule,
        _ => MdEvent::Other,
    }
}

/// The bit of pulldown-cmark's options that enables tables.
///
/// Strikethrough stays off: `~` as a delimiter would corrupt prose such as
/// `~$5` (approximately $5).
pub const TABLES: u32 = 2;

/// Events with the byte ranges they stand for.
pub open spec fn ranges_view(v: Seq<(MdEvent, usize, usize)>) -> Seq<(MdEventView, usize, usize)> {
    v.map_values(|e: (MdEvent, usize, usize)| (e.0@, e.1, e.2))
}

/// The events that pulldown-cmark finds in a text under the given option
/// bits, each with the start and the end of its byte range.
pub uninterp spec fn parser_events(body: Seq<char>, options: u32) -> Seq<
    (MdEventView, usize, usize),
>;

/// Runs `Parser::new_ext` on `body` with the option bits `options` and walks
/// it with `into_offset_iter`: the events, which depend on the text and the
/// options alone, each with its byte range.
#[verifier::external_body]
fn run_parser(body: &str, options: u32) -> (r: Vec<(MdEvent, usize, usize)>)
    ensures
        ranges_view(r@) == parser_events(body@, options),
{
    let parser = Parser::new_ext(body, Options::from_bits_truncate(options));
    parser.into_offset_iter().map(|e| (event_from(e.0), e.1.start, e.1.end)).collect()
}

// ── spelling ──────────────────────────────────────────────────────────────

/// Whether an event stands for the whole of its range itself.
pub open spec fn is_leaf(e: MdEventView) -> bool {
    e is Text || e is Code || e is Html || e is InlineHtml || e is SoftBreak || e is HardBreak
}

/// How far the leaves among `ev` reach.
pub open spec fn reach(ev: Seq<(MdEventView, usize, usize)>) -> int
    decreases ev.len(),
{
    if ev.len() == 0 {
        0
    } else if is_leaf(ev.last().0) {
        ev.last().2 as int
    } else {
        reach(ev.drop_last())
    }
}

/// Where the source of a text that starts at `start` begins: at the
/// backslash before it, unless that belongs to what comes before, up to
/// `reached`.
pub open spec fn source_start(bytes: Seq<u8>, reached: int, start: int) -> int {
    if 0 < start <= bytes.len() && reached < start && bytes[start - 1] == 92 {
        start - 1
    } else {
        start
    }
}

/// The event for the text `s`, found at `start..end`.
pub open spec fn spelled(s: Seq<char>, bytes: Seq<u8>, reached: int, start: int, end: int) -> MdEventView {
    let from = source_start(bytes, reached, start);
    if from <= end <= bytes.len() && bytes.subrange(from, end) != encode_utf8(s) {
        MdEventView::Spelled { text: s, source: lossy_text(bytes.subrange(from, end)) }
    } else {
        MdEventView::Text(s)
    }
}

/// Whether an event starts a block.
pub open spec fn starts_block(e: MdEventView) -> bool {
    match e {
        MdEventView::Rule => true,
        MdEventView::Start(tag) => match tag {
            MdTagView::Paragraph => true,
            MdTagView::Heading(_) => true,
            MdTagView::BlockQuote => true,
            MdTagView::CodeBlock(_) => true,
            MdTagView::HtmlBlock => true,
            MdTagView::List(_) => true,
            MdTagView::Item => true,
            MdTagView::Table(_) => true,
            _ => false,
        },
        _ => false,
    }
}

/// The start of the line that the byte at `i` stands on.
pub open spec fn line_start(bytes: Seq<u8>, i: int) -> int
    decreases i,
{
    if 0 < i <= bytes.len() && bytes[i - 1] != 10 {
        line_start(bytes, i - 1)
    } else {
        i
    }
}

/// Whether a byte can stand on a blank line: white space, or the mark of a
/// quote.
pub open spec fn is_blank_byte(b: u8) -> bool {
    b == 32 || b == 9 || b == 13 || b == 62
}

/// Whether the line before that of the byte at `i` is blank.
pub open spec fn is_behind_blank(bytes: Seq<u8>, i: int) -> bool {
    let line = line_start(bytes, i);
    0 < line <= bytes.len() && forall|k: int|
        line_start(bytes, line - 1) <= k < line - 1 ==> is_blank_byte(#[trigger] bytes[k])
}

/// The event before one that starts a block behind a blank line.
pub open spec fn blank_before(e: MdEventView, bytes: Seq<u8>, start: usize) -> Seq<
    (MdEventView, usize),
> {
    if starts_block(e) && is_behind_blank(bytes, start as int) {
        seq![(MdEventView::Blank, start)]
    } else {
        Seq::empty()
    }
}

/// Events with the texts whose source differs from them spelled out, each
/// with the offset at which it starts; and with those that tell of blank
/// lines.
pub open spec fn spelled_events(ev: Seq<(MdEventView, usize, usize)>, bytes: Seq<u8>) -> Seq<
    (MdEventView, usize),
>
    decreases ev.len(),
{
    if ev.len() == 0 {
        Seq::empty()
    } else {
        let (e, start, end) = ev.last();
        let out = match e {
            MdEventView::Text(s) => spelled(
                s,
                bytes,
                reach(ev.drop_last()),
                start as int,
                end as int,
            ),
            _ => e,
        };
        (spelled_events(ev.drop_last(), bytes) + blank_before(e, bytes, start)).push((out, start))
    }
}

/// `bytes[from..to]`.
fn part(bytes: &[u8], from: usize, to: usize) -> (r: Vec<u8>)
    requires
        from <= to <= bytes.len(),
    ensures
        r@ == bytes@.subrange(from as int, to as int),
{
    let mut out: Vec<u8> = Vec::new();
    let mut i: usize = from;
    while i < to
        invariant
            from <= i <= to <= bytes.len(),
            out@ == bytes@.subrange(from as int, i as int),
        decreases to - i,
    {
        out.push(bytes[i]);
        i += 1;
    }
    out
}

/// Whether `a` and `b` hold the same bytes.
fn same_bytes(a: &Vec<u8>, b: &[u8]) -> (r: bool)
    ensures
        r == (a@ == b@),
{
    if a.len() != b.len() {
        return false;
    }
    let mut i: usize = 0;
    while i < a.len()
        invariant
            i <= a.len(),
            a.len() == b.len(),
            forall|k: int| 0 <= k < i ==> a@[k] == b@[k],
        decreases a.len() - i,
    {
        if a[i] != b[i] {
            return false;
        }
        i += 1;
    }
    assert(a@ =~= b@);
    true
}

/// The event for the text `s`, found at `start..end`.
fn spell(s: String, bytes: &[u8], reached: usize, start: usize, end: usize) -> (r: MdEvent)
    ensures
        r@ == spelled(s@, bytes@, reached as int, start as int, end as int),
{
    let from: usize = if 0 < start && start <= bytes.len() && reached < start && bytes[start - 1]
        == 92 {
        start - 1
    } else {
        start
    };
    if from <= end && end <= bytes.len() {
        let source = part(bytes, from, end);
        if !same_bytes(&source, s.as_str().as_bytes()) {
            return MdEvent::Spelled { text: s, source: from_bytes(&source) };
        }
    }
    MdEvent::Text(s)
}

fn opens_block(e: &MdEvent) -> (r: bool)
    ensures
        r == starts_block(e@),
{
    match e {
        MdEvent::Rule => true,
        MdEvent::Start(tag) => match tag {
            MdTag::Paragraph => true,
            MdTag::Heading(_) => true,
            MdTag::BlockQuote => true,
            MdTag::CodeBlock(_) => true,
            MdTag::HtmlBlock => true,
            MdTag::List(_) => true,
            MdTag::Item => true,
            MdTag::Table(_) => true,
            _ => false,
        },
        _ => false,
    }
}

fn find_line_start(bytes: &[u8], i: usize) -> (r: usize)
    ensures
        r == line_start(bytes@, i as int),
        r <= i,
{
    let mut n: usize = i;
    while n > 0 && n <= bytes.len() && bytes[n - 1] != 10
        invariant
            n <= i,
            line_start(bytes@, i as int) == line_start(bytes@, n as int),
        decreases n,
    {
        n -= 1;
    }
    n
}

fn stands_behind_blank(bytes: &[u8], i: usize) -> (r: bool)
    ensures
        r == is_behind_blank(bytes@, i as int),
{
    let line = find_line_start(bytes, i);
    if line == 0 || line > bytes.len() {
        return false;
    }
    let from = find_line_start(bytes, line - 1);
    let mut k: usize = from;
    while k < line - 1
        invariant
            from <= k <= line - 1,
            0 < line <= bytes.len(),
            line == line_start(bytes@, i as int),
            from == line_start(bytes@, line - 1),
            forall|j: int| from <= j < k ==> is_blank_byte(#[trigger] bytes@[j]),
        decreases line - k,
    {
        let b = bytes[k];
        if !(b == 32 || b == 9 || b == 13 || b == 62) {
            assert(!is_blank_byte(bytes@[k as int]));
            return false;
        }
        k += 1;
    }
    true
}

/// Spells out the texts among `events` whose source in `body` differs from
/// them, and tells of blank lines before blocks.
pub fn spell_texts(events: Vec<(MdEvent, usize, usize)>, body: &str) -> (r: Vec<(MdEvent, usize)>)
    ensures
        events_view(r@) == spelled_events(ranges_view(events@), encode_utf8(body@)),
{
    let ghost orig = events@;
    let ghost ev = ranges_view(orig);
    let bytes = body.as_bytes();
    let mut rest = events;
    let mut out: Vec<(MdEvent, usize)> = Vec::new();
    let mut reached: usize = 0;
    let mut i: usize = 0;
    assert(events_view(out@) =~= spelled_events(ev.take(0), bytes@));
    while i < rest.len()
        invariant
            i <= rest.len(),
            rest@.len() == orig.len(),
            forall|j: int| i <= j < orig.len() ==> rest@[j] == #[trigger] orig[j],
            ev == ranges_view(orig),
            bytes@ == encode_utf8(body@),
            reached == reach(ev.take(i as int)),
            events_view(out@) == spelled_events(ev.take(i as int), bytes@),
        decreases rest.len() - i,
    {
        let mut found: (MdEvent, usize, usize) = (MdEvent::Other, 0, 0);
        std::mem::swap(&mut rest[i], &mut found);
        let (e, start, end) = found;
        proof {
            assert(ev.take(i + 1).drop_last() =~= ev.take(i as int));
            assert(ev[i as int] == (e@, start, end));
        }
        let ghost first = events_view(out@);
        if opens_block(&e) && stands_behind_blank(bytes, start) {
            let ghost o = out@;
            out.push((MdEvent::Blank, start));
            assert(events_view(out@) =~= events_view(o).push((MdEventView::Blank, start)));
        }
        assert(events_view(out@) =~= first + blank_before(e@, bytes@, start));
        let ghost was = out@;
        let before: usize = reached;
        let event = match e {
            MdEvent::Text(s) => {
                reached = end;
                spell(s, bytes, before, start, end)
            },
            MdEvent::Code(s) => {
                reached = end;
                MdEvent::Code(s)
            },
            MdEvent::Html(s) => {
                reached = end;
                MdEvent::Html(s)
            },
            MdEvent::InlineHtml(s) => {
                reached = end;
                MdEvent::InlineHtml(s)
            },
            MdEvent::SoftBreak => {
                reached = end;
                MdEvent::SoftBreak
            },
            MdEvent::HardBreak => {
                reached = end;
                MdEvent::HardBreak
            },
            other => other,
        };
        out.push((event, start));
        assert(events_view(out@) =~= events_view(was).push((event@, start)));
        i += 1;
    }
    assert(ev.take(ev.len() as int) =~= ev);
    out
}

/// The events of a markdown text: CommonMark with tables.
pub open spec fn events_of(body: Seq<char>) -> Seq<(MdEventView, usize)> {
    spelled_events(parser_events(body, TABLES), encode_utf8(body))
}

/// The events of a markdown text: CommonMark with tables.
pub fn markdown_events(body: &str) -> (r: Vec<(MdEvent, usize)>)
    ensures
        events_view(r@) == events_of(body@),
{
    spell_texts(run_parser(body, TABLES), body)
}

/// A text that the source gives as it is stays a plain text.
pub proof fn plain_text_is_not_spelled(s: Seq<char>, bytes: Seq<u8>, reached: int, start: int, end: int)
    requires
        0 <= start <= end <= bytes.len(),
        bytes.subrange(start, end) == encode_utf8(s),
        start == 0 || start <= reached || bytes[start - 1] != 92,
    ensures
        spelled(s, bytes, reached, start, end) == MdEventView::Text(s),
{
}

/// Whether an event tells of something else than a blank line.
pub open spec fn tells(e: (MdEventView, usize)) -> bool {
    !(e.0 is Blank)
}

/// Spelling texts out keeps every event, in order and at its place: a text
/// with its text, and any other event as it is.
pub proof fn spelling_keeps_events(ev: Seq<(MdEventView, usize, usize)>, bytes: Seq<u8>)
    requires
        forall|k: int| 0 <= k < ev.len() ==> !((#[trigger] ev[k]).0 is Blank),
    ensures
        ({
            let r = spelled_events(ev, bytes).filter(|e: (MdEventView, usize)| tells(e));
            &&& r.len() == ev.len()
            &&& forall|k: int|
                #![trigger r[k]]
                0 <= k < r.len() ==> r[k].1 == ev[k].1 && match ev[k].0 {
                    MdEventView::Text(s) => r[k].0 == MdEventView::Text(s) || (
                    r[k].0 matches MdEventView::Spelled { text, .. } && text == s),
                    e => r[k].0 == e,
                }
        }),
    decreases ev.len(),
{
    let keep = |e: (MdEventView, usize)| tells(e);
    reveal(Seq::filter);
    if ev.len() > 0 {
        let f = ev.drop_last();
        let (e, start, end) = ev.last();
        let n = ev.len() - 1;
        assert forall|k: int| 0 <= k < f.len() implies !((#[trigger] f[k]).0 is Blank) by {
            assert(f[k] == ev[k]);
        }
        spelling_keeps_events(f, bytes);
        assert(!(ev[n].0 is Blank));
        let before = spelled_events(f, bytes);
        let gap = blank_before(e, bytes, start);
        let all = spelled_events(ev, bytes);
        let out = all.last();
        assert(all =~= (before + gap) + seq![out]);
        Seq::filter_distributes_over_add(before + gap, seq![out], keep);
        Seq::filter_distributes_over_add(before, gap, keep);
        assert(gap.filter(keep).len() == 0) by {
            if gap.len() > 0 {
                assert(gap.drop_last() =~= Seq::empty());
            }
        }
        assert(seq![out].drop_last() =~= Seq::empty());
        assert(tells(out));
        assert(seq![out].filter(keep) =~= seq![out]);
        let r = all.filter(keep);
        assert(r =~= before.filter(keep).push(out));
        assert forall|k: int|
            #![trigger r[k]]
            0 <= k < r.len() implies r[k].1 == ev[k].1 && match ev[k].0 {
            MdEventView::Text(s) => r[k].0 == MdEventView::Text(s) || (
            r[k].0 matches MdEventView::Spelled { text, .. } && text == s),
            x => r[k].0 == x,
        } by {
            if k < n {
                assert(r[k] == before.filter(keep)[k]);
                assert(f[k] == ev[k]);
            }
        }
    }
}

} // verus!
