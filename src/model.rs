//! The mathematical model of rendering: document events, the nesting
//! context, and what each event turns into.

use vstd::prelude::*;
use crate::colour::{AnsiColour, FontStyle, QuantizationError, Quantized, Rgb, quantize_spec};
use crate::terminal::{OutV, StyleInstruction, WriteError};

verus! {

/// The kinds of block a document is made of.
#[derive(Clone, Copy, Debug, PartialEq, Eq, Structural)]
pub enum BlockKind {
    Paragraph,
    /// A heading with its level, one to six.
    Heading(u8),
    BlockQuote,
    BulletList,
    /// A numbered list with the number of its first item.
    OrderedList(u64),
    Item,
    CodeBlock,
}

/// The kinds of inline emphasis.
#[derive(Clone, Copy, Debug, PartialEq, Eq, Structural)]
pub enum InlineKind {
    Emphasis,
    Strong,
    Strikethrough,
}

/// What an open context on the nesting stack is.
#[derive(Clone, Copy, Debug, PartialEq, Eq, Structural)]
pub enum Tag {
    Block(BlockKind),
    Inline(InlineKind),
    Link,
}

/// A span of highlighted code, with the colour and font style the
/// highlighting theme gave it.
#[derive(Clone, Debug)]
pub struct Token {
    pub colour: Rgb,
    pub font: FontStyle,
    pub text: Vec<u8>,
}

/// One step of a depth-first walk over a parsed document.
#[derive(Clone, Debug)]
pub enum Event {
    StartBlock(BlockKind),
    EndBlock(BlockKind),
    Text(Vec<u8>),
    Code(Token),
    StartInline(InlineKind),
    EndInline(InlineKind),
    LinkStart(Vec<u8>),
    LinkEnd,
    /// An image with its URL and its alternative text.
    Image(Vec<u8>, Vec<u8>),
    Rule,
    SoftBreak,
    HardBreak,
}

/// The kind of an event, without its contents.
#[derive(Clone, Copy, Debug, PartialEq, Eq, Structural)]
pub enum EventKind {
    StartBlock(BlockKind),
    EndBlock(BlockKind),
    Text,
    Code,
    StartInline(InlineKind),
    EndInline(InlineKind),
    LinkStart,
    LinkEnd,
    Image,
    Rule,
    SoftBreak,
    HardBreak,
}

pub open spec fn kind_of(e: Event) -> EventKind {
    match e {
        Event::StartBlock(k) => EventKind::StartBlock(k),
        Event::EndBlock(k) => EventKind::EndBlock(k),
        Event::Text(_) => EventKind::Text,
        Event::Code(_) => EventKind::Code,
        Event::StartInline(k) => EventKind::StartInline(k),
        Event::EndInline(k) => EventKind::EndInline(k),
        Event::LinkStart(_) => EventKind::LinkStart,
        Event::LinkEnd => EventKind::LinkEnd,
        Event::Image(_, _) => EventKind::Image,
        Event::Rule => EventKind::Rule,
        Event::SoftBreak => EventKind::SoftBreak,
        Event::HardBreak => EventKind::HardBreak,
    }
}

/// Whether remote resources may be used while rendering.
#[derive(Clone, Copy, Debug, PartialEq, Eq, Structural)]
pub enum ResourceAccess {
    LocalOnly,
    RemoteAllowed,
}

/// Why rendering stopped.
#[derive(Clone, Copy, Debug, PartialEq, Eq, Structural)]
pub enum RenderError {
    /// A highlighted token has a colour outside the known palette.
    Quantization(QuantizationError),
    /// The terminal refused a write.
    Write(WriteError),
    /// An end without a matching start, or a start never ended.
    StructuralInconsistency,
}

/// An open context: its tag, the URL of a link, the next number of an
/// ordered list.
pub struct FrameV {
    pub tag: Tag,
    pub url: Seq<u8>,
    pub next: u64,
}

/// A link whose URL is listed after the block it stands in.
pub struct LinkV {
    pub index: u64,
    pub url: Seq<u8>,
}

/// The state of a render between two events.
pub struct RState {
    pub stack: Seq<FrameV>,
    pub links: Seq<LinkV>,
    pub count: u64,
    pub blocked: Seq<Seq<u8>>,
}

pub open spec fn initial() -> RState {
    RState { stack: Seq::empty(), links: Seq::empty(), count: 0, blocked: Seq::empty() }
}

pub open spec fn tag_style(t: Tag) -> Seq<StyleInstruction> {
    match t {
        Tag::Block(BlockKind::Heading(_)) => seq![StyleInstruction::Bold],
        Tag::Block(BlockKind::BlockQuote) => seq![StyleInstruction::Italic],
        Tag::Inline(InlineKind::Emphasis) => seq![StyleInstruction::Italic],
        Tag::Inline(InlineKind::Strong) => seq![StyleInstruction::Bold],
        Tag::Link => seq![StyleInstruction::Foreground(AnsiColour::Blue)],
        _ => Seq::empty(),
    }
}

/// The styles that the open contexts ask for, outermost first.
pub open spec fn styles_of(stack: Seq<FrameV>) -> Seq<StyleInstruction>
    decreases stack.len(),
{
    if stack.len() == 0 {
        Seq::empty()
    } else {
        styles_of(stack.drop_last()) + tag_style(stack.last().tag)
    }
}

pub open spec fn style_outs(s: Seq<StyleInstruction>) -> Seq<OutV> {
    s.map_values(|x: StyleInstruction| OutV::Style(x))
}

/// A reset, then the styles of the contexts still open.
pub open spec fn restore(stack: Seq<FrameV>) -> Seq<OutV> {
    seq![OutV::Style(StyleInstruction::Reset)] + style_outs(styles_of(stack))
}

/// Whether a context indents what it holds.
pub open spec fn indents(t: Tag) -> bool {
    t == Tag::Block(BlockKind::BlockQuote) || t == Tag::Block(BlockKind::BulletList) || (
    t is Block && t->Block_0 is OrderedList)
}

/// Two spaces for each indenting context.
pub open spec fn margin(stack: Seq<FrameV>) -> Seq<u8>
    decreases stack.len(),
{
    if stack.len() == 0 {
        Seq::empty()
    } else if indents(stack.last().tag) {
        margin(stack.drop_last()) + seq![0x20u8, 0x20u8]
    } else {
        margin(stack.drop_last())
    }
}

/// The decimal digits of a number.
pub open spec fn dec(n: nat) -> Seq<u8>
    decreases n,
{
    if n < 10 {
        seq![(0x30 + n) as u8]
    } else {
        dec(n / 10).push((0x30 + n % 10) as u8)
    }
}

pub open spec fn sat_inc(n: u64) -> u64 {
    if n < u64::MAX {
        (n + 1) as u64
    } else {
        n
    }
}

pub open spec fn bullet() -> Seq<u8> {
    seq![0xe2u8, 0x80u8, 0xa2u8, 0x20u8]
}

pub open spec fn top_is(stack: Seq<FrameV>, t: Tag) -> bool {
    stack.len() > 0 && stack.last().tag == t
}

/// The marker of a new list item, and the stack with the list's counter
/// moved on.
pub open spec fn item_marker(stack: Seq<FrameV>) -> (Seq<u8>, Seq<FrameV>) {
    if stack.len() > 0 && stack.last().tag is Block && stack.last().tag->Block_0 is OrderedList {
        let f = stack.last();
        (
            dec(f.next as nat) + seq![0x2eu8, 0x20u8],
            stack.drop_last().push(FrameV { tag: f.tag, url: f.url, next: sat_inc(f.next) }),
        )
    } else {
        (bullet(), stack)
    }
}

/// What is written before a block starts, and the stack it leaves.
pub open spec fn block_prefix(stack: Seq<FrameV>, k: BlockKind) -> (Seq<u8>, Seq<FrameV>) {
    match k {
        BlockKind::Item => {
            let (m, st) = item_marker(stack);
            let ind = if stack.len() > 0 {
                margin(stack.drop_last())
            } else {
                Seq::empty()
            };
            (ind + m, st)
        },
        BlockKind::Paragraph | BlockKind::Heading(_) | BlockKind::CodeBlock => {
            if top_is(stack, Tag::Block(BlockKind::Item)) {
                (Seq::empty(), stack)
            } else {
                (margin(stack), stack)
            }
        },
        _ => (Seq::empty(), stack),
    }
}

/// The vertical space after a block.
pub open spec fn spacing(k: BlockKind) -> Seq<u8> {
    match k {
        BlockKind::Paragraph | BlockKind::Heading(_) | BlockKind::CodeBlock => seq![0x0au8, 0x0au8],
        BlockKind::Item => seq![0x0au8],
        _ => Seq::empty(),
    }
}

/// The line that lists one link: `[n]: url`.
pub open spec fn link_line(l: LinkV) -> Seq<u8> {
    seq![0x5bu8] + dec(l.index as nat) + seq![0x5du8, 0x3au8, 0x20u8] + l.url + seq![0x0au8]
}

pub open spec fn link_lines(links: Seq<LinkV>) -> Seq<OutV>
    decreases links.len(),
{
    if links.len() == 0 {
        Seq::empty()
    } else {
        link_lines(links.drop_last()).push(OutV::Text(link_line(links.last())))
    }
}

/// The inline marker of a link: `[n]`.
pub open spec fn link_marker(n: u64) -> Seq<u8> {
    seq![0x5bu8] + dec(n as nat) + seq![0x5du8]
}

pub open spec fn fg_of(c: Option<AnsiColour>) -> StyleInstruction {
    match c {
        Some(a) => StyleInstruction::Foreground(a),
        None => StyleInstruction::DefaultForeground,
    }
}

/// The styles a quantized token is written with.
pub open spec fn token_styles(q: Quantized) -> Seq<StyleInstruction> {
    seq![fg_of(q.colour)] + (if q.font.bold {
        seq![StyleInstruction::Bold]
    } else {
        Seq::empty()
    }) + (if q.font.italic {
        seq![StyleInstruction::Italic]
    } else {
        Seq::empty()
    }) + (if q.font.underline {
        seq![StyleInstruction::Underline]
    } else {
        Seq::empty()
    })
}

pub open spec fn http_prefix() -> Seq<u8> {
    seq![0x68u8, 0x74u8, 0x74u8, 0x70u8, 0x3au8, 0x2fu8, 0x2fu8]
}

pub open spec fn https_prefix() -> Seq<u8> {
    seq![0x68u8, 0x74u8, 0x74u8, 0x70u8, 0x73u8, 0x3au8, 0x2fu8, 0x2fu8]
}

/// Whether a URL names a remote resource: it starts with `http://` or
/// `https://`.
pub open spec fn is_remote(url: Seq<u8>) -> bool {
    (url.len() >= 7 && url.subrange(0, 7) == http_prefix()) || (url.len() >= 8 && url.subrange(
        0,
        8,
    ) == https_prefix())
}

/// A horizontal rule as wide as the column budget, and a blank line.
pub open spec fn rule_line(width: nat) -> Seq<u8> {
    Seq::new(width, |i: int| 0x2du8) + seq![0x0au8, 0x0au8]
}

pub open spec fn frame(t: Tag, url: Seq<u8>, next: u64) -> FrameV {
    FrameV { tag: t, url, next }
}

/// Close the innermost context, which must be `t`.
pub open spec fn close(s: RState, t: Tag) -> Result<RState, RenderError> {
    if top_is(s.stack, t) {
        Ok(RState { stack: s.stack.drop_last(), ..s })
    } else {
        Err(RenderError::StructuralInconsistency)
    }
}

pub open spec fn start_block(s: RState, k: BlockKind) -> (RState, Seq<OutV>) {
    let (pre, st) = block_prefix(s.stack, k);
    let next = match k {
        BlockKind::OrderedList(n) => n,
        _ => 0,
    };
    (
        RState { stack: st.push(frame(Tag::Block(k), Seq::empty(), next)), ..s },
        seq![OutV::Text(pre)] + style_outs(tag_style(Tag::Block(k))),
    )
}

pub open spec fn end_block(s: RState, k: BlockKind) -> Result<(RState, Seq<OutV>), RenderError> {
    match close(s, Tag::Block(k)) {
        Err(e) => Err(e),
        Ok(s2) => if s2.stack.len() == 0 {
            Ok(
                (
                    RState { links: Seq::empty(), ..s2 },
                    restore(s2.stack) + seq![OutV::Text(spacing(k))] + link_lines(s2.links),
                ),
            )
        } else {
            Ok((s2, restore(s2.stack) + seq![OutV::Text(spacing(k))]))
        },
    }
}

pub open spec fn code(s: RState, tok: Token) -> Result<(RState, Seq<OutV>), RenderError> {
    match quantize_spec(tok.colour, tok.font) {
        Err(e) => Err(RenderError::Quantization(e)),
        Ok(q) => Ok(
            (s, style_outs(token_styles(q)) + seq![OutV::Text(tok.text@)] + restore(s.stack)),
        ),
    }
}

pub open spec fn open_inline(s: RState, t: Tag, url: Seq<u8>) -> (RState, Seq<OutV>) {
    (RState { stack: s.stack.push(frame(t, url, 0)), ..s }, style_outs(tag_style(t)))
}

pub open spec fn end_inline(s: RState, k: InlineKind) -> Result<(RState, Seq<OutV>), RenderError> {
    match close(s, Tag::Inline(k)) {
        Err(e) => Err(e),
        Ok(s2) => Ok((s2, restore(s2.stack))),
    }
}

pub open spec fn link_end(s: RState) -> Result<(RState, Seq<OutV>), RenderError> {
    match close(s, Tag::Link) {
        Err(e) => Err(e),
        Ok(s2) => {
            let n = sat_inc(s.count);
            Ok(
                (
                    RState {
                        links: s2.links.push(LinkV { index: n, url: s.stack.last().url }),
                        count: n,
                        ..s2
                    },
                    restore(s2.stack) + seq![OutV::Text(link_marker(n))],
                ),
            )
        },
    }
}

pub open spec fn image(s: RState, url: Seq<u8>, alt: Seq<u8>, policy: ResourceAccess) -> (
    RState,
    Seq<OutV>,
) {
    let blocked = if policy == ResourceAccess::LocalOnly && is_remote(url) {
        s.blocked.push(url)
    } else {
        s.blocked
    };
    (RState { blocked, ..s }, seq![OutV::Text(alt)])
}

/// What one event does to the state and what it writes.
pub open spec fn step(s: RState, ev: Event, policy: ResourceAccess, width: nat) -> Result<
    (RState, Seq<OutV>),
    RenderError,
> {
    match ev {
        Event::StartBlock(k) => Ok(start_block(s, k)),
        Event::EndBlock(k) => end_block(s, k),
        Event::Text(t) => Ok((s, seq![OutV::Text(t@)])),
        Event::Code(tok) => code(s, tok),
        Event::StartInline(k) => Ok(open_inline(s, Tag::Inline(k), Seq::empty())),
        Event::EndInline(k) => end_inline(s, k),
        Event::LinkStart(url) => Ok(open_inline(s, Tag::Link, url@)),
        Event::LinkEnd => link_end(s),
        Event::Image(url, alt) => Ok(image(s, url@, alt@, policy)),
        Event::Rule => Ok((s, seq![OutV::Text(rule_line(width))])),
        Event::SoftBreak => Ok((s, seq![OutV::Text(seq![0x20u8])])),
        Event::HardBreak => Ok((s, seq![OutV::Text(seq![0x0au8])])),
    }
}

/// The state and output after a prefix of events, or the output written
/// before the event that failed, and its error.
pub open spec fn run(events: Seq<Event>, policy: ResourceAccess, width: nat) -> Result<
    (RState, Seq<OutV>),
    (Seq<OutV>, RenderError),
>
    decreases events.len(),
{
    if events.len() == 0 {
        Ok((initial(), Seq::empty()))
    } else {
        match run(events.drop_last(), policy, width) {
            Err(x) => Err(x),
            Ok((s, items)) => match step(s, events.last(), policy, width) {
                Err(e) => Err((items, e)),
                Ok((s2, more)) => Ok((s2, items + more)),
            },
        }
    }
}

/// The end of the stream: pending links are listed, then every context
/// must be closed. Success carries the remote URLs that were not used.
pub open spec fn finish(s: RState) -> (Seq<OutV>, Result<Seq<Seq<u8>>, RenderError>) {
    if s.stack.len() > 0 {
        (link_lines(s.links), Err(RenderError::StructuralInconsistency))
    } else {
        (link_lines(s.links), Ok(s.blocked))
    }
}

/// Everything a render writes, given a sink that never refuses, and how it
/// ends.
pub open spec fn plan(events: Seq<Event>, policy: ResourceAccess, width: nat) -> (
    Seq<OutV>,
    Result<Seq<Seq<u8>>, RenderError>,
) {
    match run(events, policy, width) {
        Err((items, e)) => (items, Err(e)),
        Ok((s, items)) => {
            let (more, res) = finish(s);
            (items + more, res)
        },
    }
}

} // verus!
