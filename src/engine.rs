//! The render engine: one pass over the events, driving the nesting state
//! and writing through a terminal.

use vstd::prelude::*;
use crate::colour::{quantize, Quantized};
use crate::terminal::{flush, Terminal, WriteError};
use crate::model::{
    BlockKind, Event, EventKind, FrameV, kind_of, block_prefix, code, end_block, end_inline, fg_of,
    frame, image, is_remote, http_prefix, https_prefix, link_end,
    link_marker, open_inline, plan, rule_line, run, spacing, start_block, step,
    token_styles, top_is, InlineKind, LinkV, RState, RenderError, ResourceAccess, Tag,
    Token, dec, link_line, link_lines, margin, indents, restore, style_outs, styles_of,
    tag_style,
};
use crate::terminal::{outs_view, Out, OutV, StyleInstruction};

verus! {

struct Frame {
    tag: Tag,
    url: Vec<u8>,
    next: u64,
}

impl View for Frame {
    type V = FrameV;

    closed spec fn view(&self) -> FrameV {
        FrameV { tag: self.tag, url: self.url@, next: self.next }
    }
}

struct PendingLink {
    index: u64,
    url: Vec<u8>,
}

impl View for PendingLink {
    type V = LinkV;

    closed spec fn view(&self) -> LinkV {
        LinkV { index: self.index, url: self.url@ }
    }
}

spec fn frames(v: Seq<Frame>) -> Seq<FrameV> {
    v.map_values(|f: Frame| f@)
}

spec fn pending(v: Seq<PendingLink>) -> Seq<LinkV> {
    v.map_values(|l: PendingLink| l@)
}

spec fn byte_seqs(v: Seq<Vec<u8>>) -> Seq<Seq<u8>> {
    v.map_values(|b: Vec<u8>| b@)
}

/// The nesting context of one render.
struct RenderState {
    stack: Vec<Frame>,
    links: Vec<PendingLink>,
    count: u64,
    blocked: Vec<Vec<u8>>,
}

impl View for RenderState {
    type V = RState;

    closed spec fn view(&self) -> RState {
        RState {
            stack: frames(self.stack@),
            links: pending(self.links@),
            count: self.count,
            blocked: byte_seqs(self.blocked@),
        }
    }
}

pub(crate) fn copy_bytes(b: &[u8]) -> (r: Vec<u8>)
    ensures
        r@ == b@,
{
    let mut v: Vec<u8> = Vec::new();
    let mut i: usize = 0;
    while i < b.len()
        invariant
            i <= b@.len(),
            v@ == b@.subrange(0, i as int),
        decreases b@.len() - i,
    {
        v.push(b[i]);
        i += 1;
        assert(v@ =~= b@.subrange(0, i as int));
    }
    assert(b@.subrange(0, i as int) =~= b@);
    v
}

fn append_bytes(v: &mut Vec<u8>, b: &[u8])
    ensures
        final(v)@ == old(v)@ + b@,
{
    let mut c = copy_bytes(b);
    v.append(&mut c);
}

/// The decimal digits of `n`.
pub fn decimal(n: u64) -> (r: Vec<u8>)
    ensures
        r@ == dec(n as nat),
    decreases n,
{
    if n < 10 {
        let mut v: Vec<u8> = Vec::new();
        v.push((0x30 + n) as u8);
        v
    } else {
        let mut v = decimal(n / 10);
        v.push((0x30 + n % 10) as u8);
        v
    }
}

proof fn lemma_outs_push(a: Seq<Out>, x: Out)
    ensures
        outs_view(a.push(x)) == outs_view(a).push(x@),
{
    assert(outs_view(a.push(x)) =~= outs_view(a).push(x@));
}

proof fn lemma_outs_add(a: Seq<Out>, b: Seq<Out>)
    ensures
        outs_view(a + b) == outs_view(a) + outs_view(b),
{
    assert(outs_view(a + b) =~= outs_view(a) + outs_view(b));
}

proof fn lemma_style_outs_add(a: Seq<StyleInstruction>, b: Seq<StyleInstruction>)
    ensures
        style_outs(a + b) == style_outs(a) + style_outs(b),
{
    assert(style_outs(a + b) =~= style_outs(a) + style_outs(b));
}

fn push_out(v: &mut Vec<Out>, o: Out)
    ensures
        outs_view(final(v)@) == outs_view(old(v)@).push(o@),
{
    proof {
        lemma_outs_push(v@, o);
    }
    v.push(o);
}

fn push_style(v: &mut Vec<Out>, s: StyleInstruction)
    ensures
        outs_view(final(v)@) == outs_view(old(v)@) + style_outs(seq![s]),
{
    push_out(v, Out::Style(s));
    assert(style_outs(seq![s]) =~= seq![OutV::Style(s)]);
}

fn push_tag_style(v: &mut Vec<Out>, t: Tag)
    ensures
        outs_view(final(v)@) == outs_view(old(v)@) + style_outs(tag_style(t)),
{
    match t {
        Tag::Block(BlockKind::Heading(_)) => push_style(v, StyleInstruction::Bold),
        Tag::Block(BlockKind::BlockQuote) => push_style(v, StyleInstruction::Italic),
        Tag::Inline(InlineKind::Emphasis) => push_style(v, StyleInstruction::Italic),
        Tag::Inline(InlineKind::Strong) => push_style(v, StyleInstruction::Bold),
        Tag::Link => push_style(v, StyleInstruction::Foreground(crate::colour::AnsiColour::Blue)),
        _ => {
            assert(style_outs(tag_style(t)) =~= Seq::<OutV>::empty());
            assert(outs_view(v@) + Seq::<OutV>::empty() =~= outs_view(v@));
        },
    }
}

fn is_ordered(t: Tag) -> (r: bool)
    ensures
        r == (t is Block && t->Block_0 is OrderedList),
{
    match t {
        Tag::Block(BlockKind::OrderedList(_)) => true,
        _ => false,
    }
}

fn tag_indents(t: Tag) -> (r: bool)
    ensures
        r == indents(t),
{
    match t {
        Tag::Block(BlockKind::BlockQuote) => true,
        Tag::Block(BlockKind::BulletList) => true,
        Tag::Block(BlockKind::OrderedList(_)) => true,
        _ => false,
    }
}

/// A reset followed by the styles of every open context.
fn restore_outs(stack: &Vec<Frame>) -> (r: Vec<Out>)
    ensures
        outs_view(r@) == restore(frames(stack@)),
{
    let mut v: Vec<Out> = Vec::new();
    push_out(&mut v, Out::Style(StyleInstruction::Reset));
    let ghost fs = frames(stack@);
    let mut i: usize = 0;
    while i < stack.len()
        invariant
            i <= stack@.len(),
            fs == frames(stack@),
            outs_view(v@) == seq![OutV::Style(StyleInstruction::Reset)] + style_outs(
                styles_of(fs.take(i as int)),
            ),
        decreases stack@.len() - i,
    {
        assert(fs.take(i + 1).drop_last() =~= fs.take(i as int));
        push_tag_style(&mut v, stack[i].tag);
        proof {
            lemma_style_outs_add(styles_of(fs.take(i as int)), tag_style(stack@[i as int].tag));
        }
        i += 1;
    }
    assert(fs.take(i as int) =~= fs);
    v
}

/// The margin that the first `upto` contexts ask for.
fn margin_of(stack: &Vec<Frame>, upto: usize) -> (r: Vec<u8>)
    requires
        upto <= stack@.len(),
    ensures
        r@ == margin(frames(stack@).take(upto as int)),
{
    let ghost fs = frames(stack@);
    let mut v: Vec<u8> = Vec::new();
    let mut i: usize = 0;
    while i < upto
        invariant
            i <= upto <= stack@.len(),
            fs == frames(stack@),
            v@ == margin(fs.take(i as int)),
        decreases upto - i,
    {
        assert(fs.take(i + 1).drop_last() =~= fs.take(i as int));
        if tag_indents(stack[i].tag) {
            v.push(0x20);
            v.push(0x20);
            assert(v@ =~= margin(fs.take(i as int)) + seq![0x20u8, 0x20u8]);
        }
        i += 1;
    }
    v
}

/// One line per pending link, appended to `v`.
fn push_link_lines(v: &mut Vec<Out>, links: &Vec<PendingLink>)
    ensures
        outs_view(final(v)@) == outs_view(old(v)@) + link_lines(pending(links@)),
{
    let ghost ls = pending(links@);
    let mut i: usize = 0;
    assert(link_lines(ls.take(0)) =~= Seq::<OutV>::empty());
    assert(outs_view(v@) + Seq::<OutV>::empty() =~= outs_view(v@));
    while i < links.len()
        invariant
            i <= links@.len(),
            ls == pending(links@),
            outs_view(v@) == outs_view(old(v)@) + link_lines(ls.take(i as int)),
        decreases links@.len() - i,
    {
        assert(ls.take(i + 1).drop_last() =~= ls.take(i as int));
        let mut line: Vec<u8> = Vec::new();
        line.push(0x5b);
        let d = decimal(links[i].index);
        append_bytes(&mut line, d.as_slice());
        line.push(0x5d);
        line.push(0x3a);
        line.push(0x20);
        append_bytes(&mut line, links[i].url.as_slice());
        line.push(0x0a);
        assert(line@ =~= link_line(ls[i as int]));
        push_out(v, Out::Text(line));
        assert(outs_view(v@) =~= outs_view(old(v)@) + link_lines(ls.take(i + 1)));
        i += 1;
    }
    assert(ls.take(i as int) =~= ls);
}

fn spacing_bytes(k: BlockKind) -> (r: Vec<u8>)
    ensures
        r@ == spacing(k),
{
    let mut v: Vec<u8> = Vec::new();
    match k {
        BlockKind::Paragraph | BlockKind::Heading(_) | BlockKind::CodeBlock => {
            v.push(0x0a);
            v.push(0x0a);
        },
        BlockKind::Item => v.push(0x0a),
        _ => {},
    }
    assert(v@ =~= spacing(k));
    v
}

fn starts_with(b: &[u8], p: &[u8]) -> (r: bool)
    ensures
        r == (b@.len() >= p@.len() && b@.subrange(0, p@.len() as int) == p@),
{
    if b.len() < p.len() {
        return false;
    }
    let mut i: usize = 0;
    while i < p.len()
        invariant
            i <= p@.len() <= b@.len(),
            b@.subrange(0, i as int) == p@.subrange(0, i as int),
        decreases p@.len() - i,
    {
        if b[i] != p[i] {
            assert(b@.subrange(0, p@.len() as int)[i as int] != p@[i as int]);
            return false;
        }
        i += 1;
        assert(b@.subrange(0, i as int) =~= p@.subrange(0, i as int));
    }
    assert(p@.subrange(0, i as int) =~= p@);
    true
}

fn url_is_remote(url: &[u8]) -> (r: bool)
    ensures
        r == is_remote(url@),
{
    let http: [u8; 7] = [0x68, 0x74, 0x74, 0x70, 0x3a, 0x2f, 0x2f];
    let https: [u8; 8] = [0x68, 0x74, 0x74, 0x70, 0x73, 0x3a, 0x2f, 0x2f];
    assert(http@ =~= http_prefix());
    assert(https@ =~= https_prefix());
    starts_with(url, http.as_slice()) || starts_with(url, https.as_slice())
}

fn rule_bytes(width: usize) -> (r: Vec<u8>)
    ensures
        r@ == rule_line(width as nat),
{
    let mut v: Vec<u8> = Vec::new();
    let mut i: usize = 0;
    while i < width
        invariant
            i <= width,
            v@ == Seq::new(i as nat, |j: int| 0x2du8),
        decreases width - i,
    {
        v.push(0x2d);
        i += 1;
        assert(v@ =~= Seq::new(i as nat, |j: int| 0x2du8));
    }
    v.push(0x0a);
    v.push(0x0a);
    assert(v@ =~= rule_line(width as nat));
    v
}

fn text_out(t: Vec<u8>) -> (r: Vec<Out>)
    ensures
        outs_view(r@) == seq![OutV::Text(t@)],
{
    let mut v: Vec<Out> = Vec::new();
    push_out(&mut v, Out::Text(t));
    assert(outs_view(v@) =~= seq![OutV::Text(t@)]);
    v
}

/// The styles of a quantized token, then its text.
pub(crate) fn token_items(q: Quantized, text: &Vec<u8>) -> (r: Vec<Out>)
    ensures
        outs_view(r@) == style_outs(token_styles(q)) + seq![OutV::Text(text@)],
{
    let mut out: Vec<Out> = Vec::new();
    let fg = match q.colour {
        Some(c) => StyleInstruction::Foreground(c),
        None => StyleInstruction::DefaultForeground,
    };
    assert(fg == fg_of(q.colour));
    push_out(&mut out, Out::Style(fg));
    if q.font.bold {
        push_out(&mut out, Out::Style(StyleInstruction::Bold));
    }
    if q.font.italic {
        push_out(&mut out, Out::Style(StyleInstruction::Italic));
    }
    if q.font.underline {
        push_out(&mut out, Out::Style(StyleInstruction::Underline));
    }
    assert(outs_view(out@) =~= style_outs(token_styles(q)));
    push_out(&mut out, Out::Text(copy_bytes(text.as_slice())));
    out
}

impl RenderState {
    fn new() -> (r: RenderState)
        ensures
            r@ == crate::model::initial(),
    {
        let r = RenderState { stack: Vec::new(), links: Vec::new(), count: 0, blocked: Vec::new() };
        assert(r@.stack =~= crate::model::initial().stack);
        assert(r@.links =~= crate::model::initial().links);
        assert(r@.blocked =~= crate::model::initial().blocked);
        r
    }

    fn push_frame(&mut self, f: Frame)
        ensures
            final(self)@ == (RState { stack: old(self)@.stack.push(f@), ..old(self)@ }),
    {
        self.stack.push(f);
        assert(frames(self.stack@) =~= frames(old(self).stack@).push(f@));
    }

    fn pop_frame(&mut self) -> (r: Frame)
        requires
            old(self).stack@.len() > 0,
        ensures
            r@ == old(self)@.stack.last(),
            final(self)@ == (RState { stack: old(self)@.stack.drop_last(), ..old(self)@ }),
    {
        let f = self.stack.pop().unwrap();
        assert(frames(self.stack@) =~= frames(old(self).stack@).drop_last());
        f
    }

    fn top_tag_is(&self, t: Tag) -> (r: bool)
        ensures
            r == top_is(self@.stack, t),
    {
        let n = self.stack.len();
        n > 0 && self.stack[n - 1].tag == t
    }

    fn start_block(&mut self, k: BlockKind) -> (r: Vec<Out>)
        ensures
            start_block(old(self)@, k) == (final(self)@, outs_view(r@)),
    {
        let ghost s0 = self@;
        let n = self.stack.len();
        let mut pre: Vec<u8> = Vec::new();
        match k {
            BlockKind::Item => {
                if n > 0 {
                    pre = margin_of(&self.stack, n - 1);
                    assert(frames(self.stack@).take(n - 1) =~= s0.stack.drop_last());
                }
                if n > 0 && is_ordered(self.stack[n - 1].tag) {
                    let mut f = self.pop_frame();
                    let d = decimal(f.next);
                    append_bytes(&mut pre, d.as_slice());
                    pre.push(0x2e);
                    pre.push(0x20);
                    f.next = if f.next < u64::MAX {
                        f.next + 1
                    } else {
                        f.next
                    };
                    self.push_frame(f);
                } else {
                    pre.push(0xe2);
                    pre.push(0x80);
                    pre.push(0xa2);
                    pre.push(0x20);
                }
                assert(pre@ =~= block_prefix(s0.stack, k).0);
                assert(self@.stack =~= block_prefix(s0.stack, k).1);
            },
            BlockKind::Paragraph | BlockKind::Heading(_) | BlockKind::CodeBlock => {
                if !self.top_tag_is(Tag::Block(BlockKind::Item)) {
                    pre = margin_of(&self.stack, n);
                    assert(frames(self.stack@).take(n as int) =~= s0.stack);
                }
                assert(pre@ =~= block_prefix(s0.stack, k).0);
            },
            _ => {
                assert(pre@ =~= block_prefix(s0.stack, k).0);
            },
        }
        let next = match k {
            BlockKind::OrderedList(m) => m,
            _ => 0,
        };
        let f = Frame { tag: Tag::Block(k), url: Vec::new(), next };
        assert(f@ == frame(Tag::Block(k), Seq::empty(), next));
        self.push_frame(f);
        let mut out: Vec<Out> = Vec::new();
        push_out(&mut out, Out::Text(pre));
        push_tag_style(&mut out, Tag::Block(k));
        assert(outs_view(out@) =~= seq![OutV::Text(block_prefix(s0.stack, k).0)] + style_outs(
            tag_style(Tag::Block(k)),
        ));
        out
    }

    fn end_block(&mut self, k: BlockKind) -> (r: Result<Vec<Out>, RenderError>)
        ensures
            match end_block(old(self)@, k) {
                Ok((s, items)) => r is Ok && final(self)@ == s && outs_view(r->Ok_0@) == items,
                Err(e) => r == Err::<Vec<Out>, RenderError>(e),
            },
    {
        if !self.top_tag_is(Tag::Block(k)) {
            return Err(RenderError::StructuralInconsistency);
        }
        let _ = self.pop_frame();
        let mut out = restore_outs(&self.stack);
        push_out(&mut out, Out::Text(spacing_bytes(k)));
        if self.stack.len() == 0 {
            push_link_lines(&mut out, &self.links);
            self.links = Vec::new();
            assert(pending(self.links@) =~= Seq::<LinkV>::empty());
        }
        Ok(out)
    }

    fn code(&self, tok: &Token) -> (r: Result<Vec<Out>, RenderError>)
        ensures
            match code(self@, *tok) {
                Ok((s, items)) => r is Ok && self@ == s && outs_view(r->Ok_0@) == items,
                Err(e) => r == Err::<Vec<Out>, RenderError>(e),
            },
    {
        let q: Quantized = match quantize(tok.colour, tok.font) {
            Ok(q) => q,
            Err(e) => {
                return Err(RenderError::Quantization(e));
            },
        };
        let mut out = token_items(q, &tok.text);
        let mut rest = restore_outs(&self.stack);
        proof {
            lemma_outs_add(out@, rest@);
        }
        out.append(&mut rest);
        Ok(out)
    }

    fn open_inline(&mut self, t: Tag, url: Vec<u8>) -> (r: Vec<Out>)
        ensures
            open_inline(old(self)@, t, url@) == (final(self)@, outs_view(r@)),
    {
        let f = Frame { tag: t, url, next: 0 };
        self.push_frame(f);
        let mut out: Vec<Out> = Vec::new();
        push_tag_style(&mut out, t);
        assert(outs_view(out@) =~= style_outs(tag_style(t)));
        out
    }

    fn end_inline(&mut self, k: InlineKind) -> (r: Result<Vec<Out>, RenderError>)
        ensures
            match end_inline(old(self)@, k) {
                Ok((s, items)) => r is Ok && final(self)@ == s && outs_view(r->Ok_0@) == items,
                Err(e) => r == Err::<Vec<Out>, RenderError>(e),
            },
    {
        if !self.top_tag_is(Tag::Inline(k)) {
            return Err(RenderError::StructuralInconsistency);
        }
        let _ = self.pop_frame();
        Ok(restore_outs(&self.stack))
    }

    fn link_end(&mut self) -> (r: Result<Vec<Out>, RenderError>)
        ensures
            match link_end(old(self)@) {
                Ok((s, items)) => r is Ok && final(self)@ == s && outs_view(r->Ok_0@) == items,
                Err(e) => r == Err::<Vec<Out>, RenderError>(e),
            },
    {
        if !self.top_tag_is(Tag::Link) {
            return Err(RenderError::StructuralInconsistency);
        }
        let f = self.pop_frame();
        let n = if self.count < u64::MAX {
            self.count + 1
        } else {
            self.count
        };
        let mut out = restore_outs(&self.stack);
        let mut marker: Vec<u8> = Vec::new();
        marker.push(0x5b);
        let d = decimal(n);
        append_bytes(&mut marker, d.as_slice());
        marker.push(0x5d);
        assert(marker@ =~= link_marker(n));
        push_out(&mut out, Out::Text(marker));
        let l = PendingLink { index: n, url: f.url };
        proof {
            assert(pending(self.links@.push(l)) =~= pending(self.links@).push(l@));
        }
        self.links.push(l);
        self.count = n;
        Ok(out)
    }

    fn image(&mut self, url: &Vec<u8>, alt: &Vec<u8>, policy: ResourceAccess) -> (r: Vec<Out>)
        ensures
            image(old(self)@, url@, alt@, policy) == (final(self)@, outs_view(r@)),
    {
        if policy == ResourceAccess::LocalOnly && url_is_remote(url.as_slice()) {
            let u = copy_bytes(url.as_slice());
            proof {
                assert(byte_seqs(self.blocked@.push(u)) =~= byte_seqs(self.blocked@).push(u@));
            }
            self.blocked.push(u);
        }
        text_out(copy_bytes(alt.as_slice()))
    }

    /// Handle one event.
    fn step(&mut self, ev: &Event, policy: ResourceAccess, width: usize) -> (r: Result<
        Vec<Out>,
        RenderError,
    >)
        ensures
            match step(old(self)@, *ev, policy, width as nat) {
                Ok((s, items)) => r is Ok && final(self)@ == s && outs_view(r->Ok_0@) == items,
                Err(e) => r == Err::<Vec<Out>, RenderError>(e),
            },
    {
        match ev {
            Event::StartBlock(k) => Ok(self.start_block(*k)),
            Event::EndBlock(k) => self.end_block(*k),
            Event::Text(t) => Ok(text_out(copy_bytes(t.as_slice()))),
            Event::Code(tok) => self.code(tok),
            Event::StartInline(k) => Ok(self.open_inline(Tag::Inline(*k), Vec::new())),
            Event::EndInline(k) => self.end_inline(*k),
            Event::LinkStart(url) => Ok(self.open_inline(Tag::Link, copy_bytes(url.as_slice()))),
            Event::LinkEnd => self.link_end(),
            Event::Image(url, alt) => Ok(self.image(url, alt, policy)),
            Event::Rule => Ok(text_out(rule_bytes(width))),
            Event::SoftBreak => {
                let mut v: Vec<u8> = Vec::new();
                v.push(0x20);
                assert(v@ =~= seq![0x20u8]);
                Ok(text_out(v))
            },
            Event::HardBreak => {
                let mut v: Vec<u8> = Vec::new();
                v.push(0x0a);
                assert(v@ =~= seq![0x0au8]);
                Ok(text_out(v))
            },
        }
    }
}


/// A render's result with its values seen as sequences.
pub open spec fn result_view(r: Result<Vec<Vec<u8>>, RenderError>) -> Result<Seq<Seq<u8>>, RenderError> {
    match r {
        Ok(v) => Ok(v@.map_values(|b: Vec<u8>| b@)),
        Err(e) => Err(e),
    }
}

/// Once a prefix of the events has failed, longer prefixes fail the same way.
proof fn lemma_run_err_persists(events: Seq<Event>, policy: ResourceAccess, width: nat, n: int, m: int)
    requires
        0 <= n <= m <= events.len(),
        run(events.take(n), policy, width) is Err,
    ensures
        run(events.take(m), policy, width) == run(events.take(n), policy, width),
    decreases m - n,
{
    if m > n {
        lemma_run_err_persists(events, policy, width, n, m - 1);
        assert(events.take(m).drop_last() =~= events.take(m - 1));
    }
}

/// Write `items` and report how the render ends.
fn conclude(terminal: &mut Terminal, items: &Vec<Out>, res: Result<Vec<Vec<u8>>, RenderError>) -> (r: Result<Vec<Vec<u8>>, RenderError>)
    ensures
        final(terminal).kind() == old(terminal).kind(),
        final(terminal).limit() == old(terminal).limit(),
        ({
            let (bytes, ok) = flush(old(terminal).kind(), old(terminal).limit(), old(terminal).bytes(), outs_view(items@));
            &&& final(terminal).bytes() == bytes
            &&& result_view(r) == if ok { result_view(res) } else { Err(RenderError::Write(WriteError {})) }
        }),
{
    match terminal.emit_all(items) {
        Ok(()) => res,
        Err(e) => Err(RenderError::Write(e)),
    }
}

/// Render a document's events to a terminal.
///
/// What is written is the output of `plan` for the events, fed to the
/// terminal unit by unit until one does not fit. The result is a write error
/// if a write failed; otherwise the error at which the events were found
/// wanting (a colour off the palette, an end without its start, a start
/// without its end); otherwise the remote image URLs that the access policy
/// kept from use.
pub fn render(
    events: &Vec<Event>,
    terminal: &mut Terminal,
    policy: ResourceAccess,
    column_width: usize,
) -> (r: Result<Vec<Vec<u8>>, RenderError>)
    ensures
        final(terminal).kind() == old(terminal).kind(),
        final(terminal).limit() == old(terminal).limit(),
        ({
            let (items, res) = plan(events@, policy, column_width as nat);
            let (bytes, ok) = flush(old(terminal).kind(), old(terminal).limit(), old(terminal).bytes(), items);
            &&& final(terminal).bytes() == bytes
            &&& result_view(r) == if ok { res } else { Err(RenderError::Write(WriteError {})) }
        }),
{
    let ghost evs = events@;
    let ghost w = column_width as nat;
    let mut state = RenderState::new();
    let mut items: Vec<Out> = Vec::new();
    let mut i: usize = 0;
    assert(evs.take(0) =~= Seq::<Event>::empty());
    assert(outs_view(items@) =~= Seq::<OutV>::empty());
    while i < events.len()
        invariant
            i <= evs.len(),
            evs == events@,
            w == column_width as nat,
            terminal.kind() == old(terminal).kind(),
            terminal.limit() == old(terminal).limit(),
            terminal.bytes() == old(terminal).bytes(),
            run(evs.take(i as int), policy, w) == Ok::<(RState, Seq<OutV>), (Seq<OutV>, RenderError)>((state@, outs_view(items@))),
        decreases evs.len() - i,
    {
        assert(evs.take(i + 1).drop_last() =~= evs.take(i as int));
        assert(evs.take(i + 1).last() == evs[i as int]);
        match state.step(&events[i], policy, column_width) {
            Ok(mut more) => {
                proof {
                    lemma_outs_add(items@, more@);
                }
                items.append(&mut more);
            },
            Err(e) => {
                proof {
                    lemma_run_err_persists(evs, policy, w, i + 1, evs.len() as int);
                    assert(evs.take(evs.len() as int) =~= evs);
                }
                return conclude(terminal, &items, Err(e));
            },
        }
        i += 1;
    }
    assert(evs.take(i as int) =~= evs);
    push_link_lines(&mut items, &state.links);
    if state.stack.len() > 0 {
        return conclude(terminal, &items, Err(RenderError::StructuralInconsistency));
    }
    let blocked = state.blocked;
    conclude(terminal, &items, Ok(blocked))
}

fn kind(e: &Event) -> (r: EventKind)
    ensures
        r == kind_of(*e),
{
    match e {
        Event::StartBlock(k) => EventKind::StartBlock(*k),
        Event::EndBlock(k) => EventKind::EndBlock(*k),
        Event::Text(_) => EventKind::Text,
        Event::Code(_) => EventKind::Code,
        Event::StartInline(k) => EventKind::StartInline(*k),
        Event::EndInline(k) => EventKind::EndInline(*k),
        Event::LinkStart(_) => EventKind::LinkStart,
        Event::LinkEnd => EventKind::LinkEnd,
        Event::Image(_, _) => EventKind::Image,
        Event::Rule => EventKind::Rule,
        Event::SoftBreak => EventKind::SoftBreak,
        Event::HardBreak => EventKind::HardBreak,
    }
}

/// The kinds of the events in order, for looking at what a parser produced
/// without rendering anything.
pub fn event_kinds(events: &Vec<Event>) -> (r: Vec<EventKind>)
    ensures
        r@ == events@.map_values(|e: Event| kind_of(e)),
{
    let mut v: Vec<EventKind> = Vec::new();
    let mut i: usize = 0;
    while i < events.len()
        invariant
            i <= events@.len(),
            v@ == events@.take(i as int).map_values(|e: Event| kind_of(e)),
        decreases events@.len() - i,
    {
        v.push(kind(&events[i]));
        i += 1;
        assert(v@ =~= events@.take(i as int).map_values(|e: Event| kind_of(e)));
    }
    assert(events@.take(i as int) =~= events@);
    v
}

} // verus!
