//! Properties of rendering that hold for every document.

use vstd::prelude::*;
use crate::model::{
    Event, FrameV, RState, RenderError, ResourceAccess, block_prefix, close, item_marker, link_lines, plan, restore, run,
    step, style_outs, styles_of, tag_style, token_styles,
};
use crate::model::{LinkV, Tag, dec, frame, link_marker, margin, rule_line, spacing};
use crate::colour::in_palette;
use crate::terminal::{Capability, ESC, OutV, StyleInstruction, chunk, flush};

verus! {

/// The style instructions in effect after `items`: those since the last
/// reset.
pub open spec fn in_effect(items: Seq<OutV>) -> Seq<StyleInstruction>
    decreases items.len(),
{
    if items.len() == 0 {
        Seq::empty()
    } else {
        match items.last() {
            OutV::Style(StyleInstruction::Reset) => Seq::empty(),
            OutV::Style(x) => in_effect(items.drop_last()).push(x),
            OutV::Text(_) => in_effect(items.drop_last()),
        }
    }
}

pub open spec fn has_reset(items: Seq<OutV>) -> bool {
    exists|i: int| 0 <= i < items.len() && items[i] == OutV::Style(StyleInstruction::Reset)
}

pub open spec fn no_reset(s: Seq<StyleInstruction>) -> bool {
    forall|i: int| 0 <= i < s.len() ==> s[i] != StyleInstruction::Reset
}

pub open spec fn all_text(items: Seq<OutV>) -> bool {
    forall|i: int| 0 <= i < items.len() ==> items[i] is Text
}

proof fn lemma_in_effect_append(a: Seq<OutV>, b: Seq<OutV>)
    ensures
        in_effect(a + b) == if has_reset(b) {
            in_effect(b)
        } else {
            in_effect(a) + in_effect(b)
        },
    decreases b.len(),
{
    if b.len() == 0 {
        assert(a + b =~= a);
        assert(in_effect(a) + in_effect(b) =~= in_effect(a));
    } else {
        let b0 = b.drop_last();
        lemma_in_effect_append(a, b0);
        assert((a + b).drop_last() =~= a + b0);
        assert((a + b).last() == b.last());
        if has_reset(b0) {
            let i = choose|i: int| 0 <= i < b0.len() && b0[i] == OutV::Style(StyleInstruction::Reset);
            assert(b[i] == b0[i]);
        }
        if !has_reset(b0) && b.last() != OutV::Style(StyleInstruction::Reset) {
            assert forall|i: int| 0 <= i < b.len() implies b[i] != OutV::Style(StyleInstruction::Reset) by {
                if i < b0.len() {
                    assert(b[i] == b0[i]);
                }
            }
        }
        if b.last() == OutV::Style(StyleInstruction::Reset) {
            assert(b[b.len() - 1] == OutV::Style(StyleInstruction::Reset));
        }
        match b.last() {
            OutV::Style(x) => {
                if x != StyleInstruction::Reset && !has_reset(b0) {
                    assert(in_effect(a) + in_effect(b0).push(x) =~= (in_effect(a) + in_effect(b0)).push(x));
                }
            },
            OutV::Text(_) => {
            },
        }
    }
}

proof fn lemma_style_outs(s: Seq<StyleInstruction>)
    requires
        no_reset(s),
    ensures
        in_effect(style_outs(s)) == s,
        !has_reset(style_outs(s)),
    decreases s.len(),
{
    if s.len() > 0 {
        lemma_style_outs(s.drop_last());
        assert(style_outs(s).drop_last() =~= style_outs(s.drop_last()));
    }
    else {
        assert(in_effect(style_outs(s)) =~= s);
    }
}

proof fn lemma_all_text(items: Seq<OutV>)
    requires
        all_text(items),
    ensures
        in_effect(items) == Seq::<StyleInstruction>::empty(),
        !has_reset(items),
    decreases items.len(),
{
    if items.len() > 0 {
        assert(all_text(items.drop_last()));
        lemma_all_text(items.drop_last());
        assert(items.last() is Text);
    }
}

proof fn lemma_link_lines_text(links: Seq<crate::model::LinkV>)
    ensures
        all_text(link_lines(links)),
    decreases links.len(),
{
    if links.len() > 0 {
        lemma_link_lines_text(links.drop_last());
    }
}

proof fn lemma_styles_of_no_reset(stack: Seq<FrameV>)
    ensures
        no_reset(styles_of(stack)),
    decreases stack.len(),
{
    if stack.len() > 0 {
        lemma_styles_of_no_reset(stack.drop_last());
        let t = stack.last().tag;
        assert(no_reset(tag_style(t)));
    }
}

proof fn lemma_restore(stack: Seq<FrameV>)
    ensures
        in_effect(restore(stack)) == styles_of(stack),
        has_reset(restore(stack)),
{
    lemma_styles_of_no_reset(stack);
    lemma_style_outs(styles_of(stack));
    let r = seq![OutV::Style(StyleInstruction::Reset)];
    lemma_in_effect_append(r, style_outs(styles_of(stack)));
    assert(in_effect(r) == Seq::<StyleInstruction>::empty()) by {
        assert(r.drop_last() =~= Seq::<OutV>::empty());
    }
    assert(Seq::<StyleInstruction>::empty() + styles_of(stack) =~= styles_of(stack));
    assert(restore(stack)[0] == OutV::Style(StyleInstruction::Reset));
}

/// After `restore(stack)` followed by text only, the styles of `stack` are
/// in effect.
proof fn lemma_restore_then_text(items: Seq<OutV>, stack: Seq<FrameV>, texts: Seq<OutV>)
    requires
        all_text(texts),
    ensures
        in_effect(items + (restore(stack) + texts)) == styles_of(stack),
{
    lemma_restore(stack);
    lemma_all_text(texts);
    lemma_in_effect_append(restore(stack), texts);
    assert(styles_of(stack) + Seq::<StyleInstruction>::empty() =~= styles_of(stack));
    assert(has_reset(restore(stack) + texts)) by {
        let i = choose|i: int| 0 <= i < restore(stack).len() && restore(stack)[i] == OutV::Style(StyleInstruction::Reset);
        assert((restore(stack) + texts)[i] == restore(stack)[i]);
    }
    lemma_in_effect_append(items, restore(stack) + texts);
}

proof fn lemma_step_styles(s: RState, ev: Event, policy: ResourceAccess, width: nat, items: Seq<OutV>)
    requires
        in_effect(items) == styles_of(s.stack),
        step(s, ev, policy, width) is Ok,
    ensures
        ({
            let (s2, more) = step(s, ev, policy, width)->Ok_0;
            in_effect(items + more) == styles_of(s2.stack)
        }),
{
    let (s2, more) = step(s, ev, policy, width)->Ok_0;
    match ev {
        Event::StartBlock(k) => {
            let (pre, st) = block_prefix(s.stack, k);
            let t = crate::model::Tag::Block(k);
            if s.stack.len() > 0 {
                assert(item_marker(s.stack).1.drop_last() =~= s.stack.drop_last());
            }
            assert(styles_of(st) == styles_of(s.stack));
            assert(s2.stack.drop_last() =~= st);
            lemma_styles_of_no_reset(s2.stack);
            assert(no_reset(tag_style(t)));
            lemma_style_outs(tag_style(t));
            let tx = seq![OutV::Text(pre)];
            assert(all_text(tx));
            lemma_all_text(tx);
            lemma_in_effect_append(tx, style_outs(tag_style(t)));
            assert(Seq::<StyleInstruction>::empty() + tag_style(t) =~= tag_style(t));
            lemma_in_effect_append(items, more);
        },
        Event::EndBlock(k) => {
            let s3 = close(s, crate::model::Tag::Block(k))->Ok_0;
            let sp = seq![OutV::Text(crate::model::spacing(k))];
            if s3.stack.len() == 0 {
                lemma_link_lines_text(s3.links);
                let tx = sp + link_lines(s3.links);
                assert(all_text(tx));
                assert(more =~= restore(s3.stack) + tx);
                lemma_restore_then_text(items, s3.stack, tx);
            } else {
                assert(all_text(sp));
                assert(more =~= restore(s3.stack) + sp);
                lemma_restore_then_text(items, s3.stack, sp);
            }
        },
        Event::Code(tok) => {
            let q = crate::colour::quantize_spec(tok.colour, tok.font)->Ok_0;
            let head = style_outs(token_styles(q)) + seq![OutV::Text(tok.text@)];
            assert(more =~= head + restore(s.stack));
            assert(items + more =~= (items + head) + (restore(s.stack) + Seq::<OutV>::empty()));
            lemma_restore_then_text(items + head, s.stack, Seq::<OutV>::empty());
        },
        Event::StartInline(_) | Event::LinkStart(_) => {
            let t = s2.stack.last().tag;
            assert(s2.stack.drop_last() =~= s.stack);
            assert(no_reset(tag_style(t)));
            lemma_style_outs(tag_style(t));
            lemma_in_effect_append(items, more);
        },
        Event::EndInline(k) => {
            assert(more =~= restore(s2.stack) + Seq::<OutV>::empty());
            lemma_restore_then_text(items, s2.stack, Seq::<OutV>::empty());
        },
        Event::LinkEnd => {
            let tx = seq![OutV::Text(crate::model::link_marker(s2.count))];
            assert(all_text(tx));
            assert(more =~= restore(s2.stack) + tx);
            lemma_restore_then_text(items, s2.stack, tx);
        },
        _ => {
            assert(all_text(more));
            lemma_all_text(more);
            lemma_in_effect_append(items, more);
            assert(in_effect(items) + Seq::<StyleInstruction>::empty() =~= in_effect(items));
        },
    }
}

/// Styles never leak: after every event that a render accepts, the styles in
/// effect on the terminal are exactly those of the contexts still open.
/// Whenever a styled context closes, a reset is written before anything
/// else; with no context open, no style is in effect.
pub proof fn lemma_styles_never_leak(events: Seq<Event>, policy: ResourceAccess, width: nat)
    requires
        run(events, policy, width) is Ok,
    ensures
        in_effect(run(events, policy, width)->Ok_0.1) == styles_of(
            run(events, policy, width)->Ok_0.0.stack,
        ),
    decreases events.len(),
{
    if events.len() == 0 {
        assert(in_effect(Seq::<OutV>::empty()) =~= styles_of(Seq::<FrameV>::empty()));
    } else {
        lemma_styles_never_leak(events.drop_last(), policy, width);
        let (s, items) = run(events.drop_last(), policy, width)->Ok_0;
        lemma_step_styles(s, events.last(), policy, width, items);
    }
}

/// The open contexts after `events`, or `None` if an end does not match the
/// innermost open start.
pub open spec fn nest(events: Seq<Event>) -> Option<Seq<Tag>>
    decreases events.len(),
{
    if events.len() == 0 {
        Some(Seq::empty())
    } else {
        match nest(events.drop_last()) {
            None => None,
            Some(st) => match events.last() {
                Event::StartBlock(k) => Some(st.push(Tag::Block(k))),
                Event::StartInline(k) => Some(st.push(Tag::Inline(k))),
                Event::LinkStart(_) => Some(st.push(Tag::Link)),
                Event::EndBlock(k) => if st.len() > 0 && st.last() == Tag::Block(k) {
                    Some(st.drop_last())
                } else {
                    None
                },
                Event::EndInline(k) => if st.len() > 0 && st.last() == Tag::Inline(k) {
                    Some(st.drop_last())
                } else {
                    None
                },
                Event::LinkEnd => if st.len() > 0 && st.last() == Tag::Link {
                    Some(st.drop_last())
                } else {
                    None
                },
                _ => Some(st),
            },
        }
    }
}

/// Every start is matched by exactly one end, innermost first.
pub open spec fn well_formed(events: Seq<Event>) -> bool {
    nest(events) == Some(Seq::<Tag>::empty())
}

/// Every highlighted token has a colour of the palette.
pub open spec fn colours_known(events: Seq<Event>) -> bool {
    forall|i: int| 0 <= i < events.len() && (#[trigger] events[i]) is Code ==> in_palette(
        events[i]->Code_0.colour,
    )
}

pub open spec fn tags(stack: Seq<FrameV>) -> Seq<Tag> {
    stack.map_values(|f: FrameV| f.tag)
}

proof fn lemma_structure(events: Seq<Event>, policy: ResourceAccess, width: nat)
    requires
        nest(events) is Some,
    ensures
        colours_known(events) ==> run(events, policy, width) is Ok,
        run(events, policy, width) is Ok ==> tags(run(events, policy, width)->Ok_0.0.stack) == nest(
            events,
        )->Some_0,
        run(events, policy, width) is Err ==> run(events, policy, width)->Err_0.1 is Quantization,
    decreases events.len(),
{
    if events.len() > 0 {
        let e0 = events.drop_last();
        if colours_known(events) {
            assert(colours_known(e0)) by {
                assert forall|i: int| 0 <= i < e0.len() && (#[trigger] e0[i]) is Code implies in_palette(
                    e0[i]->Code_0.colour,
                ) by {
                    assert(e0[i] == events[i]);
                }
            }
        }
        lemma_structure(e0, policy, width);
        if run(e0, policy, width) is Err {
            return;
        }
        let (s, items) = run(e0, policy, width)->Ok_0;
        let st = nest(e0)->Some_0;
        let ev = events.last();
        assert(ev == events[events.len() - 1]);
        match ev {
            Event::StartBlock(k) => {
                let (pre, st2) = block_prefix(s.stack, k);
                if s.stack.len() > 0 {
                    assert(tags(item_marker(s.stack).1) =~= tags(s.stack));
                }
                assert(tags(st2) == tags(s.stack));
                assert(tags(st2.push(frame(Tag::Block(k), Seq::empty(), 0))) =~= tags(st2).push(Tag::Block(k)));
                let n: u64 = match k {
                    crate::model::BlockKind::OrderedList(m) => m,
                    _ => 0,
                };
                assert(tags(st2.push(frame(Tag::Block(k), Seq::empty(), n))) =~= tags(st2).push(Tag::Block(k)));
            },
            Event::EndBlock(_) | Event::EndInline(_) | Event::LinkEnd => {
                assert(tags(s.stack).last() == s.stack.last().tag);
                assert(tags(s.stack.drop_last()) =~= tags(s.stack).drop_last());
            },
            Event::StartInline(k) => {
                assert(tags(s.stack.push(frame(Tag::Inline(k), Seq::empty(), 0))) =~= st.push(Tag::Inline(k)));
            },
            Event::LinkStart(u) => {
                assert(tags(s.stack.push(frame(Tag::Link, u@, 0))) =~= st.push(Tag::Link));
            },
            _ => {},
        }
    }
}

/// A well-formed document whose highlighted tokens all have known colours
/// renders without error, and leaves no style in effect at its end.
pub proof fn lemma_well_formed_renders(events: Seq<Event>, policy: ResourceAccess, width: nat)
    requires
        well_formed(events),
        colours_known(events),
    ensures
        plan(events, policy, width).1 is Ok,
        in_effect(plan(events, policy, width).0) == Seq::<StyleInstruction>::empty(),
{
    lemma_structure(events, policy, width);
    let (s, items) = run(events, policy, width)->Ok_0;
    assert(s.stack.len() == tags(s.stack).len());
    assert(s.stack =~= Seq::<FrameV>::empty());
    lemma_styles_never_leak(events, policy, width);
    lemma_link_lines_text(s.links);
    lemma_all_text(link_lines(s.links));
    lemma_in_effect_append(items, link_lines(s.links));
    assert(in_effect(items) + Seq::<StyleInstruction>::empty() =~= in_effect(items));
}

/// A start that is never ended fails the render. If every event was
/// accepted, the pending link references are listed when the events run
/// out, then the render fails with a structural inconsistency and writes
/// nothing more. Otherwise it has already stopped, with nothing written
/// after the output of the events before, at a highlighted token whose
/// colour is off the palette.
pub proof fn lemma_unclosed_start_fails(events: Seq<Event>, policy: ResourceAccess, width: nat)
    requires
        nest(events) is Some,
        nest(events)->Some_0.len() > 0,
    ensures
        colours_known(events) ==> run(events, policy, width) is Ok,
        run(events, policy, width) is Ok ==> plan(events, policy, width) == (
            run(events, policy, width)->Ok_0.1 + link_lines(run(events, policy, width)->Ok_0.0.links),
            Err::<Seq<Seq<u8>>, RenderError>(RenderError::StructuralInconsistency),
        ),
        run(events, policy, width) is Err ==> plan(events, policy, width) == (
            run(events, policy, width)->Err_0.0,
            Err::<Seq<Seq<u8>>, RenderError>(run(events, policy, width)->Err_0.1),
        ) && run(events, policy, width)->Err_0.1 is Quantization,
{
    lemma_structure(events, policy, width);
    if run(events, policy, width) is Ok {
        let (s, items) = run(events, policy, width)->Ok_0;
        assert(s.stack.len() == tags(s.stack).len());
    }
}

/// Bytes free of the escape character that starts every control sequence.
pub open spec fn no_escape(b: Seq<u8>) -> bool {
    forall|i: int| 0 <= i < b.len() ==> b[i] != ESC
}

pub open spec fn event_no_escape(e: Event) -> bool {
    match e {
        Event::Text(t) => no_escape(t@),
        Event::Code(tok) => no_escape(tok.text@),
        Event::LinkStart(u) => no_escape(u@),
        Event::Image(u, a) => no_escape(u@) && no_escape(a@),
        _ => true,
    }
}

pub open spec fn texts_no_escape(items: Seq<OutV>) -> bool {
    forall|i: int| 0 <= i < items.len() && (#[trigger] items[i]) is Text ==> no_escape(
        items[i]->Text_0,
    )
}

pub open spec fn state_no_escape(s: RState) -> bool {
    &&& forall|i: int| 0 <= i < s.stack.len() ==> no_escape(#[trigger] s.stack[i].url)
    &&& forall|i: int| 0 <= i < s.links.len() ==> no_escape(#[trigger] s.links[i].url)
}

proof fn lemma_dec_no_escape(n: nat)
    ensures
        no_escape(dec(n)),
    decreases n,
{
    if n >= 10 {
        lemma_dec_no_escape(n / 10);
    }
}

proof fn lemma_margin_no_escape(stack: Seq<FrameV>)
    ensures
        no_escape(margin(stack)),
    decreases stack.len(),
{
    if stack.len() > 0 {
        lemma_margin_no_escape(stack.drop_last());
    }
}

proof fn lemma_concat_no_escape(a: Seq<u8>, b: Seq<u8>)
    requires
        no_escape(a),
        no_escape(b),
    ensures
        no_escape(a + b),
{
    assert forall|i: int| 0 <= i < (a + b).len() implies (a + b)[i] != ESC by {
        if i >= a.len() {
            assert((a + b)[i] == b[i - a.len()]);
        }
    }
}

proof fn lemma_link_lines_no_escape(links: Seq<LinkV>)
    requires
        forall|i: int| 0 <= i < links.len() ==> no_escape(#[trigger] links[i].url),
    ensures
        texts_no_escape(link_lines(links)),
    decreases links.len(),
{
    if links.len() > 0 {
        let l = links.last();
        assert(no_escape(links[links.len() - 1].url));
        lemma_link_lines_no_escape(links.drop_last());
        lemma_dec_no_escape(l.index as nat);
        lemma_concat_no_escape(seq![0x5bu8], dec(l.index as nat));
        lemma_concat_no_escape(seq![0x5bu8] + dec(l.index as nat), seq![0x5du8, 0x3au8, 0x20u8]);
        lemma_concat_no_escape(seq![0x5bu8] + dec(l.index as nat) + seq![0x5du8, 0x3au8, 0x20u8], l.url);
        lemma_concat_no_escape(seq![0x5bu8] + dec(l.index as nat) + seq![0x5du8, 0x3au8, 0x20u8] + l.url, seq![0x0au8]);
        let ll = link_lines(links);
        assert(ll.drop_last() == link_lines(links.drop_last()));
        assert forall|i: int| 0 <= i < ll.len() && (#[trigger] ll[i]) is Text implies no_escape(ll[i]->Text_0) by {
            if i < ll.len() - 1 {
                assert(ll[i] == link_lines(links.drop_last())[i]);
            }
        }
    }
}

proof fn lemma_texts_append(a: Seq<OutV>, b: Seq<OutV>)
    requires
        texts_no_escape(a),
        texts_no_escape(b),
    ensures
        texts_no_escape(a + b),
{
    assert forall|i: int| 0 <= i < (a + b).len() && (#[trigger] (a + b)[i]) is Text implies no_escape((a + b)[i]->Text_0) by {
        if i >= a.len() {
            assert((a + b)[i] == b[i - a.len()]);
        } else {
            assert((a + b)[i] == a[i]);
        }
    }
}

proof fn lemma_restore_no_escape(stack: Seq<FrameV>)
    ensures
        texts_no_escape(restore(stack)),
{
}

proof fn lemma_step_no_escape(s: RState, ev: Event, policy: ResourceAccess, width: nat)
    requires
        state_no_escape(s),
        event_no_escape(ev),
        step(s, ev, policy, width) is Ok,
    ensures
        state_no_escape(step(s, ev, policy, width)->Ok_0.0),
        texts_no_escape(step(s, ev, policy, width)->Ok_0.1),
{
    let (s2, more) = step(s, ev, policy, width)->Ok_0;
    match ev {
        Event::StartBlock(k) => {
            let (pre, st) = block_prefix(s.stack, k);
            lemma_margin_no_escape(s.stack);
            if s.stack.len() > 0 {
                lemma_margin_no_escape(s.stack.drop_last());
                lemma_dec_no_escape(s.stack.last().next as nat);
                let m = item_marker(s.stack).0;
                assert(no_escape(m)) by {
                    if s.stack.last().tag is Block && s.stack.last().tag->Block_0 is OrderedList {
                        lemma_concat_no_escape(dec(s.stack.last().next as nat), seq![0x2eu8, 0x20u8]);
                    }
                }
                lemma_concat_no_escape(margin(s.stack.drop_last()), m);
                assert(s.stack.last() == s.stack[s.stack.len() - 1]);
                assert forall|i: int| 0 <= i < item_marker(s.stack).1.len() implies no_escape(#[trigger] item_marker(s.stack).1[i].url) by {
                    assert(item_marker(s.stack).1[i].url == s.stack[i].url);
                }
            } else {
                lemma_concat_no_escape(Seq::empty(), item_marker(s.stack).0);
            }
            assert(no_escape(pre));
            assert forall|i: int| 0 <= i < s2.stack.len() implies no_escape(#[trigger] s2.stack[i].url) by {
                if i < st.len() {
                    assert(s2.stack[i] == st[i]);
                }
            }
        },
        Event::EndBlock(k) => {
            let s3 = close(s, Tag::Block(k))->Ok_0;
            lemma_restore_no_escape(s3.stack);
            let sp = seq![OutV::Text(spacing(k))];
            lemma_texts_append(restore(s3.stack), sp);
            if s3.stack.len() == 0 {
                lemma_link_lines_no_escape(s3.links);
                lemma_texts_append(restore(s3.stack) + sp, link_lines(s3.links));
            }
            assert forall|i: int| 0 <= i < s2.stack.len() implies no_escape(#[trigger] s2.stack[i].url) by {
                assert(s2.stack[i] == s.stack[i]);
            }
        },
        Event::Code(tok) => {
            let q = crate::colour::quantize_spec(tok.colour, tok.font)->Ok_0;
            let a = style_outs(token_styles(q));
            assert(texts_no_escape(a));
            lemma_texts_append(a, seq![OutV::Text(tok.text@)]);
            lemma_restore_no_escape(s.stack);
            lemma_texts_append(a + seq![OutV::Text(tok.text@)], restore(s.stack));
        },
        Event::StartInline(_) | Event::LinkStart(_) => {
            assert forall|i: int| 0 <= i < s2.stack.len() implies no_escape(#[trigger] s2.stack[i].url) by {
                if i < s.stack.len() {
                    assert(s2.stack[i] == s.stack[i]);
                }
            }
        },
        Event::EndInline(k) => {
            lemma_restore_no_escape(s2.stack);
            assert forall|i: int| 0 <= i < s2.stack.len() implies no_escape(#[trigger] s2.stack[i].url) by {
                assert(s2.stack[i] == s.stack[i]);
            }
        },
        Event::LinkEnd => {
            lemma_restore_no_escape(s2.stack);
            lemma_dec_no_escape(s2.count as nat);
            lemma_concat_no_escape(seq![0x5bu8], dec(s2.count as nat));
            lemma_concat_no_escape(seq![0x5bu8] + dec(s2.count as nat), seq![0x5du8]);
            lemma_texts_append(restore(s2.stack), seq![OutV::Text(link_marker(s2.count))]);
            assert(s.stack.last() == s.stack[s.stack.len() - 1]);
            assert forall|i: int| 0 <= i < s2.stack.len() implies no_escape(#[trigger] s2.stack[i].url) by {
                assert(s2.stack[i] == s.stack[i]);
            }
            assert forall|i: int| 0 <= i < s2.links.len() implies no_escape(#[trigger] s2.links[i].url) by {
                if i < s.links.len() {
                    assert(s2.links[i] == s.links[i]);
                }
            }
        },
        Event::Rule => {
            assert(no_escape(rule_line(width))) by {
                lemma_concat_no_escape(Seq::new(width, |i: int| 0x2du8), seq![0x0au8, 0x0au8]);
            }
        },
        _ => {},
    }
}

proof fn lemma_run_no_escape(events: Seq<Event>, policy: ResourceAccess, width: nat)
    requires
        forall|i: int| 0 <= i < events.len() ==> event_no_escape(#[trigger] events[i]),
        run(events, policy, width) is Ok,
    ensures
        state_no_escape(run(events, policy, width)->Ok_0.0),
        texts_no_escape(run(events, policy, width)->Ok_0.1),
    decreases events.len(),
{
    if events.len() > 0 {
        let e0 = events.drop_last();
        assert forall|i: int| 0 <= i < e0.len() implies event_no_escape(#[trigger] e0[i]) by {
            assert(e0[i] == events[i]);
        }
        lemma_run_no_escape(e0, policy, width);
        let (s, items) = run(e0, policy, width)->Ok_0;
        assert(event_no_escape(events[events.len() - 1]));
        lemma_step_no_escape(s, events.last(), policy, width);
        lemma_texts_append(items, step(s, events.last(), policy, width)->Ok_0.1);
    }
}

proof fn lemma_flush_plain(limit: nat, buf: Seq<u8>, items: Seq<OutV>)
    requires
        no_escape(buf),
        texts_no_escape(items),
    ensures
        no_escape(flush(Capability::Plain, limit, buf, items).0),
    decreases items.len(),
{
    if items.len() > 0 {
        let c = chunk(Capability::Plain, items[0]);
        assert(no_escape(c));
        lemma_concat_no_escape(buf, c);
        assert forall|i: int| 0 <= i < items.drop_first().len() && (#[trigger] items.drop_first()[i]) is Text implies no_escape(items.drop_first()[i]->Text_0) by {
            assert(items.drop_first()[i] == items[i + 1]);
        }
        lemma_flush_plain(limit, buf + c, items.drop_first());
    }
}

/// On a plain terminal, a well-formed document renders without error and
/// writes no control sequence: if neither the terminal's earlier output nor
/// the document's text holds an escape character, the output holds none.
pub proof fn lemma_plain_output_has_no_escape(
    events: Seq<Event>,
    policy: ResourceAccess,
    width: nat,
    limit: nat,
    buf: Seq<u8>,
)
    requires
        well_formed(events),
        colours_known(events),
        forall|i: int| 0 <= i < events.len() ==> event_no_escape(#[trigger] events[i]),
        no_escape(buf),
    ensures
        plan(events, policy, width).1 is Ok,
        no_escape(flush(Capability::Plain, limit, buf, plan(events, policy, width).0).0),
{
    lemma_well_formed_renders(events, policy, width);
    lemma_run_no_escape(events, policy, width);
    let (s, items) = run(events, policy, width)->Ok_0;
    lemma_link_lines_no_escape(s.links);
    lemma_texts_append(items, link_lines(s.links));
    lemma_flush_plain(limit, buf, plan(events, policy, width).0);
}

proof fn lemma_run_keeps_text(events: Seq<Event>, policy: ResourceAccess, width: nat)
    requires
        run(events, policy, width) is Ok,
    ensures
        forall|i: int|
            0 <= i < events.len() && (#[trigger] events[i]) is Text ==> run(
                events,
                policy,
                width,
            )->Ok_0.1.contains(OutV::Text(events[i]->Text_0@)),
    decreases events.len(),
{
    if events.len() > 0 {
        let e0 = events.drop_last();
        lemma_run_keeps_text(e0, policy, width);
        let (s, items) = run(e0, policy, width)->Ok_0;
        let more = step(s, events.last(), policy, width)->Ok_0.1;
        let all = items + more;
        assert forall|i: int|
            0 <= i < events.len() && (#[trigger] events[i]) is Text implies all.contains(
            OutV::Text(events[i]->Text_0@)) by {
            let x = OutV::Text(events[i]->Text_0@);
            if i < e0.len() {
                assert(e0[i] == events[i]);
                let j = choose|j: int| 0 <= j < items.len() && items[j] == x;
                assert(all[j] == x);
            } else {
                assert(more[0] == x);
                assert(all[items.len() as int] == x);
            }
        }
    }
}

/// Text is written as it is: when a render goes through, the bytes of every
/// text event are written as one unit, unchanged.
pub proof fn lemma_text_written_unchanged(events: Seq<Event>, policy: ResourceAccess, width: nat)
    requires
        plan(events, policy, width).1 is Ok,
    ensures
        forall|i: int|
            0 <= i < events.len() && (#[trigger] events[i]) is Text ==> plan(
                events,
                policy,
                width,
            ).0.contains(OutV::Text(events[i]->Text_0@)),
{
    lemma_run_keeps_text(events, policy, width);
    let (s, items) = run(events, policy, width)->Ok_0;
    let all = plan(events, policy, width).0;
    assert(all == items + link_lines(s.links));
    assert forall|i: int|
        0 <= i < events.len() && (#[trigger] events[i]) is Text implies all.contains(
        OutV::Text(events[i]->Text_0@)) by {
        let x = OutV::Text(events[i]->Text_0@);
        let j = choose|j: int| 0 <= j < items.len() && items[j] == x;
        assert(all[j] == x);
    }
}

/// The texts of the text and code events, in order.
pub open spec fn event_texts(events: Seq<Event>) -> Seq<Seq<u8>>
    decreases events.len(),
{
    if events.len() == 0 {
        Seq::empty()
    } else {
        match events.last() {
            Event::Text(t) => event_texts(events.drop_last()).push(t@),
            Event::Code(tok) => event_texts(events.drop_last()).push(tok.text@),
            _ => event_texts(events.drop_last()),
        }
    }
}

/// The texts among units of output, in order.
pub open spec fn written_texts(items: Seq<OutV>) -> Seq<Seq<u8>>
    decreases items.len(),
{
    if items.len() == 0 {
        Seq::empty()
    } else {
        match items.last() {
            OutV::Text(t) => written_texts(items.drop_last()).push(t),
            OutV::Style(_) => written_texts(items.drop_last()),
        }
    }
}

/// Whether `a` is `b` with some elements left out, the rest kept in order.
pub open spec fn is_subseq(a: Seq<Seq<u8>>, b: Seq<Seq<u8>>) -> bool
    decreases b.len(),
{
    if a.len() == 0 {
        true
    } else if b.len() == 0 {
        false
    } else if a.last() == b.last() {
        is_subseq(a.drop_last(), b.drop_last())
    } else {
        is_subseq(a, b.drop_last())
    }
}

/// The bytes of a sequence of texts, one after another.
pub open spec fn concat(ts: Seq<Seq<u8>>) -> Seq<u8>
    decreases ts.len(),
{
    if ts.len() == 0 {
        Seq::empty()
    } else {
        concat(ts.drop_last()) + ts.last()
    }
}

proof fn lemma_written_append(a: Seq<OutV>, b: Seq<OutV>)
    ensures
        written_texts(a + b) == written_texts(a) + written_texts(b),
    decreases b.len(),
{
    if b.len() == 0 {
        assert(a + b =~= a);
        assert(written_texts(a) + written_texts(b) =~= written_texts(a));
    } else {
        lemma_written_append(a, b.drop_last());
        assert((a + b).drop_last() =~= a + b.drop_last());
        match b.last() {
            OutV::Text(t) => {
                assert(written_texts(a) + written_texts(b.drop_last()).push(t) =~= (written_texts(a)
                    + written_texts(b.drop_last())).push(t));
            },
            OutV::Style(_) => {},
        }
    }
}

proof fn lemma_written_single(x: OutV)
    ensures
        written_texts(seq![x]) == match x {
            OutV::Text(t) => seq![t],
            OutV::Style(_) => Seq::<Seq<u8>>::empty(),
        },
{
    let one = seq![x];
    assert(one.drop_last() =~= Seq::<OutV>::empty());
    assert(one.last() == x);
    assert(written_texts(one.drop_last()) == Seq::<Seq<u8>>::empty());
    match x {
        OutV::Text(t) => {
            assert(Seq::<Seq<u8>>::empty().push(t) =~= seq![t]);
        },
        OutV::Style(_) => {},
    }
}

proof fn lemma_concat_single(t: Seq<u8>)
    ensures
        concat(seq![t]) == t,
{
    let one = seq![t];
    assert(one.drop_last() =~= Seq::<Seq<u8>>::empty());
    assert(concat(one.drop_last()) == Seq::<u8>::empty());
    assert(Seq::<u8>::empty() + t =~= t);
}

proof fn lemma_concat_append(a: Seq<Seq<u8>>, b: Seq<Seq<u8>>)
    ensures
        concat(a + b) == concat(a) + concat(b),
    decreases b.len(),
{
    if b.len() == 0 {
        assert(a + b =~= a);
        assert(concat(a) + concat(b) =~= concat(a));
    } else {
        lemma_concat_append(a, b.drop_last());
        assert((a + b).drop_last() =~= a + b.drop_last());
        assert(concat(a) + (concat(b.drop_last()) + b.last()) =~= (concat(a) + concat(b.drop_last()))
            + b.last());
    }
}

proof fn lemma_style_outs_written(x: Seq<StyleInstruction>)
    ensures
        written_texts(style_outs(x)) == Seq::<Seq<u8>>::empty(),
    decreases x.len(),
{
    if x.len() > 0 {
        lemma_style_outs_written(x.drop_last());
        assert(style_outs(x).drop_last() =~= style_outs(x.drop_last()));
    }
}

proof fn lemma_subseq_push(a: Seq<Seq<u8>>, b: Seq<Seq<u8>>, y: Seq<u8>)
    requires
        is_subseq(a, b),
    ensures
        is_subseq(a, b.push(y)),
    decreases 2 * b.len() + 1,
{
    assert(b.push(y).drop_last() =~= b);
    if a.len() > 0 && a.last() == y {
        lemma_subseq_drop(a, b);
    }
}

proof fn lemma_subseq_drop(a: Seq<Seq<u8>>, b: Seq<Seq<u8>>)
    requires
        a.len() > 0,
        is_subseq(a, b),
    ensures
        is_subseq(a.drop_last(), b),
    decreases 2 * b.len(),
{
    let b0 = b.drop_last();
    assert(b0.push(b.last()) =~= b);
    if a.last() == b.last() {
        lemma_subseq_push(a.drop_last(), b0, b.last());
    } else {
        lemma_subseq_drop(a, b0);
        lemma_subseq_push(a.drop_last(), b0, b.last());
    }
}

proof fn lemma_subseq_extend(a: Seq<Seq<u8>>, b: Seq<Seq<u8>>, c: Seq<Seq<u8>>)
    requires
        is_subseq(a, b),
    ensures
        is_subseq(a, b + c),
    decreases c.len(),
{
    if c.len() > 0 {
        lemma_subseq_extend(a, b, c.drop_last());
        lemma_subseq_push(a, b + c.drop_last(), c.last());
        assert((b + c.drop_last()).push(c.last()) =~= b + c);
    } else {
        assert(b + c =~= b);
    }
}

proof fn lemma_run_texts_in_order(events: Seq<Event>, policy: ResourceAccess, width: nat)
    requires
        run(events, policy, width) is Ok,
    ensures
        is_subseq(event_texts(events), written_texts(run(events, policy, width)->Ok_0.1)),
    decreases events.len(),
{
    if events.len() > 0 {
        let e0 = events.drop_last();
        lemma_run_texts_in_order(e0, policy, width);
        let (s, items) = run(e0, policy, width)->Ok_0;
        let more = step(s, events.last(), policy, width)->Ok_0.1;
        lemma_written_append(items, more);
        let w0 = written_texts(items);
        match events.last() {
            Event::Text(t) => {
                assert(more =~= seq![OutV::Text(t@)]);
                lemma_written_single(OutV::Text(t@));
                assert(w0 + seq![t@] =~= w0.push(t@));
                assert(w0.push(t@).drop_last() =~= w0);
                assert(event_texts(e0).push(t@).drop_last() =~= event_texts(e0));
            },
            Event::Code(tok) => {
                let q = crate::colour::quantize_spec(tok.colour, tok.font)->Ok_0;
                let a = style_outs(token_styles(q));
                let tx = seq![OutV::Text(tok.text@)];
                assert(more =~= (a + tx) + restore(s.stack));
                lemma_style_outs_written(token_styles(q));
                lemma_style_outs_written(styles_of(s.stack));
                lemma_written_append(a, tx);
                lemma_written_single(OutV::Text(tok.text@));
                let r0 = seq![OutV::Style(StyleInstruction::Reset)];
                lemma_written_append(r0, style_outs(styles_of(s.stack)));
                lemma_written_single(OutV::Style(StyleInstruction::Reset));
                lemma_written_append(a + tx, restore(s.stack));
                assert(written_texts(more) =~= seq![tok.text@]);
                assert(w0 + seq![tok.text@] =~= w0.push(tok.text@));
                assert(w0.push(tok.text@).drop_last() =~= w0);
                assert(event_texts(e0).push(tok.text@).drop_last() =~= event_texts(e0));
            },
            _ => {
                lemma_subseq_extend(event_texts(e0), w0, written_texts(more));
            },
        }
    }
}

proof fn lemma_flush_plain_bytes(limit: nat, buf: Seq<u8>, items: Seq<OutV>)
    requires
        flush(Capability::Plain, limit, buf, items).1,
    ensures
        flush(Capability::Plain, limit, buf, items).0 == buf + concat(written_texts(items)),
    decreases items.len(),
{
    if items.len() == 0 {
        assert(buf + concat(written_texts(items)) =~= buf);
    } else {
        let c = chunk(Capability::Plain, items[0]);
        let rest = items.drop_first();
        let first = seq![items[0]];
        lemma_flush_plain_bytes(limit, buf + c, rest);
        assert(items =~= first + rest);
        lemma_written_append(first, rest);
        lemma_concat_append(written_texts(first), written_texts(rest));
        lemma_written_single(items[0]);
        match items[0] {
            OutV::Text(t) => {
                lemma_concat_single(t);
            },
            OutV::Style(_) => {
                assert(concat(written_texts(first)) =~= Seq::<u8>::empty());
            },
        }
        assert(buf + c + concat(written_texts(rest)) =~= buf + (c + concat(written_texts(rest))));
    }
}

/// Text is written in order: when a render goes through, the texts of the
/// text and code events appear among the written texts in the order of the
/// events. On a plain terminal whose writes all succeed, what is written is
/// exactly those written texts, one after another.
pub proof fn lemma_texts_written_in_order(
    events: Seq<Event>,
    policy: ResourceAccess,
    width: nat,
    limit: nat,
    buf: Seq<u8>,
)
    requires
        plan(events, policy, width).1 is Ok,
    ensures
        is_subseq(event_texts(events), written_texts(plan(events, policy, width).0)),
        flush(Capability::Plain, limit, buf, plan(events, policy, width).0).1 ==> flush(
            Capability::Plain,
            limit,
            buf,
            plan(events, policy, width).0,
        ).0 == buf + concat(written_texts(plan(events, policy, width).0)),
{
    lemma_run_texts_in_order(events, policy, width);
    let (s, items) = run(events, policy, width)->Ok_0;
    lemma_written_append(items, link_lines(s.links));
    lemma_subseq_extend(event_texts(events), written_texts(items), written_texts(link_lines(s.links)));
    if flush(Capability::Plain, limit, buf, plan(events, policy, width).0).1 {
        lemma_flush_plain_bytes(limit, buf, plan(events, policy, width).0);
    }
}

} // verus!
