//! Writing syntax-highlighted regions as 8-colour ANSI text.

use vstd::prelude::*;
use crate::engine::token_items;
use crate::colour::{quantize, QuantizationError, Quantized, quantize_spec};
use crate::model::{RenderError, Token, style_outs, token_styles};
use crate::terminal::{flush, outs_view, Out, OutV, StyleInstruction, Terminal, WriteError};

verus! {

/// What one region writes: its styles, its text, and a reset.
pub open spec fn region_outs(q: Quantized, text: Seq<u8>) -> Seq<OutV> {
    style_outs(token_styles(q)) + seq![OutV::Text(text), OutV::Style(StyleInstruction::Reset)]
}

/// What the regions write, up to the first whose colour is off the palette,
/// and that region's error.
pub open spec fn regions_plan(regions: Seq<Token>) -> (Seq<OutV>, Option<QuantizationError>)
    decreases regions.len(),
{
    if regions.len() == 0 {
        (Seq::empty(), None)
    } else {
        let (items, err) = regions_plan(regions.drop_last());
        if err is Some {
            (items, err)
        } else {
            let t = regions.last();
            match quantize_spec(t.colour, t.font) {
                Err(e) => (items, Some(e)),
                Ok(q) => (items + region_outs(q, t.text@), None),
            }
        }
    }
}

proof fn lemma_regions_err_persists(regions: Seq<Token>, n: int, m: int)
    requires
        0 <= n <= m <= regions.len(),
        regions_plan(regions.take(n)).1 is Some,
    ensures
        regions_plan(regions.take(m)) == regions_plan(regions.take(n)),
    decreases m - n,
{
    if m > n {
        lemma_regions_err_persists(regions, n, m - 1);
        assert(regions.take(m).drop_last() =~= regions.take(m - 1));
    }
}

fn push_item(v: &mut Vec<Out>, o: Out)
    ensures
        outs_view(final(v)@) == outs_view(old(v)@).push(o@),
{
    v.push(o);
    assert(outs_view(v@) =~= outs_view(old(v)@).push(o@));
}

fn region_items(q: Quantized, text: &Vec<u8>) -> (r: Vec<Out>)
    ensures
        outs_view(r@) == region_outs(q, text@),
{
    let mut items = token_items(q, text);
    push_item(&mut items, Out::Style(StyleInstruction::Reset));
    assert(outs_view(items@) =~= region_outs(q, text@));
    items
}

/// Write regions of highlighted code in the 8 ANSI colours.
///
/// Each region's colour is quantized: Solarized's accent tones become the
/// ANSI colours they stand for, its base tones the default foreground.
/// Background colours are ignored, so that the output suits light and dark
/// terminals alike. Each region is written with its colour and font style,
/// then a reset. A colour off the palette ends the work with an error; the
/// regions before it are written.
pub fn write_as_ansi(terminal: &mut Terminal, regions: &Vec<Token>) -> (r: Result<(), RenderError>)
    ensures
        final(terminal).kind() == old(terminal).kind(),
        final(terminal).limit() == old(terminal).limit(),
        ({
            let (items, err) = regions_plan(regions@);
            let (bytes, ok) = flush(old(terminal).kind(), old(terminal).limit(), old(terminal).bytes(), items);
            &&& final(terminal).bytes() == bytes
            &&& r == if !ok {
                Err(RenderError::Write(WriteError {}))
            } else {
                match err {
                    Some(e) => Err(RenderError::Quantization(e)),
                    None => Ok(()),
                }
            }
        }),
{
    let ghost rs = regions@;
    let mut items: Vec<Out> = Vec::new();
    let mut failure: Option<QuantizationError> = None;
    let mut i: usize = 0;
    assert(rs.take(0) =~= Seq::<Token>::empty());
    assert(outs_view(items@) =~= Seq::<OutV>::empty());
    while i < regions.len() && failure.is_none()
        invariant
            i <= rs.len(),
            rs == regions@,
            regions_plan(rs.take(i as int)) == (outs_view(items@), failure),
        decreases rs.len() - i,
    {
        assert(rs.take(i + 1).drop_last() =~= rs.take(i as int));
        let t = &regions[i];
        match quantize(t.colour, t.font) {
            Err(e) => {
                failure = Some(e);
            },
            Ok(q) => {
                let mut more = region_items(q, &t.text);
                proof {
                    assert(outs_view(items@ + more@) =~= outs_view(items@) + outs_view(more@));
                }
                items.append(&mut more);
            },
        }
        i += 1;
    }
    let ghost (pitems, perr) = regions_plan(rs);
    proof {
        if failure is Some {
            lemma_regions_err_persists(rs, i as int, rs.len() as int);
        }
        assert(rs.take(rs.len() as int) =~= rs);
    }
    assert(regions_plan(rs) == (outs_view(items@), failure));
    let w = terminal.emit_all(&items);
    match w {
        Err(e) => Err(RenderError::Write(e)),
        Ok(()) => match failure {
            Some(e) => Err(RenderError::Quantization(e)),
            None => Ok(()),
        },
    }
}

} // verus!
