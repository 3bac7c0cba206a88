//! Terminal capabilities: a sink that turns style instructions into ANSI
//! control sequences, or drops them on a plain terminal.

use vstd::prelude::*;
use crate::colour::AnsiColour;

verus! {

/// A one-shot style instruction. Accumulating styles is the caller's job.
#[derive(Clone, Copy, Debug, PartialEq, Eq, Structural)]
pub enum StyleInstruction {
    Foreground(AnsiColour),
    DefaultForeground,
    Bold,
    Italic,
    Underline,
    Reset,
}

/// What kind of terminal output goes to.
#[derive(Clone, Copy, Debug, PartialEq, Eq, Structural)]
pub enum Capability {
    /// Understands ANSI escape sequences.
    Styled,
    /// Shows bytes as they are; styles are dropped.
    Plain,
}

/// One unit of output: a style instruction or bytes of text.
#[derive(Debug)]
pub enum Out {
    Style(StyleInstruction),
    Text(Vec<u8>),
}

/// The mathematical value of an `Out`.
pub enum OutV {
    Style(StyleInstruction),
    Text(Seq<u8>),
}

impl View for Out {
    type V = OutV;

    open spec fn view(&self) -> OutV {
        match self {
            Out::Style(s) => OutV::Style(*s),
            Out::Text(t) => OutV::Text(t@),
        }
    }
}

pub open spec fn outs_view(v: Seq<Out>) -> Seq<OutV> {
    v.map_values(|o: Out| o@)
}

/// The sink refused a write: it has no room left.
#[derive(Clone, Copy, Debug, PartialEq, Eq, Structural)]
pub struct WriteError {}

/// The SGR parameter of a foreground colour, as ASCII digits.
pub open spec fn colour_code(c: AnsiColour) -> Seq<u8> {
    match c {
        AnsiColour::Black => seq![0x33u8, 0x30u8],
        AnsiColour::Red => seq![0x33u8, 0x31u8],
        AnsiColour::Green => seq![0x33u8, 0x32u8],
        AnsiColour::Yellow => seq![0x33u8, 0x33u8],
        AnsiColour::Blue => seq![0x33u8, 0x34u8],
        AnsiColour::Magenta => seq![0x33u8, 0x35u8],
        AnsiColour::Cyan => seq![0x33u8, 0x36u8],
        AnsiColour::White => seq![0x33u8, 0x37u8],
        AnsiColour::LightBlack => seq![0x39u8, 0x30u8],
        AnsiColour::LightRed => seq![0x39u8, 0x31u8],
        AnsiColour::LightGreen => seq![0x39u8, 0x32u8],
        AnsiColour::LightYellow => seq![0x39u8, 0x33u8],
        AnsiColour::LightBlue => seq![0x39u8, 0x34u8],
        AnsiColour::LightMagenta => seq![0x39u8, 0x35u8],
        AnsiColour::LightCyan => seq![0x39u8, 0x36u8],
        AnsiColour::LightWhite => seq![0x39u8, 0x37u8],
    }
}

/// The SGR parameter of a style instruction, as ASCII digits.
pub open spec fn sgr_code(s: StyleInstruction) -> Seq<u8> {
    match s {
        StyleInstruction::Foreground(c) => colour_code(c),
        StyleInstruction::DefaultForeground => seq![0x33u8, 0x39u8],
        StyleInstruction::Bold => seq![0x31u8],
        StyleInstruction::Italic => seq![0x33u8],
        StyleInstruction::Underline => seq![0x34u8],
        StyleInstruction::Reset => seq![0x30u8],
    }
}

pub const ESC: u8 = 0x1b;

/// The bytes a terminal of the given capability writes for a style.
pub open spec fn style_bytes(cap: Capability, s: StyleInstruction) -> Seq<u8> {
    match cap {
        Capability::Styled => seq![ESC, 0x5bu8] + sgr_code(s) + seq![0x6du8],
        Capability::Plain => Seq::empty(),
    }
}

/// The bytes a terminal of the given capability writes for a unit of output.
pub open spec fn chunk(cap: Capability, o: OutV) -> Seq<u8> {
    match o {
        OutV::Style(s) => style_bytes(cap, s),
        OutV::Text(t) => t,
    }
}

/// The bytes held after writing `items` one by one to a sink of capacity
/// `limit` that holds `buf`, and whether every write was accepted. A write
/// that does not fit leaves the sink as it is and ends the sequence.
pub open spec fn flush(cap: Capability, limit: nat, buf: Seq<u8>, items: Seq<OutV>) -> (Seq<u8>, bool)
    decreases items.len(),
{
    if items.len() == 0 {
        (buf, true)
    } else {
        let c = chunk(cap, items[0]);
        if buf.len() + c.len() > limit {
            (buf, false)
        } else {
            flush(cap, limit, buf + c, items.drop_first())
        }
    }
}

/// A terminal sink with a fixed capacity in bytes.
pub struct Terminal {
    capability: Capability,
    buf: Vec<u8>,
    limit: usize,
}

impl Terminal {
    pub closed spec fn kind(&self) -> Capability {
        self.capability
    }

    /// The bytes written so far.
    pub closed spec fn bytes(&self) -> Seq<u8> {
        self.buf@
    }

    /// How many bytes the sink accepts in all.
    pub closed spec fn limit(&self) -> nat {
        self.limit as nat
    }

    pub fn new(capability: Capability, limit: usize) -> (r: Terminal)
        ensures
            r.kind() == capability,
            r.bytes() == Seq::<u8>::empty(),
            r.limit() == limit,
    {
        Terminal { capability, buf: Vec::new(), limit }
    }

    pub fn capability(&self) -> (r: Capability)
        ensures
            r == self.kind(),
    {
        self.capability
    }

    /// Whether style instructions have a visible effect.
    pub fn supports_styles(&self) -> (r: bool)
        ensures
            r == (self.kind() == Capability::Styled),
    {
        match self.capability {
            Capability::Styled => true,
            Capability::Plain => false,
        }
    }

    /// Whether images can be shown inline; neither kind of terminal can.
    pub fn supports_inline_images(&self) -> (r: bool)
        ensures
            !r,
    {
        false
    }

    /// Whether links can be made clickable in place; neither kind of
    /// terminal can, so links are listed as references instead.
    pub fn supports_inline_links(&self) -> (r: bool)
        ensures
            !r,
    {
        false
    }

    /// The bytes written so far.
    pub fn output(&self) -> (r: &[u8])
        ensures
            r@ == self.bytes(),
    {
        self.buf.as_slice()
    }

    /// Append `data` unchanged, or fail without writing if it does not fit.
    pub fn write(&mut self, data: &[u8]) -> (r: Result<(), WriteError>)
        ensures
            final(self).kind() == old(self).kind(),
            final(self).limit() == old(self).limit(),
            r is Ok <==> old(self).bytes().len() + data@.len() <= old(self).limit(),
            r is Ok ==> final(self).bytes() == old(self).bytes() + data@,
            r is Err ==> final(self).bytes() == old(self).bytes(),
    {
        if self.buf.len() > self.limit || data.len() > self.limit - self.buf.len() {
            return Err(WriteError {});
        }
        let ghost start = self.buf@;
        let mut i: usize = 0;
        while i < data.len()
            invariant
                i <= data@.len(),
                self.buf@ == start + data@.subrange(0, i as int),
                self.capability == old(self).capability,
                self.limit == old(self).limit,
            decreases data@.len() - i,
        {
            self.buf.push(data[i]);
            i += 1;
            assert(self.buf@ =~= start + data@.subrange(0, i as int));
        }
        assert(data@.subrange(0, i as int) =~= data@);
        Ok(())
    }

    /// Write the control sequence of a style instruction; nothing on a plain
    /// terminal.
    pub fn set_style(&mut self, s: StyleInstruction) -> (r: Result<(), WriteError>)
        ensures
            final(self).kind() == old(self).kind(),
            final(self).limit() == old(self).limit(),
            r is Ok <==> old(self).bytes().len() + style_bytes(old(self).kind(), s).len()
                <= old(self).limit(),
            r is Ok ==> final(self).bytes() == old(self).bytes() + style_bytes(old(self).kind(), s),
            r is Err ==> final(self).bytes() == old(self).bytes(),
    {
        let seqn = match self.capability {
            Capability::Plain => Vec::new(),
            Capability::Styled => {
                let mut v: Vec<u8> = Vec::new();
                v.push(ESC);
                v.push(0x5b);
                match s {
                    StyleInstruction::Foreground(c) => {
                        let (hi, lo) = colour_digits(c);
                        v.push(hi);
                        v.push(lo);
                    },
                    StyleInstruction::DefaultForeground => {
                        v.push(0x33);
                        v.push(0x39);
                    },
                    StyleInstruction::Bold => v.push(0x31),
                    StyleInstruction::Italic => v.push(0x33),
                    StyleInstruction::Underline => v.push(0x34),
                    StyleInstruction::Reset => v.push(0x30),
                }
                v.push(0x6d);
                v
            },
        };
        assert(seqn@ =~= style_bytes(self.kind(), s));
        self.write(seqn.as_slice())
    }

    /// Write one unit of output.
    pub fn emit(&mut self, o: &Out) -> (r: Result<(), WriteError>)
        ensures
            final(self).kind() == old(self).kind(),
            final(self).limit() == old(self).limit(),
            r is Ok <==> old(self).bytes().len() + chunk(old(self).kind(), o@).len()
                <= old(self).limit(),
            r is Ok ==> final(self).bytes() == old(self).bytes() + chunk(old(self).kind(), o@),
            r is Err ==> final(self).bytes() == old(self).bytes(),
    {
        match o {
            Out::Style(s) => self.set_style(*s),
            Out::Text(t) => self.write(t.as_slice()),
        }
    }

    /// Write units of output in order, stopping at the first that does not
    /// fit.
    pub fn emit_all(&mut self, items: &Vec<Out>) -> (r: Result<(), WriteError>)
        ensures
            final(self).kind() == old(self).kind(),
            final(self).limit() == old(self).limit(),
            (final(self).bytes(), r is Ok) == flush(
                old(self).kind(),
                old(self).limit(),
                old(self).bytes(),
                outs_view(items@),
            ),
    {
        let ghost all = outs_view(items@);
        assert(all.subrange(0, all.len() as int) =~= all);
        let mut i: usize = 0;
        while i < items.len()
            invariant
                i <= items@.len(),
                all == outs_view(items@),
                self.kind() == old(self).kind(),
                self.limit() == old(self).limit(),
                flush(old(self).kind(), old(self).limit(), old(self).bytes(), all) == flush(
                    self.kind(),
                    self.limit(),
                    self.bytes(),
                    all.subrange(i as int, all.len() as int),
                ),
            decreases items@.len() - i,
        {
            let ghost rest = all.subrange(i as int, all.len() as int);
            let r = self.emit(&items[i]);
            if r.is_err() {
                return r;
            }
            assert(rest.drop_first() =~= all.subrange(i + 1, all.len() as int));
            i += 1;
        }
        assert(all.subrange(i as int, all.len() as int) =~= Seq::<OutV>::empty());
        Ok(())
    }
}

/// The two ASCII digits of a foreground colour's SGR parameter.
fn colour_digits(c: AnsiColour) -> (r: (u8, u8))
    ensures
        seq![r.0, r.1] == colour_code(c),
{
    match c {
        AnsiColour::Black => (0x33, 0x30),
        AnsiColour::Red => (0x33, 0x31),
        AnsiColour::Green => (0x33, 0x32),
        AnsiColour::Yellow => (0x33, 0x33),
        AnsiColour::Blue => (0x33, 0x34),
        AnsiColour::Magenta => (0x33, 0x35),
        AnsiColour::Cyan => (0x33, 0x36),
        AnsiColour::White => (0x33, 0x37),
        AnsiColour::LightBlack => (0x39, 0x30),
        AnsiColour::LightRed => (0x39, 0x31),
        AnsiColour::LightGreen => (0x39, 0x32),
        AnsiColour::LightYellow => (0x39, 0x33),
        AnsiColour::LightBlue => (0x39, 0x34),
        AnsiColour::LightMagenta => (0x39, 0x35),
        AnsiColour::LightCyan => (0x39, 0x36),
        AnsiColour::LightWhite => (0x39, 0x37),
    }
}

} // verus!
