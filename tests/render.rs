use mdcat::colour::{quantize, AnsiColour, FontStyle, QuantizationError, Quantized, Rgb};
use mdcat::engine::{decimal, event_kinds, render};
use mdcat::highlighting::write_as_ansi;
use mdcat::model::{BlockKind, Event, EventKind, InlineKind, RenderError, ResourceAccess, Token};
use mdcat::options::{colour_from_lower, select_capability, Colour, InvalidColour};
use mdcat::terminal::{Capability, StyleInstruction, Terminal, WriteError};

fn rgb(r: u8, g: u8, b: u8) -> Rgb {
    Rgb { r, g, b }
}

const PLAIN: FontStyle = FontStyle { bold: false, italic: false, underline: false };

fn text(s: &str) -> Event {
    Event::Text(s.as_bytes().to_vec())
}

fn run(events: &Vec<Event>, cap: Capability) -> (Result<Vec<Vec<u8>>, RenderError>, Vec<u8>) {
    let mut t = Terminal::new(cap, 1 << 20);
    let r = render(events, &mut t, ResourceAccess::RemoteAllowed, 20);
    (r, t.output().to_vec())
}

#[test]
fn quantize_golden_table() {
    let base = [
        (0x00, 0x2b, 0x36),
        (0x07, 0x36, 0x42),
        (0x58, 0x6e, 0x75),
        (0x65, 0x7b, 0x83),
        (0x83, 0x94, 0x96),
        (0x93, 0xa1, 0xa1),
        (0xee, 0xe8, 0xd5),
        (0xfd, 0xf6, 0xe3),
    ];
    for (r, g, b) in base {
        assert_eq!(quantize(rgb(r, g, b), PLAIN), Ok(Quantized { colour: None, font: PLAIN }));
    }
    let accents = [
        ((0xb5, 0x89, 0x00), AnsiColour::Yellow),
        ((0xcb, 0x4b, 0x16), AnsiColour::LightRed),
        ((0xdc, 0x32, 0x2f), AnsiColour::Red),
        ((0xd3, 0x36, 0x82), AnsiColour::Magenta),
        ((0x6c, 0x71, 0xc4), AnsiColour::LightMagenta),
        ((0x26, 0x8b, 0xd2), AnsiColour::Blue),
        ((0x2a, 0xa1, 0x98), AnsiColour::Cyan),
        ((0x85, 0x99, 0x00), AnsiColour::Green),
    ];
    for ((r, g, b), c) in accents {
        let q = quantize(rgb(r, g, b), PLAIN);
        assert_eq!(q, Ok(Quantized { colour: Some(c), font: PLAIN }));
        assert_eq!(q, quantize(rgb(r, g, b), PLAIN));
    }
}

#[test]
fn quantize_rejects_unknown_colours() {
    for (r, g, b) in [(0, 0, 0), (0xdc, 0x32, 0x30), (0xff, 0xff, 0xff), (0x26, 0x8b, 0xd3)] {
        assert_eq!(
            quantize(rgb(r, g, b), PLAIN),
            Err(QuantizationError { colour: rgb(r, g, b) })
        );
    }
}

#[test]
fn quantize_passes_font_style_through() {
    let f = FontStyle { bold: true, italic: true, underline: true };
    assert_eq!(quantize(rgb(0x00, 0x2b, 0x36), f), Ok(Quantized { colour: None, font: f }));
}

#[test]
fn heading_scenario() {
    let events = vec![
        Event::StartBlock(BlockKind::Heading(1)),
        text("Title"),
        Event::EndBlock(BlockKind::Heading(1)),
    ];
    let (r, out) = run(&events, Capability::Styled);
    assert_eq!(r, Ok(vec![]));
    assert_eq!(out, b"\x1b[1mTitle\x1b[0m\n\n".to_vec());
}

#[test]
fn code_token_scenario() {
    let bold = FontStyle { bold: true, italic: false, underline: false };
    assert_eq!(
        quantize(rgb(0xdc, 0x32, 0x2f), bold),
        Ok(Quantized { colour: Some(AnsiColour::Red), font: bold })
    );
    let tok = Token { colour: rgb(0xdc, 0x32, 0x2f), font: bold, text: b"token text".to_vec() };
    let (r, out) = run(&vec![Event::Code(tok.clone())], Capability::Styled);
    assert_eq!(r, Ok(vec![]));
    assert_eq!(out, b"\x1b[31m\x1b[1mtoken text\x1b[0m".to_vec());

    let mut t = Terminal::new(Capability::Styled, 1000);
    assert_eq!(write_as_ansi(&mut t, &vec![tok]), Ok(()));
    assert_eq!(t.output(), b"\x1b[31m\x1b[1mtoken text\x1b[0m");
}

#[test]
fn remote_image_under_local_only() {
    let url = b"http://example.com/x.png".to_vec();
    let events = vec![Event::Image(url.clone(), b"alt".to_vec())];
    let mut t = Terminal::new(Capability::Styled, 1000);
    let r = render(&events, &mut t, ResourceAccess::LocalOnly, 80);
    assert_eq!(r, Ok(vec![url.clone()]));
    assert_eq!(t.output(), b"alt");

    let mut t = Terminal::new(Capability::Styled, 1000);
    let r = render(&events, &mut t, ResourceAccess::RemoteAllowed, 80);
    assert_eq!(r, Ok(vec![]));
    assert_eq!(t.output(), b"alt");

    let local = vec![Event::Image(b"img/x.png".to_vec(), b"alt".to_vec())];
    let mut t = Terminal::new(Capability::Plain, 1000);
    assert_eq!(render(&local, &mut t, ResourceAccess::LocalOnly, 80), Ok(vec![]));
}

fn nested_document() -> Vec<Event> {
    vec![
        Event::StartBlock(BlockKind::BlockQuote),
        Event::StartBlock(BlockKind::Paragraph),
        text("quoted "),
        Event::StartInline(InlineKind::Strong),
        text("strong"),
        Event::EndInline(InlineKind::Strong),
        Event::SoftBreak,
        Event::LinkStart(b"https://example.org".to_vec()),
        text("here"),
        Event::LinkEnd,
        Event::EndBlock(BlockKind::Paragraph),
        Event::EndBlock(BlockKind::BlockQuote),
        Event::StartBlock(BlockKind::OrderedList(3)),
        Event::StartBlock(BlockKind::Item),
        text("three"),
        Event::EndBlock(BlockKind::Item),
        Event::StartBlock(BlockKind::Item),
        text("four"),
        Event::EndBlock(BlockKind::Item),
        Event::EndBlock(BlockKind::OrderedList(3)),
        Event::Rule,
    ]
}

#[test]
fn plain_output_has_no_control_bytes() {
    let (r, out) = run(&nested_document(), Capability::Plain);
    assert_eq!(r, Ok(vec![]));
    assert!(!out.contains(&0x1b));
    let s = String::from_utf8(out).unwrap();
    assert_eq!(
        s,
        "  quoted strong here[1]\n\n[1]: https://example.org\n3. three\n4. four\n--------------------\n\n"
    );
}

#[test]
fn styled_output_resets_after_spans() {
    let (r, out) = run(&nested_document(), Capability::Styled);
    assert_eq!(r, Ok(vec![]));
    let s = String::from_utf8(out).unwrap();
    assert_eq!(
        s,
        "\x1b[3m  quoted \x1b[1mstrong\x1b[0m\x1b[3m \x1b[34mhere\x1b[0m\x1b[3m[1]\x1b[0m\x1b[3m\n\n\x1b[0m[1]: https://example.org\n3. three\x1b[0m\n4. four\x1b[0m\n\x1b[0m--------------------\n\n"
    );
    assert!(s.ends_with("\x1b[0m--------------------\n\n"));
}

#[test]
fn bullet_items_are_indented_by_nesting() {
    let events = vec![
        Event::StartBlock(BlockKind::BulletList),
        Event::StartBlock(BlockKind::Item),
        text("a"),
        Event::StartBlock(BlockKind::BulletList),
        Event::StartBlock(BlockKind::Item),
        text("b"),
        Event::EndBlock(BlockKind::Item),
        Event::EndBlock(BlockKind::BulletList),
        Event::EndBlock(BlockKind::Item),
        Event::EndBlock(BlockKind::BulletList),
    ];
    let (r, out) = run(&events, Capability::Plain);
    assert_eq!(r, Ok(vec![]));
    assert_eq!(String::from_utf8(out).unwrap(), "• a  • b\n\n");
}

#[test]
fn unmatched_start_is_structural_inconsistency() {
    let events = vec![Event::StartBlock(BlockKind::Paragraph), text("open")];
    let (r, out) = run(&events, Capability::Styled);
    assert_eq!(r, Err(RenderError::StructuralInconsistency));
    assert_eq!(out, b"open".to_vec());

    let links = vec![Event::LinkStart(b"u".to_vec()), text("x"), Event::LinkEnd, Event::StartInline(InlineKind::Emphasis)];
    let (r, out) = run(&links, Capability::Plain);
    assert_eq!(r, Err(RenderError::StructuralInconsistency));
    assert_eq!(out, b"x[1][1]: u\n".to_vec());
}

#[test]
fn mismatched_end_is_structural_inconsistency() {
    let events = vec![
        Event::StartBlock(BlockKind::Paragraph),
        text("a"),
        Event::EndBlock(BlockKind::Heading(2)),
        text("never"),
    ];
    let (r, out) = run(&events, Capability::Plain);
    assert_eq!(r, Err(RenderError::StructuralInconsistency));
    assert_eq!(out, b"a".to_vec());
    let (r, _) = run(&vec![Event::LinkEnd], Capability::Plain);
    assert_eq!(r, Err(RenderError::StructuralInconsistency));
}

#[test]
fn unknown_colour_fails_render() {
    let tok = Token { colour: rgb(1, 2, 3), font: PLAIN, text: b"x".to_vec() };
    let events = vec![text("before"), Event::Code(tok.clone()), text("after")];
    let (r, out) = run(&events, Capability::Styled);
    assert_eq!(r, Err(RenderError::Quantization(QuantizationError { colour: rgb(1, 2, 3) })));
    assert_eq!(out, b"before".to_vec());

    let good = Token { colour: rgb(0x85, 0x99, 0x00), font: PLAIN, text: b"ok".to_vec() };
    let mut t = Terminal::new(Capability::Styled, 1000);
    let r = write_as_ansi(&mut t, &vec![good, tok]);
    assert_eq!(r, Err(RenderError::Quantization(QuantizationError { colour: rgb(1, 2, 3) })));
    assert_eq!(t.output(), b"\x1b[32mok\x1b[0m");
}

#[test]
fn full_sink_is_write_error() {
    let events = vec![
        Event::StartBlock(BlockKind::Heading(1)),
        text("Title"),
        Event::EndBlock(BlockKind::Heading(1)),
    ];
    let mut t = Terminal::new(Capability::Styled, 6);
    let r = render(&events, &mut t, ResourceAccess::RemoteAllowed, 80);
    assert_eq!(r, Err(RenderError::Write(WriteError {})));
    assert_eq!(t.output(), b"\x1b[1m");
}

#[test]
fn rendering_twice_is_identical() {
    let a = run(&nested_document(), Capability::Styled);
    let b = run(&nested_document(), Capability::Styled);
    assert_eq!(a, b);
    let a = run(&nested_document(), Capability::Plain);
    let b = run(&nested_document(), Capability::Plain);
    assert_eq!(a, b);
}

#[test]
fn plain_terminal_drops_styles() {
    let mut t = Terminal::new(Capability::Plain, 10);
    assert!(!t.supports_styles());
    assert_eq!(t.set_style(StyleInstruction::Bold), Ok(()));
    assert_eq!(t.write(b"abc"), Ok(()));
    assert_eq!(t.output(), b"abc");
    let mut s = Terminal::new(Capability::Styled, 10);
    assert!(s.supports_styles());
    assert_eq!(s.set_style(StyleInstruction::Foreground(AnsiColour::LightCyan)), Ok(()));
    assert_eq!(s.set_style(StyleInstruction::DefaultForeground), Ok(()));
    assert_eq!(s.output(), b"\x1b[96m\x1b[39m");
    assert_eq!(s.write(b"x"), Err(WriteError {}));
}

#[test]
fn decimal_digits() {
    assert_eq!(decimal(0), b"0".to_vec());
    assert_eq!(decimal(407), b"407".to_vec());
    assert_eq!(decimal(u64::MAX), b"18446744073709551615".to_vec());
}

#[test]
fn colour_settings() {
    assert_eq!(Colour::parse("YES"), Ok(Colour::Yes));
    assert_eq!(Colour::parse("no"), Ok(Colour::No));
    assert_eq!(Colour::parse("Auto"), Ok(Colour::Auto));
    assert_eq!(Colour::parse("maybe"), Err(InvalidColour {}));
    assert_eq!("YES".parse::<Colour>(), Ok(Colour::Yes));
    assert_eq!("maybe".parse::<Colour>(), Err(InvalidColour {}));
    assert_eq!(colour_from_lower(&"auto".chars().collect()), Ok(Colour::Auto));
    assert_eq!(colour_from_lower(&"AUTO".chars().collect()), Err(InvalidColour {}));
    assert_eq!(InvalidColour {}.to_string(), "invalid colour setting");
    assert_eq!(select_capability(Colour::No, Capability::Styled), Capability::Plain);
    assert_eq!(select_capability(Colour::Yes, Capability::Plain), Capability::Styled);
    assert_eq!(select_capability(Colour::Auto, Capability::Plain), Capability::Plain);
}

#[test]
fn event_kinds_list_events() {
    let events = vec![Event::StartBlock(BlockKind::Paragraph), text("x"), Event::HardBreak];
    assert_eq!(
        event_kinds(&events),
        vec![EventKind::StartBlock(BlockKind::Paragraph), EventKind::Text, EventKind::HardBreak]
    );
}
