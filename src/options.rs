//! Choices made from the command line: whether to use colours, and so which
//! kind of terminal to write to.

use vstd::prelude::*;
use crate::terminal::Capability;

verus! {

/// Whether to use colours.
#[derive(Clone, Copy, Debug, PartialEq, Eq, Structural)]
pub enum Colour {
    Yes,
    No,
    Auto,
}

/// A colour setting that is none of `yes`, `no` and `auto`.
#[derive(Clone, Copy, Debug, PartialEq, Eq, Structural)]
pub struct InvalidColour {}

impl InvalidColour {
    pub fn to_string(&self) -> (r: String)
        ensures
            r@ == "invalid colour setting"@,
    {
        "invalid colour setting".to_owned()
    }
}

/// The lower-case form of a string, as `str::to_lowercase` gives it.
pub uninterp spec fn lower_of(s: Seq<char>) -> Seq<char>;

/// Relies on `str::to_lowercase`: the result depends on the characters
/// alone.
#[verifier::external_body]
fn lowercase_chars(s: &str) -> (r: Vec<char>)
    ensures
        r@ == lower_of(s@),
{
    s.to_lowercase().chars().collect()
}

/// The setting a lower-case word names.
pub open spec fn colour_of(w: Seq<char>) -> Result<Colour, InvalidColour> {
    if w == seq!['y', 'e', 's'] {
        Ok(Colour::Yes)
    } else if w == seq!['n', 'o'] {
        Ok(Colour::No)
    } else if w == seq!['a', 'u', 't', 'o'] {
        Ok(Colour::Auto)
    } else {
        Err(InvalidColour {})
    }
}

fn is_word(v: &Vec<char>, w: &[char]) -> (r: bool)
    ensures
        r == (v@ == w@),
{
    if v.len() != w.len() {
        return false;
    }
    let mut i: usize = 0;
    while i < w.len()
        invariant
            i <= w@.len() == v@.len(),
            v@.subrange(0, i as int) == w@.subrange(0, i as int),
        decreases w@.len() - i,
    {
        if v[i] != w[i] {
            return false;
        }
        i += 1;
        assert(v@.subrange(0, i as int) =~= w@.subrange(0, i as int));
    }
    assert(v@ =~= v@.subrange(0, i as int));
    assert(w@ =~= w@.subrange(0, i as int));
    true
}

/// The setting named by a word that is already in lower case.
pub fn colour_from_lower(w: &Vec<char>) -> (r: Result<Colour, InvalidColour>)
    ensures
        r == colour_of(w@),
{
    let yes = ['y', 'e', 's'];
    let no = ['n', 'o'];
    let auto = ['a', 'u', 't', 'o'];
    assert(yes@ =~= seq!['y', 'e', 's']);
    assert(no@ =~= seq!['n', 'o']);
    assert(auto@ =~= seq!['a', 'u', 't', 'o']);
    if is_word(w, yes.as_slice()) {
        Ok(Colour::Yes)
    } else if is_word(w, no.as_slice()) {
        Ok(Colour::No)
    } else if is_word(w, auto.as_slice()) {
        Ok(Colour::Auto)
    } else {
        Err(InvalidColour {})
    }
}

impl Colour {
    /// Read a colour setting, ignoring case.
    pub fn parse(value: &str) -> (r: Result<Colour, InvalidColour>)
        ensures
            r == colour_of(lower_of(value@)),
    {
        let w = lowercase_chars(value);
        colour_from_lower(&w)
    }
}

impl std::str::FromStr for Colour {
    type Err = InvalidColour;

    fn from_str(value: &str) -> (r: Result<Colour, InvalidColour>)
        ensures
            r == colour_of(lower_of(value@)),
    {
        Colour::parse(value)
    }
}

/// The terminal to write to: a plain one when colours are off; a styled one
/// when they are forced on and the detected terminal is plain; otherwise
/// the detected one.
pub fn select_capability(colour: Colour, detected: Capability) -> (r: Capability)
    ensures
        colour == Colour::No ==> r == Capability::Plain,
        colour == Colour::Yes ==> r == Capability::Styled,
        colour == Colour::Auto ==> r == detected,
{
    match colour {
        Colour::No => Capability::Plain,
        Colour::Yes => match detected {
            Capability::Plain => Capability::Styled,
            Capability::Styled => Capability::Styled,
        },
        Colour::Auto => detected,
    }
}

} // verus!
