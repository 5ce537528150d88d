//! How scraped results are presented: as a list or as a table.
use vstd::prelude::*;

use crate::text::{chars_of, string_of};

verus! {

/// The way scraped results are shown on the terminal.
#[derive(Clone, Copy, Debug, PartialEq, Eq, Structural)]
pub enum Presentation {
    List,
    Table,
}

/// The text that names a presentation: `list` or `table`.
pub open spec fn presentation_text(p: Presentation) -> Seq<char> {
    match p {
        Presentation::List => seq!['l', 'i', 's', 't'],
        Presentation::Table => seq!['t', 'a', 'b', 'l', 'e'],
    }
}

/// The presentation that a text names, if any: exactly `list` or `table`.
pub open spec fn presentation_from_text(s: Seq<char>) -> Result<Presentation, ()> {
    if s == presentation_text(Presentation::List) {
        Ok(Presentation::List)
    } else if s == presentation_text(Presentation::Table) {
        Ok(Presentation::Table)
    } else {
        Err(())
    }
}

/// Reading back the text of a presentation gives the presentation.
pub proof fn lemma_presentation_text_roundtrip(p: Presentation)
    ensures
        presentation_from_text(presentation_text(p)) == Ok::<Presentation, ()>(p),
{
    assert(presentation_text(Presentation::List) != presentation_text(Presentation::Table));
}

/// The characters of the text that names `p`.
pub fn presentation_chars(p: Presentation) -> (r: Vec<char>)
    ensures
        r@ == presentation_text(p),
{
    match p {
        Presentation::List => vec!['l', 'i', 's', 't'],
        Presentation::Table => vec!['t', 'a', 'b', 'l', 'e'],
    }
}

/// Whether `s` is the text that names `p`.
pub fn is_presentation_text(s: &Vec<char>, p: Presentation) -> (r: bool)
    ensures
        r == (s@ == presentation_text(p)),
{
    let t = presentation_chars(p);
    crate::text::chars_eq(s, &t)
}

impl Presentation {
    /// The text that names this presentation (`list` or `table`), as its
    /// `Display` writes it.
    pub fn to_display_string(&self) -> (r: String)
        ensures
            r@ == presentation_text(*self),
    {
        let v = presentation_chars(*self);
        string_of(v.as_slice())
    }

    /// The presentation named by `input`: `list` or `table`, and nothing else.
    pub fn parse(input: &str) -> (r: Result<Presentation, ()>)
        ensures
            r == presentation_from_text(input@),
    {
        let v = chars_of(input);
        if is_presentation_text(&v, Presentation::List) {
            Ok(Presentation::List)
        } else if is_presentation_text(&v, Presentation::Table) {
            Ok(Presentation::Table)
        } else {
            Err(())
        }
    }
}

impl core::str::FromStr for Presentation {
    type Err = ();

    fn from_str(input: &str) -> (r: Result<Presentation, ()>)
        ensures
            r == presentation_from_text(input@),
    {
        Presentation::parse(input)
    }
}

} // verus!
