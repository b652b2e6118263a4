//! Text analysis for Chinese web novels: chapter detection, hard-wrap
//! repair, retrieval chunks, genre and focus estimates, cast extraction and
//! relationship labelling — the parts of the reader that compute, kept apart
//! from the parts that store, fetch and render.
use vstd::prelude::*;

pub mod text;
pub mod repair;
pub mod relation;
pub mod meta;
pub mod fingerprint;
pub mod chapters;
pub mod book;
pub mod chunk;
pub mod genre;
pub mod focus;
pub mod source;
pub mod store;
pub mod assistant;
pub mod reader;
pub mod sources;
pub mod decode;
pub mod cast;
pub mod romance;
pub mod portrait;
pub mod passage;
pub mod reply;
pub mod download;
pub mod enrich;


use crate::text::to_chars;

verus! {

/// Full-width ideographic space. Two of them are the canonical Chinese
/// paragraph indent, and their presence is the strongest structural signal
/// we have: indented line = body text, flush line = structure.
pub const IDEOGRAPHIC_SPACE: char = '\u{3000}';

/// Body text opens with two ideographic spaces, two ASCII spaces, or a tab.
pub open spec fn indented(l: Seq<char>) -> bool {
    ||| (l.len() >= 2 && l[0] == '\u{3000}' && l[1] == '\u{3000}')
    ||| (l.len() >= 2 && l[0] == ' ' && l[1] == ' ')
    ||| (l.len() >= 1 && l[0] == '\t')
}

/// [`is_indented`] on a line already split into characters.
pub fn indented_chars(l: &[char]) -> (r: bool)
    ensures
        r == indented(l@),
{
    if l.len() >= 1 && l[0] == '\t' {
        return true;
    }
    if l.len() >= 2 {
        (l[0] == '\u{3000}' && l[1] == '\u{3000}') || (l[0] == ' ' && l[1] == ' ')
    } else {
        false
    }
}

/// Half-width variants count too: real books indent with four ASCII spaces and
/// put their titles at zero or one — so the threshold is two, not one.
pub fn is_indented(line: &str) -> (r: bool)
    ensures
        r == indented(line@),
{
    let v = to_chars(line);
    indented_chars(v.as_slice())
}

} // verus!
