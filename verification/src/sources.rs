//! The records the source manager, the search and the downloader report
//! with, and the manager's view of the stored rule sheets.
use vstd::prelude::*;
use crate::store::SourceRecord;

verus! {

/// A rule sheet as the manager shows it.
#[derive(Debug, Clone)]
pub struct SourceItem {
    pub url: String,
    pub name: String,
    pub group: String,
    pub enabled: bool,
    /// None = never tested; false = ruled out; true = not known to be dead.
    pub ok: Option<bool>,
    pub note: String,
}

#[derive(Debug, Clone)]
pub struct SourceTest {
    pub url: String,
    pub ok: bool,
    pub message: String,
}

/// How a whole-list validation is going, as it goes.
#[derive(Debug, Clone)]
pub struct TestFeed {
    pub done: u32,
    pub total: u32,
    pub ok: u32,
    pub failed: u32,
    pub source_name: String,
    pub message: String,
}

#[derive(Debug, Clone)]
pub struct FoundBookItem {
    pub source_url: String,
    pub source_name: String,
    pub name: String,
    pub author: String,
    pub kind: String,
    pub word_count: String,
    pub last_chapter: String,
    pub intro: String,
    pub book_url: String,
}

/// Results as they land, source by source.
#[derive(Debug, Clone)]
pub struct SearchFeed {
    pub done: u32,
    pub total: u32,
    pub source_name: String,
    pub hits: Vec<FoundBookItem>,
}

/// One site's offer of one book.
#[derive(Debug, Clone)]
pub struct Offer {
    pub source_url: String,
    pub book_url: String,
}

/// What a site is really offering, found out by opening the book.
#[derive(Debug, Clone)]
pub struct OfferProbe {
    pub source_url: String,
    pub chapters: u32,
    pub last_title: String,
    /// Did a chapter of actual prose come back?
    pub readable: bool,
    /// Empty when all is well; otherwise why this source is a bad bet.
    pub note: String,
}

#[derive(Debug, Clone)]
pub struct DownloadProgress {
    pub phase: String,
    pub done: u32,
    pub total: u32,
    /// Chapters the site would not give us.
    pub failed: u32,
    /// Set exactly once, on the final event: the TXT now on disk.
    pub path: Option<String>,
}

/// The text of an optional field, or the empty string.
pub open spec fn or_empty(o: Option<String>) -> Seq<char> {
    match o {
        Some(s) => s@,
        None => Seq::empty(),
    }
}

fn text_or_empty(o: &Option<String>) -> (r: String)
    ensures
        r@ == or_empty(*o),
{
    match o {
        Some(s) => s.clone(),
        None => String::new(),
    }
}

/// The stored sheets as the manager lists them: a missing group or note
/// reads as empty.
pub fn list_sources(rows: &Vec<SourceRecord>) -> (r: Vec<SourceItem>)
    ensures
        r@.len() == rows@.len(),
        forall|i: int|
            0 <= i < rows@.len() ==> {
                let s = #[trigger] r@[i];
                let w = rows@[i];
                &&& s.url@ == w.url@
                &&& s.name@ == w.name@
                &&& s.group@ == or_empty(w.group)
                &&& s.enabled == w.enabled
                &&& s.ok == w.ok
                &&& s.note@ == or_empty(w.note)
            },
{
    let mut out: Vec<SourceItem> = Vec::new();
    let mut i: usize = 0;
    while i < rows.len()
        invariant
            i <= rows@.len(),
            out@.len() == i,
            forall|k: int|
                0 <= k < i ==> {
                    let s = #[trigger] out@[k];
                    let w = rows@[k];
                    &&& s.url@ == w.url@
                    &&& s.name@ == w.name@
                    &&& s.group@ == or_empty(w.group)
                    &&& s.enabled == w.enabled
                    &&& s.ok == w.ok
                    &&& s.note@ == or_empty(w.note)
                },
        decreases rows.len() - i,
    {
        let w = &rows[i];
        out.push(
            SourceItem {
                url: w.url.clone(),
                name: w.name.clone(),
                group: text_or_empty(&w.group),
                enabled: w.enabled,
                ok: w.ok,
                note: text_or_empty(&w.note),
            },
        );
        i += 1;
    }
    out
}

/// The state of the read-aloud engine and voice on disk.
#[derive(Debug, Clone)]
pub struct TtsStatus {
    pub dir: String,
    /// The speech engine binary is present.
    pub engine: bool,
    /// The installed voice folder's name, or absent.
    pub voice: Option<String>,
    pub engine_bytes: i64,
    pub voice_bytes: i64,
}

} // verus!
