//! What the reader remembers, as plain records, and the fingerprint that lets
//! a chapter be found again in another edition of the same book. Reading and
//! writing the records is the storage layer's business, not this library's.
use vstd::prelude::*;
use crate::text::to_chars;

verus! {

#[derive(Debug, Clone)]
pub struct BookRecord {
    pub id: i64,
    pub path: String,
    pub title: String,
    pub author: Option<String>,
    pub encoding: String,
    pub style: String,
    pub total_bytes: i64,
    pub chapter_count: i64,
    pub added_at: i64,
    pub last_opened_at: Option<i64>,
    /// Chapter index and byte offset of where the reader stopped.
    pub last_chapter: i64,
    pub last_offset: i64,
    /// Comma-separated genre tags, computed once from the text. None means
    /// nobody has looked yet; an empty string means we looked and the book did
    /// not say.
    pub genre_tags: Option<String>,
    /// When the user pinned this book to the top of the shelf, if they did.
    pub pinned_at: Option<i64>,
}

#[derive(Debug, Clone)]
pub struct ChapterRecord {
    pub index: i64,
    pub number: Option<i64>,
    pub title: String,
    pub start: i64,
    pub end: i64,
    pub body_start: i64,
    /// Hash of the chapter's opening text, punctuation stripped.
    pub text_hash: i64,
}

#[derive(Debug, Clone, PartialEq, Eq)]
pub struct BookmarkRecord {
    pub book_id: i64,
    pub chapter: i64,
    pub offset: i64,
    pub comment: Option<String>,
    pub created_at: i64,
    pub updated_at: i64,
}

/// A private note anchored to an exact byte range in the source text.
#[derive(Debug, Clone, PartialEq, Eq)]
pub struct AnnotationRecord {
    pub id: i64,
    pub book_id: i64,
    pub chapter: i64,
    pub start: i64,
    pub end: i64,
    pub quote: String,
    pub body: String,
    pub visibility: String,
    pub sync_id: Option<String>,
    pub created_at: i64,
    pub updated_at: i64,
}

/// A stored rule sheet; `json` is the user's file, untouched.
#[derive(Debug, Clone)]
pub struct SourceRecord {
    pub url: String,
    pub name: String,
    pub group: Option<String>,
    pub json: String,
    pub enabled: bool,
    /// None until tested; a failed source is kept, greyed out, not deleted.
    pub ok: Option<bool>,
    pub note: Option<String>,
}

/// One book's derived data, counted.
#[derive(Debug, Clone)]
pub struct BookStorage {
    pub book_id: i64,
    pub title: String,
    pub chapter_count: i64,
    pub summaries: i64,
    pub summary_bytes: i64,
    pub chunks: i64,
    pub chunk_bytes: i64,
}

/// What `char::is_alphanumeric` says of `c`.
pub uninterp spec fn alphanumeric(c: char) -> bool;

/// `char::is_alphanumeric`: alphabetic or numeric in the Unicode sense, a
/// property of the character alone. The property is named
/// ([`alphanumeric`]) rather than spelled out; on ASCII the documentation
/// gives it: exactly the letters and the digits.
#[verifier::external_body]
fn is_alphanumeric(c: char) -> (r: bool)
    ensures
        r == alphanumeric(c),
        (c as u32) < 128 ==> r == crate::text::alnum(c),
{
    c.is_alphanumeric()
}

/// The letters and digits of `s`, in order.
pub open spec fn letters(s: Seq<char>) -> Seq<char>
    decreases s.len(),
{
    if s.len() == 0 {
        s
    } else if alphanumeric(s.last()) {
        letters(s.drop_last()).push(s.last())
    } else {
        letters(s.drop_last())
    }
}

pub open spec fn fnv64_step(h: u64, b: int) -> u64 {
    (((h ^ (b as u64)) as int * 0x100000001b3) % 0x1_0000_0000_0000_0000) as u64
}

/// FNV-1a over the four little-endian bytes of each character's code.
pub open spec fn fnv64(cs: Seq<char>) -> u64
    decreases cs.len(),
{
    if cs.len() == 0 {
        0xcbf29ce484222325
    } else {
        let x = cs.last() as u32 as int;
        let h = fnv64(cs.drop_last());
        fnv64_step(
            fnv64_step(fnv64_step(fnv64_step(h, x % 256), (x / 256) % 256), (x / 65536) % 256),
            x / 16777216,
        )
    }
}

pub open spec fn text_hash_spec(s: Seq<char>) -> i64 {
    let l = letters(s);
    let first = if l.len() > 120 {
        l.take(120)
    } else {
        l
    };
    fnv64(first) as i64
}

/// FNV-1a over the letters of a chapter's opening (its first 120), ignoring
/// punctuation and whitespace so that a re-typeset edition of the same book
/// still matches.
pub fn text_hash(body: &str) -> (r: i64)
    ensures
        r == text_hash_spec(body@),
{
    let v = to_chars(body);
    let mut h: u64 = 0xcbf29ce484222325;
    let mut taken: usize = 0;
    let mut i: usize = 0;
    let ghost mut kept: Seq<char> = Seq::empty();
    while i < v.len() && taken < 120
        invariant
            i <= v@.len(),
            kept == letters(v@.take(i as int)),
            taken <= 120,
            taken <= kept.len(),
            taken < 120 ==> taken == kept.len(),
            h == fnv64(kept.take(taken as int)),
        decreases v.len() - i,
    {
        assert(v@.take(i + 1).drop_last() =~= v@.take(i as int));
        let c = v[i];
        if is_alphanumeric(c) {
            let x = c as u32;
            assert(x == c as u32);
            let ghost before = kept;
            proof {
                kept = kept.push(c);
                assert(kept.take(taken + 1).drop_last() =~= before.take(taken as int));
                assert(kept.take(taken + 1).last() == c);
            }
            h = (h ^ ((x % 256) as u64)).wrapping_mul(0x100000001b3);
            h = (h ^ (((x / 256) % 256) as u64)).wrapping_mul(0x100000001b3);
            h = (h ^ (((x / 65536) % 256) as u64)).wrapping_mul(0x100000001b3);
            h = (h ^ ((x / 16777216) as u64)).wrapping_mul(0x100000001b3);
            taken += 1;
        }
        i += 1;
    }
    proof {
        lemma_letters_prefix(v@, i as int);
        let l = letters(v@);
        if taken == 120 {
            assert(l.take(120) =~= kept.take(120));
            if l.len() == 120 {
                assert(l.take(120) =~= l);
            }
        } else {
            assert(v@.take(i as int) =~= v@);
            assert(kept.take(taken as int) =~= kept);
        }
    }
    h as i64
}

/// Past the 120th letter the rest of the text adds letters only at the end.
proof fn lemma_letters_prefix(s: Seq<char>, i: int)
    requires
        0 <= i <= s.len(),
    ensures
        letters(s.take(i)).len() <= letters(s).len(),
        letters(s) =~= letters(s.take(i)) + letters(s).skip(letters(s.take(i)).len() as int),
    decreases s.len() - i,
{
    if i < s.len() {
        lemma_letters_prefix(s, i + 1);
        assert(s.take(i + 1).drop_last() =~= s.take(i));
        let a = letters(s.take(i));
        let b = letters(s.take(i + 1));
        assert(b.len() >= a.len());
        assert(b =~= a + b.skip(a.len() as int));
        let l = letters(s);
        assert(l =~= b + l.skip(b.len() as int));
        assert(l =~= a + l.skip(a.len() as int));
    } else {
        assert(s.take(i) =~= s);
    }
}

/// A reading session is written only when time passed and the position
/// moved: one with no movement is the reader walking away.
pub fn session_counts(started: i64, ended: i64, from: i64, to: i64) -> (r: bool)
    ensures
        r == (ended > started && to != from),
{
    ended > started && to != from
}

/// Only the first 120 letters and digits of a text decide its hash:
/// punctuation, whitespace and everything past them never matter.
pub proof fn hash_reads_only_the_first_letters(a: Seq<char>, b: Seq<char>)
    requires
        (if letters(a).len() > 120 { letters(a).take(120) } else { letters(a) }) == (if letters(b).len() > 120 {
            letters(b).take(120)
        } else {
            letters(b)
        }),
    ensures
        text_hash_spec(a) == text_hash_spec(b),
{
}

} // verus!
