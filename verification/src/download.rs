//! A downloaded book: the text file assembled from its chapters, and what to
//! do after each attempt at fetching one chapter.
use vstd::prelude::*;
use crate::text::{from_chars, push_all, split, split_ranges, pieces, tiles, to_chars, trim, trim_range, slice_vec};

verus! {

/// How many times one chapter is asked for.
pub const ATTEMPTS: u32 = 5;

/// The non-blank lines of the first `k` lines, trimmed, each indented by two
/// ideographic spaces and ended by a line break.
pub open spec fn body_upto(ls: Seq<Seq<char>>, k: int) -> Seq<char>
    decreases k,
{
    if k <= 0 {
        Seq::empty()
    } else if trim(ls[k - 1]).len() == 0 {
        body_upto(ls, k - 1)
    } else {
        body_upto(ls, k - 1) + seq!['\u{3000}', '\u{3000}'] + trim(ls[k - 1]) + seq!['\n']
    }
}

/// A chapter's body as the file holds it.
pub open spec fn body_spec(t: Seq<char>) -> Seq<char> {
    body_upto(split(t, '\n'), split(t, '\n').len() as int)
}

/// What stands in for a chapter that could not be fetched.
pub open spec fn hole() -> Seq<char> {
    "\u{3000}\u{3000}（本章抓取失败）\n"@
}

/// One chapter: its title, a blank line, its body (or the hole), a blank line.
pub open spec fn chapter_spec(title: Seq<char>, body: Option<Seq<char>>) -> Seq<char> {
    trim(title) + seq!['\n', '\n'] + match body {
        Some(t) => body_spec(t),
        None => hole(),
    } + seq!['\n']
}

/// The title, the author when there is one, and a blank line; nothing when
/// the title is blank.
pub open spec fn header_spec(title: Seq<char>, author: Seq<char>) -> Seq<char> {
    if trim(title).len() == 0 {
        Seq::empty()
    } else {
        trim(title) + seq!['\n'] + (if trim(author).len() > 0 { "作者："@ + trim(author) + seq!['\n'] } else { Seq::empty() }) + seq!['\n']
    }
}

pub open spec fn chapter_views(cs: Seq<(String, Option<String>)>) -> Seq<(Seq<char>, Option<Seq<char>>)> {
    cs.map_values(|c: (String, Option<String>)| (c.0@, match c.1 { Some(t) => Some(t@), None => None }))
}

/// The first `k` chapters, one after another.
pub open spec fn chapters_upto(cs: Seq<(Seq<char>, Option<Seq<char>>)>, k: int) -> Seq<char>
    decreases k,
{
    if k <= 0 {
        Seq::empty()
    } else {
        chapters_upto(cs, k - 1) + chapter_spec(cs[k - 1].0, cs[k - 1].1)
    }
}

/// The whole file.
pub open spec fn txt_spec(title: Seq<char>, author: Seq<char>, cs: Seq<(Seq<char>, Option<Seq<char>>)>) -> Seq<char> {
    header_spec(title, author) + chapters_upto(cs, cs.len() as int)
}

fn trimmed(s: &str) -> (r: Vec<char>)
    ensures
        r@ == trim(s@),
{
    let v = to_chars(s);
    let (a, b) = trim_range(v.as_slice(), 0, v.len());
    assert(v@.subrange(0, v@.len() as int) =~= v@);
    slice_vec(v.as_slice(), a, b)
}

fn push_body(out: &mut Vec<char>, t: &str)
    ensures
        final(out)@ == old(out)@ + body_spec(t@),
{
    let v = to_chars(t);
    let rs = split_ranges(v.as_slice(), '\n');
    let ghost ls = split(v@, '\n');
    let ghost start = out@;
    let mut k: usize = 0;
    while k < rs.len()
        invariant
            pieces(v@, rs@) == ls,
            tiles(v@, rs@, '\n'),
            ls.len() == rs@.len(),
            k <= rs@.len(),
            out@ == start + body_upto(ls, k as int),
        decreases rs@.len() - k,
    {
        let (s, e) = rs[k];
        assert(ls[k as int] == v@.subrange(s as int, e as int));
        let (x, y) = trim_range(v.as_slice(), s, e);
        if y > x {
            let ghost pre = out@;
            out.push('\u{3000}');
            out.push('\u{3000}');
            push_all(out, slice_vec(v.as_slice(), x, y).as_slice());
            out.push('\n');
            assert(out@ =~= pre + seq!['\u{3000}', '\u{3000}'] + trim(ls[k as int]) + seq!['\n']);
        }
        k += 1;
    }
}

/// The text file of a downloaded book: a header with the title and author,
/// then every chapter in order, a chapter that could not be fetched standing
/// as a named hole so the book keeps its numbering.
pub fn assemble_txt(title: &str, author: &str, chapters: &Vec<(String, Option<String>)>) -> (r: String)
    ensures
        r@ == txt_spec(title@, author@, chapter_views(chapters@)),
{
    let ghost cv = chapter_views(chapters@);
    let mut out: Vec<char> = Vec::new();
    let t = trimmed(title);
    if t.len() > 0 {
        push_all(&mut out, t.as_slice());
        out.push('\n');
        let a = trimmed(author);
        if a.len() > 0 {
            push_all(&mut out, to_chars("作者：").as_slice());
            push_all(&mut out, a.as_slice());
            out.push('\n');
        }
        out.push('\n');
    }
    assert(out@ =~= header_spec(title@, author@));
    let ghost head = out@;
    let hole_s = to_chars("\u{3000}\u{3000}（本章抓取失败）\n");
    let mut i: usize = 0;
    while i < chapters.len()
        invariant
            cv == chapter_views(chapters@),
            i <= chapters@.len(),
            hole_s@ == hole(),
            out@ == head + chapters_upto(cv, i as int),
        decreases chapters@.len() - i,
    {
        let ghost pre = out@;
        push_all(&mut out, trimmed(chapters[i].0.as_str()).as_slice());
        out.push('\n');
        out.push('\n');
        let ghost mid = out@;
        match &chapters[i].1 {
            Some(t) => {
                push_body(&mut out, t.as_str());
            },
            None => {
                push_all(&mut out, hole_s.as_slice());
            },
        }
        out.push('\n');
        assert(out@ =~= pre + chapter_spec(cv[i as int].0, cv[i as int].1));
        i += 1;
    }
    from_chars(out.as_slice())
}

/// What came of one attempt at a chapter.
pub enum FetchEvent {
    /// The download was cancelled.
    Cancelled,
    /// The page came back; `blank` when its text is only whitespace.
    Body { blank: bool },
    /// The request failed; `throttled` when the site refused to be hurried.
    Failed { throttled: bool },
}

/// What to do next.
#[derive(PartialEq, Eq, Structural)]
pub enum FetchAction {
    /// Stop the whole download.
    Stop,
    /// Keep the text; `ease` when the pacer may speed up again.
    Keep { ease: bool },
    /// Record the chapter as a hole.
    Give,
    /// Back off for `factor` times the pacer's back-off, then ask again when
    /// `again`, else record the chapter as a hole.
    Wait { factor: u32, again: bool },
}

/// The attempts made at a chapter so far, and whether the site slowed them.
#[derive(PartialEq, Eq, Structural)]
pub struct FetchState {
    pub attempt: u32,
    pub slowed: bool,
}

pub open spec fn fetch_step_spec(s: FetchState, ev: FetchEvent) -> (FetchState, FetchAction) {
    match ev {
        FetchEvent::Cancelled => (s, FetchAction::Stop),
        FetchEvent::Body { blank } => if blank { (s, FetchAction::Give) } else { (s, FetchAction::Keep { ease: !s.slowed }) },
        FetchEvent::Failed { throttled } => if !throttled {
            (s, FetchAction::Give)
        } else {
            (
                FetchState { attempt: (s.attempt + 1) as u32, slowed: true },
                FetchAction::Wait { factor: (s.attempt + 1) as u32, again: s.attempt + 1 < ATTEMPTS },
            )
        },
    }
}

/// One decision of the fetch loop: a cancelled download stops; a page with
/// text is kept (and lets the pacer ease when the site never slowed this
/// chapter); a blank page or a real failure leaves a hole at once, since
/// asking again changes nothing; a throttled request backs off longer each
/// time and asks again until five attempts have been made.
pub fn fetch_step(s: FetchState, ev: FetchEvent) -> (r: (FetchState, FetchAction))
    requires
        s.attempt < ATTEMPTS,
    ensures
        r == fetch_step_spec(s, ev),
{
    match ev {
        FetchEvent::Cancelled => (s, FetchAction::Stop),
        FetchEvent::Body { blank } => {
            if blank {
                (s, FetchAction::Give)
            } else {
                let ease = !s.slowed;
                (s, FetchAction::Keep { ease })
            }
        },
        FetchEvent::Failed { throttled } => {
            if !throttled {
                (s, FetchAction::Give)
            } else {
                let n = s.attempt + 1;
                (FetchState { attempt: n, slowed: true }, FetchAction::Wait { factor: n, again: n < ATTEMPTS })
            }
        },
    }
}

/// A chapter is never asked for more than five times: from a fresh state,
/// every run of throttled failures ends with a wait that does not ask again
/// by the fifth attempt.
pub proof fn attempts_are_bounded(s: FetchState)
    requires
        s.attempt < ATTEMPTS,
    ensures
        fetch_step_spec(s, FetchEvent::Failed { throttled: true }).0.attempt == s.attempt + 1,
        s.attempt + 1 == ATTEMPTS ==> fetch_step_spec(s, FetchEvent::Failed { throttled: true }).1 == (FetchAction::Wait { factor: ATTEMPTS, again: false }),
{
}

} // verus!
