//! Hard-wrap repair: old TXT exports break every paragraph into fixed-width
//! physical lines. The repair happens where paragraphs are *presented*, never
//! in the text itself — byte offsets into the decoded text stay valid, and the
//! original file is never touched.
use vstd::prelude::*;
use crate::text::{alnum, is_ascii_alnum, to_chars, trim_end, trim_end_at};

verus! {

/// Characters that end a Chinese paragraph with confidence. Narrower than the
/// fingerprint's paragraph ends on purpose: a colon or a dash mid-paragraph is
/// common, and treating it as an end would shred rewrapped paragraphs at every
/// line of dialogue.
pub open spec fn strong_end(c: char) -> bool {
    c == '。' || c == '！' || c == '？' || c == '…' || c == '”' || c == '’' || c == '』'
        || c == '」' || c == '）' || c == '】'
}

pub fn is_strong_end(c: char) -> (r: bool)
    ensures
        r == strong_end(c),
{
    c == '。' || c == '！' || c == '？' || c == '…' || c == '”' || c == '’' || c == '』'
        || c == '」' || c == '）' || c == '】'
}

/// The line, less trailing whitespace, runs the full width (or one short of
/// it) and does not stop on a paragraph end.
pub open spec fn continues_spec(line: Seq<char>, width: nat) -> bool {
    let t = trim_end(line);
    t.len() + 1 >= width && !(t.len() > 0 && strong_end(t.last()))
}

/// Does this physical line continue on the next one? Only a line that was cut
/// by the wrap width says yes: it runs the full width and stops without a
/// paragraph-ending character. A short line ended because the paragraph did.
pub fn continues(line: &str, width: usize) -> (r: bool)
    ensures
        r == continues_spec(line@, width as nat),
{
    let v = to_chars(line);
    let n = trim_end_at(v.as_slice(), 0, v.len());
    assert(v@.subrange(0, v@.len() as int) =~= v@);
    let long_enough = width == 0 || n >= width - 1;
    let ends = n > 0 && is_strong_end(v[n - 1]);
    long_enough && !ends
}

/// The text that `join` appends: a space when two ASCII words meet at the
/// cut, then the continuation itself.
pub open spec fn join_spec(para: Seq<char>, next: Seq<char>) -> Seq<char> {
    let a = para.len() > 0 && alnum(para.last());
    let b = next.len() > 0 && alnum(next[0]);
    if a && b {
        para + seq![' '] + next
    } else {
        para + next
    }
}

/// Append a continuation to a paragraph. Chinese joins seamlessly; two ASCII
/// words meeting at the cut need the space the wrap swallowed.
pub fn join(para: &mut String, next: &str)
    ensures
        final(para)@ == join_spec(old(para)@, next@),
{
    let pv = to_chars(para.as_str());
    let nv = to_chars(next);
    let a = pv.len() > 0 && is_ascii_alnum(pv[pv.len() - 1]);
    let b = nv.len() > 0 && is_ascii_alnum(nv[0]);
    if a && b {
        para.append(" ");
        proof {
            reveal_strlit(" ");
        }
    }
    para.append(next);
}


/// A line that stops on a paragraph end — 。！？…”’』」）】, trailing
/// whitespace aside — never continues, whatever the width; a line that
/// runs the full width and stops on anything else does.
pub proof fn a_paragraph_end_stops_the_line(line: Seq<char>, width: nat)
    ensures
        ({
            let t = trim_end(line);
            let c = t.last();
            t.len() > 0 && (c == '。' || c == '！' || c == '？' || c == '…' || c == '”' || c == '’' || c == '』' || c == '」'
                || c == '）' || c == '】') ==> !continues_spec(line, width)
        }),
        ({
            let t = trim_end(line);
            let c = t.last();
            t.len() > 0 && t.len() + 1 >= width && !(c == '。' || c == '！' || c == '？' || c == '…' || c == '”' || c == '’'
                || c == '』' || c == '」' || c == '）' || c == '】') ==> continues_spec(line, width)
        }),
        trim_end(line).len() + 1 < width ==> !continues_spec(line, width),
{
}
} // verus!
