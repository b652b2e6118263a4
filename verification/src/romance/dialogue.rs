//! Sentence windows, and the dialogue turns whose speaker the narration
//! names: 「我喜欢上你的时候……」封不觉平静地回道 is evidence only once the
//! speaker and the one spoken to are both known.
use vstd::prelude::*;
use crate::cast::census::offset_index;
use crate::romance::ledger::{add_view, ev_view, fold_add, ledger_view, EventV, Ledger, LedgerV};
use crate::romance::people::{named_in, same};
use crate::romance::rules::{all_matches, kind_zh_spec, regex_all, vec_views, Kind};
use crate::chunk::at_byte;
use crate::romance::people::ends_any;
use crate::romance::words::{
    clip, clip_spec, compact, compact_spec, dating_aspect_cues, has_any, has_str, hard_traps, head, negation_cues,
    non_assertion_cues, proposal_cues, speech_cues, tail, negation_cues_words, dating_aspect_cues_words,
    hard_traps_words, proposal_cues_words, non_assertion_cues_words, speech_cues_words,
};
use crate::romance::RelationshipEvidence;
use crate::text::{byte_offsets, contains, ends_with, find_from, first_at, from_chars, occurs, occurs_any, push_all, slice_vec, str_blen, sub_at, suffix, to_chars};

verus! {

/// A sentence ends after 。！？!?；;.
pub open spec fn closes(c: char) -> bool {
    c == '。' || c == '！' || c == '？' || c == '!' || c == '?' || c == '；' || c == ';'
}

fn closes_exec(c: char) -> (r: bool)
    ensures
        r == closes(c),
{
    c == '。' || c == '！' || c == '？' || c == '!' || c == '?' || c == '；' || c == ';'
}

/// A piece kept as a sentence: whitespace removed, at least four
/// characters left.
pub open spec fn emit(ch: usize, piece: Seq<char>) -> Seq<(usize, Seq<char>)> {
    let c = compact_spec(piece);
    if c.len() >= 4 {
        seq![(ch, c)]
    } else {
        Seq::empty()
    }
}

/// The sentences of `line` from the piece that starts at `start`, the scan
/// standing at `i`: a piece ends after a closing mark or at the line's end.
pub open spec fn line_sents(ch: usize, line: Seq<char>, start: int, i: int) -> Seq<(usize, Seq<char>)>
    decreases line.len() - i,
{
    if i < start || start < 0 {
        Seq::empty()
    } else if i >= line.len() {
        if start < line.len() {
            emit(ch, line.subrange(start, line.len() as int))
        } else {
            Seq::empty()
        }
    } else if closes(line[i]) {
        emit(ch, line.subrange(start, i + 1)) + line_sents(ch, line, i + 1, i + 1)
    } else {
        line_sents(ch, line, start, i + 1)
    }
}

/// The sentences of all paragraphs, each with its chapter, in order.
pub open spec fn sents(ps: Seq<(usize, Vec<char>)>) -> Seq<(usize, Seq<char>)>
    decreases ps.len(),
{
    if ps.len() == 0 {
        Seq::empty()
    } else {
        sents(ps.drop_last()) + line_sents(ps.last().0, ps.last().1@, 0, 0)
    }
}

/// Every sentence, each followed by its join with the sentence before when
/// both are of one chapter and together within 360 characters.
pub open spec fn windows(ss: Seq<(usize, Seq<char>)>) -> Seq<(usize, Seq<char>)>
    decreases ss.len(),
{
    if ss.len() == 0 {
        Seq::empty()
    } else {
        let x = ss.last();
        let w = windows(ss.drop_last()).push(x);
        if ss.len() >= 2 && ss[ss.len() - 2].0 == x.0 && ss[ss.len() - 2].1.len() <= 360 && x.1.len() <= 360 - ss[ss.len() - 2].1.len() {
            w.push((x.0, ss[ss.len() - 2].1 + x.1))
        } else {
            w
        }
    }
}

pub open spec fn win_views(ws: Seq<(usize, Vec<char>)>) -> Seq<(usize, Seq<char>)> {
    ws.map_values(|p: (usize, Vec<char>)| (p.0, p.1@))
}

proof fn lemma_line_scan(ch: usize, line: Seq<char>, start: int, i: int, j: int)
    requires
        0 <= start <= i <= j <= line.len(),
        forall|k: int| i <= k < j ==> !closes(line[k]),
    ensures
        line_sents(ch, line, start, i) == line_sents(ch, line, start, j),
    decreases j - i,
{
    if i < j {
        lemma_line_scan(ch, line, start, i + 1, j);
    }
}

/// Every sentence of at least four characters (whitespace removed), and
/// every pair of adjacent sentences of one chapter that together stay
/// within 360 characters: a relationship is often stated across two.
pub fn sentence_windows(paras: &Vec<(usize, Vec<char>)>) -> (r: Vec<(usize, Vec<char>)>)
    ensures
        win_views(r@) == windows(sents(paras@)),
{
    let ghost pv = paras@;
    let mut out: Vec<(usize, Vec<char>)> = Vec::new();
    let mut prev: Option<(usize, Vec<char>)> = None;
    let ghost mut done: Seq<(usize, Seq<char>)> = Seq::empty();
    let mut p: usize = 0;
    assert(pv.take(0) =~= Seq::<(usize, Vec<char>)>::empty());
    while p < paras.len()
        invariant
            pv == paras@,
            p <= pv.len(),
            done == sents(pv.take(p as int)),
            win_views(out@) == windows(done),
            match prev {
                None => done.len() == 0,
                Some(x) => done.len() > 0 && done.last() == (x.0, x.1@),
            },
        decreases paras@.len() - p,
    {
        let ch = paras[p].0;
        let line = &paras[p].1;
        let ghost base = done;
        let ghost mut acc: Seq<(usize, Seq<char>)> = Seq::empty();
        let mut start: usize = 0;
        while start < line.len()
            invariant
                start <= line@.len(),
                line_sents(ch, line@, 0, 0) == acc + line_sents(ch, line@, start as int, start as int),
                done == base + acc,
                win_views(out@) == windows(done),
                match prev {
                    None => done.len() == 0,
                    Some(x) => done.len() > 0 && done.last() == (x.0, x.1@),
                },
            decreases line@.len() - start,
        {
            let mut end = start;
            while end < line.len() && !closes_exec(line[end])
                invariant
                    start <= end <= line@.len(),
                    forall|k: int| start <= k < end ==> !closes(line@[k]),
                decreases line@.len() - end,
            {
                end += 1;
            }
            proof {
                lemma_line_scan(ch, line@, start as int, start as int, end as int);
            }
            if end < line.len() {
                end += 1;
            }
            let ghost next = end;
            let piece = slice_vec(line.as_slice(), start, end);
            assert(line_sents(ch, line@, start as int, start as int) == emit(ch, piece@) + line_sents(ch, line@, next as int, next as int));
            start = end;
            let sentence = compact(piece.as_slice());
            if sentence.len() < 4 {
                assert(emit(ch, piece@) =~= Seq::<(usize, Seq<char>)>::empty());
                assert(acc + emit(ch, piece@) =~= acc);
                continue;
            }
            proof {
                let x = (ch, sentence@);
                assert(emit(ch, piece@) =~= seq![x]);
                assert((acc + seq![x]) + line_sents(ch, line@, next as int, next as int) =~= acc + (seq![x] + line_sents(ch, line@, next as int, next as int)));
                let nd = done.push(x);
                assert(nd.drop_last() =~= done);
                acc = acc.push(x);
                assert(acc =~= acc.drop_last() + seq![x]);
                done = nd;
                assert(done =~= base + acc);
            }
            out.push((ch, crate::cast::graph::copy_vec(&sentence)));
            match &prev {
                Some((pc, pv2)) => {
                    if *pc == ch && pv2.len() <= 360 && sentence.len() <= 360 - pv2.len() {
                        let mut joined = crate::cast::graph::copy_vec(pv2);
                        push_all(&mut joined, sentence.as_slice());
                        out.push((ch, joined));
                    }
                },
                None => {},
            }
            assert(win_views(out@) =~= windows(done));
            prev = Some((ch, sentence));
        }
        proof {
            assert(pv.take(p + 1).drop_last() =~= pv.take(p as int));
            assert(pv.take(p + 1).last() == pv[p as int]);
            assert(line_sents(ch, line@, start as int, start as int) =~= Seq::<(usize, Seq<char>)>::empty());
            assert(acc + Seq::<(usize, Seq<char>)>::empty() =~= acc);
        }
        p += 1;
    }
    assert(pv.take(pv.len() as int) =~= pv);
    out
}

/// A quoted utterance whose speaker the narration names.
pub struct Turn {
    pub chapter: usize,
    pub position: usize,
    pub speaker: usize,
    pub quote: Vec<char>,
    pub text: Vec<char>,
}

/// Scanning `att` for `name` from `i` on, occurrences taken left to
/// right without overlap: one of them is followed within 48 characters by
/// a speech verb.
pub open spec fn cued_scan(att: Seq<char>, name: Seq<char>, i: int) -> bool
    decreases att.len() - i,
{
    if name.len() == 0 || i < 0 || i + name.len() > att.len() {
        false
    } else if sub_at(att, name, i) {
        if occurs_any(after(att, i + name.len(), 48), speech_cues_words()) {
            true
        } else {
            cued_scan(att, name, i + name.len())
        }
    } else {
        cued_scan(att, name, i + 1)
    }
}

/// One of the names is followed by a speech verb.
pub open spec fn speaks(att: Seq<char>, vs: Seq<Seq<char>>) -> bool {
    exists|k: int| 0 <= k < vs.len() && cued_scan(att, #[trigger] vs[k], 0)
}

pub open spec fn nested_views(ns: Seq<Vec<Vec<char>>>) -> Seq<Seq<Seq<char>>> {
    ns.map_values(|vs: Vec<Vec<char>>| vec_views(vs@))
}

/// How many of the first `k` people speak.
pub open spec fn speaker_count(att: Seq<char>, ns: Seq<Seq<Seq<char>>>, k: int) -> int
    decreases k,
{
    if k <= 0 {
        0
    } else {
        speaker_count(att, ns, k - 1) + (if speaks(att, ns[k - 1]) { 1int } else { 0int })
    }
}

/// The first of the first `k` people who speaks.
pub open spec fn first_speaker(att: Seq<char>, ns: Seq<Seq<Seq<char>>>, k: int) -> Option<int>
    decreases k,
{
    if k <= 0 {
        None
    } else {
        let prev = first_speaker(att, ns, k - 1);
        if prev is Some {
            prev
        } else if speaks(att, ns[k - 1]) {
            Some(k - 1)
        } else {
            None
        }
    }
}

/// The one speaker of `att`, when exactly one person speaks.
pub open spec fn speaker_spec(att: Seq<char>, ns: Seq<Seq<Seq<char>>>) -> Option<int> {
    if speaker_count(att, ns, ns.len() as int) == 1 {
        first_speaker(att, ns, ns.len() as int)
    } else {
        None
    }
}

proof fn lemma_scan_skip(att: Seq<char>, name: Seq<char>, from: int, p: int)
    requires
        0 <= from <= p,
        name.len() > 0,
        forall|j: int| from <= j < p ==> !sub_at(att, name, j),
    ensures
        cued_scan(att, name, from) == cued_scan(att, name, p) || (p + name.len() > att.len() && !cued_scan(att, name, from)),
    decreases p - from,
{
    if from < p {
        lemma_scan_skip(att, name, from + 1, p);
    }
}

proof fn lemma_scan_none(att: Seq<char>, name: Seq<char>, from: int)
    requires
        0 <= from,
        name.len() > 0,
        forall|j: int| from <= j ==> !sub_at(att, name, j),
    ensures
        !cued_scan(att, name, from),
    decreases att.len() - from,
{
    if from + name.len() <= att.len() {
        lemma_scan_none(att, name, from + 1);
    }
}

/// The one person whose name, within 48 characters, is followed by a
/// speech verb in `attribution`; none when nobody or several are.
pub fn attributed_speaker(attribution: &Vec<char>, names: &Vec<Vec<Vec<char>>>) -> (r: Option<usize>)
    ensures
        r matches Some(i) ==> i < names@.len(),
        opt_index(r) == speaker_spec(attribution@, nested_views(names@)),
{
    let ghost ns = nested_views(names@);
    let cues = speech_cues();
    let mut hit: Option<usize> = None;
    let mut count: usize = 0;
    let mut idx: usize = 0;
    while idx < names.len()
        invariant
            ns == nested_views(names@),
            cues@ == speech_cues_words(),
            idx <= names@.len(),
            hit matches Some(i) ==> i < names@.len(),
            count <= idx,
            count == speaker_count(attribution@, ns, idx as int),
            count >= 1 ==> opt_index(hit) == first_speaker(attribution@, ns, idx as int),
            count >= 1 ==> hit is Some,
            count == 0 ==> first_speaker(attribution@, ns, idx as int) is None,
        decreases names@.len() - idx,
    {
        let vs = &names[idx];
        assert(ns[idx as int] == vec_views(vs@));
        let mut found = false;
        let mut k: usize = 0;
        while k < vs.len() && !found
            invariant
                cues@ == speech_cues_words(),
                k <= vs@.len(),
                found ==> speaks(attribution@, vec_views(vs@)),
                !found ==> forall|j: int| 0 <= j < k ==> !cued_scan(attribution@, #[trigger] vs@[j]@, 0),
            decreases vs@.len() - k,
        {
            let name = &vs[k];
            if name.len() > 0 {
                let mut from: usize = 0;
                loop
                    invariant_except_break
                        !found,
                    invariant
                        cues@ == speech_cues_words(),
                        from <= attribution@.len(),
                        name@.len() > 0,
                        cued_scan(attribution@, name@, 0) == cued_scan(attribution@, name@, from as int),
                    ensures
                        found == cued_scan(attribution@, name@, 0),
                    decreases attribution@.len() + 1 - from,
                {
                    match find_from(attribution.as_slice(), name.as_slice(), from) {
                        Some(pos) => {
                            proof {
                                crate::text::lemma_first_at(attribution@, name@, from as int);
                                assert(crate::text::sub_at(attribution@, name@, pos as int));
                                lemma_scan_skip(attribution@, name@, from as int, pos as int);
                            }
                            let al = attribution.len();
                            assert(pos + name@.len() <= al);
                            let after = pos + name.len();
                            let t = head(attribution.as_slice(), after, 48);
                            if has_any(t.as_slice(), &cues) {
                                found = true;
                                break;
                            }
                            from = after;
                        },
                        None => {
                            proof {
                                crate::text::lemma_first_at(attribution@, name@, from as int);
                                lemma_scan_none(attribution@, name@, from as int);
                            }
                            break;
                        },
                    }
                }
                if found {
                    assert(vec_views(vs@)[k as int] == name@);
                }
            }
            k += 1;
        }
        proof {
            if !found {
                assert forall|j: int| 0 <= j < vec_views(vs@).len() implies !cued_scan(attribution@, #[trigger] vec_views(vs@)[j], 0) by {
                    assert(vec_views(vs@)[j] == vs@[j]@);
                }
            }
            assert(found == speaks(attribution@, ns[idx as int]));
            assert(first_speaker(attribution@, ns, idx + 1) == (if first_speaker(attribution@, ns, idx as int) is Some {
                first_speaker(attribution@, ns, idx as int)
            } else if found {
                Some(idx as int)
            } else {
                None
            }));
        }
        if found {
            count += 1;
            if count == 1 {
                hit = Some(idx);
            }
        }
        idx += 1;
    }
    if count == 1 {
        hit
    } else {
        None
    }
}

/// A turn as plain values: chapter, paragraph, speaker, quote, text.
pub type TurnV = (usize, usize, usize, Seq<char>, Seq<char>);

pub open spec fn turn_view(t: Turn) -> TurnV {
    (t.chapter, t.position, t.speaker, t.quote@, t.text@)
}

pub open spec fn turn_views(ts: Seq<Turn>) -> Seq<TurnV> {
    ts.map_values(|t: Turn| turn_view(t))
}

/// Who speaks the quote `line[o+1..c]`: the one the narration after it
/// names, else the one the narration before it names.
pub open spec fn quote_speaker(line: Seq<char>, o: int, c: int, ns: Seq<Seq<Seq<char>>>) -> Option<int> {
    match speaker_spec(after(line, c + 1, 120), ns) {
        Some(x) => Some(x),
        None => speaker_spec(before(line, o, 90), ns),
    }
}

/// The turn of the quote between the marks at `o` and `c`, if it is of
/// a usable length and its speaker is named.
pub open spec fn quote_turn(ch: usize, pos: usize, line: Seq<char>, ns: Seq<Seq<Seq<char>>>, o: int, c: int) -> Seq<TurnV> {
    let quote = line.subrange(o + 1, c);
    let bef = before(line, o, 90);
    let aft = after(line, c + 1, 120);
    let text = clip_spec(before(bef, bef.len() as int, 50) + seq!['“'] + quote + seq!['”'] + after(aft, 0, 80), 320);
    if 2 <= quote.len() <= 260 {
        match quote_speaker(line, o, c, ns) {
            Some(sp) => seq![(ch, pos, sp as usize, quote, text)],
            None => Seq::empty(),
        }
    } else {
        Seq::empty()
    }
}

/// The turns of `line` from index `i` on; `o` is the open quotation mark
/// being read past, or negative outside a quote.
pub open spec fn qscan(ch: usize, pos: usize, line: Seq<char>, ns: Seq<Seq<Seq<char>>>, i: int, o: int) -> Seq<TurnV>
    decreases line.len() - i,
{
    if i < 0 || i >= line.len() {
        Seq::empty()
    } else if o < 0 {
        if line[i] == '“' {
            qscan(ch, pos, line, ns, i + 1, i)
        } else {
            qscan(ch, pos, line, ns, i + 1, -1)
        }
    } else if line[i] == '”' {
        quote_turn(ch, pos, line, ns, o, i) + qscan(ch, pos, line, ns, i + 1, -1)
    } else {
        qscan(ch, pos, line, ns, i + 1, o)
    }
}

/// The turns of every paragraph, whitespace removed, in order.
pub open spec fn all_turns(ps: Seq<(usize, Vec<char>)>, ns: Seq<Seq<Seq<char>>>) -> Seq<TurnV>
    decreases ps.len(),
{
    if ps.len() == 0 {
        Seq::empty()
    } else {
        all_turns(ps.drop_last(), ns) + qscan(ps.last().0, (ps.len() - 1) as usize, compact_spec(ps.last().1@), ns, 0, -1)
    }
}

/// One chapter, one speaker, one quote.
pub open spec fn same_turn(a: TurnV, b: TurnV) -> bool {
    a.0 == b.0 && a.2 == b.2 && a.3 == b.3
}

/// The turns without one that repeats an earlier one.
pub open spec fn dedup_turns(ts: Seq<TurnV>) -> Seq<TurnV>
    decreases ts.len(),
{
    if ts.len() == 0 {
        Seq::empty()
    } else {
        let r = dedup_turns(ts.drop_last());
        if exists|j: int| 0 <= j < r.len() && same_turn(#[trigger] r[j], ts.last()) {
            r
        } else {
            r.push(ts.last())
        }
    }
}

/// `y` comes after `x` by chapter, then paragraph.
pub open spec fn turn_after(y: TurnV, x: TurnV) -> bool {
    y.0 > x.0 || (y.0 == x.0 && y.1 > x.1)
}

/// `x` placed after the last turn not after it.
pub open spec fn ins_turn(s: Seq<TurnV>, x: TurnV) -> Seq<TurnV>
    decreases s.len(),
{
    if s.len() == 0 || !turn_after(s.last(), x) {
        s.push(x)
    } else {
        ins_turn(s.drop_last(), x).push(s.last())
    }
}

/// The turns in chapter and paragraph order, ties in their order.
pub open spec fn sort_turns(s: Seq<TurnV>) -> Seq<TurnV>
    decreases s.len(),
{
    if s.len() == 0 {
        Seq::empty()
    } else {
        ins_turn(sort_turns(s.drop_last()), s.last())
    }
}

proof fn lemma_ins_turn(s: Seq<TurnV>, x: TurnV, p: int)
    requires
        0 <= p <= s.len(),
        forall|q: int| p <= q < s.len() ==> turn_after(#[trigger] s[q], x),
        p == 0 || !turn_after(s[p - 1], x),
    ensures
        ins_turn(s, x) == s.insert(p, x),
    decreases s.len(),
{
    if p == s.len() {
        assert(s.insert(p, x) =~= s.push(x));
    } else {
        let d = s.drop_last();
        lemma_ins_turn(d, x, p);
        assert(s.insert(p, x) =~= d.insert(p, x).push(s.last()));
    }
}

proof fn lemma_qscan_out(ch: usize, pos: usize, line: Seq<char>, ns: Seq<Seq<Seq<char>>>, i: int, j: int)
    requires
        0 <= i <= j <= line.len(),
        forall|k: int| i <= k < j ==> line[k] != '“',
    ensures
        qscan(ch, pos, line, ns, i, -1) == qscan(ch, pos, line, ns, j, -1),
    decreases j - i,
{
    if i < j {
        lemma_qscan_out(ch, pos, line, ns, i + 1, j);
    }
}

proof fn lemma_qscan_in(ch: usize, pos: usize, line: Seq<char>, ns: Seq<Seq<Seq<char>>>, o: int, i: int, j: int)
    requires
        0 <= o,
        0 <= i <= j <= line.len(),
        forall|k: int| i <= k < j ==> line[k] != '”',
    ensures
        qscan(ch, pos, line, ns, i, o) == qscan(ch, pos, line, ns, j, o),
    decreases j - i,
{
    if i < j {
        lemma_qscan_in(ch, pos, line, ns, o, i + 1, j);
    }
}

proof fn lemma_mark(line: Seq<char>, m: char, from: int, to: int)
    requires
        0 <= from,
        forall|k: int| from <= k < to ==> !sub_at(line, seq![m], k),
    ensures
        forall|k: int| from <= k < to && k < line.len() ==> line[k] != m,
{
    assert forall|k: int| from <= k < to && k < line.len() implies line[k] != m by {
        if line[k] == m {
            assert(line.subrange(k, k + 1) =~= seq![m]);
            assert(sub_at(line, seq![m], k));
        }
    }
}

/// The quoted utterances of the paragraphs whose speaker is attributed,
/// each (chapter, speaker, quote) once, in chapter and paragraph order.
pub fn dialogue_turns(paras: &Vec<(usize, Vec<char>)>, names: &Vec<Vec<Vec<char>>>) -> (r: Vec<Turn>)
    ensures
        forall|i: int| 0 <= i < r@.len() ==> (#[trigger] r@[i]).speaker < names@.len() && r@[i].position < paras@.len(),
        turn_views(r@) == sort_turns(dedup_turns(all_turns(paras@, nested_views(names@)))),
{
    let ghost pv = paras@;
    let ghost ns = nested_views(names@);
    let mut turns: Vec<Turn> = Vec::new();
    let mut open: Vec<char> = Vec::new();
    open.push('“');
    let mut close: Vec<char> = Vec::new();
    close.push('”');
    assert(open@ =~= seq!['“']);
    assert(close@ =~= seq!['”']);
    let ghost mut cands: Seq<TurnV> = Seq::empty();
    let mut position: usize = 0;
    assert(pv.take(0) =~= Seq::<(usize, Vec<char>)>::empty());
    while position < paras.len()
        invariant
            pv == paras@,
            ns == nested_views(names@),
            position <= pv.len(),
            cands == all_turns(pv.take(position as int), ns),
            turn_views(turns@) == dedup_turns(cands),
            forall|i: int| 0 <= i < turns@.len() ==> (#[trigger] turns@[i]).speaker < names@.len() && turns@[i].position < paras@.len(),
            open@ == seq!['“'],
            close@ == seq!['”'],
        decreases paras@.len() - position,
    {
        let chapter = paras[position].0;
        let line = compact(paras[position].1.as_slice());
        let ghost base = cands;
        let ghost lv = line@;
        let ghost mut acc: Seq<TurnV> = Seq::empty();
        let mut cursor: usize = 0;
        loop
            invariant
                pv == paras@,
                ns == nested_views(names@),
                position < pv.len(),
                chapter == pv[position as int].0,
                lv == line@,
                lv == compact_spec(pv[position as int].1@),
                cursor <= line@.len(),
                qscan(chapter, position, lv, ns, 0, -1) == acc + qscan(chapter, position, lv, ns, cursor as int, -1),
                cands == base + acc,
                turn_views(turns@) == dedup_turns(cands),
                forall|i: int| 0 <= i < turns@.len() ==> (#[trigger] turns@[i]).speaker < names@.len() && turns@[i].position < paras@.len(),
                open@ == seq!['“'],
                close@ == seq!['”'],
            ensures
                qscan(chapter, position, lv, ns, 0, -1) == acc,
                cands == base + acc,
                turn_views(turns@) == dedup_turns(cands),
                forall|i: int| 0 <= i < turns@.len() ==> (#[trigger] turns@[i]).speaker < names@.len() && turns@[i].position < paras@.len(),
            decreases line@.len() - cursor,
        {
            let o = match find_from(line.as_slice(), open.as_slice(), cursor) {
                Some(o) => o,
                None => {
                    proof {
                        crate::text::lemma_first_at(line@, open@, cursor as int);
                        lemma_mark(lv, '“', cursor as int, lv.len() as int);
                        lemma_qscan_out(chapter, position, lv, ns, cursor as int, lv.len() as int);
                        assert(acc + Seq::<TurnV>::empty() =~= acc);
                    }
                    break;
                },
            };
            proof {
                crate::text::lemma_first_at(line@, open@, cursor as int);
                assert(crate::text::sub_at(line@, open@, o as int));
                lemma_mark(lv, '“', cursor as int, o as int);
                lemma_qscan_out(chapter, position, lv, ns, cursor as int, o as int);
                assert(lv[o as int] == lv.subrange(o as int, o + 1)[0]);
            }
            let ll = line.len();
            assert(o + 1 <= ll);
            let qs = o + 1;
            let c = match find_from(line.as_slice(), close.as_slice(), qs) {
                Some(c) => c,
                None => {
                    proof {
                        crate::text::lemma_first_at(line@, close@, qs as int);
                        lemma_mark(lv, '”', qs as int, lv.len() as int);
                        lemma_qscan_in(chapter, position, lv, ns, o as int, qs as int, lv.len() as int);
                        assert(acc + Seq::<TurnV>::empty() =~= acc);
                    }
                    break;
                },
            };
            proof {
                crate::text::lemma_first_at(line@, close@, qs as int);
                assert(crate::text::sub_at(line@, close@, c as int));
                lemma_mark(lv, '”', qs as int, c as int);
                lemma_qscan_in(chapter, position, lv, ns, o as int, qs as int, c as int);
                assert(lv[c as int] == lv.subrange(c as int, c + 1)[0]);
                assert(qscan(chapter, position, lv, ns, qs as int, o as int) == quote_turn(chapter, position, lv, ns, o as int, c as int)
                    + qscan(chapter, position, lv, ns, c + 1, -1));
            }
            let ghost here = quote_turn(chapter, position, lv, ns, o as int, c as int);
            let quote = slice_vec(line.as_slice(), qs, c);
            if quote.len() >= 2 && quote.len() <= 260 {
                let before = tail(line.as_slice(), o, 90);
                let after = head(line.as_slice(), c + 1, 120);
                let speaker = match attributed_speaker(&after, names) {
                    Some(s) => Some(s),
                    None => attributed_speaker(&before, names),
                };
                match speaker {
                    Some(sp) => {
                        let mut dup = false;
                        let mut t: usize = 0;
                        while t < turns.len()
                            invariant
                                t <= turns@.len(),
                                dup == exists|j: int| 0 <= j < t && turns@[j].chapter == chapter && turns@[j].speaker == sp && turns@[j].quote@ == quote@,
                            decreases turns@.len() - t,
                        {
                            if turns[t].chapter == chapter && turns[t].speaker == sp && same(&turns[t].quote, &quote) {
                                dup = true;
                            }
                            t += 1;
                        }
                        let mut text = tail(before.as_slice(), before.len(), 50);
                        text.push('“');
                        push_all(&mut text, quote.as_slice());
                        text.push('”');
                        let h = head(after.as_slice(), 0, 80);
                        push_all(&mut text, h.as_slice());
                        let text = clip(text.as_slice(), 320);
                        let ghost x: TurnV = (chapter, position, sp, quote@, text@);
                        proof {
                            let bef = crate::romance::dialogue::before(lv, o as int, 90);
                            let aft = crate::romance::dialogue::after(lv, c + 1, 120);
                            assert(text@ == clip_spec(crate::romance::dialogue::before(bef, bef.len() as int, 50) + seq!['“'] + quote@ + seq!['”']
                                + crate::romance::dialogue::after(aft, 0, 80), 320)) by {
                                assert(crate::romance::dialogue::before(bef, bef.len() as int, 50) + seq!['“'] + quote@ + seq!['”']
                                    + crate::romance::dialogue::after(aft, 0, 80) =~= crate::romance::dialogue::before(bef, bef.len() as int, 50).push('“') + quote@ + seq!['”']
                                    + crate::romance::dialogue::after(aft, 0, 80));
                                assert(crate::romance::dialogue::before(bef, bef.len() as int, 50).push('“') + quote@ + seq!['”'] =~= (crate::romance::dialogue::before(bef, bef.len() as int, 50).push('“') + quote@).push('”'));
                            }
                            assert(here =~= seq![x]);
                            let nc = cands.push(x);
                            assert(nc.drop_last() =~= cands);
                            let td = turn_views(turns@);
                            assert(dup == exists|j: int| 0 <= j < td.len() && same_turn(#[trigger] td[j], x)) by {
                                if dup {
                                    let j = choose|j: int| 0 <= j < t && turns@[j].chapter == chapter && turns@[j].speaker == sp && turns@[j].quote@ == quote@;
                                    assert(same_turn(td[j], x));
                                }
                                if exists|j: int| 0 <= j < td.len() && same_turn(#[trigger] td[j], x) {
                                    let j = choose|j: int| 0 <= j < td.len() && same_turn(#[trigger] td[j], x);
                                    assert(turns@[j].chapter == chapter && turns@[j].speaker == sp && turns@[j].quote@ == quote@);
                                }
                            }
                            acc = acc.push(x);
                            cands = nc;
                        }
                        if !dup {
                            let ghost pre = turns@;
                            turns.push(Turn { chapter, position, speaker: sp, quote, text });
                            assert(turn_views(turns@) =~= turn_views(pre).push(x));
                        }
                        proof {
                            assert(acc.drop_last() + seq![x] =~= acc);
                            assert(qscan(chapter, position, lv, ns, 0, -1) =~= acc + qscan(chapter, position, lv, ns, c + 1, -1));
                            assert(cands =~= base + acc);
                        }
                    },
                    None => {
                        assert(here =~= Seq::<TurnV>::empty());
                        assert(acc + here =~= acc);
                    },
                }
            } else {
                assert(here =~= Seq::<TurnV>::empty());
                assert(acc + here =~= acc);
            }
            cursor = c + 1;
        }
        proof {
            assert(pv.take(position + 1).drop_last() =~= pv.take(position as int));
            assert(pv.take(position + 1).last() == pv[position as int]);
        }
        position += 1;
    }
    assert(pv.take(pv.len() as int) =~= pv);
    let ghost dd = turn_views(turns@);
    assert(dd == dedup_turns(all_turns(paras@, nested_views(names@))));
    // stable order by (chapter, position)
    let mut out: Vec<Turn> = Vec::new();
    let ghost orig = turns@;
    let n = turns.len();
    let mut k: usize = 0;
    assert(dd.take(0) =~= Seq::<TurnV>::empty());
    while k < n
        invariant
            n == turns@.len(),
            n == orig.len(),
            k <= n,
            dd == turn_views(orig),
            forall|j: int| k <= j < n ==> turns@[j] == orig[j],
            turn_views(out@) == sort_turns(dd.take(k as int)),
            forall|i: int| 0 <= i < turns@.len() ==> (#[trigger] turns@[i]).speaker < names@.len() && turns@[i].position < paras@.len(),
            forall|i: int| 0 <= i < out@.len() ==> (#[trigger] out@[i]).speaker < names@.len() && out@[i].position < paras@.len(),
        decreases n - k,
    {
        let mut t = Turn { chapter: 0, position: 0, speaker: 0, quote: Vec::new(), text: Vec::new() };
        let ghost before_swap = turns@;
        turns.set_and_swap(k, &mut t);
        assert(t == before_swap[k as int]);
        let mut p: usize = out.len();
        while p > 0 && (out[p - 1].chapter > t.chapter || (out[p - 1].chapter == t.chapter && out[p - 1].position > t.position))
            invariant
                p <= out@.len(),
                forall|q: int| p <= q < out@.len() ==> turn_after(#[trigger] turn_views(out@)[q], turn_view(t)),
            decreases p,
        {
            p -= 1;
        }
        let ghost pre = out@;
        proof {
            lemma_ins_turn(turn_views(pre), turn_view(t), p as int);
            assert(dd.take(k + 1).drop_last() =~= dd.take(k as int));
            assert(dd.take(k + 1).last() == turn_view(t));
        }
        out.insert(p, t);
        assert(turn_views(out@) =~= turn_views(pre).insert(p as int, turn_view(t)));
        assert forall|i: int| 0 <= i < out@.len() implies (#[trigger] out@[i]).speaker < names@.len() && out@[i].position < paras@.len() by {
            if i < p {
                assert(out@[i] == pre[i]);
            } else if i > p {
                assert(out@[i] == pre[i - 1]);
            }
        }
        assert forall|i: int| 0 <= i < turns@.len() implies (#[trigger] turns@[i]).speaker < names@.len() && turns@[i].position < paras@.len() by {
            if i != k {
                assert(turns@[i] == before_swap[i]);
            }
        }
        assert forall|j: int| k + 1 <= j < n implies turns@[j] == orig[j] by {
            assert(turns@[j] == before_swap[j]);
        }
        k += 1;
    }
    assert(dd.take(n as int) =~= dd);
    assert(turn_views(out@) == sort_turns(dd));
    out
}

fn distance(a: usize, b: usize) -> (r: usize)
    ensures
        r == (if a > b { a - b } else { b - a }),
{
    if a > b {
        a - b
    } else {
        b - a
    }
}

pub open spec fn dist(a: usize, b: usize) -> int {
    if a > b { a - b } else { b - a }
}

/// `x` is a turn by someone else within three paragraphs of `t`.
pub open spec fn near(t: TurnV, x: TurnV) -> bool {
    x.0 == t.0 && x.2 != t.2 && dist(x.1, t.1) <= 3
}

/// Some name of `vs` occurs in `t`.
pub open spec fn is_named(vs: Seq<Seq<char>>, t: Seq<char>) -> bool {
    exists|k: int| 0 <= k < vs.len() && occurs(t, #[trigger] vs[k])
}

/// The text of paragraphs `left..q` that belong to chapter `ch`.
pub open spec fn context_upto(ps: Seq<(usize, Vec<char>)>, ch: usize, left: int, q: int) -> Seq<char>
    decreases q - left,
{
    if q <= left {
        Seq::empty()
    } else {
        context_upto(ps, ch, left, q - 1) + (if ps[q - 1].0 == ch { ps[q - 1].1@ } else { Seq::empty() })
    }
}

/// The paragraph before a turn's, its own and the one after, within the
/// turn's chapter, whitespace removed.
pub open spec fn context_of(t: TurnV, ps: Seq<(usize, Vec<char>)>) -> Seq<char> {
    let left = if t.1 > 0 { t.1 - 1 } else { 0 };
    let right = if t.1 < ps.len() && ps.len() - t.1 > 2 { t.1 + 2 } else { ps.len() as int };
    compact_spec(context_upto(ps, t.0, left as int, right))
}

/// The one spoken to is `other`: among the nearest turns by someone else
/// within three paragraphs every one is `other`'s; with no such turn,
/// `other` is the only person but the speaker named in the context.
pub open spec fn bound_spec(t: TurnV, other: usize, ts: Seq<TurnV>, ps: Seq<(usize, Vec<char>)>, ns: Seq<Seq<Seq<char>>>) -> bool {
    if exists|i: int| 0 <= i < ts.len() && near(t, #[trigger] ts[i]) {
        forall|i: int|
            0 <= i < ts.len() && near(t, #[trigger] ts[i]) && (forall|j: int| 0 <= j < ts.len() && near(t, #[trigger] ts[j]) ==> dist(ts[i].1, t.1) <= dist(ts[j].1, t.1))
                ==> ts[i].2 == other
    } else {
        let c = context_of(t, ps);
        &&& other < ns.len()
        &&& other != t.2
        &&& is_named(ns[other as int], c)
        &&& forall|i: int| 0 <= i < ns.len() && i != t.2 && i != other ==> !is_named(#[trigger] ns[i], c)
    }
}

/// The one spoken to is `other`: the nearest turn by someone else within
/// three paragraphs is theirs alone; or, with no such turn, `other` is the
/// only other person named in the paragraph, the one before and the one
/// after.
pub fn pair_is_bound(turn: &Turn, other: usize, turns: &Vec<Turn>, paras: &Vec<(usize, Vec<char>)>, names: &Vec<Vec<Vec<char>>>) -> (r: bool)
    ensures
        r == bound_spec(turn_view(*turn), other, turn_views(turns@), paras@, nested_views(names@)),
{
    let ghost ts = turn_views(turns@);
    let ghost tv = turn_view(*turn);
    let mut nearest: usize = usize::MAX;
    let mut any = false;
    let mut t: usize = 0;
    while t < turns.len()
        invariant
            t <= ts.len(),
            ts == turn_views(turns@),
                tv == turn_view(*turn),
            any == exists|j: int| 0 <= j < t && near(tv, #[trigger] ts[j]),
            any ==> exists|j: int| 0 <= j < t && near(tv, #[trigger] ts[j]) && dist(ts[j].1, tv.1) == nearest,
            any ==> nearest <= 3,
            !any ==> nearest == usize::MAX,
            forall|j: int| 0 <= j < t && near(tv, #[trigger] ts[j]) ==> nearest <= dist(ts[j].1, tv.1),
        decreases turns@.len() - t,
    {
        let x = &turns[t];
        let ghost was = any;
        let ghost w = if was {
            choose|j: int| 0 <= j < t && near(tv, #[trigger] ts[j]) && dist(ts[j].1, tv.1) == nearest
        } else {
            0
        };
        if x.chapter == turn.chapter && x.speaker != turn.speaker && distance(x.position, turn.position) <= 3 {
            any = true;
            let d = distance(x.position, turn.position);
            if d < nearest {
                nearest = d;
                assert(near(tv, ts[t as int]) && dist(ts[t as int].1, tv.1) == nearest);
            } else {
                proof {
                    if was {
                        assert(near(tv, ts[w]) && dist(ts[w].1, tv.1) == nearest);
                    }
                }
            }
        } else {
            proof {
                if was {
                    assert(near(tv, ts[w]) && dist(ts[w].1, tv.1) == nearest);
                }
            }
        }
        t += 1;
    }
    if any {
        let mut speaker: Option<usize> = None;
        let mut several = false;
        let mut t: usize = 0;
        while t < turns.len()
            invariant
                t <= ts.len(),
                ts == turn_views(turns@),
                tv == turn_view(*turn),
                nearest <= 3,
                match speaker {
                    None => !several && forall|j: int| 0 <= j < t && near(tv, #[trigger] ts[j]) ==> dist(ts[j].1, tv.1) != nearest,
                    Some(s) => (exists|j: int| 0 <= j < t && near(tv, #[trigger] ts[j]) && dist(ts[j].1, tv.1) == nearest && ts[j].2 == s)
                        && (several <==> exists|j: int| 0 <= j < t && near(tv, #[trigger] ts[j]) && dist(ts[j].1, tv.1) == nearest && ts[j].2 != s),
                },
            decreases turns@.len() - t,
        {
            let x = &turns[t];
            let ghost sp0 = speaker;
            let ghost w = match sp0 {
                Some(s) => choose|j: int| 0 <= j < t && near(tv, #[trigger] ts[j]) && dist(ts[j].1, tv.1) == nearest && ts[j].2 == s,
                None => 0,
            };
            let ghost sev0 = several;
            let ghost v = match sp0 {
                Some(s) => if sev0 {
                    choose|j: int| 0 <= j < t && near(tv, #[trigger] ts[j]) && dist(ts[j].1, tv.1) == nearest && ts[j].2 != s
                } else {
                    0
                },
                None => 0,
            };
            if x.chapter == turn.chapter && x.speaker != turn.speaker && distance(x.position, turn.position) == nearest {
                assert(near(tv, ts[t as int]));
                match speaker {
                    Some(s) => {
                        if s != x.speaker {
                            several = true;
                        }
                    },
                    None => {
                        speaker = Some(x.speaker);
                    },
                }
            }
            proof {
                if sp0 is Some {
                    assert(near(tv, ts[w]) && dist(ts[w].1, tv.1) == nearest);
                    if sev0 {
                        assert(near(tv, ts[v]) && dist(ts[v].1, tv.1) == nearest);
                    }
                }
                if !(near(tv, ts[t as int]) && dist(ts[t as int].1, tv.1) == nearest) {
                    assert(speaker == sp0 && several == sev0);
                }
            }
            t += 1;
        }
        let r = !several && speaker == Some(other);
        proof {
            assert forall|i: int| 0 <= i < ts.len() && near(tv, #[trigger] ts[i]) implies ((forall|j: int| 0 <= j < ts.len() && near(tv, #[trigger] ts[j]) ==> dist(ts[i].1, tv.1) <= dist(ts[j].1, tv.1)) <==> dist(ts[i].1, tv.1) == nearest) by {
                let w = choose|j: int| 0 <= j < ts.len() && near(tv, #[trigger] ts[j]) && dist(ts[j].1, tv.1) == nearest;
                if forall|j: int| 0 <= j < ts.len() && near(tv, #[trigger] ts[j]) ==> dist(ts[i].1, tv.1) <= dist(ts[j].1, tv.1) {
                    assert(dist(ts[i].1, tv.1) <= dist(ts[w].1, tv.1));
                }
            }
            let w = choose|j: int| 0 <= j < ts.len() && near(tv, #[trigger] ts[j]) && dist(ts[j].1, tv.1) == nearest;
            assert(speaker is Some);
        }
        return r;
    }
    let left = if turn.position > 0 { turn.position - 1 } else { 0 };
    let right = if turn.position < paras.len() && paras.len() - turn.position > 2 { turn.position + 2 } else { paras.len() };
    let mut context: Vec<char> = Vec::new();
    let mut q = left;
    while q < right
        invariant
            right <= paras@.len(),
            left <= q <= right || (q == left && right <= left),
            context@ == context_upto(paras@, turn.chapter, left as int, q as int),
        decreases right - q,
    {
        let ghost pre = context@;
        if paras[q].0 == turn.chapter {
            push_all(&mut context, paras[q].1.as_slice());
        }
        assert(context@ =~= context_upto(paras@, turn.chapter, left as int, q + 1));
        q += 1;
    }
    let context = compact(context.as_slice());
    assert(context@ == context_of(tv, paras@));
    let ghost ns = nested_views(names@);
    let ghost c = context@;
    let mut named: Option<usize> = None;
    let mut several = false;
    let mut i: usize = 0;
    while i < names.len()
        invariant
            i <= names@.len(),
            ns == nested_views(names@),
            c == context@,
            match named {
                None => !several && forall|j: int| 0 <= j < i && j != turn.speaker ==> !is_named(#[trigger] ns[j], c),
                Some(x) => x < i && x != turn.speaker && is_named(ns[x as int], c) && (several <==> exists|j: int| 0 <= j < i && j != turn.speaker && j != x && is_named(#[trigger] ns[j], c)),
            },
        decreases names@.len() - i,
    {
        let hit = i != turn.speaker && named_in(&names[i], context.as_slice());
        proof {
            if i != turn.speaker {
                assert(ns[i as int] == vec_views(names@[i as int]@));
                if is_named(ns[i as int], c) {
                    let k = choose|k: int| 0 <= k < ns[i as int].len() && occurs(c, #[trigger] ns[i as int][k]);
                    assert(names@[i as int]@[k]@ == ns[i as int][k]);
                }
                if exists|k: int| 0 <= k < names@[i as int]@.len() && occurs(c, #[trigger] names@[i as int]@[k]@) {
                    let k = choose|k: int| 0 <= k < names@[i as int]@.len() && occurs(c, #[trigger] names@[i as int]@[k]@);
                    assert(names@[i as int]@[k]@ == ns[i as int][k]);
                }
                assert(hit == is_named(ns[i as int], c));
            }
        }
        let ghost nm0 = named;
        let ghost sev0 = several;
        if hit {
            match named {
                Some(_) => {
                    several = true;
                },
                None => {
                    named = Some(i);
                },
            }
        }
        proof {
            if hit {
                assert(i != turn.speaker && is_named(ns[i as int], c));
            }
            if let Some(x) = nm0 {
                assert(x < i && is_named(ns[x as int], c));
                if sev0 {
                    let j = choose|j: int| 0 <= j < i && j != turn.speaker && j != x && is_named(#[trigger] ns[j], c);
                    assert(is_named(ns[j], c));
                }
            }
        }
        i += 1;
    }
    !several && named == Some(other)
}

/// The `count` characters before `upto`, or as many as there are.
pub open spec fn before(t: Seq<char>, upto: int, count: int) -> Seq<char> {
    t.subrange(if upto > count { upto - count } else { 0 }, upto)
}

/// A negation cue closes the eight characters before `start`.
pub open spec fn negated_spec(t: Seq<char>, start: int) -> bool {
    ends_any(before(t, start, 8), negation_cues_words())
}

/// A negation cue closes the eight characters before `start`.
pub fn negated(text: &Vec<char>, start: usize) -> (r: bool)
    requires
        start <= text@.len(),
    ensures
        r == negated_spec(text@, start as int),
{
    let prefix = tail(text.as_slice(), start, 8);
    let cues = negation_cues();
    let mut k: usize = 0;
    while k < cues.len()
        invariant
            cues@ == negation_cues_words(),
            prefix@ == before(text@, start as int, 8),
            k <= cues@.len(),
            forall|j: int| 0 <= j < k ==> !suffix(prefix@, #[trigger] cues@[j]@),
        decreases cues@.len() - k,
    {
        let w = to_chars(cues[k]);
        if ends_with(prefix.as_slice(), w.as_slice()) {
            return true;
        }
        k += 1;
    }
    false
}

pub open spec fn me_you_words() -> Seq<&'static str> {
    seq!["我", "你"]
}

/// The word 谈恋爱.
pub open spec fn dating_word() -> Seq<char> {
    seq!['谈', '恋', '爱']
}

/// The 谈恋爱 at `p` is no statement of fact: the 28 characters before it
/// lack an aspect cue or 我/你, or hold a trap or a proposal, or it is
/// negated.
pub open spec fn skip_spec(q: Seq<char>, p: int) -> bool {
    let prefix = before(q, p, 28);
    !occurs_any(prefix, dating_aspect_cues_words()) || !occurs_any(prefix, me_you_words()) || occurs_any(prefix, hard_traps_words())
        || occurs_any(prefix, proposal_cues_words()) || negated_spec(q, p)
}

/// Some 谈恋爱 in the quote is stated as a fact.
pub open spec fn dating_spec(q: Seq<char>) -> bool {
    exists|p: int| sub_at(q, dating_word(), p) && !skip_spec(q, p)
}

/// The quote states, as a fact between 我 and 你, that they are dating.
pub fn dating_fact(quote: &Vec<char>) -> (r: bool)
    ensures
        r == dating_spec(quote@),
{
    let aspect = dating_aspect_cues();
    let me_you: Vec<&'static str> = vec!["我", "你"];
    let traps = hard_traps();
    let proposal = proposal_cues();
    let mut wv: Vec<char> = Vec::new();
    wv.push('谈');
    wv.push('恋');
    wv.push('爱');
    let w = wv;
    assert(w@ =~= dating_word());
    let mut from: usize = 0;
    loop
        invariant
            from <= quote@.len(),
            w@ == dating_word(),
            aspect@ == dating_aspect_cues_words(),
            me_you@ == me_you_words(),
            traps@ == hard_traps_words(),
            proposal@ == proposal_cues_words(),
            forall|p: int| 0 <= p < from && sub_at(quote@, dating_word(), p) ==> skip_spec(quote@, p),
        decreases quote@.len() + 1 - from,
    {
        match find_from(quote.as_slice(), w.as_slice(), from) {
            Some(p) => {
                proof {
                    crate::text::lemma_first_at(quote@, w@, from as int);
                    assert(crate::text::sub_at(quote@, w@, p as int));
                }
                let ql = quote.len();
                assert(p + 3 <= ql);
                let prefix = tail(quote.as_slice(), p, 28);
                let skip = !has_any(prefix.as_slice(), &aspect) || !has_any(prefix.as_slice(), &me_you)
                    || has_any(prefix.as_slice(), &traps) || has_any(prefix.as_slice(), &proposal) || negated(quote, p);
                assert(prefix@ == before(quote@, p as int, 28));
                assert(skip == skip_spec(quote@, p as int));
                if !skip {
                    assert(sub_at(quote@, dating_word(), p as int));
                    return true;
                }
                assert forall|x: int| 0 <= x < p + 3 && sub_at(quote@, dating_word(), x) implies skip_spec(quote@, x) by {
                    if from <= x < p {
                    } else if x == p + 1 {
                        assert(quote@[x] == quote@.subrange(p as int, p + 3)[1]);
                        assert(quote@.subrange(x, x + 3)[0] == '谈');
                    } else if x == p + 2 {
                        assert(quote@[x] == quote@.subrange(p as int, p + 3)[2]);
                        assert(quote@.subrange(x, x + 3)[0] == '谈');
                    }
                }
                from = p + w.len();
            },
            None => {
                proof {
                    crate::text::lemma_first_at(quote@, w@, from as int);
                }
                return false;
            },
        }
    }
}

/// The earliest first occurrence in `t` of one of the first `k` words.
pub open spec fn first_of_spec(t: Seq<char>, ws: Seq<&'static str>, k: int) -> Option<int>
    decreases k,
{
    if k <= 0 {
        None
    } else {
        let prev = first_of_spec(t, ws, k - 1);
        let p = first_at(t, ws[k - 1]@, 0);
        if p < 0 {
            prev
        } else {
            match prev {
                Some(b) => if p < b { Some(p) } else { prev },
                None => Some(p),
            }
        }
    }
}

fn first_of(text: &Vec<char>, words: &Vec<&'static str>) -> (r: Option<usize>)
    ensures
        opt_index(r) == first_of_spec(text@, words@, words@.len() as int),
{
    let mut best: Option<usize> = None;
    let mut k: usize = 0;
    while k < words.len()
        invariant
            k <= words@.len(),
            opt_index(best) == first_of_spec(text@, words@, k as int),
        decreases words@.len() - k,
    {
        let w = to_chars(words[k]);
        match find_from(text.as_slice(), w.as_slice(), 0) {
            Some(p) => {
                match best {
                    Some(b) => {
                        if p < b {
                            best = Some(p);
                        }
                    },
                    None => {
                        best = Some(p);
                    },
                }
            },
            None => {},
        }
        k += 1;
    }
    best
}

pub open spec fn opt_index(o: Option<usize>) -> Option<int> {
    match o {
        Some(x) => Some(x as int),
        None => None,
    }
}

pub open spec fn cognition_words() -> Seq<&'static str> {
    seq!["想", "觉得", "认为", "知道", "听说"]
}

pub open spec fn third_words() -> Seq<&'static str> {
    seq!["她", "他", "别人", "某人"]
}

/// A thought or report comes first, a third person after it.
pub open spec fn third_spec(t: Seq<char>) -> bool {
    match (first_of_spec(t, cognition_words(), 5), first_of_spec(t, third_words(), 4)) {
        (Some(c), Some(h)) => c < h,
        _ => false,
    }
}

/// A thought or report (想、觉得、听说) comes before a third person: the
/// utterance is about someone else.
pub fn about_third_person(text: &Vec<char>) -> (r: bool)
    ensures
        r == third_spec(text@),
{
    let cognition = first_of(text, &vec!["想", "觉得", "认为", "知道", "听说"]);
    let third = first_of(text, &vec!["她", "他", "别人", "某人"]);
    match (cognition, third) {
        (Some(c), Some(t)) => c < t,
        _ => false,
    }
}

pub open spec fn question_marks() -> Seq<&'static str> {
    seq!["？", "?"]
}

pub open spec fn love_words() -> Seq<&'static str> {
    seq!["喜欢上", "喜欢着", "爱上", "爱着", "喜欢", "爱"]
}

/// The `count` characters from `from` on, or as many as there are.
pub open spec fn after(t: Seq<char>, from: int, count: int) -> Seq<char> {
    t.subrange(from, if t.len() - from > count { from + count } else { t.len() as int })
}

/// The love statement `q[start..end]` is an assertion about the two of
/// them: not plural, not a question, a hypothesis, a proposal or a report,
/// and its predicate not negated.
pub open spec fn direct_love_spec(q: Seq<char>, start: int, end: int) -> bool {
    let prefix = before(q, start, 16);
    let tail4 = after(q, end, 4);
    let matched = q.subrange(start, end);
    let local = prefix + matched + tail4;
    if occurs(matched, "你们"@) || occurs_any(local, non_assertion_cues_words()) || occurs_any(local, hard_traps_words())
        || occurs_any(local, proposal_cues_words()) || occurs_any(tail4, question_marks()) || third_spec(matched) {
        false
    } else {
        match first_of_spec(matched, love_words(), 6) {
            Some(p) => p <= matched.len() && !negated_spec(matched, p),
            None => false,
        }
    }
}

/// A love statement in a quote that is an assertion about the two of them:
/// not plural, not a question, a hypothesis, a proposal or a report, and
/// its predicate not negated.
pub fn direct_love(quote: &Vec<char>, start: usize, end: usize) -> (r: bool)
    requires
        start <= end <= quote@.len(),
    ensures
        r == direct_love_spec(quote@, start as int, end as int),
{
    let prefix = tail(quote.as_slice(), start, 16);
    let suffix = head(quote.as_slice(), end, 4);
    let matched = slice_vec(quote.as_slice(), start, end);
    let mut local = crate::cast::graph::copy_vec(&prefix);
    push_all(&mut local, matched.as_slice());
    push_all(&mut local, suffix.as_slice());
    let qm: Vec<&'static str> = vec!["？", "?"];
    if has_str(matched.as_slice(), "你们") || has_any(local.as_slice(), &non_assertion_cues()) || has_any(
        local.as_slice(),
        &hard_traps(),
    ) || has_any(local.as_slice(), &proposal_cues()) || has_any(suffix.as_slice(), &qm) || about_third_person(&matched) {
        return false;
    }
    match first_of(&matched, &vec!["喜欢上", "喜欢着", "爱上", "爱着", "喜欢", "爱"]) {
        Some(p) => {
            if p <= matched.len() {
                !negated(&matched, p)
            } else {
                false
            }
        },
        None => false,
    }
}

/// Byte offset `x` of `t`, as a character index (`x` on a boundary).
pub fn char_at(t: &Vec<char>, x: usize) -> (r: usize)
    requires
        crate::chunk::boundary(t@, x as int),
    ensures
        r <= t@.len(),
        r == crate::chunk::at_byte(t@, x as int),
        crate::text::blen(t@.take(r as int)) == x,
{
    let s = from_chars(t.as_slice());
    let _n = str_blen(s.as_str());
    let offs = byte_offsets(t.as_slice());
    offset_index(&offs, x, Ghost(t@))
}

/// Evidence of `kind` for `person`, from a turn's text.
fn evidence(chapter: usize, person: &String, kind: Kind, strength: u32, text: &Vec<char>) -> (r: RelationshipEvidence)
    ensures
        r.chapter == chapter,
        r.person@ == person@,
        r.kind@ == kind_zh_spec(kind)@,
        r.strength == strength,
        r.text@ == text@,
{
    RelationshipEvidence { chapter, person: person.clone(), kind: kind.zh().to_owned(), strength, text: from_chars(text.as_slice()) }
}

/// The turns `dialogue_turns` finds.
pub open spec fn turns_spec(ps: Seq<(usize, Vec<char>)>, names: Seq<Vec<Vec<char>>>) -> Seq<TurnV> {
    sort_turns(dedup_turns(all_turns(ps, nested_views(names))))
}

/// The two love-statement patterns: 我…你, then 你…我.
pub open spec fn love_pattern(which: int) -> Seq<char> {
    if which == 0 {
        "我[^。！？!?；;]{0,10}(?:喜欢(?:上|着)?|爱上|爱着|爱)(?:了)?你"@
    } else {
        "你[^。！？!?；;]{0,10}(?:喜欢(?:上|着)?|爱上|爱着|爱)(?:了)?我"@
    }
}

/// The dating fact a turn states, as evidence for `person`.
pub open spec fn dating_event(t: TurnV, person: Seq<char>) -> Seq<EventV> {
    if dating_spec(t.3) {
        seq![(t.0, Kind::Explicit, "对话既成关系："@ + clip_spec(t.3, 90), "双向"@, (t.0, person, kind_zh_spec(Kind::Explicit)@, 9u32, t.4))]
    } else {
        Seq::empty()
    }
}

/// Which way a love statement of pattern `which` points.
pub open spec fn love_dir(t: TurnV, other: usize, which: int) -> Seq<char> {
    if which == 0 {
        if t.2 == 0 { "A→B"@ } else { "B→A"@ }
    } else {
        if other == 0 { "A→B"@ } else { "B→A"@ }
    }
}

/// The direct love statements among the first `k` matches `ms`.
pub open spec fn match_events(t: TurnV, other: usize, person: Seq<char>, which: int, ms: Seq<(usize, usize)>, k: int) -> Seq<EventV>
    decreases k,
{
    if k <= 0 {
        Seq::empty()
    } else {
        let s = at_byte(t.3, ms[k - 1].0 as int);
        let e = at_byte(t.3, ms[k - 1].1 as int);
        match_events(t, other, person, which, ms, k - 1) + (if s <= e && direct_love_spec(t.3, s, e) {
            seq![(t.0, Kind::Love, t.3.subrange(s, e), love_dir(t, other, which), (t.0, person, kind_zh_spec(Kind::Love)@, 5u32, t.4))]
        } else {
            Seq::empty()
        })
    }
}

/// The direct love statements of pattern `which` in a turn's quote.
pub open spec fn love_events(t: TurnV, other: usize, person: Seq<char>, which: int) -> Seq<EventV> {
    let ms = regex_all(love_pattern(which), t.3);
    match_events(t, other, person, which, ms, ms.len() as int)
}

/// The love statements of the first `w` patterns.
pub open spec fn loves_upto(t: TurnV, other: usize, person: Seq<char>, w: int) -> Seq<EventV> {
    if w <= 0 {
        Seq::empty()
    } else if w == 1 {
        love_events(t, other, person, 0)
    } else {
        love_events(t, other, person, 0) + love_events(t, other, person, 1)
    }
}

/// What a turn between the lead (speaker 0) and candidate `c` offers
/// the candidate's ledger, when the one spoken to is bound.
pub open spec fn turn_events(c: usize, t: TurnV, ts: Seq<TurnV>, ps: Seq<(usize, Vec<char>)>, ns: Seq<Seq<Seq<char>>>, person: Seq<char>) -> Seq<EventV> {
    if t.2 == 0 || t.2 == c {
        let other = if t.2 == 0 { c } else { 0 };
        if bound_spec(t, other, ts, ps, ns) {
            dating_event(t, person) + loves_upto(t, other, person, 2)
        } else {
            Seq::empty()
        }
    } else {
        Seq::empty()
    }
}

/// What the first `k` turns offer candidate `c`'s ledger.
pub open spec fn cand_events(c: usize, ts: Seq<TurnV>, ps: Seq<(usize, Vec<char>)>, ns: Seq<Seq<Seq<char>>>, person: Seq<char>, k: int) -> Seq<EventV>
    decreases k,
{
    if k <= 0 {
        Seq::empty()
    } else {
        cand_events(c, ts, ps, ns, person, k - 1) + turn_events(c, ts[k - 1], ts, ps, ns, person)
    }
}

/// Offer one piece of evidence to ledger `cp`.
pub(crate) fn offer_event(ledgers: &mut Vec<Ledger>, cp: usize, chapter: usize, kind: Kind, matched: Vec<char>, direction: &'static str, ev: RelationshipEvidence)
    requires
        cp < old(ledgers)@.len(),
    ensures
        final(ledgers)@.len() == old(ledgers)@.len(),
        ledger_view(final(ledgers)@[cp as int]) == add_view(ledger_view(old(ledgers)@[cp as int]), (chapter, kind, matched@, direction@, ev_view(ev))),
        forall|j: int| 0 <= j < final(ledgers)@.len() && j != cp ==> #[trigger] final(ledgers)@[j] == old(ledgers)@[j],
{
    let ghost orig = ledgers@;
    let mut l = Ledger::new();
    ledgers.set_and_swap(cp, &mut l);
    assert(l == orig[cp as int]);
    l.add(chapter, kind, matched, direction, ev);
    ledgers.set_and_swap(cp, &mut l);
}

pub(crate) proof fn lemma_fold_push(l: LedgerV, es: Seq<EventV>, e: EventV)
    ensures
        fold_add(l, es.push(e)) == add_view(fold_add(l, es), e),
{
    assert(es.push(e).drop_last() =~= es);
}

/// Dialogue evidence for each candidate: an attributed 「我们在谈恋爱」 fact
/// between the lead (speaker 0) and the candidate, and direct 我喜欢你 /
/// 你爱我 statements between them.
pub fn add_dialogue(paras: &Vec<(usize, Vec<char>)>, names: &Vec<Vec<Vec<char>>>, people: &Vec<String>, ledgers: &mut Vec<Ledger>)
    requires
        old(ledgers)@.len() + 1 == names@.len(),
        names@.len() == people@.len(),
    ensures
        final(ledgers)@.len() == old(ledgers)@.len(),
        forall|j: int|
            0 <= j < final(ledgers)@.len() ==> ledger_view(#[trigger] final(ledgers)@[j]) == fold_add(
                ledger_view(old(ledgers)@[j]),
                cand_events(
                    (j + 1) as usize,
                    turns_spec(paras@, names@),
                    paras@,
                    nested_views(names@),
                    people@[j + 1]@,
                    turns_spec(paras@, names@).len() as int,
                ),
            ),
{
    let turns = dialogue_turns(paras, names);
    let ghost tsv = turns_spec(paras@, names@);
    let ghost ns = nested_views(names@);
    let ghost orig = ledgers@;
    assert(turn_views(turns@) == tsv);
    let i_love_you = "我[^。！？!?；;]{0,10}(?:喜欢(?:上|着)?|爱上|爱着|爱)(?:了)?你";
    let you_love_me = "你[^。！？!?；;]{0,10}(?:喜欢(?:上|着)?|爱上|爱着|爱)(?:了)?我";
    let nl = ledgers.len();
    let mut cp: usize = 0;
    while cp < nl
        invariant
            nl == ledgers@.len(),
            nl == orig.len(),
            nl + 1 == names@.len(),
            names@.len() == people@.len(),
            cp <= nl,
            turn_views(turns@) == tsv,
            i_love_you@ == love_pattern(0),
            you_love_me@ == love_pattern(1),
            tsv == turns_spec(paras@, names@),
            ns == nested_views(names@),
            forall|j: int| cp <= j < nl ==> #[trigger] ledgers@[j] == orig[j],
            forall|j: int|
                0 <= j < cp ==> ledger_view(#[trigger] ledgers@[j]) == fold_add(
                    ledger_view(orig[j]),
                    cand_events((j + 1) as usize, tsv, paras@, ns, people@[j + 1]@, tsv.len() as int),
                ),
        decreases nl - cp,
    {
        let candidate = cp + 1;
        let ghost person = people@[candidate as int]@;
        let ghost l0 = ledger_view(orig[cp as int]);
        let ghost before_cp = ledgers@;
        let mut t: usize = 0;
        while t < turns.len()
            invariant
                nl == ledgers@.len(),
                cp < nl,
                candidate == cp + 1,
                nl + 1 == names@.len(),
                names@.len() == people@.len(),
                person == people@[candidate as int]@,
                turn_views(turns@) == tsv,
                i_love_you@ == love_pattern(0),
                you_love_me@ == love_pattern(1),
                ns == nested_views(names@),
                t <= turns@.len(),
                forall|j: int| 0 <= j < nl && j != cp ==> #[trigger] ledgers@[j] == before_cp[j],
                ledger_view(ledgers@[cp as int]) == fold_add(l0, cand_events(candidate, tsv, paras@, ns, person, t as int)),
            decreases turns@.len() - t,
        {
            let turn = &turns[t];
            let ghost tv = tsv[t as int];
            assert(turn_view(*turn) == tv);
            let ghost done = cand_events(candidate, tsv, paras@, ns, person, t as int);
            let ghost mut part: Seq<EventV> = Seq::empty();
            assert(done + part =~= done);
            if turn.speaker == 0 || turn.speaker == candidate {
                let other = if turn.speaker == 0 { candidate } else { 0 };
                if pair_is_bound(turn, other, &turns, paras, names) {
                    if dating_fact(&turn.quote) {
                        let mut matched = to_chars("对话既成关系：");
                        push_all(&mut matched, clip(turn.quote.as_slice(), 90).as_slice());
                        let ev = evidence(turn.chapter, &people[candidate], Kind::Explicit, 9, &turn.text);
                        let ghost e: EventV = (turn.chapter, Kind::Explicit, matched@, "双向"@, ev_view(ev));
                        offer_event(ledgers, cp, turn.chapter, Kind::Explicit, matched, "双向", ev);
                        proof {
                            lemma_fold_push(l0, done + part, e);
                            part = part.push(e);
                            assert((done + part.drop_last()).push(e) =~= done + part);
                        }
                    }
                    assert(part =~= dating_event(tv, person));
                    let qs = from_chars(turn.quote.as_slice());
                    let mut which: usize = 0;
                    while which < 2
                        invariant
                            nl == ledgers@.len(),
                            cp < nl,
                            candidate == cp + 1,
                            nl + 1 == names@.len(),
                            names@.len() == people@.len(),
                            qs@ == turn.quote@,
                            turn_view(*turn) == tv,
                            person == people@[candidate as int]@,
                            other == (if tv.2 == 0 { candidate } else { 0 }),
                            which <= 2,
                            i_love_you@ == love_pattern(0),
                            you_love_me@ == love_pattern(1),
                            part == dating_event(tv, person) + loves_upto(tv, other, person, which as int),
                            forall|j: int| 0 <= j < nl && j != cp ==> #[trigger] ledgers@[j] == before_cp[j],
                            ledger_view(ledgers@[cp as int]) == fold_add(l0, done + part),
                        decreases 2 - which,
                    {
                        let pat = if which == 0 { i_love_you } else { you_love_me };
                        assert(pat@ == love_pattern(which as int));
                        let ms = all_matches(pat, qs.as_str());
                        let ghost base = part;
                        let mut m: usize = 0;
                        while m < ms.len()
                            invariant
                                nl == ledgers@.len(),
                                cp < nl,
                                candidate == cp + 1,
                                nl + 1 == names@.len(),
                                names@.len() == people@.len(),
                                qs@ == turn.quote@,
                                turn_view(*turn) == tv,
                                person == people@[candidate as int]@,
                                other == (if tv.2 == 0 { candidate } else { 0 }),
                                which < 2,
                                m <= ms@.len(),
                                part == base + match_events(tv, other, person, which as int, ms@, m as int),
                                forall|j: int| 0 <= j < nl && j != cp ==> #[trigger] ledgers@[j] == before_cp[j],
                                ledger_view(ledgers@[cp as int]) == fold_add(l0, done + part),
                                forall|i: int| 0 <= i < ms@.len() ==> (#[trigger] ms@[i]).0 <= ms@[i].1 && crate::chunk::boundary(qs@, ms@[i].0 as int)
                                    && crate::chunk::boundary(qs@, ms@[i].1 as int),
                            decreases ms@.len() - m,
                        {
                            let s = char_at(&turn.quote, ms[m].0);
                            let e = char_at(&turn.quote, ms[m].1);
                            let ghost pm = part;
                            if s <= e && direct_love(&turn.quote, s, e) {
                                let direction = if which == 0 {
                                    if turn.speaker == 0 { "A→B" } else { "B→A" }
                                } else {
                                    if other == 0 { "A→B" } else { "B→A" }
                                };
                                assert(direction@ == love_dir(tv, other, which as int));
                                let matched = slice_vec(turn.quote.as_slice(), s, e);
                                let ev = evidence(turn.chapter, &people[candidate], Kind::Love, 5, &turn.text);
                                let ghost x: EventV = (turn.chapter, Kind::Love, matched@, direction@, ev_view(ev));
                                offer_event(ledgers, cp, turn.chapter, Kind::Love, matched, direction, ev);
                                proof {
                                    lemma_fold_push(l0, done + part, x);
                                    part = part.push(x);
                                    assert((done + pm).push(x) =~= done + part);
                                }
                            }
                            proof {
                                assert(part =~= base + match_events(tv, other, person, which as int, ms@, m + 1));
                            }
                            m += 1;
                        }
                        proof {
                            assert(part =~= dating_event(tv, person) + loves_upto(tv, other, person, which + 1));
                        }
                        which += 1;
                    }
                    assert(part == turn_events(candidate, tv, tsv, paras@, ns, person));
                } else {
                    assert(part =~= turn_events(candidate, tv, tsv, paras@, ns, person));
                }
            } else {
                assert(part =~= turn_events(candidate, tv, tsv, paras@, ns, person));
            }
            assert(done + part =~= cand_events(candidate, tsv, paras@, ns, person, t + 1));
            t += 1;
        }
        assert forall|j: int| cp + 1 <= j < nl implies #[trigger] ledgers@[j] == orig[j] by {
            assert(ledgers@[j] == before_cp[j]);
        }
        assert forall|j: int|
            0 <= j < cp + 1 implies ledger_view(#[trigger] ledgers@[j]) == fold_add(
                ledger_view(orig[j]),
                cand_events((j + 1) as usize, tsv, paras@, ns, people@[j + 1]@, tsv.len() as int),
            ) by {
            if j < cp {
                assert(ledgers@[j] == before_cp[j]);
            }
        }
        cp += 1;
    }
}

} // verus!
