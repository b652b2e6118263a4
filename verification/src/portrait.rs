//! The reader's portrait: a short second-person 阅读小传 woven from counted
//! facts. Every sentence is a hand-written template; the numbers are
//! slotted in, and a rotating seed picks among phrasings so the same facts
//! read freshly each time.
pub mod tally;

use vstd::prelude::*;
use crate::text::{dec, decimal, push_all, to_chars};

verus! {

/// What the portrait is written from. Durations arrive already spelled
/// ("42 分钟", "3.5 小时"), since spelling hours takes fractions.
pub struct PortraitFacts {
    pub total_secs: i64,
    pub active_days: i64,
    pub streak: i64,
    pub longest_session_secs: i64,
    /// Seconds read at night (22:00 to 05:00 local).
    pub night_secs: i64,
    pub dominant_bucket: &'static str,
    pub finished: usize,
    /// The most-read book: its title and the spelled time spent on it.
    pub top_book: Option<(String, String)>,
    pub top_genres: Vec<String>,
    pub top_authors: Vec<String>,
    pub top_moods: Vec<String>,
    /// Local month and day of the very first session; 0 when none.
    pub first_month: i64,
    pub first_day: i64,
    /// The spelled total reading time and longest session.
    pub total_text: String,
    pub longest_text: String,
}

/// Decimal spelling of an integer, with a minus sign when negative.
pub open spec fn int_text(n: int) -> Seq<char> {
    if n < 0 {
        seq!['-'] + dec((-n) as nat)
    } else {
        dec(n as nat)
    }
}

pub(crate) fn int_chars(n: i64) -> (r: Vec<char>)
    ensures
        r@ == int_text(n as int),
{
    if n < 0 {
        let m: u64 = if n == i64::MIN { 9223372036854775808u64 } else { (-n) as u64 };
        let d = decimal(m);
        let mut r: Vec<char> = Vec::new();
        r.push('-');
        push_all(&mut r, d.as_slice());
        assert(r@ =~= seq!['-'] + d@);
        r
    } else {
        decimal(n as u64)
    }
}

/// The template the seed picks among `k` phrasings for slot `salt`.
pub open spec fn pick(seed: int, salt: int, k: int) -> int {
    (seed + salt) % k
}

/// Words joined with 、.
pub open spec fn joined(ws: Seq<Seq<char>>) -> Seq<char>
    decreases ws.len(),
{
    if ws.len() == 0 {
        Seq::empty()
    } else if ws.len() == 1 {
        ws[0]
    } else {
        joined(ws.drop_last()) + seq!['、'] + ws.last()
    }
}

pub open spec fn views(v: Seq<String>) -> Seq<Seq<char>> {
    v.map_values(|s: String| s@)
}

/// 1. The opening: the day the story began.
pub open spec fn opening(f: PortraitFacts, seed: int) -> Seq<char> {
    let m = int_text(f.first_month as int);
    let d = int_text(f.first_day as int);
    if f.first_month > 0 {
        let k = pick(seed, 1, 3);
        if k == 0 {
            "从 "@ + m + " 月 "@ + d + " 日翻开第一页起，你便与这里的故事有了牵绊。"@
        } else if k == 1 {
            "故事要从 "@ + m + " 月 "@ + d + " 日说起——那天，你在这里读下了第一行字。"@
        } else {
            m + " 月 "@ + d + " 日，你合上现实，翻开了这里的第一个故事。"@
        }
    } else if pick(seed, 1, 2) == 0 {
        "你与这里的故事，早已相识。"@
    } else {
        "不知从哪一天起，你就爱上了在这里读书。"@
    }
}

/// 2. How long, over how many days.
pub open spec fn total(f: PortraitFacts, seed: int) -> Seq<char> {
    let t = f.total_text@;
    let n = int_text(f.active_days as int);
    let k = pick(seed, 2, 3);
    if k == 0 {
        "至今，你已在字里行间停留了 "@ + t + "，散落在 "@ + n + " 个有书相伴的日子里。"@
    } else if k == 1 {
        "到今天，你交给阅读的光阴累计有 "@ + t + "，落在 "@ + n + " 个日子之中。"@
    } else {
        "算下来，你已读了 "@ + t + "，这些时光分布在 "@ + n + " 个日子里。"@
    }
}

/// A night reader: the dominant time is late night, or two fifths of the
/// time read is at night.
pub open spec fn night_reader(f: PortraitFacts) -> bool {
    f.dominant_bucket@ == "深夜"@ || (f.total_secs > 0 && 5 * (f.night_secs as int) >= 2 * (f.total_secs as int))
}

/// 3. The rhythm: when the reader reads, and for how long at a stretch.
pub open spec fn rhythm(f: PortraitFacts, seed: int) -> Seq<char> {
    let when = if night_reader(f) {
        if pick(seed, 3, 2) == 0 {
            "你偏爱在夜深时读书，万籁俱寂，故事才刚刚醒来。"@
        } else {
            "夜色是你读书的底色——旁人入睡时，你正翻到最要紧的那一页。"@
        }
    } else if pick(seed, 3, 2) == 0 {
        "你习惯在"@ + f.dominant_bucket@ + "翻开书页，让文字陪你度过那段时光。"@
    } else {
        f.dominant_bucket@ + "是你与书相处最多的时候，安安静静，刚刚好。"@
    };
    let s = int_text(f.streak as int);
    let l = f.longest_text@;
    let stretch = if f.streak >= 3 {
        if pick(seed, 4, 2) == 0 {
            "最近这 "@ + s + " 天，你一天也不曾落下。"@
        } else {
            "连着 "@ + s + " 天，你都没有错过与书的约定。"@
        }
    } else if f.longest_session_secs >= 1800 {
        if pick(seed, 4, 2) == 0 {
            "有一回，你一口气读了 "@ + l + "，舍不得停下。"@
        } else {
            "你曾一头扎进故事里 "@ + l + "，浑然忘了时间。"@
        }
    } else {
        Seq::empty()
    };
    when + stretch
}

/// 4. What is read: genres, moods, authors.
pub open spec fn genre_part(f: PortraitFacts, seed: int) -> Seq<char> {
    let g = joined(views(f.top_genres@));
    if f.top_genres@.len() == 0 {
        Seq::empty()
    } else if pick(seed, 5, 2) == 0 {
        "你的偏爱写在书目里——"@ + g + "，是你一次次回去的地方。"@
    } else {
        "翻得最多的，是"@ + g + "这样的故事。"@
    }
}

pub open spec fn mood_part(f: PortraitFacts, seed: int) -> Seq<char> {
    let md = joined(views(f.top_moods@));
    if f.top_moods@.len() == 0 {
        Seq::empty()
    } else if pick(seed, 6, 2) == 0 {
        "那些"@ + md + "的段落，最能把你留住。"@
    } else {
        "你格外偏爱"@ + md + "的滋味。"@
    }
}

pub open spec fn author_part(f: PortraitFacts, seed: int) -> Seq<char> {
    let a = joined(views(f.top_authors@));
    if f.top_authors@.len() == 0 {
        Seq::empty()
    } else if pick(seed, 7, 2) == 0 {
        a + " 的字，你读得格外投入。"@
    } else {
        "遇上 "@ + a + "，你总愿意多留一会儿。"@
    }
}

pub open spec fn tastes(f: PortraitFacts, seed: int) -> Seq<char> {
    genre_part(f, seed) + mood_part(f, seed) + author_part(f, seed)
}

/// 5. The treasured book; 6. the closing line.
pub open spec fn closing(f: PortraitFacts, seed: int) -> Seq<char> {
    let book = match f.top_book {
        Some(b) => {
            let k = pick(seed, 8, 3);
            if k == 0 {
                "而在所有故事里，《"@ + b.0@ + "》是你的心头好，你为它停留了 "@ + b.1@ + "。"@
            } else if k == 1 {
                "《"@ + b.0@ + "》大概是你的宝藏——"@ + b.1@ + " 的陪伴，别的书都比不上。"@
            } else {
                "若要挑一本珍藏，那一定是《"@ + b.0@ + "》，你在它身上花了 "@ + b.1@ + "。"@
            }
        },
        None => Seq::empty(),
    };
    let fin = int_text(f.finished as int);
    let end = if f.finished > 0 {
        if pick(seed, 9, 2) == 0 {
            "你已读完 "@ + fin + " 本，也曾在一些书前浅尝辄止——每一次翻开，都是一次出发。"@
        } else {
            "这一路，你读完了 "@ + fin + " 本书，剩下的故事，还在等你。"@
        }
    } else if pick(seed, 9, 2) == 0 {
        "还有很多故事在等你翻开，慢慢来，不必着急。"@
    } else {
        "长夜与好书都还很长，愿你读得尽兴。"@
    };
    book + end
}

/// The whole portrait, or nothing when nothing has been read yet.
pub open spec fn portrait_spec(f: PortraitFacts, angle: int) -> Seq<char> {
    let seed = angle % 9973;
    if f.total_secs == 0 {
        Seq::empty()
    } else {
        opening(f, seed) + total(f, seed) + rhythm(f, seed) + tastes(f, seed) + closing(f, seed)
    }
}

fn put(out: &mut Vec<char>, s: &str)
    ensures
        final(out)@ == old(out)@ + s@,
{
    let v = to_chars(s);
    push_all(out, v.as_slice());
}

fn put_chars(out: &mut Vec<char>, v: &Vec<char>)
    ensures
        final(out)@ == old(out)@ + v@,
{
    push_all(out, v.as_slice());
}

fn join_words(ws: &Vec<String>) -> (r: Vec<char>)
    ensures
        r@ == joined(views(ws@)),
{
    let mut out: Vec<char> = Vec::new();
    let mut i: usize = 0;
    while i < ws.len()
        invariant
            i <= ws@.len(),
            out@ == joined(views(ws@).take(i as int)),
        decreases ws.len() - i,
    {
        let ghost pre = out@;
        let w = to_chars(ws[i].as_str());
        if i > 0 {
            out.push('、');
        }
        push_all(&mut out, w.as_slice());
        assert(views(ws@).take(i + 1).drop_last() =~= views(ws@).take(i as int));
        if i == 0 {
            assert(out@ =~= views(ws@).take(1)[0]);
        } else {
            assert(out@ =~= pre + seq!['、'] + ws@[i as int]@);
        }
        i += 1;
    }
    assert(views(ws@).take(ws@.len() as int) =~= views(ws@));
    out
}

fn put_opening(out: &mut Vec<char>, f: &PortraitFacts, seed: u64)
    requires
        seed < 9973,
    ensures
        final(out)@ == old(out)@ + opening(*f, seed as int),
{
    let m = int_chars(f.first_month);
    let d = int_chars(f.first_day);
    if f.first_month > 0 {
        let k = (seed + 1) % 3;
        if k == 0 {
            put(out, "从 ");
            put_chars(out, &m);
            put(out, " 月 ");
            put_chars(out, &d);
            put(out, " 日翻开第一页起，你便与这里的故事有了牵绊。");
        } else if k == 1 {
            put(out, "故事要从 ");
            put_chars(out, &m);
            put(out, " 月 ");
            put_chars(out, &d);
            put(out, " 日说起——那天，你在这里读下了第一行字。");
        } else {
            put_chars(out, &m);
            put(out, " 月 ");
            put_chars(out, &d);
            put(out, " 日，你合上现实，翻开了这里的第一个故事。");
        }
    } else if (seed + 1) % 2 == 0 {
        put(out, "你与这里的故事，早已相识。");
    } else {
        put(out, "不知从哪一天起，你就爱上了在这里读书。");
    }
}

fn put_total(out: &mut Vec<char>, f: &PortraitFacts, seed: u64)
    requires
        seed < 9973,
    ensures
        final(out)@ == old(out)@ + total(*f, seed as int),
{
    let t = to_chars(f.total_text.as_str());
    let n = int_chars(f.active_days);
    let k = (seed + 2) % 3;
    if k == 0 {
        put(out, "至今，你已在字里行间停留了 ");
        put_chars(out, &t);
        put(out, "，散落在 ");
        put_chars(out, &n);
        put(out, " 个有书相伴的日子里。");
    } else if k == 1 {
        put(out, "到今天，你交给阅读的光阴累计有 ");
        put_chars(out, &t);
        put(out, "，落在 ");
        put_chars(out, &n);
        put(out, " 个日子之中。");
    } else {
        put(out, "算下来，你已读了 ");
        put_chars(out, &t);
        put(out, "，这些时光分布在 ");
        put_chars(out, &n);
        put(out, " 个日子里。");
    }
}

fn str_is(a: &str, b: &str) -> (r: bool)
    ensures
        r == (a@ == b@),
{
    let x = to_chars(a);
    let y = to_chars(b);
    if x.len() != y.len() {
        return false;
    }
    let mut i: usize = 0;
    while i < x.len()
        invariant
            x@ == a@,
            y@ == b@,
            x@.len() == y@.len(),
            i <= x@.len(),
            forall|j: int| 0 <= j < i ==> x@[j] == y@[j],
        decreases x.len() - i,
    {
        if x[i] != y[i] {
            return false;
        }
        i += 1;
    }
    assert(x@ =~= y@);
    true
}

fn put_rhythm(out: &mut Vec<char>, f: &PortraitFacts, seed: u64)
    requires
        seed < 9973,
    ensures
        final(out)@ == old(out)@ + rhythm(*f, seed as int),
{
    let ghost o0 = out@;
    let night = str_is(f.dominant_bucket, "深夜") || (f.total_secs > 0 && 5 * (f.night_secs as i128) >= 2 * (f.total_secs as i128));
    let b = to_chars(f.dominant_bucket);
    if night {
        if (seed + 3) % 2 == 0 {
            put(out, "你偏爱在夜深时读书，万籁俱寂，故事才刚刚醒来。");
        } else {
            put(out, "夜色是你读书的底色——旁人入睡时，你正翻到最要紧的那一页。");
        }
    } else if (seed + 3) % 2 == 0 {
        put(out, "你习惯在");
        put_chars(out, &b);
        put(out, "翻开书页，让文字陪你度过那段时光。");
    } else {
        put_chars(out, &b);
        put(out, "是你与书相处最多的时候，安安静静，刚刚好。");
    }
    let ghost o1 = out@;
    let sv = int_chars(f.streak);
    let l = to_chars(f.longest_text.as_str());
    if f.streak >= 3 {
        if (seed + 4) % 2 == 0 {
            put(out, "最近这 ");
            put_chars(out, &sv);
            put(out, " 天，你一天也不曾落下。");
        } else {
            put(out, "连着 ");
            put_chars(out, &sv);
            put(out, " 天，你都没有错过与书的约定。");
        }
    } else if f.longest_session_secs >= 1800 {
        if (seed + 4) % 2 == 0 {
            put(out, "有一回，你一口气读了 ");
            put_chars(out, &l);
            put(out, "，舍不得停下。");
        } else {
            put(out, "你曾一头扎进故事里 ");
            put_chars(out, &l);
            put(out, "，浑然忘了时间。");
        }
    }
    assert(out@ =~= o0 + rhythm(*f, seed as int));
}

fn put_genres(out: &mut Vec<char>, f: &PortraitFacts, seed: u64)
    requires
        seed < 9973,
    ensures
        final(out)@ == old(out)@ + genre_part(*f, seed as int),
{
    let ghost o0 = out@;
    if f.top_genres.len() > 0 {
        let g = join_words(&f.top_genres);
        if (seed + 5) % 2 == 0 {
            put(out, "你的偏爱写在书目里——");
            put_chars(out, &g);
            put(out, "，是你一次次回去的地方。");
        } else {
            put(out, "翻得最多的，是");
            put_chars(out, &g);
            put(out, "这样的故事。");
        }
    }
    assert(out@ =~= o0 + genre_part(*f, seed as int));
}

fn put_moods(out: &mut Vec<char>, f: &PortraitFacts, seed: u64)
    requires
        seed < 9973,
    ensures
        final(out)@ == old(out)@ + mood_part(*f, seed as int),
{
    let ghost o0 = out@;
    if f.top_moods.len() > 0 {
        let md = join_words(&f.top_moods);
        if (seed + 6) % 2 == 0 {
            put(out, "那些");
            put_chars(out, &md);
            put(out, "的段落，最能把你留住。");
        } else {
            put(out, "你格外偏爱");
            put_chars(out, &md);
            put(out, "的滋味。");
        }
    }
    assert(out@ =~= o0 + mood_part(*f, seed as int));
}

fn put_authors(out: &mut Vec<char>, f: &PortraitFacts, seed: u64)
    requires
        seed < 9973,
    ensures
        final(out)@ == old(out)@ + author_part(*f, seed as int),
{
    let ghost o0 = out@;
    if f.top_authors.len() > 0 {
        let a = join_words(&f.top_authors);
        if (seed + 7) % 2 == 0 {
            put_chars(out, &a);
            put(out, " 的字，你读得格外投入。");
        } else {
            put(out, "遇上 ");
            put_chars(out, &a);
            put(out, "，你总愿意多留一会儿。");
        }
    }
    assert(out@ =~= o0 + author_part(*f, seed as int));
}

fn put_closing(out: &mut Vec<char>, f: &PortraitFacts, seed: u64)
    requires
        seed < 9973,
    ensures
        final(out)@ == old(out)@ + closing(*f, seed as int),
{
    let ghost o0 = out@;
    match &f.top_book {
        Some(b) => {
            let title = to_chars(b.0.as_str());
            let spent = to_chars(b.1.as_str());
            let k = (seed + 8) % 3;
            if k == 0 {
                put(out, "而在所有故事里，《");
                put_chars(out, &title);
                put(out, "》是你的心头好，你为它停留了 ");
                put_chars(out, &spent);
                put(out, "。");
            } else if k == 1 {
                put(out, "《");
                put_chars(out, &title);
                put(out, "》大概是你的宝藏——");
                put_chars(out, &spent);
                put(out, " 的陪伴，别的书都比不上。");
            } else {
                put(out, "若要挑一本珍藏，那一定是《");
                put_chars(out, &title);
                put(out, "》，你在它身上花了 ");
                put_chars(out, &spent);
                put(out, "。");
            }
        },
        None => {},
    }
    let fin = decimal(f.finished as u64);
    assert(fin@ == int_text(f.finished as int));
    if f.finished > 0 {
        if (seed + 9) % 2 == 0 {
            put(out, "你已读完 ");
            put_chars(out, &fin);
            put(out, " 本，也曾在一些书前浅尝辄止——每一次翻开，都是一次出发。");
        } else {
            put(out, "这一路，你读完了 ");
            put_chars(out, &fin);
            put(out, " 本书，剩下的故事，还在等你。");
        }
    } else if (seed + 9) % 2 == 0 {
        put(out, "还有很多故事在等你翻开，慢慢来，不必着急。");
    } else {
        put(out, "长夜与好书都还很长，愿你读得尽兴。");
    }
    assert(out@ =~= o0 + closing(*f, seed as int));
}

/// A 阅读画像 paragraph grounded in the counted facts; `angle` (advanced by
/// 换一篇) varies the phrasing. Empty when nothing has been read yet.
pub fn reader_portrait(facts: &PortraitFacts, angle: i32) -> (r: String)
    ensures
        r@ == portrait_spec(*facts, angle as int),
{
    if facts.total_secs == 0 {
        let e = String::new();
        assert(e@ =~= Seq::<char>::empty());
        return e;
    }
    let a = angle as i64;
    let m = a % 9973;
    let seed: u64 = if m < 0 { (m + 9973) as u64 } else { m as u64 };
    assert(seed as int == (angle as int) % 9973);
    let mut out: Vec<char> = Vec::new();
    put_opening(&mut out, facts, seed);
    put_total(&mut out, facts, seed);
    put_rhythm(&mut out, facts, seed);
    put_genres(&mut out, facts, seed);
    put_moods(&mut out, facts, seed);
    put_authors(&mut out, facts, seed);
    put_closing(&mut out, facts, seed);
    assert(out@ =~= portrait_spec(*facts, angle as int));
    crate::text::from_chars(out.as_slice())
}

} // verus!
