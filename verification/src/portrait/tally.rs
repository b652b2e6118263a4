//! The counted facts a portrait is written from: reading time from the
//! session log, and what the time was spent on from the shelf.
use vstd::prelude::*;
use crate::assistant::{floor_div, hour_bucket_spec, ymd_from_epoch, ymd_spec};
use crate::romance::ledger::str_same;
use crate::store::BookRecord;
use crate::text::{from_chars, lex_less, lex_lt, slice_vec, to_chars, trim_range};

verus! {

/// A logged session: (book id, started, ended), Unix seconds.
pub type Session = (i64, i64, i64);

/// How long a session lasted; a clock that ran backwards counts nothing.
pub open spec fn dur(e: Session) -> int {
    if e.2 - e.1 > 0 {
        e.2 - e.1
    } else {
        0
    }
}

/// The local hour a session started in.
pub open spec fn hour_of(e: Session, tz: int) -> int {
    ((e.1 + tz) % 86400) / 3600
}

/// The local day a session started on.
pub open spec fn day_of(e: Session, tz: int) -> int {
    (e.1 + tz) / 86400
}

/// Night is 22:00 to 05:00.
pub open spec fn at_night(e: Session, tz: int) -> bool {
    hour_of(e, tz) < 5 || hour_of(e, tz) > 21
}

/// Seconds of the first `k` sessions that satisfy `f`.
pub open spec fn secs_where(evs: Seq<Session>, k: int, f: spec_fn(Session) -> bool) -> int
    decreases k,
{
    if k <= 0 {
        0
    } else {
        secs_where(evs, k - 1, f) + if f(evs[k - 1]) {
            dur(evs[k - 1])
        } else {
            0
        }
    }
}

pub open spec fn all_sessions() -> spec_fn(Session) -> bool {
    |e: Session| true
}

pub open spec fn night_sessions(tz: int) -> spec_fn(Session) -> bool {
    |e: Session| at_night(e, tz)
}

pub open spec fn bucket_sessions(tz: int, b: &'static str) -> spec_fn(Session) -> bool {
    |e: Session| hour_bucket_spec(hour_of(e, tz) as i64) == b
}

pub open spec fn book_sessions(id: i64) -> spec_fn(Session) -> bool {
    |e: Session| e.0 == id
}

/// The longest of the first `k` sessions (0 when none).
pub open spec fn longest_upto(evs: Seq<Session>, k: int) -> int
    decreases k,
{
    if k <= 0 {
        0
    } else {
        let m = longest_upto(evs, k - 1);
        if dur(evs[k - 1]) > m {
            dur(evs[k - 1])
        } else {
            m
        }
    }
}

/// The earliest start of the first `k` sessions (`i64::MAX` when none).
pub open spec fn first_upto(evs: Seq<Session>, k: int) -> int
    decreases k,
{
    if k <= 0 {
        i64::MAX as int
    } else {
        let m = first_upto(evs, k - 1);
        if evs[k - 1].1 < m {
            evs[k - 1].1 as int
        } else {
            m
        }
    }
}

/// The distinct local days of the first `k` sessions, in the order first read.
pub open spec fn days_upto(evs: Seq<Session>, tz: int, k: int) -> Seq<int>
    decreases k,
{
    if k <= 0 {
        Seq::empty()
    } else {
        let ds = days_upto(evs, tz, k - 1);
        let d = day_of(evs[k - 1], tz);
        if ds.contains(d) {
            ds
        } else {
            ds.push(d)
        }
    }
}

/// How many consecutive days, counting down from `d`, hold reading (at
/// most `fuel`).
pub open spec fn run_len(ds: Seq<int>, d: int, fuel: nat) -> nat
    decreases fuel,
{
    if fuel == 0 || !ds.contains(d) {
        0
    } else {
        1 + run_len(ds, d - 1, (fuel - 1) as nat)
    }
}

/// The current streak: consecutive reading days ending today, or ending
/// yesterday when nothing was read yet today.
pub open spec fn streak_spec(ds: Seq<int>, today: int) -> nat {
    let d = if ds.contains(today) {
        today
    } else {
        today - 1
    };
    run_len(ds, d, ds.len())
}

/// The six parts of the day.
pub open spec fn buckets() -> Seq<&'static str> {
    seq!["深夜", "清晨", "上午", "中午", "下午", "晚上"]
}

/// Some session starts in part `b` of the day.
pub open spec fn bucket_seen(evs: Seq<Session>, tz: int, b: &'static str) -> bool {
    exists|i: int| 0 <= i < evs.len() && hour_bucket_spec(hour_of(#[trigger] evs[i], tz) as i64) == b
}

/// The part of the day most read in, among those read in at all; 深夜 for
/// an empty log. (Which of two equal parts wins is left open.)
pub open spec fn dominant_ok(evs: Seq<Session>, tz: int, b: &'static str) -> bool {
    if evs.len() == 0 {
        b == "深夜"
    } else {
        &&& bucket_seen(evs, tz, b)
        &&& forall|j: int|
            0 <= j < 6 ==> secs_where(evs, evs.len() as int, bucket_sessions(tz, b)) >= secs_where(
                evs,
                evs.len() as int,
                bucket_sessions(tz, #[trigger] buckets()[j]),
            )
    }
}

proof fn lemma_secs_bounds(evs: Seq<Session>, k: int, f: spec_fn(Session) -> bool)
    requires
        0 <= k <= evs.len(),
    ensures
        0 <= secs_where(evs, k, f) <= secs_where(evs, k, all_sessions()),
    decreases k,
{
    if k > 0 {
        lemma_secs_bounds(evs, k - 1, f);
    }
}

proof fn lemma_secs_mono(evs: Seq<Session>, j: int, k: int, f: spec_fn(Session) -> bool)
    requires
        0 <= j <= k <= evs.len(),
    ensures
        secs_where(evs, j, f) <= secs_where(evs, k, f),
    decreases k,
{
    if j < k {
        lemma_secs_mono(evs, j, k - 1, f);
    }
}

/// What the log says: total, longest, night time, first start, the seconds
/// of each part of the day and whether it was read in at all.
pub struct LogSums {
    pub total: i64,
    pub longest: i64,
    pub night: i64,
    pub first: i64,
    pub bucket_secs: Vec<i64>,
    pub bucket_hit: Vec<bool>,
    pub days: Vec<i64>,
}

/// The local hour and day of a start time.
fn local_hour_day(started: i64, tz: i64) -> (r: (i64, i64))
    requires
        i64::MIN <= started + tz <= i64::MAX,
    ensures
        r.0 == ((started + tz) % 86400) / 3600,
        r.1 == (started + tz) / 86400,
        0 <= r.0 < 24,
{
    let local = started + tz;
    let day = floor_div(local, 86400);
    let wide: i128 = (local as i128) - (day as i128) * 86400;
    assert(wide == local % 86400) by (nonlinear_arith)
        requires
            day == local / 86400,
            wide == local - day * 86400,
    ;
    let rem = wide as i64;
    (rem / 3600, day)
}

/// Where part `hour_bucket(h)` of the day stands in [`buckets`].
fn bucket_index(h: i64) -> (r: usize)
    ensures
        r < 6,
        buckets()[r as int] == hour_bucket_spec(h),
{
    if 5 <= h && h <= 7 {
        1
    } else if 8 <= h && h <= 11 {
        2
    } else if 12 <= h && h <= 13 {
        3
    } else if 14 <= h && h <= 17 {
        4
    } else if 18 <= h && h <= 21 {
        5
    } else {
        0
    }
}

/// Sessions whose arithmetic stays in range: each length, each local start
/// time, and the total.
pub open spec fn log_fits(evs: Seq<Session>, tz: int) -> bool {
    &&& forall|i: int|
        0 <= i < evs.len() ==> i64::MIN <= (#[trigger] evs[i]).2 - evs[i].1 <= i64::MAX && i64::MIN
            <= evs[i].1 + tz <= i64::MAX
    &&& secs_where(evs, evs.len() as int, all_sessions()) <= i64::MAX
}

fn log_sums(evs: &Vec<Session>, tz: i64) -> (r: LogSums)
    requires
        log_fits(evs@, tz as int),
    ensures
        r.total == secs_where(evs@, evs@.len() as int, all_sessions()),
        r.longest == longest_upto(evs@, evs@.len() as int),
        r.night == secs_where(evs@, evs@.len() as int, night_sessions(tz as int)),
        r.first == first_upto(evs@, evs@.len() as int),
        r.bucket_secs@.len() == 6,
        r.bucket_hit@.len() == 6,
        forall|j: int|
            0 <= j < 6 ==> #[trigger] r.bucket_secs@[j] == secs_where(
                evs@,
                evs@.len() as int,
                bucket_sessions(tz as int, buckets()[j]),
            ) && r.bucket_hit@[j] == bucket_seen(evs@, tz as int, buckets()[j]),
        r.days@.map_values(|d: i64| d as int) == days_upto(evs@, tz as int, evs@.len() as int),
{
    let ghost e = evs@;
    let ghost t = tz as int;
    let n = evs.len();
    let mut total: i64 = 0;
    let mut longest: i64 = 0;
    let mut night: i64 = 0;
    let mut first: i64 = i64::MAX;
    let mut secs: Vec<i64> = vec![0, 0, 0, 0, 0, 0];
    let mut hit: Vec<bool> = vec![false, false, false, false, false, false];
    let mut days: Vec<i64> = Vec::new();
    let mut i: usize = 0;
    while i < n
        invariant
            n == e.len(),
            e == evs@,
            t == tz as int,
            log_fits(e, t),
            i <= n,
            total == secs_where(e, i as int, all_sessions()),
            longest == longest_upto(e, i as int),
            night == secs_where(e, i as int, night_sessions(t)),
            first == first_upto(e, i as int),
            secs@.len() == 6,
            hit@.len() == 6,
            forall|j: int|
                0 <= j < 6 ==> #[trigger] secs@[j] == secs_where(e, i as int, bucket_sessions(t, buckets()[j]))
                    && hit@[j] == exists|q: int|
                    0 <= q < i && hour_bucket_spec(hour_of(#[trigger] e[q], t) as i64) == buckets()[j],
            days@.map_values(|d: i64| d as int) == days_upto(e, t, i as int),
        decreases n - i,
    {
        let ev = evs[i];
        proof {
            lemma_secs_mono(e, i + 1, n as int, all_sessions());
            lemma_secs_bounds(e, i + 1, night_sessions(t));
            lemma_secs_bounds(e, i as int, all_sessions());
            assert forall|j: int| 0 <= j < 6 implies secs_where(e, i + 1, bucket_sessions(t, #[trigger] buckets()[j])) <= i64::MAX by {
                lemma_secs_bounds(e, i + 1, bucket_sessions(t, buckets()[j]));
            }
        }
        let d: i64 = if ev.2 - ev.1 > 0 { ev.2 - ev.1 } else { 0 };
        total = total + d;
        if d > longest {
            longest = d;
        }
        if ev.1 < first {
            first = ev.1;
        }
        let (hour, day) = local_hour_day(ev.1, tz);
        if hour < 5 || hour > 21 {
            night = night + d;
        }
        let bi = bucket_index(hour);
        proof {
            assert(hour == hour_of(e[i as int], t));
            assert forall|q: int| 0 <= q < 6 implies bucket_sessions(t, #[trigger] buckets()[q])(e[i as int]) == (q == bi) by {
                if q != bi {
                    assert(buckets()[q] != buckets()[bi as int]);
                }
            }
        }
        let ghost pre_secs = secs@;
        let ghost pre_hit = hit@;
        let v = secs[bi] + d;
        secs.set(bi, v);
        hit.set(bi, true);
        // the day, once
        let mut seen = false;
        let mut k: usize = 0;
        while k < days.len()
            invariant
                k <= days@.len(),
                seen == exists|q: int| 0 <= q < k && days@[q] == day,
            decreases days@.len() - k,
        {
            if days[k] == day {
                seen = true;
            }
            k += 1;
        }
        proof {
            let dv = days@.map_values(|x: i64| x as int);
            assert(dv.contains(day as int) == seen) by {
                if seen {
                    let q = choose|q: int| 0 <= q < days@.len() && days@[q] == day;
                    assert(dv[q] == day as int);
                }
                if dv.contains(day as int) {
                    let q = choose|q: int| 0 <= q < dv.len() && dv[q] == day as int;
                    assert(days@[q] == day);
                }
            }
        }
        let ghost pre_days = days@;
        if !seen {
            days.push(day);
            assert(days@.map_values(|x: i64| x as int) =~= pre_days.map_values(|x: i64| x as int).push(day as int));
        }
        proof {
            assert forall|q: int| 0 <= q < 6 implies #[trigger] secs@[q] == secs_where(e, i + 1, bucket_sessions(t, buckets()[q]))
                && hit@[q] == exists|p: int| 0 <= p < i + 1 && hour_bucket_spec(hour_of(#[trigger] e[p], t) as i64) == buckets()[q] by {
                assert(bucket_sessions(t, buckets()[q])(e[i as int]) == (q == bi));
                assert(secs_where(e, i + 1, bucket_sessions(t, buckets()[q])) == secs_where(e, i as int, bucket_sessions(t, buckets()[q]))
                    + if bucket_sessions(t, buckets()[q])(e[i as int]) { dur(e[i as int]) } else { 0 });
                assert(d == dur(e[i as int]));
                assert(pre_secs[q] == secs_where(e, i as int, bucket_sessions(t, buckets()[q])));
                if q == bi {
                    assert(secs@[q] == pre_secs[q] + d);
                    assert(hour_bucket_spec(hour_of(e[i as int], t) as i64) == buckets()[q]);
                    assert(0 <= i < i + 1);
                } else {
                    assert(secs@[q] == pre_secs[q]);
                    assert(hour_bucket_spec(hour_of(e[i as int], t) as i64) != buckets()[q]);
                    if exists|p: int| 0 <= p < i + 1 && hour_bucket_spec(hour_of(#[trigger] e[p], t) as i64) == buckets()[q] {
                        let p = choose|p: int| 0 <= p < i + 1 && hour_bucket_spec(hour_of(#[trigger] e[p], t) as i64) == buckets()[q];
                        assert(p < i);
                    }
                }
            }
        }
        i += 1;
    }
    LogSums { total, longest, night, first, bucket_secs: secs, bucket_hit: hit, days }
}


// ------------------------------------------------------------ tags

/// What separates the tags of a tag list.
pub open spec fn tag_sep(c: char) -> bool {
    c == ',' || c == '，' || c == '、' || c == ' '
}

/// The pieces between separators: never empty, one more than separators.
pub open spec fn raw_pieces(s: Seq<char>) -> Seq<Seq<char>>
    decreases s.len(),
{
    if s.len() == 0 {
        seq![Seq::<char>::empty()]
    } else {
        let p = raw_pieces(s.drop_last());
        if tag_sep(s.last()) {
            p.push(Seq::<char>::empty())
        } else {
            p.update(p.len() - 1, p.last().push(s.last()))
        }
    }
}

pub proof fn lemma_raw_pieces_len(s: Seq<char>)
    ensures
        raw_pieces(s).len() >= 1,
    decreases s.len(),
{
    if s.len() > 0 {
        lemma_raw_pieces_len(s.drop_last());
    }
}

pub open spec fn nonempty(p: Seq<char>) -> bool {
    p.len() > 0
}

pub open spec fn trimmed(ps: Seq<Seq<char>>) -> Seq<Seq<char>> {
    ps.map_values(|p: Seq<char>| crate::text::trim(p))
}

/// The tags of a list like `玄幻, 修仙、热血`: each piece trimmed, empty ones
/// dropped.
pub open spec fn tags_of(s: Seq<char>) -> Seq<Seq<char>> {
    trimmed(raw_pieces(s)).filter(|p: Seq<char>| nonempty(p))
}

pub open spec fn str_views(v: Seq<String>) -> Seq<Seq<char>> {
    v.map_values(|x: String| x@)
}

proof fn lemma_kept_push(done: Seq<Seq<char>>, p: Seq<char>)
    ensures
        trimmed(done.push(p)).filter(|q: Seq<char>| nonempty(q)) == if nonempty(crate::text::trim(p)) {
            trimmed(done).filter(|q: Seq<char>| nonempty(q)).push(crate::text::trim(p))
        } else {
            trimmed(done).filter(|q: Seq<char>| nonempty(q))
        },
{
    assert(trimmed(done.push(p)) =~= trimmed(done).push(crate::text::trim(p)));
    trimmed(done).lemma_filter_push(crate::text::trim(p), |q: Seq<char>| nonempty(q));
}

/// The tags of a tag list, in order.
pub fn split_tags(s: &str) -> (r: Vec<String>)
    ensures
        str_views(r@) == tags_of(s@),
{
    let v = to_chars(s);
    let n = v.len();
    let mut out: Vec<String> = Vec::new();
    let mut start: usize = 0;
    let ghost mut done: Seq<Seq<char>> = Seq::empty();
    let mut i: usize = 0;
    assert(v@.take(0) =~= Seq::<char>::empty());
    assert(raw_pieces(Seq::<char>::empty()) =~= done.push(v@.subrange(0, 0)));
    while i < n
        invariant
            n == v@.len(),
            start <= i <= n,
            raw_pieces(v@.take(i as int)) == done.push(v@.subrange(start as int, i as int)),
            str_views(out@) == trimmed(done).filter(|q: Seq<char>| nonempty(q)),
        decreases n - i,
    {
        let ghost t = v@.take(i + 1);
        assert(t.drop_last() =~= v@.take(i as int));
        assert(t.last() == v@[i as int]);
        if v[i] == ',' || v[i] == '，' || v[i] == '、' || v[i] == ' ' {
            let (a, b) = trim_range(v.as_slice(), start, i);
            proof {
                lemma_kept_push(done, v@.subrange(start as int, i as int));
            }
            if a < b {
                let ghost pre = out@;
                out.push(from_chars(slice_vec(v.as_slice(), a, b).as_slice()));
                assert(str_views(out@) =~= str_views(pre).push(v@.subrange(a as int, b as int)));
            }
            proof {
                assert(tag_sep(t.last()));
                assert(raw_pieces(t) == raw_pieces(v@.take(i as int)).push(Seq::<char>::empty()));
                done = done.push(v@.subrange(start as int, i as int));
                assert(v@.subrange(i + 1, i + 1) =~= Seq::<char>::empty());
                assert(raw_pieces(t) =~= done.push(v@.subrange(i + 1, i + 1)));
            }
            start = i + 1;
        } else {
            proof {
                assert(!tag_sep(t.last()));
                let p = raw_pieces(v@.take(i as int));
                assert(raw_pieces(t) == p.update(p.len() - 1, p.last().push(t.last())));
                assert(p.last() == v@.subrange(start as int, i as int));
                assert(v@.subrange(start as int, i as int).push(v@[i as int]) =~= v@.subrange(start as int, i + 1));
                assert(raw_pieces(t) =~= done.push(v@.subrange(start as int, i + 1)));
            }
        }
        i += 1;
    }
    assert(v@.take(n as int) =~= v@);
    let (a, b) = trim_range(v.as_slice(), start, n);
    proof {
        lemma_kept_push(done, v@.subrange(start as int, n as int));
    }
    if a < b {
        let ghost pre = out@;
        out.push(from_chars(slice_vec(v.as_slice(), a, b).as_slice()));
        assert(str_views(out@) =~= str_views(pre).push(v@.subrange(a as int, b as int)));
    }
    out
}

// ------------------------------------------------------------ tallies

/// Names with a count, each name once, in the order first seen.
pub type Tally = Seq<(Seq<char>, int)>;

pub open spec fn tally_view(m: Seq<(String, i64)>) -> Tally {
    m.map_values(|p: (String, i64)| (p.0@, p.1 as int))
}

pub open spec fn names_unique(m: Tally) -> bool {
    forall|a: int, b: int| 0 <= a < b < m.len() ==> (#[trigger] m[a]).0 != (#[trigger] m[b]).0
}

pub open spec fn counts_ok(m: Tally) -> bool {
    forall|a: int| 0 <= a < m.len() ==> 0 <= (#[trigger] m[a]).1 <= i64::MAX
}

/// `a + b`, held at `i64::MAX`.
pub open spec fn sat(a: int, b: int) -> int {
    if a + b > i64::MAX {
        i64::MAX as int
    } else {
        a + b
    }
}

/// `v` more for `name`.
pub open spec fn acc(m: Tally, name: Seq<char>, v: int) -> Tally {
    if exists|i: int| 0 <= i < m.len() && (#[trigger] m[i]).0 == name {
        let i = choose|i: int| 0 <= i < m.len() && (#[trigger] m[i]).0 == name;
        m.update(i, (name, sat(m[i].1, v)))
    } else {
        m.push((name, v))
    }
}

/// `v` more for each name of `names`, in order.
pub open spec fn acc_all(m: Tally, names: Seq<Seq<char>>, v: int) -> Tally
    decreases names.len(),
{
    if names.len() == 0 {
        m
    } else {
        acc(acc_all(m, names.drop_last(), v), names.last(), v)
    }
}

fn add_to(m: &mut Vec<(String, i64)>, name: String, v: i64)
    requires
        names_unique(tally_view(old(m)@)),
        counts_ok(tally_view(old(m)@)),
        v >= 0,
    ensures
        tally_view(final(m)@) == acc(tally_view(old(m)@), name@, v as int),
        names_unique(tally_view(final(m)@)),
        counts_ok(tally_view(final(m)@)),
{
    let ghost pre = tally_view(m@);
    let ghost nm = name@;
    let mut k: usize = 0;
    while k < m.len()
        invariant
            k <= m@.len(),
            v >= 0,
            nm == name@,
            pre == tally_view(m@),
            pre == tally_view(old(m)@),
            names_unique(pre),
            counts_ok(pre),
            forall|j: int| 0 <= j < k ==> (#[trigger] pre[j]).0 != name@,
        decreases m@.len() - k,
    {
        if str_same(m[k].0.as_str(), name.as_str()) {
            assert(pre[k as int].0 == name@);
            let c = m[k].1;
            let nv: i64 = if c > i64::MAX - v { i64::MAX } else { c + v };
            let ghost i = choose|i: int| 0 <= i < pre.len() && (#[trigger] pre[i]).0 == nm;
            assert(i == k);
            assert(acc(pre, nm, v as int) == pre.update(k as int, (nm, sat(pre[k as int].1, v as int))));
            m.set(k, (name, nv));
            assert(tally_view(m@) =~= pre.update(k as int, (nm, sat(pre[k as int].1, v as int))));
            return;
        }
        k += 1;
    }
    let ghost nv = name@;
    m.push((name, v));
    assert(tally_view(m@) =~= pre.push((nv, v as int)));
}

fn add_all(m: &mut Vec<(String, i64)>, names: &Vec<String>, v: i64)
    requires
        names_unique(tally_view(old(m)@)),
        counts_ok(tally_view(old(m)@)),
        v >= 0,
    ensures
        tally_view(final(m)@) == acc_all(tally_view(old(m)@), str_views(names@), v as int),
        names_unique(tally_view(final(m)@)),
        counts_ok(tally_view(final(m)@)),
{
    let ghost pre = tally_view(m@);
    let mut j: usize = 0;
    assert(str_views(names@).take(0) =~= Seq::<Seq<char>>::empty());
    while j < names.len()
        invariant
            j <= names@.len(),
            v >= 0,
            names_unique(tally_view(m@)),
            counts_ok(tally_view(m@)),
            tally_view(m@) == acc_all(pre, str_views(names@).take(j as int), v as int),
        decreases names@.len() - j,
    {
        let ghost t = str_views(names@).take(j + 1);
        assert(t.drop_last() =~= str_views(names@).take(j as int));
        add_to(m, names[j].clone(), v);
        j += 1;
    }
    assert(str_views(names@).take(names@.len() as int) =~= str_views(names@));
}

/// `a` ranks above `b`: more, or as many and the name first.
pub open spec fn above(a: (Seq<char>, int), b: (Seq<char>, int)) -> bool {
    a.1 > b.1 || (a.1 == b.1 && lex_lt(a.0, b.0))
}

/// The position of the top entry among the first `k`.
pub open spec fn best_upto(m: Tally, k: int) -> int
    decreases k,
{
    if k <= 1 {
        0
    } else {
        let b = best_upto(m, k - 1);
        if above(m[k - 1], m[b]) {
            k - 1
        } else {
            b
        }
    }
}

proof fn lemma_best_in(m: Tally, k: int)
    requires
        1 <= k,
    ensures
        0 <= best_upto(m, k) < k,
    decreases k,
{
    if k > 1 {
        lemma_best_in(m, k - 1);
    }
}

/// The names of the `n` top entries, top first.
pub open spec fn top_names(m: Tally, n: nat) -> Seq<Seq<char>>
    decreases n,
{
    if n == 0 || m.len() == 0 {
        Seq::empty()
    } else {
        let b = best_upto(m, m.len() as int);
        seq![m[b].0] + top_names(m.remove(b), (n - 1) as nat)
    }
}

fn top(m: &Vec<(String, i64)>, n: usize) -> (r: Vec<String>)
    ensures
        str_views(r@) == top_names(tally_view(m@), n as nat),
{
    let mut work: Vec<(String, i64)> = Vec::new();
    let mut k: usize = 0;
    while k < m.len()
        invariant
            k <= m@.len(),
            tally_view(work@) == tally_view(m@).take(k as int),
        decreases m@.len() - k,
    {
        let ghost pre = work@;
        work.push((m[k].0.clone(), m[k].1));
        assert(tally_view(work@) =~= tally_view(pre).push(tally_view(m@)[k as int]));
        assert(tally_view(m@).take(k + 1) =~= tally_view(m@).take(k as int).push(tally_view(m@)[k as int]));
        k += 1;
    }
    assert(tally_view(m@).take(m@.len() as int) =~= tally_view(m@));
    let mut out: Vec<String> = Vec::new();
    let mut c: usize = 0;
    while c < n && work.len() > 0
        invariant
            c <= n,
            top_names(tally_view(m@), n as nat) == str_views(out@) + top_names(tally_view(work@), (n - c) as nat),
        decreases n - c,
    {
        let ghost w = tally_view(work@);
        let mut b: usize = 0;
        let mut j: usize = 1;
        while j < work.len()
            invariant
                1 <= j <= work@.len(),
                w == tally_view(work@),
                b == best_upto(w, j as int),
                b < j,
            decreases work@.len() - j,
        {
            let xn = to_chars(work[j].0.as_str());
            let bn = to_chars(work[b].0.as_str());
            if work[j].1 > work[b].1 || (work[j].1 == work[b].1 && lex_less(xn.as_slice(), bn.as_slice())) {
                b = j;
            }
            j += 1;
        }
        let (name, _) = work.remove(b);
        proof {
            assert(tally_view(work@) =~= w.remove(b as int));
            assert(str_views(out@.push(name)) =~= str_views(out@).push(name@));
            assert(seq![w[b as int].0] + top_names(w.remove(b as int), (n - c - 1) as nat) == top_names(w, (n - c) as nat));
            assert((str_views(out@) + top_names(w, (n - c) as nat)) =~= str_views(out@).push(name@) + top_names(
                w.remove(b as int),
                (n - c - 1) as nat,
            ));
        }
        out.push(name);
        c += 1;
    }
    proof {
        assert(top_names(tally_view(work@), (n - c) as nat) =~= Seq::<Seq<char>>::empty());
        assert(str_views(out@) + Seq::<Seq<char>>::empty() =~= str_views(out@));
    }
    out
}


// ------------------------------------------------------------ the tally

/// Seconds logged on book `id`.
pub open spec fn book_secs(evs: Seq<Session>, id: i64) -> int {
    secs_where(evs, evs.len() as int, book_sessions(id))
}

/// Read to the last chapter (by the saved position, wherever it was read).
pub open spec fn finished_book(b: BookRecord) -> bool {
    b.chapter_count > 0 && b.last_chapter + 1 >= b.chapter_count
}

pub open spec fn finished_upto(books: Seq<BookRecord>, k: int) -> int
    decreases k,
{
    if k <= 0 {
        0
    } else {
        finished_upto(books, k - 1) + if finished_book(books[k - 1]) {
            1int
        } else {
            0
        }
    }
}

/// The most-read book of the first `k`, with its seconds; the earlier of
/// two equal ones.
pub open spec fn top_book_upto(books: Seq<BookRecord>, evs: Seq<Session>, k: int) -> Option<(Seq<char>, int)>
    decreases k,
{
    if k <= 0 {
        None
    } else {
        let t = top_book_upto(books, evs, k - 1);
        let s = book_secs(evs, books[k - 1].id);
        let better = match t {
            None => true,
            Some(x) => s > x.1,
        };
        if s > 0 && better {
            Some((books[k - 1].title@, s))
        } else {
            t
        }
    }
}

/// Reading time per genre tag, over the books that were read.
pub open spec fn genres_upto(books: Seq<BookRecord>, evs: Seq<Session>, k: int) -> Tally
    decreases k,
{
    if k <= 0 {
        Seq::empty()
    } else {
        let m = genres_upto(books, evs, k - 1);
        let s = book_secs(evs, books[k - 1].id);
        if s > 0 && books[k - 1].genre_tags is Some {
            acc_all(m, tags_of(books[k - 1].genre_tags->0@), s)
        } else {
            m
        }
    }
}

/// An author name worth crediting: not blank, not 佚名 or 未知.
pub open spec fn named_author(t: Seq<char>) -> bool {
    t.len() > 0 && t != "佚名"@ && t != "未知"@
}

/// Reading time per author, over the books that were read.
pub open spec fn authors_upto(books: Seq<BookRecord>, evs: Seq<Session>, k: int) -> Tally
    decreases k,
{
    if k <= 0 {
        Seq::empty()
    } else {
        let m = authors_upto(books, evs, k - 1);
        let b = books[k - 1];
        let s = book_secs(evs, b.id);
        if s > 0 && b.author is Some && named_author(crate::text::trim(b.author->0@)) {
            acc(m, crate::text::trim(b.author->0@), s)
        } else {
            m
        }
    }
}

/// One count per mood tag of the first `j` chapter moods, up to the chapter
/// the reader reached.
pub open spec fn mood_fold(m: Tally, ms: Seq<(i64, String)>, last: i64, j: int) -> Tally
    decreases j,
{
    if j <= 0 {
        m
    } else {
        let m2 = mood_fold(m, ms, last, j - 1);
        if ms[j - 1].0 <= last {
            acc_all(m2, tags_of(ms[j - 1].1@), 1)
        } else {
            m2
        }
    }
}

/// Mood tags of the chapters read, over the books that were read.
pub open spec fn moods_upto(books: Seq<BookRecord>, moods: Seq<Vec<(i64, String)>>, evs: Seq<Session>, k: int) -> Tally
    decreases k,
{
    if k <= 0 {
        Seq::empty()
    } else {
        let m = moods_upto(books, moods, evs, k - 1);
        if book_secs(evs, books[k - 1].id) > 0 {
            mood_fold(m, moods[k - 1]@, books[k - 1].last_chapter, moods[k - 1]@.len() as int)
        } else {
            m
        }
    }
}

/// The counted facts of a reading history.
#[derive(Debug, Clone)]
pub struct ReadingTally {
    pub total_secs: i64,
    pub active_days: i64,
    pub streak: i64,
    pub longest_session_secs: i64,
    pub night_secs: i64,
    pub dominant_bucket: &'static str,
    pub finished: usize,
    pub top_book: Option<(String, i64)>,
    pub top_genres: Vec<String>,
    pub top_authors: Vec<String>,
    pub top_moods: Vec<String>,
    /// Local month and day of the very first session; 0 when none.
    pub first_month: i64,
    pub first_day: i64,
}

/// What the tally of `evs` (sessions), `books` (the shelf, in its order)
/// and `moods` (each book's chapter moods) at time `now` in a zone `tz`
/// seconds east of UTC is.
pub open spec fn tally_ok(
    evs: Seq<Session>,
    books: Seq<BookRecord>,
    moods: Seq<Vec<(i64, String)>>,
    now: int,
    tz: int,
    r: ReadingTally,
) -> bool {
    let n = evs.len() as int;
    let days = days_upto(evs, tz, n);
    let first = first_upto(evs, n);
    let nb = books.len() as int;
    &&& r.total_secs == secs_where(evs, n, all_sessions())
    &&& r.active_days == days.len()
    &&& r.streak == streak_spec(days, (now + tz) / 86400)
    &&& r.longest_session_secs == longest_upto(evs, n)
    &&& r.night_secs == secs_where(evs, n, night_sessions(tz))
    &&& dominant_ok(evs, tz, r.dominant_bucket)
    &&& r.finished == finished_upto(books, nb)
    &&& match top_book_upto(books, evs, nb) {
        None => r.top_book is None,
        Some(t) => r.top_book matches Some(x) && x.0@ == t.0 && x.1 == t.1,
    }
    &&& str_views(r.top_genres@) == top_names(genres_upto(books, evs, nb), 3)
    &&& str_views(r.top_authors@) == top_names(authors_upto(books, evs, nb), 2)
    &&& str_views(r.top_moods@) == top_names(moods_upto(books, moods, evs, nb), 3)
    &&& (if first == i64::MAX {
        r.first_month == 0 && r.first_day == 0
    } else {
        r.first_month == ymd_spec(first + tz).1 && r.first_day == ymd_spec(first + tz).2
    })
}

proof fn lemma_days_range(evs: Seq<Session>, tz: int, k: int)
    requires
        0 <= k <= evs.len(),
        log_fits(evs, tz),
    ensures
        forall|i: int| 0 <= i < days_upto(evs, tz, k).len() ==> (i64::MIN as int) / 86400 <= #[trigger] days_upto(evs, tz, k)[i],
    decreases k,
{
    if k > 0 {
        lemma_days_range(evs, tz, k - 1);
        let e = evs[k - 1];
        assert(i64::MIN <= e.1 + tz);
        assert((i64::MIN as int) / 86400 <= (e.1 + tz) / 86400) by (nonlinear_arith)
            requires
                i64::MIN <= e.1 + tz,
        ;
        let ds = days_upto(evs, tz, k - 1);
        let d = day_of(e, tz);
        assert forall|i: int| 0 <= i < days_upto(evs, tz, k).len() implies (i64::MIN as int) / 86400
            <= #[trigger] days_upto(evs, tz, k)[i] by {
            if i < ds.len() {
                assert(days_upto(evs, tz, k)[i] == ds[i]);
            } else {
                assert(days_upto(evs, tz, k)[i] == d);
            }
        }
    }
}

proof fn lemma_days_len(evs: Seq<Session>, tz: int, k: int)
    requires
        0 <= k <= evs.len(),
    ensures
        days_upto(evs, tz, k).len() <= k,
    decreases k,
{
    if k > 0 {
        lemma_days_len(evs, tz, k - 1);
    }
}

proof fn lemma_unseen_bucket(evs: Seq<Session>, tz: int, b: &'static str, k: int)
    requires
        0 <= k <= evs.len(),
        forall|i: int| 0 <= i < k ==> hour_bucket_spec(hour_of(#[trigger] evs[i], tz) as i64) != b,
    ensures
        secs_where(evs, k, bucket_sessions(tz, b)) == 0,
    decreases k,
{
    if k > 0 {
        lemma_unseen_bucket(evs, tz, b, k - 1);
    }
}

/// The streak and the part of the day most read in.
fn streak_of(days: &Vec<i64>, today: i64) -> (r: i64)
    requires
        days@.len() <= i64::MAX,
        forall|i: int| 0 <= i < days@.len() ==> (i64::MIN as int) / 86400 <= #[trigger] days@[i],
        (i64::MIN as int) / 86400 <= today,
    ensures
        r == streak_spec(days@.map_values(|d: i64| d as int), today as int),
{
    let ghost ds = days@.map_values(|d: i64| d as int);
    let has_today = has_day(days, today);
    let mut d: i64 = if has_today { today } else { today - 1 };
    let ghost d0 = d as int;
    let n = days.len();
    let mut k: usize = 0;
    while k < n && has_day(days, d)
        invariant
            n == days@.len(),
            ds == days@.map_values(|x: i64| x as int),
            forall|i: int| 0 <= i < days@.len() ==> (i64::MIN as int) / 86400 <= #[trigger] days@[i],
            k <= n,
            run_len(ds, d0, n as nat) == k + run_len(ds, d as int, (n - k) as nat),
            d >= (i64::MIN as int) / 86400 - 1,
        decreases n - k,
    {
        proof {
            let i = choose|i: int| 0 <= i < days@.len() && days@[i] == d;
            assert(ds[i] == d);
        }
        d = d - 1;
        k += 1;
    }
    proof {
        if k < n {
            assert(!ds.contains(d as int)) by {
                if ds.contains(d as int) {
                    let i = choose|i: int| 0 <= i < ds.len() && ds[i] == d as int;
                    assert(days@[i] == d);
                }
            }
        }
        assert(run_len(ds, d as int, (n - k) as nat) == 0);
    }
    k as i64
}

fn has_day(days: &Vec<i64>, d: i64) -> (r: bool)
    ensures
        r == days@.map_values(|x: i64| x as int).contains(d as int),
        r == exists|i: int| 0 <= i < days@.len() && days@[i] == d,
{
    let ghost ds = days@.map_values(|x: i64| x as int);
    let mut k: usize = 0;
    while k < days.len()
        invariant
            k <= days@.len(),
            ds == days@.map_values(|x: i64| x as int),
            forall|q: int| 0 <= q < k ==> days@[q] != d,
        decreases days@.len() - k,
    {
        if days[k] == d {
            assert(ds[k as int] == d as int);
            return true;
        }
        k += 1;
    }
    assert forall|q: int| 0 <= q < ds.len() implies ds[q] != d as int by {
        assert(days@[q] != d);
    }
    false
}

/// The part of the day with the most reading among those read in at all.
fn dominant(sums: &LogSums, evs: &Vec<Session>, tz: i64) -> (r: &'static str)
    requires
        sums.bucket_secs@.len() == 6,
        sums.bucket_hit@.len() == 6,
        forall|j: int|
            0 <= j < 6 ==> #[trigger] sums.bucket_secs@[j] == secs_where(
                evs@,
                evs@.len() as int,
                bucket_sessions(tz as int, buckets()[j]),
            ) && sums.bucket_hit@[j] == bucket_seen(evs@, tz as int, buckets()[j]),
        forall|i: int| 0 <= i < evs@.len() ==> 0 <= #[trigger] hour_of(evs@[i], tz as int) < 24,
    ensures
        dominant_ok(evs@, tz as int, r),
{
    let names: Vec<&'static str> = vec!["深夜", "清晨", "上午", "中午", "下午", "晚上"];
    assert(names@ == buckets());
    if evs.len() == 0 {
        return "深夜";
    }
    let ghost e = evs@;
    let ghost t = tz as int;
    let ghost sv = sums.bucket_secs@;
    let ghost hv = sums.bucket_hit@;
    let mut best: usize = 6;
    let mut j: usize = 0;
    while j < 6
        invariant
            j <= 6,
            sv == sums.bucket_secs@,
            hv == sums.bucket_hit@,
            sv.len() == 6,
            hv.len() == 6,
            best == 6 || (best < j && hv[best as int]),
            forall|q: int| 0 <= q < j && #[trigger] hv[q] ==> best < 6 && sv[best as int] >= sv[q],
        decreases 6 - j,
    {
        let ghost old_best = best;
        if sums.bucket_hit[j] && (best == 6 || sums.bucket_secs[j] > sums.bucket_secs[best]) {
            best = j;
        }
        proof {
            assert forall|q: int| 0 <= q < j + 1 && #[trigger] hv[q] implies best < 6 && sv[best as int] >= sv[q] by {
                if q < j {
                    assert(old_best < 6 && sv[old_best as int] >= sv[q]);
                }
            }
        }
        j += 1;
    }
    proof {
        // the first session's part of the day was read in
        let h = hour_of(e[0], t);
        let b0 = hour_bucket_spec(h as i64);
        let q0: int = if 5 <= h <= 7 {
            1
        } else if 8 <= h <= 11 {
            2
        } else if 12 <= h <= 13 {
            3
        } else if 14 <= h <= 17 {
            4
        } else if 18 <= h <= 21 {
            5
        } else {
            0
        };
        assert(buckets()[q0] == b0);
        assert(bucket_seen(e, t, buckets()[q0]));
        assert(sums.bucket_secs@[q0] == secs_where(e, e.len() as int, bucket_sessions(t, buckets()[q0])));
        assert(sums.bucket_hit@[q0]);
        assert(best < 6);
        assert forall|q: int| 0 <= q < 6 implies secs_where(e, e.len() as int, bucket_sessions(t, names@[best as int])) >= secs_where(
            e,
            e.len() as int,
            bucket_sessions(t, #[trigger] buckets()[q]),
        ) by {
            assert(sums.bucket_secs@[q] == secs_where(e, e.len() as int, bucket_sessions(t, buckets()[q])));
            assert(sums.bucket_secs@[best as int] == secs_where(e, e.len() as int, bucket_sessions(t, buckets()[best as int])));
            if !sums.bucket_hit@[q] {
                assert forall|i: int| 0 <= i < e.len() implies hour_bucket_spec(hour_of(#[trigger] e[i], t) as i64) != buckets()[q] by {}
                lemma_unseen_bucket(e, t, buckets()[q], e.len() as int);
                lemma_secs_bounds(e, e.len() as int, bucket_sessions(t, names@[best as int]));
            }
        }
        assert(bucket_seen(e, t, names@[best as int]));
    }
    names[best]
}

/// The counted facts of a reading history: `evs` are the logged sessions
/// (book id, started, ended), `books` the shelf in its order, `moods[k]`
/// the chapter moods (chapter, tags) of `books[k]`, `now` the current time
/// and `tz` the zone's offset east of UTC, all in seconds.
pub fn reading_tally(evs: &Vec<Session>, books: &Vec<BookRecord>, moods: &Vec<Vec<(i64, String)>>, now: i64, tz: i64) -> (r: ReadingTally)
    requires
        log_fits(evs@, tz as int),
        evs@.len() <= i64::MAX,
        moods@.len() == books@.len(),
        i64::MIN <= now + tz <= i64::MAX,
    ensures
        tally_ok(evs@, books@, moods@, now as int, tz as int, r),
{
    let ghost e = evs@;
    let ghost t = tz as int;
    let sums = log_sums(evs, tz);
    proof {
        lemma_days_range(e, t, e.len() as int);
        lemma_days_len(e, t, e.len() as int);
        assert(sums.days@.len() == sums.days@.map_values(|d: i64| d as int).len());
        assert forall|i: int| 0 <= i < sums.days@.len() implies (i64::MIN as int) / 86400 <= #[trigger] sums.days@[i] by {
            assert(sums.days@.map_values(|d: i64| d as int)[i] == sums.days@[i]);
        }
        assert forall|i: int| 0 <= i < e.len() implies 0 <= #[trigger] hour_of(e[i], t) < 24 by {}
    }
    let today = floor_div(now + tz, 86400);
    proof {
        assert((i64::MIN as int) / 86400 <= (now + tz) / 86400) by (nonlinear_arith)
            requires
                i64::MIN <= now + tz,
        ;
    }
    let streak = streak_of(&sums.days, today);
    let dom = dominant(&sums, evs, tz);
    let (first_month, first_day) = if sums.first == i64::MAX {
        (0, 0)
    } else {
        proof {
            lemma_first_is_a_start(e, e.len() as int);
            let i = choose|i: int| 0 <= i < e.len() && e[i].1 == sums.first;
            assert(i64::MIN <= e[i].1 + t <= i64::MAX);
        }
        let ymd = ymd_from_epoch(sums.first + tz);
        (ymd.1, ymd.2)
    };
    // the shelf
    let nb = books.len();
    let mut finished: usize = 0;
    let mut top_book: Option<(String, i64)> = None;
    let mut genres: Vec<(String, i64)> = Vec::new();
    let mut authors: Vec<(String, i64)> = Vec::new();
    let mut mood_count: Vec<(String, i64)> = Vec::new();
    let mut k: usize = 0;
    while k < nb
        invariant
            nb == books@.len(),
            nb == moods@.len(),
            e == evs@,
            t == tz as int,
            log_fits(e, t),
            k <= nb,
            finished <= k,
            finished == finished_upto(books@, k as int),
            match top_book_upto(books@, e, k as int) {
                None => top_book is None,
                Some(tb) => top_book matches Some(x) && x.0@ == tb.0 && x.1 == tb.1,
            },
            tally_view(genres@) == genres_upto(books@, e, k as int),
            tally_view(authors@) == authors_upto(books@, e, k as int),
            tally_view(mood_count@) == moods_upto(books@, moods@, e, k as int),
            names_unique(tally_view(genres@)),
            counts_ok(tally_view(genres@)),
            names_unique(tally_view(authors@)),
            counts_ok(tally_view(authors@)),
            names_unique(tally_view(mood_count@)),
            counts_ok(tally_view(mood_count@)),
        decreases nb - k,
    {
        let b = &books[k];
        let secs = secs_of_book(evs, b.id, tz);
        if b.chapter_count > 0 && b.last_chapter >= b.chapter_count - 1 {
            finished = finished + 1;
        }
        if secs > 0 {
            let better = match &top_book {
                None => true,
                Some(tb) => secs > tb.1,
            };
            if better {
                top_book = Some((b.title.clone(), secs));
            }
            match &b.genre_tags {
                Some(tags) => {
                    let ts = split_tags(tags.as_str());
                    add_all(&mut genres, &ts, secs);
                },
                None => {},
            }
            match &b.author {
                Some(a) => {
                    let av = to_chars(a.as_str());
                    let (x, y) = trim_range(av.as_slice(), 0, av.len());
                    assert(av@.subrange(0, av@.len() as int) =~= av@);
                    let name = slice_vec(av.as_slice(), x, y);
                    let ns = from_chars(name.as_slice());
                    if name.len() > 0 && !str_same(ns.as_str(), "佚名") && !str_same(ns.as_str(), "未知") {
                        add_to(&mut authors, ns, secs);
                    }
                },
                None => {},
            }
            let ms = &moods[k];
            let mut j: usize = 0;
            let ghost m0 = tally_view(mood_count@);
            while j < ms.len()
                invariant
                    j <= ms@.len(),
                    tally_view(mood_count@) == mood_fold(m0, ms@, b.last_chapter, j as int),
                    names_unique(tally_view(mood_count@)),
                    counts_ok(tally_view(mood_count@)),
                decreases ms@.len() - j,
            {
                if ms[j].0 <= b.last_chapter {
                    let ts = split_tags(ms[j].1.as_str());
                    add_all(&mut mood_count, &ts, 1);
                }
                j += 1;
            }
        }
        k += 1;
    }
    let top_genres = top(&genres, 3);
    let top_authors = top(&authors, 2);
    let top_moods = top(&mood_count, 3);
    ReadingTally {
        total_secs: sums.total,
        active_days: sums.days.len() as i64,
        streak,
        longest_session_secs: sums.longest,
        night_secs: sums.night,
        dominant_bucket: dom,
        finished,
        top_book,
        top_genres,
        top_authors,
        top_moods,
        first_month,
        first_day,
    }
}

proof fn lemma_first_is_a_start(evs: Seq<Session>, k: int)
    requires
        0 <= k <= evs.len(),
        first_upto(evs, k) != i64::MAX,
    ensures
        exists|i: int| 0 <= i < k && evs[i].1 == first_upto(evs, k),
    decreases k,
{
    if k > 0 && first_upto(evs, k - 1) != i64::MAX && first_upto(evs, k) == first_upto(evs, k - 1) {
        lemma_first_is_a_start(evs, k - 1);
        let i = choose|i: int| 0 <= i < k - 1 && evs[i].1 == first_upto(evs, k - 1);
        assert(0 <= i < k);
    } else if k > 0 {
        assert(evs[k - 1].1 == first_upto(evs, k));
    }
}

/// Seconds logged on book `id`.
fn secs_of_book(evs: &Vec<Session>, id: i64, tz: i64) -> (r: i64)
    requires
        log_fits(evs@, tz as int),
    ensures
        r == book_secs(evs@, id),
{
    let ghost e = evs@;
    let mut total: i64 = 0;
    let mut i: usize = 0;
    while i < evs.len()
        invariant
            e == evs@,
            log_fits(e, tz as int),
            i <= e.len(),
            total == secs_where(e, i as int, book_sessions(id)),
        decreases e.len() - i,
    {
        proof {
            lemma_secs_bounds(e, i + 1, book_sessions(id));
            lemma_secs_mono(e, i + 1, e.len() as int, all_sessions());
        }
        let ev = evs[i];
        if ev.0 == id {
            let d: i64 = if ev.2 - ev.1 > 0 { ev.2 - ev.1 } else { 0 };
            total = total + d;
        }
        i += 1;
    }
    total
}

proof fn lemma_run_len(ds: Seq<int>, d: int, fuel: nat)
    ensures
        run_len(ds, d, fuel) <= fuel,
    decreases fuel,
{
    if fuel > 0 && ds.contains(d) {
        lemma_run_len(ds, d - 1, (fuel - 1) as nat);
    }
}

proof fn lemma_longest_bound(evs: Seq<Session>, k: int)
    requires
        0 <= k <= evs.len(),
    ensures
        0 <= longest_upto(evs, k) <= secs_where(evs, k, all_sessions()),
    decreases k,
{
    if k > 0 {
        lemma_longest_bound(evs, k - 1);
        lemma_secs_bounds(evs, k - 1, all_sessions());
    }
}

/// The counts agree with one another: the streak is at most the days read,
/// and night time and the longest session are at most the total.
pub proof fn tally_is_consistent(
    evs: Seq<Session>,
    books: Seq<BookRecord>,
    moods: Seq<Vec<(i64, String)>>,
    now: int,
    tz: int,
    r: ReadingTally,
)
    requires
        tally_ok(evs, books, moods, now, tz, r),
    ensures
        0 <= r.streak <= r.active_days,
        0 <= r.night_secs <= r.total_secs,
        0 <= r.longest_session_secs <= r.total_secs,
{
    let days = days_upto(evs, tz, evs.len() as int);
    let today = (now + tz) / 86400;
    let d = if days.contains(today) {
        today
    } else {
        today - 1
    };
    lemma_run_len(days, d, days.len());
    lemma_secs_bounds(evs, evs.len() as int, night_sessions(tz));
    lemma_longest_bound(evs, evs.len() as int);
}

} // verus!
