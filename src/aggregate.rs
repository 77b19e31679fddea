use vstd::prelude::*;
use crate::builder::{session_views, Session, SessionView};
use crate::model::{Clock, Date};
use crate::text::{
    digits, padded, push_decimal, push_padded, push_signed, push_two_digits, signed_digits,
    two_digits,
};

verus! {

/// Most closed breaks, per session, that the totals below accept.
pub const MAX_BREAKS: usize = 65534;

/// Worked minutes of a list of sub-intervals: end clock minus start clock, summed.
pub open spec fn minutes_of(ivs: Seq<(Clock, Clock)>) -> int
    decreases ivs.len(),
{
    if ivs.len() == 0 {
        0
    } else {
        minutes_of(ivs.drop_last()) + (ivs.last().1.minutes() - ivs.last().0.minutes())
    }
}

pub open spec fn in_month(s: SessionView, year: i32, month: u8) -> bool {
    s.date.year == year && s.date.month == month
}

/// Worked minutes of all sessions dated in the given month.
pub open spec fn month_minutes(ss: Seq<SessionView>, year: i32, month: u8) -> int
    decreases ss.len(),
{
    if ss.len() == 0 {
        0
    } else {
        month_minutes(ss.drop_last(), year, month) + if in_month(ss.last(), year, month) {
            minutes_of(ss.last().intervals)
        } else {
            0
        }
    }
}

pub open spec fn has_month(ss: Seq<SessionView>, year: i32, month: u8) -> bool {
    exists|j: int| 0 <= j < ss.len() && in_month(#[trigger] ss[j], year, month)
}

/// Some entry of `r` is the month of `d`.
pub open spec fn listed(r: Seq<MonthTotal>, d: Date) -> bool {
    exists|k: int| 0 <= k < r.len() && r[k].year == d.year && r[k].month == d.month
}

pub open spec fn key_lt(y1: i32, m1: u8, y2: i32, m2: u8) -> bool {
    y1 < y2 || (y1 == y2 && m1 < m2)
}

/// The totals sizes that keep every monthly sum inside `i64`.
pub open spec fn sizes_ok(ss: Seq<Session>) -> bool {
    ss.len() <= u32::MAX && forall|j: int| 0 <= j < ss.len() ==> #[trigger] ss[j].intervals@.len()
        <= MAX_BREAKS + 1
}

/// Total worked minutes of one month.
#[derive(PartialEq, Eq, Structural, Clone, Copy, Debug)]
pub struct MonthTotal {
    pub year: i32,
    pub month: u8,
    pub minutes: i64,
}

/// Worked minutes of one session.
pub fn session_minutes(s: &Session) -> (r: i64)
    requires
        s.intervals@.len() <= MAX_BREAKS + 1,
    ensures
        r == minutes_of(s.intervals@),
        -0x4000_0000 <= r <= 0x4000_0000,
{
    let mut total: i64 = 0;
    let mut i: usize = 0;
    while i < s.intervals.len()
        invariant
            i <= s.intervals@.len() <= MAX_BREAKS + 1,
            total == minutes_of(s.intervals@.take(i as int)),
            -(i * 0x4000) <= total <= i * 0x4000,
        decreases s.intervals.len() - i,
    {
        let (a, b) = s.intervals[i];
        proof {
            assert(s.intervals@.take(i + 1).drop_last() =~= s.intervals@.take(i as int));
        }
        total = total + ((b.hour as i64) * 60 + b.minute as i64) - ((a.hour as i64) * 60
            + a.minute as i64);
        i += 1;
    }
    proof {
        assert(s.intervals@.take(i as int) =~= s.intervals@);
    }
    total
}

/// Per month that has a session, ascending, the worked minutes of that month.
pub fn monthly_totals(sessions: &Vec<Session>) -> (r: Vec<MonthTotal>)
    requires
        sizes_ok(sessions@),
    ensures
        forall|a: int, b: int|
            0 <= a < b < r@.len() ==> key_lt(
                #[trigger] r@[a].year,
                r@[a].month,
                #[trigger] r@[b].year,
                r@[b].month,
            ),
        forall|k: int|
            0 <= k < r@.len() ==> has_month(session_views(sessions@), #[trigger] r@[k].year, r@[k].month)
                && r@[k].minutes == month_minutes(session_views(sessions@), r@[k].year, r@[k].month),
        forall|k: int|
            0 <= k < r@.len() ==> -0x4000_0000_0000_0000 <= #[trigger] r@[k].minutes
                <= 0x4000_0000_0000_0000,
        forall|j: int| 0 <= j < sessions@.len() ==> listed(r@, #[trigger] sessions@[j].date),
{
    let ghost vs = session_views(sessions@);
    let mut r: Vec<MonthTotal> = Vec::new();
    let mut i: usize = 0;
    while i < sessions.len()
        invariant
            i <= sessions@.len(),
            sizes_ok(sessions@),
            vs == session_views(sessions@),
            forall|a: int, b: int|
                0 <= a < b < r@.len() ==> key_lt(
                    #[trigger] r@[a].year,
                    r@[a].month,
                    #[trigger] r@[b].year,
                    r@[b].month,
                ),
            forall|k: int|
                0 <= k < r@.len() ==> has_month(vs.take(i as int), #[trigger] r@[k].year, r@[k].month)
                    && r@[k].minutes == month_minutes(vs.take(i as int), r@[k].year, r@[k].month)
                    && -(i * 0x4000_0000) <= r@[k].minutes <= i * 0x4000_0000,
            forall|j: int| 0 <= j < i ==> listed(r@, #[trigger] sessions@[j].date),
        decreases sessions.len() - i,
    {
        let s = &sessions[i];
        let m = session_minutes(s);
        let y = s.date.year;
        let mo = s.date.month;
        let ghost old_r = r@;
        let ghost pre = vs.take(i as int);
        let ghost cur = vs.take(i + 1);
        proof {
            assert(cur.drop_last() =~= pre);
            assert(cur.last() == sessions@[i as int]@);
            assert forall|yy: i32, mm: u8| has_month(pre, yy, mm) implies has_month(cur, yy, mm) by {
                let j = choose|j: int| 0 <= j < pre.len() && in_month(#[trigger] pre[j], yy, mm);
                assert(cur[j] == pre[j]);
            }
            assert(in_month(cur[i as int], y, mo));
            assert(has_month(cur, y, mo));
            assert(i * 0x4000_0000 + 0x4000_0000 == (i + 1) * 0x4000_0000) by (nonlinear_arith);
            assert(0 <= i * 0x4000_0000) by (nonlinear_arith);
        }
        let mut k: usize = 0;
        while k < r.len() && key_lt_exec(r[k].year, r[k].month, y, mo)
            invariant
                k <= r@.len(),
                r@ == old_r,
                forall|a: int| 0 <= a < k ==> key_lt(#[trigger] r@[a].year, r@[a].month, y, mo),
            decreases r.len() - k,
        {
            k += 1;
        }
        if k < r.len() && r[k].year == y && r[k].month == mo {
            let t = r[k];
            proof {
                assert(i <= u32::MAX);
                assert((i + 1) * 0x4000_0000 <= (u32::MAX as int + 1) * 0x4000_0000) by (nonlinear_arith)
                    requires i + 1 <= u32::MAX as int + 1;
            }
            r.set(k, MonthTotal { year: y, month: mo, minutes: t.minutes + m });
            proof {
                assert forall|a: int| 0 <= a < r@.len() && a != k implies !(r@[a].year == y
                    && r@[a].month == mo) by {
                    if a < k {
                        assert(key_lt(old_r[a].year, old_r[a].month, old_r[k as int].year, old_r[k as int].month));
                    } else {
                        assert(key_lt(old_r[k as int].year, old_r[k as int].month, old_r[a].year, old_r[a].month));
                    }
                }
            }
        } else {
            proof {
                assert forall|a: int| 0 <= a < old_r.len() implies !(#[trigger] old_r[a].year == y
                    && old_r[a].month == mo) by {
                    if a >= k {
                        assert(key_lt(old_r[k as int].year, old_r[k as int].month, old_r[a].year, old_r[a].month) || a == k);
                    }
                }
                assert(month_minutes(pre, y, mo) == 0) by {
                    lemma_absent_month(pre, y, mo);
                }
            }
            r.insert(k, MonthTotal { year: y, month: mo, minutes: m });
            proof {
                assert forall|a: int, b: int| 0 <= a < b < r@.len() implies key_lt(
                    #[trigger] r@[a].year,
                    r@[a].month,
                    #[trigger] r@[b].year,
                    r@[b].month,
                ) by {
                    if b == k {
                    } else if a == k {
                        assert(r@[b] == old_r[b - 1]);
                        assert(!key_lt(old_r[b - 1].year, old_r[b - 1].month, y, mo));
                    } else if a > k {
                        assert(r@[a] == old_r[a - 1]);
                        assert(r@[b] == old_r[b - 1]);
                    } else if b > k {
                        assert(r@[b] == old_r[b - 1]);
                    }
                }
            }
        }
        proof {
            assert forall|kk: int| 0 <= kk < r@.len() implies has_month(cur, #[trigger] r@[kk].year, r@[kk].month)
                && r@[kk].minutes == month_minutes(cur, r@[kk].year, r@[kk].month)
                && -((i + 1) * 0x4000_0000) <= r@[kk].minutes <= (i + 1) * 0x4000_0000 by {
                if r@[kk].year == y && r@[kk].month == mo {
                } else {
                    let idx = choose|idx: int| 0 <= idx < old_r.len() && old_r[idx] == r@[kk];
                    assert(has_month(pre, old_r[idx].year, old_r[idx].month));
                }
            }
            assert forall|j: int| 0 <= j < i + 1 implies listed(r@, #[trigger] sessions@[j].date) by {
                if j < i {
                    assert(listed(old_r, sessions@[j].date));
                    let kk = choose|kk: int| 0 <= kk < old_r.len() && old_r[kk].year
                        == sessions@[j].date.year && old_r[kk].month == sessions@[j].date.month;
                    if r@.len() == old_r.len() {
                        assert(r@[kk].year == old_r[kk].year);
                    } else if kk < k {
                        assert(r@[kk] == old_r[kk]);
                    } else {
                        assert(r@[kk + 1] == old_r[kk]);
                    }
                } else {
                    assert(r@[k as int].year == y);
                }
            }
        }
        i += 1;
    }
    proof {
        assert(vs.take(i as int) =~= vs);
        assert(i * 0x4000_0000 <= 0x4000_0000_0000_0000) by (nonlinear_arith)
            requires i <= u32::MAX as int;
        assert forall|k: int| 0 <= k < r@.len() implies -0x4000_0000_0000_0000
            <= #[trigger] r@[k].minutes <= 0x4000_0000_0000_0000 by {
            assert(has_month(vs.take(i as int), r@[k].year, r@[k].month));
        }
    }
    r
}

fn key_lt_exec(y1: i32, m1: u8, y2: i32, m2: u8) -> (r: bool)
    ensures
        r == key_lt(y1, m1, y2, m2),
{
    y1 < y2 || (y1 == y2 && m1 < m2)
}

proof fn lemma_absent_month(ss: Seq<SessionView>, year: i32, month: u8)
    requires
        !has_month(ss, year, month),
    ensures
        month_minutes(ss, year, month) == 0,
    decreases ss.len(),
{
    if ss.len() > 0 {
        assert(!in_month(ss[ss.len() - 1], year, month));
        assert forall|j: int| 0 <= j < ss.drop_last().len() implies !in_month(
            #[trigger] ss.drop_last()[j],
            year,
            month,
        ) by {
            assert(ss.drop_last()[j] == ss[j]);
        }
        lemma_absent_month(ss.drop_last(), year, month);
    }
}

/// `x / d` rounded to the nearest integer, halves away from zero.
pub open spec fn round_div(x: int, d: int) -> int {
    if x >= 0 {
        (x + d / 2) / d
    } else {
        -((-x + d / 2) / d)
    }
}

/// Whole hours (floored) and the minutes left over, `0 <= minutes < 60`.
pub fn split_hours(minutes: i64) -> (r: (i64, i64))
    ensures
        r.0 == minutes as int / 60,
        r.1 == minutes as int % 60,
{
    if minutes >= 0 {
        (minutes / 60, minutes % 60)
    } else {
        let q: i64 = (-(minutes + 1)) / 60;
        let rem: i64 = (-(minutes + 1)) % 60;
        let h: i64 = -q - 1;
        let m: i64 = 59 - rem;
        assert(h == minutes as int / 60 && m == minutes as int % 60) by (nonlinear_arith)
            requires
                minutes < 0,
                q == (-(minutes + 1)) / 60,
                rem == (-(minutes + 1)) % 60,
                h == -q - 1,
                m == 59 - rem,
        ;
        (h, m)
    }
}

/// Hours in hundredths, rounded to nearest: the two-decimal reading of `minutes / 60`.
pub fn hundredths_of_hours(minutes: i64) -> (r: i64)
    requires
        -0x4000_0000_0000_0000 <= minutes <= 0x4000_0000_0000_0000,
    ensures
        r == round_div(minutes * 100, 60),
{
    let x: i128 = minutes as i128 * 100;
    let q: i128 = if x >= 0 { (x + 30) / 60 } else { -((-x + 30) / 60) };
    q as i64
}

/// Pay for `minutes` of work at `rate` per hour, rounded to nearest, halves away from zero.
pub fn salary(minutes: i64, rate: u64) -> (r: i128)
    ensures
        r == round_div(minutes * rate, 60),
{
    assert(-0x8000_0000_0000_0000 * 0xffff_ffff_ffff_ffff <= minutes * rate
        <= 0x7fff_ffff_ffff_ffff * 0xffff_ffff_ffff_ffff) by (nonlinear_arith)
        requires
            -0x8000_0000_0000_0000 <= minutes <= 0x7fff_ffff_ffff_ffff,
            0 <= rate <= 0xffff_ffff_ffff_ffff,
    ;
    let x: i128 = minutes as i128 * rate as i128;
    if x >= 0 {
        (x + 30) / 60
    } else {
        -((-x + 30) / 60)
    }
}

/// The `XhYYm` text of a minute count: floored hours, then two-digit minutes.
pub open spec fn hours_label_text(minutes: int) -> Seq<char> {
    signed_digits(minutes / 60) + seq!['h'] + two_digits((minutes % 60) as nat) + seq!['m']
}

/// The `X.YYh` text of a minute count: hours to two decimal places.
pub open spec fn decimal_label_text(minutes: int) -> Seq<char> {
    let c = round_div(minutes * 100, 60);
    let a = if c < 0 { -c } else { c };
    (if c < 0 { seq!['-'] } else { seq![] }) + signed_digits(a / 100) + seq!['.'] + two_digits(
        (a % 100) as nat,
    ) + seq!['h']
}

/// The hours-and-minutes label of a month total, such as `9h30m`.
pub fn hours_label(minutes: i64) -> (r: String)
    ensures
        r@ == hours_label_text(minutes as int),
{
    let (h, m) = split_hours(minutes);
    let mut s = String::new();
    push_signed(&mut s, h);
    s.append("h");
    push_two_digits(&mut s, m as u64);
    s.append("m");
    proof {
        reveal_strlit("h");
        reveal_strlit("m");
    }
    assert(s@ =~= hours_label_text(minutes as int));
    s
}

/// The decimal-hours label of a month total, such as `9.50h`.
pub fn decimal_label(minutes: i64) -> (r: String)
    requires
        -0x4000_0000_0000_0000 <= minutes <= 0x4000_0000_0000_0000,
    ensures
        r@ == decimal_label_text(minutes as int),
{
    let c = hundredths_of_hours(minutes);
    let a: i64 = if c < 0 { -c } else { c };
    let mut s = String::new();
    if c < 0 {
        s.append("-");
    }
    push_signed(&mut s, a / 100);
    s.append(".");
    push_two_digits(&mut s, (a % 100) as u64);
    s.append("h");
    proof {
        reveal_strlit("-");
        reveal_strlit(".");
        reveal_strlit("h");
    }
    assert(s@ =~= decimal_label_text(minutes as int));
    s
}

/// `HH:MM` of a clock.
pub open spec fn clock_text(c: Clock) -> Seq<char> {
    padded(c.hour as nat) + seq![':'] + padded(c.minute as nat)
}

/// `HH:MM~HH:MM` of a sub-interval.
pub open spec fn interval_text(iv: (Clock, Clock)) -> Seq<char> {
    clock_text(iv.0) + seq!['~'] + clock_text(iv.1)
}

/// The sub-intervals of a session as text, joined by commas.
pub open spec fn range_text(ivs: Seq<(Clock, Clock)>) -> Seq<char>
    decreases ivs.len(),
{
    if ivs.len() == 0 {
        seq![]
    } else if ivs.len() == 1 {
        interval_text(ivs[0])
    } else {
        range_text(ivs.drop_last()) + seq![','] + interval_text(ivs.last())
    }
}

fn push_clock(s: &mut String, c: Clock)
    ensures
        final(s)@ == old(s)@ + clock_text(c),
{
    push_padded(s, c.hour as u64);
    s.append(":");
    proof {
        reveal_strlit(":");
    }
    push_padded(s, c.minute as u64);
    assert(s@ =~= old(s)@ + clock_text(c));
}

/// The worked sub-intervals of a session as `HH:MM~HH:MM,HH:MM~HH:MM,...`.
pub fn time_range(session: &Session) -> (r: String)
    ensures
        r@ == range_text(session.intervals@),
{
    let ivs = &session.intervals;
    let mut s = String::new();
    let mut i: usize = 0;
    while i < ivs.len()
        invariant
            i <= ivs@.len(),
            s@ == range_text(ivs@.take(i as int)),
        decreases ivs.len() - i,
    {
        proof {
            reveal_strlit(",");
            reveal_strlit("~");
            assert(ivs@.take(i + 1).drop_last() =~= ivs@.take(i as int));
        }
        let ghost prev = s@;
        if i > 0 {
            s.append(",");
        }
        let (a, b) = ivs[i];
        push_clock(&mut s, a);
        s.append("~");
        push_clock(&mut s, b);
        proof {
            if i == 0 {
                assert(s@ =~= interval_text(ivs@.take(1)[0]));
            } else {
                assert(s@ =~= prev + seq![','] + interval_text(ivs@[i as int]));
            }
        }
        i += 1;
    }
    assert(ivs@.take(i as int) =~= ivs@);
    s
}

/// Indices of the sessions dated in the given month, in order.
pub open spec fn month_rows(ss: Seq<SessionView>, year: i32, month: u8) -> Seq<int>
    decreases ss.len(),
{
    if ss.len() == 0 {
        seq![]
    } else if in_month(ss.last(), year, month) {
        month_rows(ss.drop_last(), year, month).push(ss.len() - 1)
    } else {
        month_rows(ss.drop_last(), year, month)
    }
}

/// The sessions of the month of the first session, and their total.
#[derive(Debug)]
pub struct MonthDetail {
    pub year: i32,
    pub month: u8,
    /// Indices into the sessions, in order.
    pub rows: Vec<usize>,
    pub total_minutes: i64,
}

/// The detail of the first session's month; `None` when there is no session.
pub fn month_detail(sessions: &Vec<Session>) -> (r: Option<MonthDetail>)
    requires
        sizes_ok(sessions@),
    ensures
        r is None <==> sessions@.len() == 0,
        r matches Some(d) ==> {
            &&& d.year == sessions@[0].date.year
            &&& d.month == sessions@[0].date.month
            &&& d.rows@.map_values(|k: usize| k as int) == month_rows(session_views(sessions@), d.year, d.month)
            &&& d.total_minutes == month_minutes(session_views(sessions@), d.year, d.month)
            &&& -0x4000_0000_0000_0000 <= d.total_minutes <= 0x4000_0000_0000_0000
        },
{
    if sessions.len() == 0 {
        return None;
    }
    let ghost vs = session_views(sessions@);
    let y = sessions[0].date.year;
    let mo = sessions[0].date.month;
    let mut rows: Vec<usize> = Vec::new();
    let mut total: i64 = 0;
    let mut i: usize = 0;
    while i < sessions.len()
        invariant
            i <= sessions@.len(),
            sizes_ok(sessions@),
            vs == session_views(sessions@),
            rows@.map_values(|k: usize| k as int) == month_rows(vs.take(i as int), y, mo),
            total == month_minutes(vs.take(i as int), y, mo),
            -(i * 0x4000_0000) <= total <= i * 0x4000_0000,
        decreases sessions.len() - i,
    {
        proof {
            assert(vs.take(i + 1).drop_last() =~= vs.take(i as int));
            assert(vs.take(i + 1).last() == sessions@[i as int]@);
            assert(i * 0x4000_0000 + 0x4000_0000 == (i + 1) * 0x4000_0000) by (nonlinear_arith);
            assert((i + 1) * 0x4000_0000 <= (u32::MAX as int + 1) * 0x4000_0000) by (nonlinear_arith)
                requires i + 1 <= u32::MAX as int + 1;
        }
        let s = &sessions[i];
        if s.date.year == y && s.date.month == mo {
            let m = session_minutes(s);
            total = total + m;
            let ghost before = rows@;
            rows.push(i);
            assert(rows@.map_values(|k: usize| k as int) =~= before.map_values(|k: usize| k as int).push(i as int));
        }
        i += 1;
    }
    proof {
        assert(vs.take(i as int) =~= vs);
        assert(i * 0x4000_0000 <= 0x4000_0000_0000_0000) by (nonlinear_arith)
            requires i <= u32::MAX as int;
    }
    Some(MonthDetail { year: y, month: mo, rows, total_minutes: total })
}

/// `<month>月<day>日`, without leading zeros.
pub open spec fn day_label_text(month: u8, day: u8) -> Seq<char> {
    digits(month as nat) + seq!['月'] + digits(day as nat) + seq!['日']
}

/// The month-and-day label of a date.
pub fn day_label(date: Date) -> (r: String)
    ensures
        r@ == day_label_text(date.month, date.day),
{
    let mut s = String::new();
    push_decimal(&mut s, date.month as u64);
    s.append("月");
    push_decimal(&mut s, date.day as u64);
    s.append("日");
    proof {
        reveal_strlit("月");
        reveal_strlit("日");
    }
    assert(s@ =~= day_label_text(date.month, date.day));
    s
}

/// `<hours>時間<minutes>分`, both truncated toward zero.
pub open spec fn total_label_text(minutes: int) -> Seq<char> {
    let a = if minutes < 0 { -minutes } else { minutes };
    let h = if minutes < 0 { -(a / 60) } else { a / 60 };
    let m = if minutes < 0 { -(a % 60) } else { a % 60 };
    signed_digits(h) + seq!['時', '間'] + signed_digits(m) + seq!['分']
}

/// The hours-and-minutes label of a month's total.
pub fn total_label(minutes: i64) -> (r: String)
    requires
        -0x4000_0000_0000_0000 <= minutes <= 0x4000_0000_0000_0000,
    ensures
        r@ == total_label_text(minutes as int),
{
    let a: i64 = if minutes < 0 { -minutes } else { minutes };
    let h: i64 = if minutes < 0 { -(a / 60) } else { a / 60 };
    let m: i64 = if minutes < 0 { -(a % 60) } else { a % 60 };
    let mut s = String::new();
    push_signed(&mut s, h);
    s.append("時間");
    push_signed(&mut s, m);
    s.append("分");
    proof {
        reveal_strlit("時間");
        reveal_strlit("分");
    }
    assert(s@ =~= total_label_text(minutes as int));
    s
}

} // verus!
