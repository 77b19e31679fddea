use vstd::prelude::*;
use crate::model::{Clock, Date, Event, Kind, Stamp};
use vstd::multiset::Multiset;

verus! {

/// A completed work session: the worked sub-intervals of one start-to-finish span.
#[derive(Debug)]
pub struct Session {
    pub date: Date,
    pub intervals: Vec<(Clock, Clock)>,
    pub content: Option<String>,
}

pub struct SessionView {
    pub date: Date,
    pub intervals: Seq<(Clock, Clock)>,
    pub content: Option<String>,
}

impl View for Session {
    type V = SessionView;

    open spec fn view(&self) -> SessionView {
        SessionView { date: self.date, intervals: self.intervals@, content: self.content }
    }
}

/// Work in progress: the last unmatched start, closed breaks, an open break.
pub struct ActiveSession {
    pub start: Stamp,
    pub breaks: Vec<(Clock, Clock)>,
    pub pending: Option<Clock>,
}

pub struct ActiveView {
    pub start: Stamp,
    pub breaks: Seq<(Clock, Clock)>,
    pub pending: Option<Clock>,
}

impl View for ActiveSession {
    type V = ActiveView;

    open spec fn view(&self) -> ActiveView {
        ActiveView { start: self.start, breaks: self.breaks@, pending: self.pending }
    }
}

pub open spec fn active_view(a: Option<ActiveSession>) -> Option<ActiveView> {
    match a {
        Some(s) => Some(s@),
        None => None,
    }
}

pub open spec fn session_views(s: Seq<Session>) -> Seq<SessionView> {
    s.map_values(|x: Session| x@)
}

/// Inserts `e` after every element of `s` that is not later than it.
pub open spec fn insert_sorted(s: Seq<Event>, e: Event) -> Seq<Event>
    decreases s.len(),
{
    if s.len() == 0 || !e.stamp.before(s.last().stamp) {
        s.push(e)
    } else {
        insert_sorted(s.drop_last(), e).push(s.last())
    }
}

/// The events in ascending time order; events at the same instant keep their input order.
pub open spec fn sorted_events(s: Seq<Event>) -> Seq<Event>
    decreases s.len(),
{
    if s.len() == 0 {
        s
    } else {
        insert_sorted(sorted_events(s.drop_last()), s.last())
    }
}

/// Worked sub-intervals from `start` to `finish` with the closed breaks cut out.
pub open spec fn intervals_of(start: Clock, breaks: Seq<(Clock, Clock)>, finish: Clock) -> Seq<
    (Clock, Clock),
>
    decreases breaks.len(),
{
    if breaks.len() == 0 {
        seq![(start, finish)]
    } else {
        intervals_of(start, breaks.drop_last(), breaks.last().0).push((breaks.last().1, finish))
    }
}

/// The state after one event.
pub open spec fn next_state(st: Option<ActiveView>, e: Event) -> Option<ActiveView> {
    match e.kind {
        Kind::Start => Some(ActiveView { start: e.stamp, breaks: seq![], pending: None }),
        Kind::BreakStart => match st {
            Some(a) => if a.pending is None {
                Some(ActiveView { start: a.start, breaks: a.breaks, pending: Some(e.stamp.clock) })
            } else {
                st
            },
            None => None,
        },
        Kind::BreakEnd => match st {
            Some(a) => match a.pending {
                Some(p) => Some(
                    ActiveView {
                        start: a.start,
                        breaks: a.breaks.push((p, e.stamp.clock)),
                        pending: None,
                    },
                ),
                None => st,
            },
            None => None,
        },
        Kind::Finish => None,
        Kind::Other => st,
    }
}

/// The session that one event completes, if any.
pub open spec fn emitted(st: Option<ActiveView>, e: Event) -> Option<SessionView> {
    match (st, e.kind) {
        (Some(a), Kind::Finish) => Some(
            SessionView {
                date: a.start.date,
                intervals: intervals_of(a.start.clock, a.breaks, e.stamp.clock),
                content: e.content,
            },
        ),
        _ => None,
    }
}

/// The machine run from the idle state over `events` in the order given.
pub open spec fn run(events: Seq<Event>) -> (Option<ActiveView>, Seq<SessionView>)
    decreases events.len(),
{
    if events.len() == 0 {
        (None, seq![])
    } else {
        let (st, out) = run(events.drop_last());
        let e = events.last();
        (
            next_state(st, e),
            match emitted(st, e) {
                Some(s) => out.push(s),
                None => out,
            },
        )
    }
}

/// The sessions that a set of events yields.
pub open spec fn sessions_of(events: Seq<Event>) -> Seq<SessionView> {
    run(sorted_events(events)).1
}

/// A session has one more worked sub-interval than it has closed breaks.
pub proof fn lemma_interval_count(start: Clock, breaks: Seq<(Clock, Clock)>, finish: Clock)
    ensures
        intervals_of(start, breaks, finish).len() == breaks.len() + 1,
    decreases breaks.len(),
{
    if breaks.len() > 0 {
        lemma_interval_count(start, breaks.drop_last(), breaks.last().0);
    }
}

proof fn lemma_insert_at(s: Seq<Event>, e: Event, j: int)
    requires
        0 <= j <= s.len(),
        forall|k: int| j <= k < s.len() ==> e.stamp.before(#[trigger] s[k].stamp),
        j > 0 ==> !e.stamp.before(s[j - 1].stamp),
    ensures
        insert_sorted(s, e) == s.insert(j, e),
    decreases s.len(),
{
    if s.len() == j {
        assert(s.insert(j, e) =~= s.push(e));
    } else {
        lemma_insert_at(s.drop_last(), e, j);
        assert(s.insert(j, e) =~= s.drop_last().insert(j, e).push(s.last()));
    }
}

fn insert_by_time(out: &mut Vec<Event>, e: Event)
    ensures
        final(out)@ == insert_sorted(old(out)@, e),
{
    let mut j: usize = out.len();
    while j > 0 && e.stamp.is_before(&out[j - 1].stamp)
        invariant
            j <= out.len(),
            out@ == old(out)@,
            forall|k: int| j <= k < out.len() ==> e.stamp.before(#[trigger] out@[k].stamp),
        decreases j,
    {
        j -= 1;
    }
    proof {
        lemma_insert_at(out@, e, j as int);
    }
    out.insert(j, e);
}

/// Sorts events by instant, keeping the input order of events at the same instant.
pub fn sort_by_time(events: Vec<Event>) -> (r: Vec<Event>)
    ensures
        r@ == sorted_events(events@),
{
    let ghost orig = events@;
    let mut rest = events;
    let mut out: Vec<Event> = Vec::new();
    let ghost mut i: int = 0;
    while rest.len() > 0
        invariant
            0 <= i <= orig.len(),
            rest@ == orig.skip(i),
            out@ == sorted_events(orig.take(i)),
        decreases rest.len(),
    {
        let e = rest.remove(0);
        proof {
            assert(orig.take(i + 1).drop_last() =~= orig.take(i));
            assert(orig.take(i + 1).last() == e);
        }
        insert_by_time(&mut out, e);
        proof {
            i = i + 1;
            assert(rest@ =~= orig.skip(i));
        }
    }
    proof {
        assert(orig.take(i) =~= orig);
    }
    out
}

/// Closes an active session at `finish`, cutting each closed break out of the span.
fn close_session(a: ActiveSession, finish: Clock, content: Option<String>) -> (r: Session)
    ensures
        r@ == (SessionView {
            date: a.start.date,
            intervals: intervals_of(a.start.clock, a.breaks@, finish),
            content,
        }),
        r.intervals@.len() == a.breaks@.len() + 1,
{
    proof {
        lemma_interval_count(a.start.clock, a.breaks@, finish);
    }
    let mut intervals: Vec<(Clock, Clock)> = Vec::new();
    let mut cursor = a.start.clock;
    let mut i: usize = 0;
    while i < a.breaks.len()
        invariant
            i <= a.breaks.len(),
            forall|x: Clock|
                #[trigger] intervals@.push((cursor, x)) == intervals_of(
                    a.start.clock,
                    a.breaks@.take(i as int),
                    x,
                ),
        decreases a.breaks.len() - i,
    {
        let b = a.breaks[i];
        proof {
            assert(a.breaks@.take(i + 1).drop_last() =~= a.breaks@.take(i as int));
            assert forall|x: Clock|
                #[trigger] intervals@.push((cursor, b.0)).push((b.1, x)) == intervals_of(
                    a.start.clock,
                    a.breaks@.take(i + 1),
                    x,
                ) by {
                assert(intervals@.push((cursor, b.0)) == intervals_of(
                    a.start.clock,
                    a.breaks@.take(i as int),
                    b.0,
                ));
            }
        }
        intervals.push((cursor, b.0));
        cursor = b.1;
        i += 1;
    }
    proof {
        assert(a.breaks@.take(i as int) =~= a.breaks@);
        assert(intervals@.push((cursor, finish)) == intervals_of(
            a.start.clock,
            a.breaks@.take(i as int),
            finish,
        ));
    }
    intervals.push((cursor, finish));
    Session { date: a.start.date, intervals, content }
}

/// One transition of the session machine; a completed session is appended to `out`.
fn step(active: Option<ActiveSession>, e: Event, out: &mut Vec<Session>) -> (r: Option<
    ActiveSession,
>)
    ensures
        active_view(r) == next_state(active_view(active), e),
        session_views(final(out)@) == match emitted(active_view(active), e) {
            Some(s) => session_views(old(out)@).push(s),
            None => session_views(old(out)@),
        },
{
    let ghost e0 = e;
    let ghost st = active_view(active);
    match e.kind {
        Kind::Start => Some(ActiveSession { start: e.stamp, breaks: Vec::new(), pending: None }),
        Kind::BreakStart => match active {
            Some(a) => {
                if a.pending.is_none() {
                    Some(ActiveSession { start: a.start, breaks: a.breaks, pending: Some(e.stamp.clock) })
                } else {
                    Some(a)
                }
            },
            None => None,
        },
        Kind::BreakEnd => match active {
            Some(a) => match a.pending {
                Some(p) => {
                    let mut breaks = a.breaks;
                    breaks.push((p, e.stamp.clock));
                    Some(ActiveSession { start: a.start, breaks, pending: None })
                },
                None => Some(a),
            },
            None => None,
        },
        Kind::Finish => {
            match active {
                Some(a) => {
                    let s = close_session(a, e.stamp.clock, e.content);
                    out.push(s);
                    proof {
                        assert(session_views(out@) =~= session_views(old(out)@).push(
                            emitted(st, e0).unwrap(),
                        ));
                    }
                },
                None => {},
            }
            None
        },
        Kind::Other => active,
    }
}

/// Reconstructs work sessions from attendance events given in any order.
pub fn build_sessions(events: Vec<Event>) -> (r: Vec<Session>)
    ensures
        session_views(r@) == sessions_of(events@),
{
    let ghost evs = sorted_events(events@);
    let mut rest = sort_by_time(events);
    let mut out: Vec<Session> = Vec::new();
    let mut active: Option<ActiveSession> = None;
    let ghost mut i: int = 0;
    while rest.len() > 0
        invariant
            0 <= i <= evs.len(),
            rest@ == evs.skip(i),
            (active_view(active), session_views(out@)) == run(evs.take(i)),
        decreases rest.len(),
    {
        let e = rest.remove(0);
        proof {
            assert(evs.take(i + 1).drop_last() =~= evs.take(i));
            assert(evs.take(i + 1).last() == e);
        }
        active = step(active, e, &mut out);
        proof {
            i = i + 1;
            assert(rest@ =~= evs.skip(i));
        }
    }
    proof {
        assert(evs.take(i) =~= evs);
    }
    out
}

/// No element of `s` is at a later instant than one that follows it.
pub open spec fn in_time_order(s: Seq<Event>) -> bool {
    forall|i: int, j: int|
        0 <= i < j < s.len() ==> !(#[trigger] s[j]).stamp.before((#[trigger] s[i]).stamp)
}

/// Any two different events of `m` are at different instants.
pub open spec fn distinct_instants(m: Multiset<Event>) -> bool {
    forall|x: Event, y: Event|
        #[trigger] m.count(x) > 0 && #[trigger] m.count(y) > 0 && x != y ==> x.stamp.before(y.stamp)
            || y.stamp.before(x.stamp)
}

proof fn lemma_insert_sorted(s: Seq<Event>, e: Event)
    requires
        in_time_order(s),
    ensures
        in_time_order(insert_sorted(s, e)),
        insert_sorted(s, e).to_multiset() == s.to_multiset().insert(e),
        forall|k: int|
            0 <= k < insert_sorted(s, e).len() ==> #[trigger] insert_sorted(s, e)[k] == e
                || s.contains(insert_sorted(s, e)[k]),
    decreases s.len(),
{
    broadcast use vstd::seq_lib::group_to_multiset_ensures;

    let r = insert_sorted(s, e);
    if s.len() == 0 || !e.stamp.before(s.last().stamp) {
        assert forall|i: int, j: int| 0 <= i < j < r.len() implies !(#[trigger] r[j]).stamp.before(
            (#[trigger] r[i]).stamp,
        ) by {
            if j == s.len() && s.len() > 0 && i < s.len() - 1 {
                assert(!s[s.len() - 1].stamp.before(s[i].stamp));
            }
        }
        assert forall|k: int| 0 <= k < r.len() implies #[trigger] r[k] == e || s.contains(r[k]) by {
            if k < s.len() {
                assert(r[k] == s[k]);
            }
        }
    } else {
        let d = s.drop_last();
        let l = s.last();
        assert forall|i: int, j: int| 0 <= i < j < d.len() implies !(#[trigger] d[j]).stamp.before(
            (#[trigger] d[i]).stamp,
        ) by {
            assert(d[i] == s[i] && d[j] == s[j]);
        }
        lemma_insert_sorted(d, e);
        let q = insert_sorted(d, e);
        assert(r == q.push(l));
        assert(s =~= d.push(l));
        assert forall|i: int, j: int| 0 <= i < j < r.len() implies !(#[trigger] r[j]).stamp.before(
            (#[trigger] r[i]).stamp,
        ) by {
            if j == q.len() {
                assert(r[i] == q[i]);
                if q[i] != e {
                    let t = choose|t: int| 0 <= t < d.len() && d[t] == q[i];
                    assert(s[t] == d[t]);
                    assert(!s[s.len() - 1].stamp.before(s[t].stamp));
                }
            } else {
                assert(r[i] == q[i] && r[j] == q[j]);
            }
        }
        assert forall|k: int| 0 <= k < r.len() implies #[trigger] r[k] == e || s.contains(r[k]) by {
            if k < q.len() {
                assert(r[k] == q[k]);
                if q[k] != e {
                    let t = choose|t: int| 0 <= t < d.len() && d[t] == q[k];
                    assert(s[t] == d[t]);
                }
            } else {
                assert(s[s.len() - 1] == l);
            }
        }
        assert(r.to_multiset() =~= s.to_multiset().insert(e));
    }
}

proof fn lemma_sorted_events(s: Seq<Event>)
    ensures
        in_time_order(sorted_events(s)),
        sorted_events(s).to_multiset() == s.to_multiset(),
    decreases s.len(),
{
    broadcast use vstd::seq_lib::group_to_multiset_ensures;

    if s.len() > 0 {
        lemma_sorted_events(s.drop_last());
        lemma_insert_sorted(sorted_events(s.drop_last()), s.last());
        assert(s =~= s.drop_last().push(s.last()));
    } else {
        assert(s.to_multiset() =~= Multiset::empty());
    }
}

proof fn lemma_order_unique(x: Seq<Event>, y: Seq<Event>)
    requires
        in_time_order(x),
        in_time_order(y),
        x.to_multiset() == y.to_multiset(),
        distinct_instants(x.to_multiset()),
    ensures
        x == y,
    decreases x.len(),
{
    broadcast use vstd::seq_lib::group_to_multiset_ensures;

    assert(x.len() == x.to_multiset().len() && y.len() == y.to_multiset().len());
    if x.len() == 0 {
        assert(y.len() == 0);
        assert(x =~= y);
    } else {
        let n = x.len() - 1;
        let lx = x[n];
        let ly = y[n];
        assert(x.contains(lx));
        assert(x.to_multiset().count(lx) > 0);
        assert(y.contains(ly));
        assert(x.to_multiset().count(ly) > 0);
        if lx != ly {
            assert(x.contains(ly));
            let i = choose|i: int| 0 <= i < x.len() && x[i] == ly;
            assert(y.contains(lx));
            let j = choose|j: int| 0 <= j < y.len() && y[j] == lx;
            assert(i < n && j < n);
            assert(!x[n].stamp.before(x[i].stamp));
            assert(!y[n].stamp.before(y[j].stamp));
            assert(false);
        }
        let xd = x.drop_last();
        let yd = y.drop_last();
        assert(x.remove(n) =~= xd);
        assert(y.remove(n) =~= yd);
        assert(xd.to_multiset() == x.to_multiset().remove(lx));
        assert(yd.to_multiset() == y.to_multiset().remove(ly));
        assert forall|i: int, j: int| 0 <= i < j < xd.len() implies !(#[trigger] xd[j]).stamp.before(
            (#[trigger] xd[i]).stamp,
        ) by {
            assert(xd[i] == x[i] && xd[j] == x[j]);
        }
        assert forall|i: int, j: int| 0 <= i < j < yd.len() implies !(#[trigger] yd[j]).stamp.before(
            (#[trigger] yd[i]).stamp,
        ) by {
            assert(yd[i] == y[i] && yd[j] == y[j]);
        }
        assert forall|a: Event, b: Event|
            #[trigger] xd.to_multiset().count(a) > 0 && #[trigger] xd.to_multiset().count(b) > 0 && a
                != b implies a.stamp.before(b.stamp) || b.stamp.before(a.stamp) by {
            assert(x.to_multiset().count(a) > 0 && x.to_multiset().count(b) > 0);
        }
        lemma_order_unique(xd, yd);
        assert(x =~= xd.push(lx));
        assert(y =~= yd.push(ly));
    }
}

/// The sessions do not depend on the order in which the events are given, as long
/// as no two different events share an instant.
pub proof fn lemma_order_free(a: Seq<Event>, b: Seq<Event>)
    requires
        a.to_multiset() == b.to_multiset(),
        distinct_instants(a.to_multiset()),
    ensures
        sorted_events(a) == sorted_events(b),
        sessions_of(a) == sessions_of(b),
{
    lemma_sorted_events(a);
    lemma_sorted_events(b);
    lemma_order_unique(sorted_events(a), sorted_events(b));
}

} // verus!
