use vstd::prelude::*;
use crate::model::{parse_rfc3339, rfc3339_stamp, Event, Kind, Stamp};

verus! {

/// Why a log could not be read.
#[derive(PartialEq, Eq, Structural, Clone, Copy, Debug)]
pub enum LogError {
    /// A line has the event shape but its timestamp is not RFC 3339.
    BadTimestamp,
}

pub open spec fn ts_tag() -> Seq<char> {
    seq!['t', 's', '=']
}

pub open spec fn type_tag() -> Seq<char> {
    seq![' ', 't', 'y', 'p', 'e', '=']
}

pub open spec fn content_tag() -> Seq<char> {
    seq![' ', 'c', 'o', 'n', 't', 'e', 'n', 't', '=', '"']
}

/// `p` occurs in `s` at index `i`.
pub open spec fn has_at(s: Seq<char>, i: int, p: Seq<char>) -> bool {
    0 <= i && i + p.len() <= s.len() && s.subrange(i, i + p.len()) == p
}

/// The first index at or after `a` that holds a space, or the length.
pub open spec fn run_end(s: Seq<char>, a: int) -> int
    decreases s.len() - a,
{
    if a >= s.len() || s[a] == ' ' {
        a
    } else {
        run_end(s, a + 1)
    }
}

/// The last index in `from..end` that holds a double quote, or -1.
pub open spec fn last_quote(s: Seq<char>, from: int, end: int) -> int
    decreases end - from,
{
    if end <= from {
        -1
    } else if s[end - 1] == '"' {
        end - 1
    } else {
        last_quote(s, from, end - 1)
    }
}

/// The timestamp text, type word and raw content of an event shape starting at `i`.
pub open spec fn match_at(s: Seq<char>, i: int) -> Option<(Seq<char>, Seq<char>, Option<Seq<char>>)> {
    let a = i + 3;
    let b = run_end(s, a);
    let c = b + 6;
    let d = run_end(s, c);
    if has_at(s, i, ts_tag()) && b > a && has_at(s, b, type_tag()) && d > c {
        let q = last_quote(s, d + 10, s.len() as int);
        let ct = if has_at(s, d, content_tag()) && q >= 0 {
            Some(s.subrange(d + 10, q))
        } else {
            None
        };
        Some((s.subrange(a, b), s.subrange(c, d), ct))
    } else {
        None
    }
}

/// The leftmost event shape at or after `i`.
pub open spec fn first_match(s: Seq<char>, i: int) -> Option<(Seq<char>, Seq<char>, Option<Seq<char>>)>
    decreases s.len() - i,
{
    if i < 0 || i >= s.len() {
        None
    } else if match_at(s, i) is Some {
        match_at(s, i)
    } else {
        first_match(s, i + 1)
    }
}

/// The fields of the first event shape in a line: timestamp, type word, raw content.
pub open spec fn line_fields(s: Seq<char>) -> Option<(Seq<char>, Seq<char>, Option<Seq<char>>)> {
    first_match(s, 0)
}

/// The text with each `"` preceded by a backslash.
pub open spec fn escape(s: Seq<char>) -> Seq<char>
    decreases s.len(),
{
    if s.len() == 0 {
        s
    } else if s[0] == '"' {
        seq!['\\', '"'] + escape(s.skip(1))
    } else {
        seq![s[0]] + escape(s.skip(1))
    }
}

/// The text with each backslash-quote pair, read left to right, turned into `"`.
pub open spec fn unescape(s: Seq<char>) -> Seq<char>
    decreases s.len(),
{
    if s.len() == 0 {
        s
    } else if s.len() >= 2 && s[0] == '\\' && s[1] == '"' {
        seq!['"'] + unescape(s.skip(2))
    } else {
        seq![s[0]] + unescape(s.skip(1))
    }
}

pub open spec fn kind_of(w: Seq<char>) -> Kind {
    if w == seq!['s', 't', 'a', 'r', 't'] {
        Kind::Start
    } else if w == seq!['f', 'i', 'n', 'i', 's', 'h'] {
        Kind::Finish
    } else if w == seq!['b', 'r', 'e', 'a', 'k', '_', 's', 't', 'a', 'r', 't'] {
        Kind::BreakStart
    } else if w == seq!['b', 'r', 'e', 'a', 'k', '_', 'e', 'n', 'd'] {
        Kind::BreakEnd
    } else {
        Kind::Other
    }
}

pub open spec fn opt_view(o: Option<String>) -> Option<Seq<char>> {
    match o {
        Some(s) => Some(s@),
        None => None,
    }
}

pub open spec fn opt_unescape(o: Option<Seq<char>>) -> Option<Seq<char>> {
    match o {
        Some(s) => Some(unescape(s)),
        None => None,
    }
}

/// `e` is the event with this stamp, kind and content.
pub open spec fn is_event(e: Event, t: (Stamp, Kind, Option<Seq<char>>)) -> bool {
    e.stamp == t.0 && e.kind == t.1 && opt_view(e.content) == t.2
}

/// What one line holds: an event, nothing, or an unreadable timestamp.
pub open spec fn line_event(s: Seq<char>) -> Result<Option<(Stamp, Kind, Option<Seq<char>>)>, LogError> {
    match line_fields(s) {
        None => Ok(None),
        Some((ts, ty, ct)) => match rfc3339_stamp(ts) {
            None => Err(LogError::BadTimestamp),
            Some(st) => Ok(Some((st, kind_of(ty), opt_unescape(ct)))),
        },
    }
}

fn text_eq(a: &str, b: &str) -> (r: bool)
    ensures
        r == (a@ == b@),
{
    let n = a.unicode_len();
    if n != b.unicode_len() {
        return false;
    }
    let mut i: usize = 0;
    while i < n
        invariant
            n == a@.len() == b@.len(),
            i <= n,
            a@.subrange(0, i as int) == b@.subrange(0, i as int),
        decreases n - i,
    {
        if a.get_char(i) != b.get_char(i) {
            return false;
        }
        assert(a@.subrange(0, i + 1) =~= a@.subrange(0, i as int).push(a@[i as int]));
        assert(b@.subrange(0, i + 1) =~= b@.subrange(0, i as int).push(b@[i as int]));
        i += 1;
    }
    assert(a@ =~= a@.subrange(0, n as int));
    assert(b@ =~= b@.subrange(0, n as int));
    true
}

/// The kind that a type word names.
pub fn kind_from_word(w: &str) -> (r: Kind)
    ensures
        r == kind_of(w@),
{
    proof {
        reveal_strlit("start");
        reveal_strlit("finish");
        reveal_strlit("break_start");
        reveal_strlit("break_end");
    }
    assert("start"@ =~= seq!['s', 't', 'a', 'r', 't']);
    assert("finish"@ =~= seq!['f', 'i', 'n', 'i', 's', 'h']);
    assert("break_start"@ =~= seq!['b', 'r', 'e', 'a', 'k', '_', 's', 't', 'a', 'r', 't']);
    assert("break_end"@ =~= seq!['b', 'r', 'e', 'a', 'k', '_', 'e', 'n', 'd']);
    if text_eq(w, "start") {
        Kind::Start
    } else if text_eq(w, "finish") {
        Kind::Finish
    } else if text_eq(w, "break_start") {
        Kind::BreakStart
    } else if text_eq(w, "break_end") {
        Kind::BreakEnd
    } else {
        Kind::Other
    }
}

fn starts_at(s: &str, i: usize, p: &str) -> (r: bool)
    ensures
        r == has_at(s@, i as int, p@),
{
    let n = s.unicode_len();
    let m = p.unicode_len();
    if i > n || m > n - i {
        return false;
    }
    let mut k: usize = 0;
    while k < m
        invariant
            n == s@.len(),
            m == p@.len(),
            i + m <= n,
            k <= m,
            s@.subrange(i as int, i + k) == p@.subrange(0, k as int),
        decreases m - k,
    {
        if s.get_char(i + k) != p.get_char(k) {
            assert(s@.subrange(i as int, i + m)[k as int] != p@[k as int]);
            return false;
        }
        assert(s@.subrange(i as int, i + k + 1) =~= s@.subrange(i as int, i + k).push(s@[i + k]));
        assert(p@.subrange(0, k + 1) =~= p@.subrange(0, k as int).push(p@[k as int]));
        k += 1;
    }
    assert(p@ =~= p@.subrange(0, m as int));
    true
}

fn find_run_end(s: &str, a: usize) -> (r: usize)
    requires
        a <= s@.len(),
    ensures
        r == run_end(s@, a as int),
        a <= r <= s@.len(),
{
    let n = s.unicode_len();
    let mut k: usize = a;
    while k < n && s.get_char(k) != ' '
        invariant
            n == s@.len(),
            a <= k <= n,
            run_end(s@, k as int) == run_end(s@, a as int),
        decreases n - k,
    {
        k += 1;
    }
    k
}

fn find_last_quote(s: &str, from: usize) -> (r: Option<usize>)
    requires
        from <= s@.len(),
    ensures
        last_quote(s@, from as int, s@.len() as int) == match r {
            Some(q) => q as int,
            None => -1,
        },
        r matches Some(q) ==> from <= q < s@.len(),
{
    let mut end: usize = s.unicode_len();
    while end > from
        invariant
            from <= end <= s@.len(),
            last_quote(s@, from as int, s@.len() as int) == last_quote(s@, from as int, end as int),
        decreases end,
    {
        if s.get_char(end - 1) == '"' {
            return Some(end - 1);
        }
        end -= 1;
    }
    None
}

/// The fields of the event shape at index `i` of `s`, if one starts there.
fn fields_at<'a>(s: &'a str, i: usize) -> (r: Option<(&'a str, &'a str, Option<&'a str>)>)
    requires
        i < s@.len(),
    ensures
        match (r, match_at(s@, i as int)) {
            (None, None) => true,
            (Some((t, w, c)), Some((t2, w2, c2))) => t@ == t2 && w@ == w2 && match (c, c2) {
                (None, None) => true,
                (Some(x), Some(y)) => x@ == y,
                _ => false,
            },
            _ => false,
        },
{
    proof {
        reveal_strlit("ts=");
        reveal_strlit(" type=");
        reveal_strlit(" content=\"");
    }
    assert("ts="@ =~= ts_tag());
    assert(" type="@ =~= type_tag());
    assert(" content=\""@ =~= content_tag());
    let n = s.unicode_len();
    if !starts_at(s, i, "ts=") {
        return None;
    }
    let a = i + 3;
    let b = find_run_end(s, a);
    if b == a || !starts_at(s, b, " type=") {
        return None;
    }
    let c = b + 6;
    let d = find_run_end(s, c);
    if d == c {
        return None;
    }
    let ts = s.substring_char(a, b);
    let ty = s.substring_char(c, d);
    if starts_at(s, d, " content=\"") {
        match find_last_quote(s, d + 10) {
            Some(q) => Some((ts, ty, Some(s.substring_char(d + 10, q)))),
            None => Some((ts, ty, None)),
        }
    } else {
        Some((ts, ty, None))
    }
}

/// The fields of the leftmost event shape in a line: timestamp text, type word, raw content.
pub fn find_fields<'a>(s: &'a str) -> (r: Option<(&'a str, &'a str, Option<&'a str>)>)
    ensures
        match (r, line_fields(s@)) {
            (None, None) => true,
            (Some((t, w, c)), Some((t2, w2, c2))) => t@ == t2 && w@ == w2 && match (c, c2) {
                (None, None) => true,
                (Some(x), Some(y)) => x@ == y,
                _ => false,
            },
            _ => false,
        },
{
    let n = s.unicode_len();
    let mut i: usize = 0;
    while i < n
        invariant
            n == s@.len(),
            i <= n,
            first_match(s@, i as int) == line_fields(s@),
        decreases n - i,
    {
        let f = fields_at(s, i);
        if f.is_some() {
            return f;
        }
        i += 1;
    }
    None
}

/// Turns each backslash-quote pair, read left to right, into a double quote.
pub fn unescape_content(s: &str) -> (r: String)
    ensures
        r@ == unescape(s@),
{
    proof {
        reveal_strlit("\"");
    }
    let n = s.unicode_len();
    assert("\""@ =~= seq!['"']);
    let mut out = String::new();
    let mut i: usize = 0;
    assert(out@ + unescape(s@.skip(0)) =~= unescape(s@)) by {
        assert(s@.skip(0) =~= s@);
    }
    while i < n
        invariant
            n == s@.len(),
            i <= n,
            out@ + unescape(s@.skip(i as int)) == unescape(s@),
        decreases n - i,
    {
        let ghost rest = s@.skip(i as int);
        let ghost prev = out@;
        proof {
            reveal_strlit("\"");
        }
        if i + 1 < n && s.get_char(i) == '\\' && s.get_char(i + 1) == '"' {
            assert(rest[0] == '\\' && rest[1] == '"');
            assert(unescape(rest) == seq!['"'] + unescape(rest.skip(2)));
            out.append("\"");
            assert(rest.skip(2) =~= s@.skip(i + 2));
            assert(out@ + unescape(rest.skip(2)) =~= prev + unescape(rest));
            i += 2;
        } else {
            assert(unescape(rest) == seq![rest[0]] + unescape(rest.skip(1)));
            out.append(s.substring_char(i, i + 1));
            assert(rest.skip(1) =~= s@.skip(i + 1));
            assert(s@.subrange(i as int, i + 1) =~= seq![rest[0]]);
            assert(out@ + unescape(rest.skip(1)) =~= prev + unescape(rest));
            i += 1;
        }
    }
    assert(s@.skip(n as int) =~= Seq::<char>::empty());
    assert(out@ =~= unescape(s@));
    out
}

/// Puts a backslash before each double quote.
pub fn escape_content(s: &str) -> (r: String)
    ensures
        r@ == escape(s@),
{
    proof {
        reveal_strlit("\\\"");
    }
    let n = s.unicode_len();
    assert("\\\""@ =~= seq!['\\', '"']);
    let mut out = String::new();
    let mut i: usize = 0;
    assert(out@ + escape(s@.skip(0)) =~= escape(s@)) by {
        assert(s@.skip(0) =~= s@);
    }
    while i < n
        invariant
            n == s@.len(),
            i <= n,
            out@ + escape(s@.skip(i as int)) == escape(s@),
        decreases n - i,
    {
        let ghost rest = s@.skip(i as int);
        let ghost prev = out@;
        proof {
            reveal_strlit("\\\"");
        }
        assert(rest.skip(1) =~= s@.skip(i + 1));
        if s.get_char(i) == '"' {
            assert(escape(rest) == seq!['\\', '"'] + escape(rest.skip(1)));
            out.append("\\\"");
        } else {
            assert(escape(rest) == seq![rest[0]] + escape(rest.skip(1)));
            out.append(s.substring_char(i, i + 1));
            assert(s@.subrange(i as int, i + 1) =~= seq![rest[0]]);
        }
        assert(out@ + escape(rest.skip(1)) =~= prev + escape(rest));
        i += 1;
    }
    assert(s@.skip(n as int) =~= Seq::<char>::empty());
    assert(out@ =~= escape(s@));
    out
}

/// The event that a parsed timestamp, a type word and a raw content make;
/// an unparsed timestamp is an error.
pub fn make_event(stamp: Option<Stamp>, ty: &str, content: Option<&str>) -> (r: Result<Event, LogError>)
    ensures
        match stamp {
            None => r == Err::<Event, LogError>(LogError::BadTimestamp),
            Some(st) => r matches Ok(e) && is_event(
                e,
                (
                    st,
                    kind_of(ty@),
                    match content {
                        Some(c) => Some(unescape(c@)),
                        None => None,
                    },
                ),
            ),
        },
{
    match stamp {
        None => Err(LogError::BadTimestamp),
        Some(st) => {
            let kind = kind_from_word(ty);
            let content = match content {
                Some(c) => Some(unescape_content(c)),
                None => None,
            };
            Ok(Event { stamp: st, kind, content })
        },
    }
}

/// Reads one log line: an event, nothing for a line of another shape, or an
/// error for an event shape whose timestamp does not parse.
pub fn parse_line(line: &str) -> (r: Result<Option<Event>, LogError>)
    ensures
        match (r, line_event(line@)) {
            (Ok(None), Ok(None)) => true,
            (Ok(Some(e)), Ok(Some(t))) => is_event(e, t),
            (Err(x), Err(y)) => x == y,
            _ => false,
        },
{
    match find_fields(line) {
        None => Ok(None),
        Some((ts, ty, ct)) => {
            let stamp = parse_rfc3339(ts);
            match make_event(stamp, ty, ct) {
                Ok(e) => Ok(Some(e)),
                Err(x) => Err(x),
            }
        },
    }
}

pub open spec fn line_views(ls: Seq<String>) -> Seq<Seq<char>> {
    ls.map_values(|l: String| l@)
}

/// The events of a log, in line order, or the error of its first bad line.
pub open spec fn log_events(ls: Seq<Seq<char>>) -> Result<Seq<(Stamp, Kind, Option<Seq<char>>)>, LogError>
    decreases ls.len(),
{
    if ls.len() == 0 {
        Ok(seq![])
    } else {
        match log_events(ls.drop_last()) {
            Err(x) => Err(x),
            Ok(v) => match line_event(ls.last()) {
                Err(y) => Err(y),
                Ok(None) => Ok(v),
                Ok(Some(t)) => Ok(v.push(t)),
            },
        }
    }
}

proof fn lemma_error_persists(ls: Seq<Seq<char>>, i: int)
    requires
        0 <= i <= ls.len(),
        log_events(ls.take(i)) is Err,
    ensures
        log_events(ls) == log_events(ls.take(i)),
    decreases ls.len() - i,
{
    if i < ls.len() {
        assert(ls.take(i + 1).drop_last() =~= ls.take(i));
        lemma_error_persists(ls, i + 1);
    } else {
        assert(ls.take(i) =~= ls);
    }
}

/// Reads the events of a log given as lines; lines of another shape are skipped.
pub fn read_events(lines: &Vec<String>) -> (r: Result<Vec<Event>, LogError>)
    ensures
        match (r, log_events(line_views(lines@))) {
            (Ok(v), Ok(t)) => v@.len() == t.len() && forall|k: int|
                0 <= k < t.len() ==> is_event(#[trigger] v@[k], t[k]),
            (Err(x), Err(y)) => x == y,
            _ => false,
        },
{
    let ghost ls = line_views(lines@);
    let mut out: Vec<Event> = Vec::new();
    let mut i: usize = 0;
    assert(ls.take(0) =~= Seq::<Seq<char>>::empty());
    while i < lines.len()
        invariant
            i <= lines@.len(),
            ls == line_views(lines@),
            log_events(ls.take(i as int)) matches Ok(t) && out@.len() == t.len() && forall|k: int|
                0 <= k < t.len() ==> is_event(#[trigger] out@[k], t[k]),
        decreases lines.len() - i,
    {
        let ghost t = log_events(ls.take(i as int))->Ok_0;
        proof {
            assert(ls.take(i + 1).drop_last() =~= ls.take(i as int));
            assert(ls.take(i + 1).last() == lines@[i as int]@);
        }
        match parse_line(lines[i].as_str()) {
            Err(x) => {
                proof {
                    lemma_error_persists(ls, i + 1);
                }
                return Err(x);
            },
            Ok(None) => {},
            Ok(Some(e)) => {
                let ghost before = out@;
                out.push(e);
                proof {
                    let t2 = log_events(ls.take(i + 1))->Ok_0;
                    assert(t2 == t.push(line_event(lines@[i as int]@)->Ok_0.unwrap()));
                    assert forall|k: int| 0 <= k < t2.len() implies is_event(#[trigger] out@[k], t2[k]) by {
                        if k < t.len() {
                            assert(out@[k] == before[k]);
                        }
                    }
                }
            },
        }
        i += 1;
    }
    proof {
        assert(ls.take(i as int) =~= ls);
    }
    Ok(out)
}

pub open spec fn kind_word(k: Kind) -> Seq<char> {
    match k {
        Kind::Start => seq!['s', 't', 'a', 'r', 't'],
        Kind::Finish => seq!['f', 'i', 'n', 'i', 's', 'h'],
        Kind::BreakStart => seq!['b', 'r', 'e', 'a', 'k', '_', 's', 't', 'a', 'r', 't'],
        Kind::BreakEnd => seq!['b', 'r', 'e', 'a', 'k', '_', 'e', 'n', 'd'],
        Kind::Other => seq![],
    }
}

/// The log line of a punch: `ts=<ts> type=<kind>`, then ` content="<escaped>"` if any.
pub open spec fn line_text(ts: Seq<char>, kind: Kind, content: Option<Seq<char>>) -> Seq<char> {
    ts_tag() + ts + type_tag() + kind_word(kind) + match content {
        Some(c) => content_tag() + escape(c) + seq!['"'],
        None => seq![],
    }
}

/// Formats the log line of one punch.
pub fn format_line(ts: &str, kind: Kind, content: Option<&str>) -> (r: String)
    requires
        kind != Kind::Other,
    ensures
        r@ == line_text(
            ts@,
            kind,
            match content {
                Some(c) => Some(c@),
                None => None,
            },
        ),
{
    proof {
        reveal_strlit("ts=");
        reveal_strlit(" type=");
        reveal_strlit(" content=\"");
        reveal_strlit("\"");
        reveal_strlit("start");
        reveal_strlit("finish");
        reveal_strlit("break_start");
        reveal_strlit("break_end");
    }
    let mut s = String::new();
    s.append("ts=");
    s.append(ts);
    s.append(" type=");
    let word = match kind {
        Kind::Start => "start",
        Kind::Finish => "finish",
        Kind::BreakStart => "break_start",
        Kind::BreakEnd => "break_end",
        Kind::Other => "",
    };
    assert(word@ =~= kind_word(kind));
    s.append(word);
    let ghost head = s@;
    match content {
        Some(c) => {
            s.append(" content=\"");
            let e = escape_content(c);
            s.append(e.as_str());
            s.append("\"");
            assert(s@ =~= head + content_tag() + escape(c@) + seq!['"']);
        },
        None => {},
    }
    assert(s@ =~= line_text(
        ts@,
        kind,
        match content {
            Some(c) => Some(c@),
            None => None,
        },
    ));
    s
}

/// No character of `s` is a space.
pub open spec fn no_space(s: Seq<char>) -> bool {
    forall|k: int| 0 <= k < s.len() ==> s[k] != ' '
}

proof fn lemma_unescape_escape(c: Seq<char>)
    ensures
        unescape(escape(c)) == c,
    decreases c.len(),
{
    if c.len() > 0 {
        lemma_unescape_escape(c.skip(1));
        let e = escape(c);
        if c[0] == '"' {
            assert(e.skip(2) =~= escape(c.skip(1)));
        } else {
            assert(e.skip(1) =~= escape(c.skip(1)));
            if c[0] == '\\' && e.len() >= 2 {
                let t = c.skip(1);
                if t.len() > 0 {
                    assert(escape(t)[0] == if t[0] == '"' { '\\' } else { t[0] });
                }
            }
        }
        assert(c =~= seq![c[0]] + c.skip(1));
    }
}

proof fn lemma_run_end(s: Seq<char>, a: int, b: int)
    requires
        0 <= a <= b <= s.len(),
        forall|k: int| a <= k < b ==> s[k] != ' ',
        b == s.len() || s[b] == ' ',
    ensures
        run_end(s, a) == b,
    decreases b - a,
{
    if a < b {
        lemma_run_end(s, a + 1, b);
    }
}

/// A punch line read back gives the timestamp text, the kind and the content it was
/// written with, whatever the content holds.
pub proof fn lemma_line_round_trip(ts: Seq<char>, kind: Kind, content: Option<Seq<char>>)
    requires
        ts.len() > 0,
        no_space(ts),
        kind != Kind::Other,
    ensures
        line_fields(line_text(ts, kind, content)) == Some(
            (
                ts,
                kind_word(kind),
                match content {
                    Some(c) => Some(escape(c)),
                    None => None,
                },
            ),
        ),
        kind_of(kind_word(kind)) == kind,
        opt_unescape(line_fields(line_text(ts, kind, content))->Some_0.2) == content,
{
    let s = line_text(ts, kind, content);
    let w = kind_word(kind);
    let tail = match content {
        Some(c) => content_tag() + escape(c) + seq!['"'],
        None => seq![],
    };
    assert(s =~= ts_tag() + ts + type_tag() + w + tail);
    let a: int = 3;
    let b: int = 3 + ts.len() as int;
    let c: int = b + 6;
    let d: int = c + w.len() as int;
    assert(s.subrange(0, 3) =~= ts_tag());
    assert forall|k: int| a <= k < b implies s[k] != ' ' by {
        assert(s[k] == ts[k - 3]);
    }
    lemma_run_end(s, a, b);
    assert(s.subrange(b, b + 6) =~= type_tag());
    assert forall|k: int| c <= k < d implies s[k] != ' ' by {
        assert(s[k] == w[k - c]);
    }
    assert(d == s.len() || s[d] == ' ') by {
        if content is Some {
            assert(s[d] == content_tag()[0]);
        }
    }
    lemma_run_end(s, c, d);
    assert(s.subrange(a, b) =~= ts);
    assert(s.subrange(c, d) =~= w);
    match content {
        Some(x) => {
            assert(s.subrange(d, d + 10) =~= content_tag());
            assert(s[s.len() - 1] == '"');
            assert(last_quote(s, d + 10, s.len() as int) == s.len() - 1);
            assert(s.subrange(d + 10, s.len() - 1) =~= escape(x));
            lemma_unescape_escape(x);
        },
        None => {
            assert(!has_at(s, d, content_tag()));
        },
    }
    assert(match_at(s, 0) is Some);
    reveal_with_fuel(first_match, 2);
}

} // verus!
