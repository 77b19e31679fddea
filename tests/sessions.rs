use kintai::aggregate::{
    decimal_label, day_label, hours_label, month_detail, monthly_totals, salary, session_minutes,
    split_hours, time_range, total_label, hundredths_of_hours,
};
use kintai::builder::{build_sessions, sort_by_time, Session};
use kintai::logline::{
    escape_content, find_fields, format_line, kind_from_word, parse_line, read_events,
    unescape_content, LogError,
};
use kintai::model::{Date, Event, Kind};

fn lines(ls: &[&str]) -> Vec<String> {
    ls.iter().map(|l| l.to_string()).collect()
}

fn sessions_from(ls: &[&str]) -> Vec<Session> {
    build_sessions(read_events(&lines(ls)).unwrap())
}

fn ranges(ss: &[Session]) -> Vec<String> {
    ss.iter().map(time_range).collect()
}

#[test]
fn break_exclusion() {
    let ss = sessions_from(&[
        "ts=2024-05-01T09:00:00+09:00 type=start",
        "ts=2024-05-01T12:00:00+09:00 type=break_start",
        "ts=2024-05-01T13:00:00+09:00 type=break_end",
        "ts=2024-05-01T18:00:00+09:00 type=finish",
    ]);
    assert_eq!(ss.len(), 1);
    assert_eq!(ranges(&ss), vec!["09:00~12:00,13:00~18:00".to_string()]);
    assert_eq!(ss[0].intervals.len(), 2);
    let totals = monthly_totals(&ss);
    assert_eq!(totals.len(), 1);
    assert_eq!(totals[0].minutes, 480);
    assert_eq!(decimal_label(totals[0].minutes), "8.00h");
}

#[test]
fn no_break_session() {
    let ss = sessions_from(&[
        "ts=2024-05-02T09:00:00+09:00 type=start",
        "ts=2024-05-02T17:30:00+09:00 type=finish",
    ]);
    assert_eq!(ranges(&ss), vec!["09:00~17:30".to_string()]);
    assert_eq!(session_minutes(&ss[0]), 510);
    assert_eq!(hundredths_of_hours(510), 850);
    assert_eq!(decimal_label(510), "8.50h");
}

#[test]
fn unterminated_break_dropped() {
    let ss = sessions_from(&[
        "ts=2024-05-03T09:00:00+09:00 type=start",
        "ts=2024-05-03T12:00:00+09:00 type=break_start",
        "ts=2024-05-03T18:00:00+09:00 type=finish",
    ]);
    assert_eq!(ranges(&ss), vec!["09:00~18:00".to_string()]);
    assert_eq!(session_minutes(&ss[0]), 540);
}

#[test]
fn restart_discards_prior() {
    let ss = sessions_from(&[
        "ts=2024-05-04T09:00:00+09:00 type=start",
        "ts=2024-05-04T10:00:00+09:00 type=start",
        "ts=2024-05-04T15:00:00+09:00 type=finish",
    ]);
    assert_eq!(ss.len(), 1);
    assert_eq!(ranges(&ss), vec!["10:00~15:00".to_string()]);
}

#[test]
fn finish_without_start_is_ignored() {
    let ss = sessions_from(&[
        "ts=2024-05-04T15:00:00+09:00 type=finish",
        "ts=2024-05-04T16:00:00+09:00 type=break_end",
    ]);
    assert!(ss.is_empty());
}

#[test]
fn second_break_start_while_pending_is_ignored() {
    let ss = sessions_from(&[
        "ts=2024-05-05T09:00:00+09:00 type=start",
        "ts=2024-05-05T12:00:00+09:00 type=break_start",
        "ts=2024-05-05T12:30:00+09:00 type=break_start",
        "ts=2024-05-05T13:00:00+09:00 type=break_end",
        "ts=2024-05-05T18:00:00+09:00 type=finish",
    ]);
    assert_eq!(ranges(&ss), vec!["09:00~12:00,13:00~18:00".to_string()]);
}

#[test]
fn aggregation_salary_and_labels() {
    let ss = sessions_from(&[
        "ts=2024-05-01T09:00:00+09:00 type=start",
        "ts=2024-05-01T14:00:00+09:00 type=finish",
        "ts=2024-05-02T09:00:00+09:00 type=start",
        "ts=2024-05-02T13:30:00+09:00 type=finish",
    ]);
    let totals = monthly_totals(&ss);
    assert_eq!(totals.len(), 1);
    assert_eq!((totals[0].year, totals[0].month), (2024, 5));
    assert_eq!(totals[0].minutes, 570);
    assert_eq!(salary(570, 1000), 9500);
    assert_eq!(hours_label(570), "9h30m");
    assert_eq!(decimal_label(570), "9.50h");
    assert_eq!(salary(570, 0), 0);
}

#[test]
fn months_ascend() {
    let ss = sessions_from(&[
        "ts=2024-06-01T09:00:00+09:00 type=start",
        "ts=2024-06-01T10:00:00+09:00 type=finish",
        "ts=2023-12-01T09:00:00+09:00 type=start",
        "ts=2023-12-01T09:30:00+09:00 type=finish",
        "ts=2024-06-02T09:00:00+09:00 type=start",
        "ts=2024-06-02T11:00:00+09:00 type=finish",
    ]);
    let totals = monthly_totals(&ss);
    let keys: Vec<(i32, u8, i64)> = totals.iter().map(|t| (t.year, t.month, t.minutes)).collect();
    assert_eq!(keys, vec![(2023, 12, 30), (2024, 6, 180)]);
}

#[test]
fn sorting_invariance() {
    let ordered = [
        "ts=2024-05-01T09:00:00+09:00 type=start",
        "ts=2024-05-01T12:00:00+09:00 type=break_start",
        "ts=2024-05-01T13:00:00+09:00 type=break_end",
        "ts=2024-05-01T18:00:00+09:00 type=finish content=\"a\"",
        "ts=2024-05-02T09:00:00+09:00 type=start",
        "ts=2024-05-02T17:00:00+09:00 type=finish",
    ];
    let mut shuffled = ordered.to_vec();
    shuffled.reverse();
    shuffled.swap(0, 3);
    let a = sessions_from(&ordered);
    let b = sessions_from(&shuffled);
    assert_eq!(ranges(&a), ranges(&b));
    let ca: Vec<Option<String>> = a.iter().map(|s| s.content.clone()).collect();
    let cb: Vec<Option<String>> = b.iter().map(|s| s.content.clone()).collect();
    assert_eq!(ca, cb);
    assert_eq!(monthly_totals(&a), monthly_totals(&b));
}

#[test]
fn sort_uses_instant_not_text() {
    let evs = read_events(&lines(&[
        "ts=2024-05-01T09:00:00+09:00 type=finish",
        "ts=2024-05-01T01:00:00+00:00 type=start",
    ]))
    .unwrap();
    let sorted = sort_by_time(evs);
    assert_eq!(sorted[0].kind, Kind::Finish);
    assert_eq!(sorted[0].stamp.offset_secs, 9 * 3600);
    assert_eq!(sorted[1].kind, Kind::Start);
    let ss = build_sessions(sorted);
    assert_eq!(ss.len(), 0);
}

#[test]
fn idempotent_reporting() {
    let log = [
        "ts=2024-05-01T09:00:00+09:00 type=start",
        "ts=2024-05-01T17:45:00+09:00 type=finish content=\"x\"",
    ];
    let first = sessions_from(&log);
    let second = sessions_from(&log);
    assert_eq!(ranges(&first), ranges(&second));
    let t1 = monthly_totals(&first);
    let t2 = monthly_totals(&second);
    assert_eq!(t1, t2);
    assert_eq!(hours_label(t1[0].minutes), hours_label(t2[0].minutes));
    assert_eq!(decimal_label(t1[0].minutes), "8.75h");
}

#[test]
fn round_trip_escaping() {
    let content = "said \"hi\" \\\" and left";
    let line = format_line("2024-05-01T18:00:00+09:00", Kind::Finish, Some(content));
    assert_eq!(
        line,
        "ts=2024-05-01T18:00:00+09:00 type=finish content=\"said \\\"hi\\\" \\\\\" and left\""
    );
    let e = parse_line(&line).unwrap().unwrap();
    assert_eq!(e.kind, Kind::Finish);
    assert_eq!(e.content.as_deref(), Some(content));
}

#[test]
fn punch_line_without_content() {
    assert_eq!(
        format_line("2024-05-01T09:00:00+09:00", Kind::BreakStart, None),
        "ts=2024-05-01T09:00:00+09:00 type=break_start"
    );
}

#[test]
fn escape_and_unescape() {
    assert_eq!(escape_content("a\"b"), "a\\\"b");
    assert_eq!(unescape_content("a\\\"b\\c"), "a\"b\\c");
    assert_eq!(unescape_content(""), "");
}

#[test]
fn foreign_lines_are_skipped() {
    let evs = read_events(&lines(&[
        "# a note",
        "",
        "ts=2024-05-01T09:00:00+09:00",
        "x ts=2024-05-01T09:00:00+09:00 type=start trailing",
    ]))
    .unwrap();
    assert_eq!(evs.len(), 1);
    assert_eq!(evs[0].kind, Kind::Start);
    assert_eq!(evs[0].stamp.date, Date { year: 2024, month: 5, day: 1 });
    assert_eq!(evs[0].stamp.clock.hour, 9);
}

#[test]
fn bad_timestamp_is_fatal() {
    let r = read_events(&lines(&[
        "ts=2024-05-01T09:00:00+09:00 type=start",
        "ts=yesterday type=finish",
    ]));
    assert_eq!(r.map(|v| v.len()), Err(LogError::BadTimestamp));
}

#[test]
fn unknown_type_word() {
    assert_eq!(kind_from_word("lunch"), Kind::Other);
    assert_eq!(kind_from_word("break_end"), Kind::BreakEnd);
    let e: Event = parse_line("ts=2024-05-01T09:00:00Z type=lunch").unwrap().unwrap();
    assert_eq!(e.kind, Kind::Other);
}

#[test]
fn greedy_content_capture() {
    let (ts, ty, ct) = find_fields("ts=T type=finish content=\"a\" b=\"c\"").unwrap();
    assert_eq!((ts, ty), ("T", "finish"));
    assert_eq!(ct, Some("a\" b=\"c"));
    let (_, _, none) = find_fields("ts=T type=finish content=\"open").unwrap();
    assert_eq!(none, None);
}

#[test]
fn split_and_rounding() {
    assert_eq!(split_hours(570), (9, 30));
    assert_eq!(split_hours(-30), (-1, 30));
    assert_eq!(salary(1, 30), 1);
    assert_eq!(salary(1, 29), 0);
    assert_eq!(salary(-1, 30), -1);
    assert_eq!(hundredths_of_hours(1), 2);
    assert_eq!(hours_label(65), "1h05m");
    assert_eq!(decimal_label(-30), "-0.50h");
}

#[test]
fn month_detail_rows_and_labels() {
    let ss = sessions_from(&[
        "ts=2024-05-01T09:00:00+09:00 type=start",
        "ts=2024-05-01T14:00:00+09:00 type=finish",
        "ts=2024-06-03T09:00:00+09:00 type=start",
        "ts=2024-06-03T10:00:00+09:00 type=finish",
        "ts=2024-05-09T09:00:00+09:00 type=start",
        "ts=2024-05-09T13:30:00+09:00 type=finish",
    ]);
    let d = month_detail(&ss).unwrap();
    assert_eq!((d.year, d.month), (2024, 5));
    assert_eq!(d.rows, vec![0, 1]);
    assert_eq!(d.total_minutes, 570);
    assert_eq!(total_label(d.total_minutes), "9時間30分");
    assert_eq!(day_label(ss[1].date), "5月9日");
    assert!(month_detail(&Vec::new()).is_none());
}
