use iiko_bot::date::{date_bounds, moscow_last_, moscow_time, Dates, ReportingDay};
use iiko_bot::shared::{make_url, sha1sum};

fn day(n: i32) -> ReportingDay {
    ReportingDay::from_days(n).unwrap()
}

#[test]
fn day_label_follows_the_calendar() {
    assert_eq!(day(730_000).label(), "1999-09-03");
    assert_eq!(day(1).label(), "0001-01-01");
    assert_eq!(day(719_163).label(), "1970-01-01");
}

#[test]
fn day_of_month_is_read_from_the_calendar() {
    assert_eq!(day(730_000).day_of_month(), 3);
    assert_eq!(day(719_163).day_of_month(), 1);
}

#[test]
fn days_outside_the_handled_range_are_refused() {
    assert!(ReportingDay::from_days(0).is_none());
    assert!(ReportingDay::from_days(3_652_060).is_none());
    assert!(ReportingDay::from_days(3_652_059).is_some());
    assert!(day(5).days_before(5).is_none());
    assert_eq!(day(5).days_before(4).unwrap().days_from_ce, 1);
}

#[test]
fn moscow_time_gives_label_and_day_of_month() {
    let (label, dom) = moscow_time(day(730_000));
    assert_eq!(label, "1999-09-03");
    assert_eq!(dom, 3);
}

#[test]
fn moscow_last_counts_days_back() {
    assert_eq!(moscow_last_(day(730_000), 6).unwrap(), "1999-08-28");
    assert_eq!(moscow_last_(day(730_000), 0).unwrap(), "1999-09-03");
    assert!(moscow_last_(day(3), 3).is_none());
}

#[test]
fn week_month_and_custom_spans() {
    let today = day(730_000);
    let (from, to) = date_bounds(Dates::Week, 0, today).unwrap();
    assert_eq!(from.label(), "1999-08-28");
    assert_eq!(to, today);
    let (from, _) = date_bounds(Dates::ThisMonth, 0, today).unwrap();
    assert_eq!(from.label(), "1999-09-01");
    let (from, _) = date_bounds(Dates::Custom, 30, today).unwrap();
    assert_eq!(from.label(), "1999-08-04");
    assert!(date_bounds(Dates::Custom, 1_000_000, today).is_none());
}

#[test]
fn urls_are_built_from_segments() {
    let server = "pos.example.com".to_string();
    assert_eq!(make_url(&server, &["auth"]), "https://pos.example.com/resto/api/auth");
    assert_eq!(
        make_url(&server, &["v2", "cashshifts", "list"]),
        "https://pos.example.com/resto/api/v2/cashshifts/list"
    );
    assert_eq!(make_url(&server, &[]), "https://pos.example.com/resto/api");
}

#[test]
fn password_digest_is_lowercase_sha1_hex() {
    assert_eq!(sha1sum("abc"), "a9993e364706816aba3e25717850c26c9cd0d89d");
    assert_eq!(sha1sum(""), "da39a3ee5e6b4b0d3255bfef95601890afd80709");
}
