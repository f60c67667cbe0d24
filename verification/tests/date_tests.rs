use sad::date::{parse_start_date, StartDate};

fn date(y: u32, mo: u32, d: u32, h: u32, mi: u32, s: u32, ms: u32) -> StartDate {
    StartDate {
        year: y,
        month: mo,
        day: d,
        hour: h,
        minute: mi,
        second: s,
        millisecond: ms,
    }
}

#[test]
fn parses_millisecond_input() {
    assert_eq!(
        parse_start_date("2014-01-01 00:00:00.000"),
        Some(date(2014, 1, 1, 0, 0, 0, 0))
    );
    assert_eq!(
        parse_start_date("2013-12-31 23:59:59.999"),
        Some(date(2013, 12, 31, 23, 59, 59, 999))
    );
}

#[test]
fn microsecond_input_is_cut_to_milliseconds() {
    assert_eq!(
        parse_start_date("2014-06-15 10:20:30.942696"),
        Some(date(2014, 6, 15, 10, 20, 30, 942))
    );
    // a short fraction is a decimal fraction of one second
    assert_eq!(
        parse_start_date("2014-06-15 10:20:30.5"),
        Some(date(2014, 6, 15, 10, 20, 30, 500))
    );
}

#[test]
fn rejects_bad_calendar_dates() {
    assert_eq!(parse_start_date("2014-13-01 00:00:00.000"), None);
    assert_eq!(parse_start_date("2014-02-30 00:00:00.000"), None);
    assert_eq!(parse_start_date("2014-00-10 00:00:00.000"), None);
    assert_eq!(parse_start_date("2014-01-01 24:00:00.000"), None);
    assert_eq!(parse_start_date("2014-01-01"), None);
    assert_eq!(parse_start_date("2014-01-01 00:00:00"), None);
    assert_eq!(parse_start_date("not a date"), None);
}

#[test]
fn leap_years_have_their_day() {
    assert!(parse_start_date("2016-02-29 00:00:00.000").is_some());
    assert_eq!(parse_start_date("2015-02-29 00:00:00.000"), None);
    assert!(parse_start_date("2000-02-29 00:00:00.000").is_some());
    assert_eq!(parse_start_date("1900-02-29 00:00:00.000"), None);
}
