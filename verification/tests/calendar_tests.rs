use todo_list::calendar::{
    days_in_month, end_of_day_timestamp, first_weekday, format_date, format_date_opt,
};
use todo_list::store::TodoApp;

#[test]
fn advance_month_wraps_december_forward() {
    let mut app = TodoApp::new_at(Vec::new(), 2024, 12, 1);
    app.advance_month(true);
    assert_eq!((app.selected_year, app.selected_month), (2025, 1));
}

#[test]
fn advance_month_wraps_january_backward() {
    let mut app = TodoApp::new_at(Vec::new(), 2024, 1, 1);
    app.advance_month(false);
    assert_eq!((app.selected_year, app.selected_month), (2023, 12));
}

#[test]
fn advance_month_moves_within_a_year() {
    let mut app = TodoApp::new_at(Vec::new(), 2024, 6, 1);
    app.advance_month(true);
    assert_eq!((app.selected_year, app.selected_month), (2024, 7));
    app.advance_month(false);
    assert_eq!((app.selected_year, app.selected_month), (2024, 6));
}

#[test]
fn leap_year_day_counts() {
    assert_eq!(days_in_month(2024, 2), 29);
    assert_eq!(days_in_month(2023, 2), 28);
    assert_eq!(days_in_month(2000, 2), 29);
    assert_eq!(days_in_month(1900, 2), 28);
    assert_eq!(days_in_month(2024, 1), 31);
    assert_eq!(days_in_month(2024, 4), 30);
}

#[test]
fn weekday_of_first_of_month() {
    // January 1st 2024 was a Monday; September 1st 2024 a Sunday.
    assert_eq!(first_weekday(2024, 1), 1);
    assert_eq!(first_weekday(2024, 9), 0);
    // January 1st 1970 was a Thursday.
    assert_eq!(first_weekday(1970, 1), 4);
}

#[test]
fn end_of_day_timestamps() {
    // 1970-01-01 23:59:59 UTC.
    assert_eq!(end_of_day_timestamp(1970, 1, 1), 86_399);
    // 2024-01-15 23:59:59 UTC.
    assert_eq!(end_of_day_timestamp(2024, 1, 15), 1_705_363_199);
    // A date before the epoch yields a negative timestamp.
    assert_eq!(end_of_day_timestamp(1969, 12, 31), -1);
}

#[test]
fn format_date_renders_utc_dates() {
    assert_eq!(format_date(0), "1970-01-01");
    assert_eq!(format_date(86_399), "1970-01-01");
    assert_eq!(format_date(86_400), "1970-01-02");
    assert_eq!(format_date(1_705_363_199), "2024-01-15");
    assert_eq!(format_date(-1), "1969-12-31");
    assert_eq!(format_date(951_782_400), "2000-02-29");
}

#[test]
fn confirm_day_sets_pending_due_date() {
    let mut app = TodoApp::new_at(Vec::new(), 2024, 1, 1);
    app.show_date_picker = true;
    assert!(app.confirm_day(15).is_ok());
    // 23:59:59 local time on 2024-01-15: within a zone offset of the
    // UTC end of that day.
    let utc_eod: i64 = 1_705_363_199;
    let got = app.new_item_date.unwrap();
    assert!(utc_eod - 90_000 <= got && got <= utc_eod + 90_000);
    assert!(!app.show_date_picker);
}

#[test]
fn format_date_covers_the_whole_chrono_range() {
    // The second before year 1 belongs to year 0, which formats with
    // four zero-padded digits.
    assert_eq!(format_date(-62_135_596_801), "0000-12-31");
    assert_eq!(format_date(-62_135_596_800), "0001-01-01");
    // Year -1 carries a minus sign.
    assert_eq!(format_date(-62_167_219_201), "-0001-12-31");
    // From year 10000 on the year carries a plus sign.
    assert_eq!(format_date(253_402_300_800), "+10000-01-01");
    assert_eq!(format_date(253_402_300_799), "9999-12-31");
}

#[test]
fn format_date_opt_refuses_out_of_range_timestamps() {
    assert_eq!(format_date_opt(0).unwrap(), "1970-01-01");
    assert!(format_date_opt(i64::MAX).is_none());
    assert!(format_date_opt(i64::MIN).is_none());
}

#[test]
fn calendar_works_before_the_common_era() {
    // Year 0 is a leap year in the proleptic Gregorian calendar;
    // year -1 is not.
    assert_eq!(days_in_month(0, 2), 29);
    assert_eq!(days_in_month(-1, 2), 28);
    assert_eq!(days_in_month(-4, 2), 29);
    let mut app = TodoApp::new_at(Vec::new(), 0, 1, 1);
    app.advance_month(false);
    assert_eq!((app.selected_year, app.selected_month), (-1, 12));
}

#[test]
fn confirm_day_refuses_invalid_days() {
    let mut app = TodoApp::new_at(Vec::new(), 2023, 2, 1);
    assert!(app.confirm_day(29).is_err());
    assert!(app.confirm_day(0).is_err());
    assert_eq!(app.new_item_date, None);
    let mut leap = TodoApp::new_at(Vec::new(), 2024, 2, 1);
    assert!(leap.confirm_day(29).is_ok());
}
