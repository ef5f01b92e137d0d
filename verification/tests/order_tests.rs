use mangashelf::order::datetime_of;
use mangashelf::order::parse_date;
use mangashelf::order::parse_time;
use mangashelf::order::stable_order;
use mangashelf::order::try_datetime_of;
use mangashelf::order::DateTimeVal;

#[test]
fn dates_parse_with_calendar_checks() {
    assert_eq!(parse_date("2024-11-30"), Some((2024, 11, 30)));
    assert_eq!(parse_date("2024-1-5"), Some((2024, 1, 5)));
    assert_eq!(parse_date("2024-02-29"), Some((2024, 2, 29)));
    assert_eq!(parse_date("2023-02-29"), None);
    assert_eq!(parse_date("1900-02-29"), None);
    assert_eq!(parse_date("2000-02-29"), Some((2000, 2, 29)));
    assert_eq!(parse_date("2024-13-01"), None);
    assert_eq!(parse_date("2024-00-10"), None);
    assert_eq!(parse_date("2024-04-31"), None);
    assert_eq!(parse_date("24-04-01"), None);
    assert_eq!(parse_date("2024-04-01x"), None);
}

#[test]
fn times_parse_within_clock_bounds() {
    assert_eq!(parse_time("10:43"), Some((10, 43)));
    assert_eq!(parse_time("9:05"), Some((9, 5)));
    assert_eq!(parse_time("23:59"), Some((23, 59)));
    assert_eq!(parse_time("24:00"), None);
    assert_eq!(parse_time("10:60"), None);
    assert_eq!(parse_time("10-43"), None);
    assert_eq!(parse_time("10:"), None);
}

#[test]
fn datetime_drops_day_half_marker_and_falls_back() {
    let dt = datetime_of("2024-11-30", "10:43pm");
    assert_eq!(dt, DateTimeVal { year: 2024, month: 11, day: 30, hour: 10, minute: 43 });
    let epoch = datetime_of("not a date", "10:43pm");
    assert_eq!(epoch, DateTimeVal { year: 1970, month: 1, day: 1, hour: 0, minute: 0 });
    assert_eq!(try_datetime_of("2024-11-30", "x"), None);
    assert_eq!(
        try_datetime_of("2024-11-30", "10:43pm"),
        Some(DateTimeVal { year: 2024, month: 11, day: 30, hour: 10, minute: 43 })
    );
}

#[test]
fn stable_order_sorts_keys_and_keeps_ties_in_place() {
    let keys: Vec<u64> = vec![2, 10, 1];
    assert_eq!(stable_order(&keys), vec![2, 0, 1]);
    let ties: Vec<u64> = vec![5, 3, 5, 3];
    assert_eq!(stable_order(&ties), vec![1, 3, 0, 2]);
    let empty: Vec<u64> = vec![];
    assert_eq!(stable_order(&empty), Vec::<usize>::new());
}
