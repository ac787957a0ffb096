use diffo::clock::{date_of, iso_time, Date};

fn parts(date: Date) -> (u64, u64, u64) {
    (date.year, date.month, date.day)
}

#[test]
fn days_are_counted_from_the_epoch_through_leap_years() {
    assert_eq!(parts(date_of(0)), (1970, 1, 1));
    assert_eq!(parts(date_of(58)), (1970, 2, 28));
    assert_eq!(parts(date_of(59)), (1970, 3, 1));
    assert_eq!(parts(date_of(364)), (1970, 12, 31));
    assert_eq!(parts(date_of(365)), (1971, 1, 1));
    assert_eq!(parts(date_of(11_016)), (2000, 2, 29));
    assert_eq!(parts(date_of(19_782)), (2024, 2, 29));
    assert_eq!(parts(date_of(47_540)), (2100, 2, 28));
    assert_eq!(parts(date_of(47_541)), (2100, 3, 1));
}

#[test]
fn times_are_written_in_utc_to_the_second() {
    assert_eq!(iso_time(0), "1970-01-01T00:00:00Z");
    assert_eq!(iso_time(59), "1970-01-01T00:00:59Z");
    assert_eq!(iso_time(86_399), "1970-01-01T23:59:59Z");
    assert_eq!(iso_time(951_782_400), "2000-02-29T00:00:00Z");
    assert_eq!(iso_time(1_700_000_000), "2023-11-14T22:13:20Z");
}
