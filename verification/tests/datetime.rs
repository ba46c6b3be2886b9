use jotts::datetime::{days_to_ymd, format_timestamp};

#[test]
fn epoch_day_is_new_year_1970() {
    assert_eq!(days_to_ymd(0), (1970, 1, 1));
}

#[test]
fn day_before_epoch() {
    assert_eq!(days_to_ymd(-1), (1969, 12, 31));
}

#[test]
fn leap_day_of_2000() {
    assert_eq!(days_to_ymd(11016), (2000, 2, 29));
}

#[test]
fn new_year_2024() {
    assert_eq!(days_to_ymd(19723), (2024, 1, 1));
    assert_eq!(days_to_ymd(20000), (2024, 10, 4));
}

#[test]
fn last_day_of_year_9999() {
    assert_eq!(days_to_ymd(2932896), (9999, 12, 31));
}

#[test]
fn dates_before_the_common_era() {
    assert_eq!(days_to_ymd(-719162), (1, 1, 1));
    assert_eq!(days_to_ymd(-719468), (0, 3, 1));
    assert_eq!(days_to_ymd(-719469), (0, 2, 29));
}

#[test]
fn consecutive_days_have_consecutive_dates() {
    let mut prev = days_to_ymd(-800000);
    for day in -799999i64..30000 {
        let cur = days_to_ymd(day);
        let same_month = cur.0 == prev.0 && cur.1 == prev.1 && cur.2 == prev.2 + 1;
        let next_month = cur.0 == prev.0 && cur.1 == prev.1 + 1 && cur.2 == 1;
        let next_year = cur.0 == prev.0 + 1 && cur.1 == 1 && cur.2 == 1 && prev.1 == 12 && prev.2 == 31;
        assert!(same_month || next_month || next_year, "{:?} -> {:?}", prev, cur);
        prev = cur;
    }
}

#[test]
fn timestamp_of_epoch() {
    assert_eq!(format_timestamp(0), "1970-01-01 00:00:00");
}

#[test]
fn timestamp_of_a_known_instant() {
    assert_eq!(format_timestamp(1700000000), "2023-11-14 22:13:20");
}

#[test]
fn timestamp_last_second_of_a_day() {
    assert_eq!(format_timestamp(86399), "1970-01-01 23:59:59");
}

#[test]
fn timestamp_year_10000_has_five_digits() {
    assert_eq!(format_timestamp(253402300800), "10000-01-01 00:00:00");
    assert_eq!(format_timestamp(253402300799), "9999-12-31 23:59:59");
}

#[test]
fn timestamps_sort_as_instants() {
    let instants = [0u64, 59, 60, 3599, 3600, 86399, 86400, 951782400, 1700000000, 253402300799];
    for a in instants {
        for b in instants {
            assert_eq!(format_timestamp(a) < format_timestamp(b), a < b);
            assert_eq!(format_timestamp(a) == format_timestamp(b), a == b);
        }
    }
}
