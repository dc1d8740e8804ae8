use session_editor::calendar::{civil_from_days, epoch_to_ymd};

#[test]
fn epoch_day_is_new_year_1970() {
    assert_eq!(civil_from_days(0), (1970, 1, 1));
}

#[test]
fn known_days() {
    assert_eq!(civil_from_days(19723), (2024, 1, 1));
    assert_eq!(civil_from_days(-1), (1969, 12, 31));
    assert_eq!(civil_from_days(11016), (2000, 2, 29));
    assert_eq!(civil_from_days(-719468), (0, 3, 1));
}

#[test]
fn days_round_trip_through_dates() {
    // consecutive days give consecutive dates
    let mut prev = civil_from_days(19000);
    for z in 19001..19400i64 {
        let cur = civil_from_days(z);
        let next_is_same_month = cur.0 == prev.0 && cur.1 == prev.1 && cur.2 == prev.2 + 1;
        let next_is_new_month = cur.2 == 1 && ((cur.0 == prev.0 && cur.1 == prev.1 + 1) || (cur.0 == prev.0 + 1 && cur.1 == 1 && prev.1 == 12));
        assert!(next_is_same_month || next_is_new_month, "{:?} -> {:?}", prev, cur);
        prev = cur;
    }
}

#[test]
fn seconds_to_dates() {
    assert_eq!(epoch_to_ymd(0), (1970, 1, 1));
    assert_eq!(epoch_to_ymd(86399), (1970, 1, 1));
    assert_eq!(epoch_to_ymd(86400), (1970, 1, 2));
    assert_eq!(epoch_to_ymd(1_704_067_200), (2024, 1, 1));
    assert_eq!(epoch_to_ymd(951_782_400), (2000, 2, 29));
}
