use fraud_detection::fraud::calendar::{date_weekday, days_since_epoch, minutes_between, Moment};

fn float_days(y: u16, mo: u8, d: u8) -> u32 {
    let (y, m) = if mo <= 2 { (y as i32 - 1, mo as i32 + 12) } else { (y as i32, mo as i32) };
    let a = y / 100;
    let b = 2 - a + a / 4;
    ((365.25 * (y + 4716) as f64) as i32 + (30.6001 * (m + 1) as f64) as i32 + d as i32 + b - 1524)
        as u32
}

#[test]
fn day_numbers_are_julian() {
    assert_eq!(days_since_epoch(2000, 1, 1), 2_451_545);
    assert_eq!(days_since_epoch(1970, 1, 1), 2_440_588);
    assert_eq!(days_since_epoch(2026, 3, 11), 2_461_111);
}

#[test]
fn day_numbers_agree_with_the_formula_in_fractions() {
    for y in 0..=u16::MAX {
        for mo in [0u8, 1, 2, 3, 6, 7, 12, 13, 99, 255] {
            for d in [0u8, 1, 31, 255] {
                assert_eq!(days_since_epoch(y, mo, d), float_days(y, mo, d), "{y}-{mo}-{d}");
            }
        }
    }
    for mo in 0..=u8::MAX {
        assert_eq!(days_since_epoch(2026, mo, 1), float_days(2026, mo, 1), "{mo}");
    }
}

#[test]
fn weekdays_of_known_dates() {
    assert_eq!(date_weekday(2026, 3, 11), 2);
    assert_eq!(date_weekday(1970, 1, 1), 3);
    assert_eq!(date_weekday(2000, 2, 29), 1);
    assert_eq!(date_weekday(2024, 12, 31), 1);
}

#[test]
fn weekdays_follow_the_day_number() {
    for y in 1..4000u16 {
        for mo in 1..=12u8 {
            assert_eq!(date_weekday(y, mo, 15) as u32, days_since_epoch(y, mo, 15) % 7);
        }
    }
}

#[test]
fn months_and_years_follow_each_other() {
    assert_eq!(days_since_epoch(2024, 3, 1), days_since_epoch(2024, 2, 29) + 1);
    assert_eq!(days_since_epoch(2023, 3, 1), days_since_epoch(2023, 2, 28) + 1);
    assert_eq!(days_since_epoch(1900, 3, 1), days_since_epoch(1900, 2, 28) + 1);
    assert_eq!(days_since_epoch(2000, 3, 1), days_since_epoch(2000, 2, 28) + 2);
    assert_eq!(days_since_epoch(2025, 1, 1), days_since_epoch(2024, 12, 31) + 1);
}

#[test]
fn minutes_are_differences() {
    let a = Moment { year: 2026, month: 3, day: 11, hour: 14, minute: 58 };
    let b = Moment { year: 2026, month: 3, day: 11, hour: 20, minute: 23 };
    assert_eq!(minutes_between(b, a), 325);
    assert_eq!(minutes_between(a, b), -325);
    assert_eq!(minutes_between(a, a), 0);
    let c = Moment { year: 2026, month: 3, day: 12, hour: 0, minute: 0 };
    assert_eq!(minutes_between(c, a), minutes_between(c, b) + minutes_between(b, a));
    assert_eq!(minutes_between(c, b), 217);
}

#[test]
fn moments_are_possible_or_not() {
    let at = |month, day, hour, minute| Moment { year: 2023, month, day, hour, minute };
    assert!(at(1, 1, 0, 0).is_possible());
    assert!(at(12, 31, 23, 59).is_possible());
    assert!(at(2, 28, 0, 0).is_possible());
    assert!(!at(2, 29, 0, 0).is_possible());
    assert!(Moment { year: 2024, ..at(2, 29, 0, 0) }.is_possible());
    assert!(!at(9, 31, 0, 0).is_possible());
    assert!(!at(0, 1, 0, 0).is_possible());
    assert!(!at(13, 1, 0, 0).is_possible());
    assert!(!at(1, 0, 0, 0).is_possible());
    assert!(!at(1, 32, 0, 0).is_possible());
    assert!(!at(1, 1, 24, 0).is_possible());
    assert!(!at(1, 1, 0, 60).is_possible());
}
