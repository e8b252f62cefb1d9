use wwida::date::{today, Date};
use wwida::date_specifier::{DateSpecifier, Weekday};
use wwida::error::{TrackerError, ValidationError};

fn test_today() -> Date {
    Date::from_ymd(2022, 1, 5).expect("valid date")
}

#[test]
fn date_specifier_from_str() {
    assert_eq!(
        DateSpecifier::Today,
        DateSpecifier::from_str("today").expect("could not parse")
    );
    assert_eq!(
        DateSpecifier::Tomorrow,
        DateSpecifier::from_str("tomorrow").expect("could not parse")
    );
    assert_eq!(
        DateSpecifier::This(Weekday::Sat),
        DateSpecifier::from_str("this/saturday").expect("could not parse")
    );
    assert_eq!(
        DateSpecifier::Next(Weekday::Sat),
        DateSpecifier::from_str("next/saturday").expect("could not parse")
    );
    assert_eq!(
        DateSpecifier::Date(test_today()),
        DateSpecifier::from_str("05/01/2022").expect("could not parse")
    );
}

#[test]
fn date_specifier_to_date() {
    let today = test_today();
    assert_eq!(
        DateSpecifier::Today.resolve(today),
        Date::from_ymd(2022, 1, 5).unwrap()
    );
    assert_eq!(
        DateSpecifier::Tomorrow.resolve(today),
        Date::from_ymd(2022, 1, 6).unwrap()
    );
    assert_eq!(
        DateSpecifier::This(Weekday::Mon).resolve(today),
        Date::from_ymd(2022, 1, 3).unwrap()
    );
    assert_eq!(
        DateSpecifier::This(Weekday::Sun).resolve(today),
        Date::from_ymd(2022, 1, 9).unwrap()
    );
    assert_eq!(
        DateSpecifier::Next(Weekday::Mon).resolve(today),
        Date::from_ymd(2022, 1, 10).unwrap()
    );
    assert_eq!(
        DateSpecifier::Next(Weekday::Sun).resolve(today),
        Date::from_ymd(2022, 1, 16).unwrap()
    );
    assert_eq!(
        DateSpecifier::Date(test_today()).resolve(today),
        Date::from_ymd(2022, 1, 5).unwrap()
    );
}

#[test]
fn date_render_fixed_form() {
    let d = Date::from_ymd(2022, 1, 5).unwrap();
    assert_eq!(d.render(), "Wed, 05-Jan-2022");
    let e = Date::from_ymd(2022, 12, 25).unwrap();
    assert_eq!(e.render(), "Sun, 25-Dec-2022");
    let old = Date::from_ymd(987, 3, 7).unwrap();
    assert!(old.render().ends_with("07-Mar-0987"));
}

#[test]
fn date_parse_rejects_bad_forms() {
    assert!(matches!(
        DateSpecifier::from_str("31/02/2022"),
        Err(TrackerError::Validation(ValidationError::BadDateText))
    ));
    assert!(matches!(
        DateSpecifier::from_str("05-01-2022"),
        Err(TrackerError::Validation(ValidationError::BadDateText))
    ));
    assert!(matches!(
        DateSpecifier::from_str("this/funday"),
        Err(TrackerError::Validation(ValidationError::BadWeekdayText))
    ));
    assert!(matches!(
        DateSpecifier::from_str("next/"),
        Err(TrackerError::Validation(ValidationError::BadWeekdayText))
    ));
    assert!(DateSpecifier::from_str("29/02/2024").is_ok());
    assert!(DateSpecifier::from_str("29/02/2023").is_err());
}

#[test]
fn date_round_trips_through_calendar() {
    for &(y, m, d) in &[(1u32, 1u32, 1u32), (1999, 12, 31), (2000, 2, 29), (2022, 1, 5), (9999, 12, 31)] {
        let date = Date::from_ymd(y, m, d).expect("valid date");
        assert_eq!(date.to_ymd(), (y, m, d));
    }
    assert!(Date::from_ymd(2022, 13, 1).is_none());
    assert!(Date::from_ymd(0, 1, 1).is_none());
    assert!(Date::from_ymd(10000, 1, 1).is_none());
}

#[test]
fn clock_yields_a_date_in_range() {
    let d = today();
    assert!(1 <= d.days && d.days <= 3_660_000);
}
