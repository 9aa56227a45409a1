use yakstack::{parse_delay_spec_into_seconds, AppError, ReminderError};

#[test]
fn delay_units() {
    assert_eq!(parse_delay_spec_into_seconds("5s").unwrap(), 5);
    assert_eq!(parse_delay_spec_into_seconds("2m").unwrap(), 120);
    assert_eq!(parse_delay_spec_into_seconds("1h").unwrap(), 3600);
}

#[test]
fn delay_components_add_up() {
    assert_eq!(parse_delay_spec_into_seconds("1h30m").unwrap(), 5400);
    assert_eq!(parse_delay_spec_into_seconds("1h1m1s").unwrap(), 3661);
    assert_eq!(parse_delay_spec_into_seconds("10m5s").unwrap(), 605);
    assert_eq!(
        parse_delay_spec_into_seconds("999999h999999m999999s").unwrap(),
        3660996339
    );
}

#[test]
fn delay_rejects_malformed_specs() {
    for bad in ["", "0s", "05s", "5", "5x", "1234567s", "5s1h", "1m1h", "h", "5s ", "1h1h"] {
        match parse_delay_spec_into_seconds(bad) {
            Err(AppError::Reminder(ReminderError::InvalidReminderTime(s))) => assert_eq!(s, bad),
            other => panic!("{:?} gave {:?}", bad, other),
        }
    }
}
