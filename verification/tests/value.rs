use nf_energy_monitor_parser::{ParseError, Value};

#[test]
fn test_value() {
    assert_eq!("0[W]".parse(), Ok(Value::Wattage(0)));
    assert_eq!("100[W]".parse(), Ok(Value::Wattage(100)));
    assert_eq!("-100[W]".parse(), Ok(Value::Wattage(-100)));
    assert_eq!("0時0分".parse(), Ok(Value::TimeInMinutes(0)));
    assert_eq!("10時10分".parse(), Ok(Value::TimeInMinutes(10 * 60 + 10)));
    assert_eq!("22時10分".parse(), Ok(Value::TimeInMinutes(22 * 60 + 10)));
    assert_eq!("23時59分".parse(), Ok(Value::TimeInMinutes(24 * 60 - 1)));
    assert_eq!(
        "ピークシフトモード".parse(),
        Ok(Value::Mode("ピークシフト".to_string()))
    );
    assert_eq!("有".parse(), Ok(Value::Boolean(true)));
    assert_eq!("無".parse(), Ok(Value::Boolean(false)));
}

#[test]
fn wattage_with_malformed_number() {
    assert_eq!(Value::from_str("abc[W]"), Err(ParseError::ParseIntError));
    assert_eq!(Value::from_str("[W]"), Err(ParseError::ParseIntError));
    assert_eq!(Value::from_str("-[W]"), Err(ParseError::ParseIntError));
    assert_eq!(Value::from_str("1 2[W]"), Err(ParseError::ParseIntError));
}

#[test]
fn wattage_with_sign_and_bounds() {
    assert_eq!(Value::from_str("+100[W]"), Ok(Value::Wattage(100)));
    assert_eq!(Value::from_str("-0[W]"), Ok(Value::Wattage(0)));
    assert_eq!(Value::from_str("007[W]"), Ok(Value::Wattage(7)));
    assert_eq!(Value::from_str("2147483647[W]"), Ok(Value::Wattage(i32::MAX)));
    assert_eq!(Value::from_str("-2147483648[W]"), Ok(Value::Wattage(i32::MIN)));
    assert_eq!(Value::from_str("2147483648[W]"), Err(ParseError::ParseIntError));
    assert_eq!(Value::from_str("-2147483649[W]"), Err(ParseError::ParseIntError));
    assert_eq!(Value::from_str("99999999999999999999999[W]"), Err(ParseError::ParseIntError));
    assert_eq!(Value::from_str("+-1[W]"), Err(ParseError::ParseIntError));
    assert_eq!(Value::from_str("1.5[W]"), Err(ParseError::ParseIntError));
    assert_eq!(Value::from_str("１[W]"), Err(ParseError::ParseIntError));
}

#[test]
fn text_is_trimmed_before_it_is_read() {
    assert_eq!(Value::from_str("  12[W]\n"), Ok(Value::Wattage(12)));
    assert_eq!(Value::from_str("\t有 "), Ok(Value::Boolean(true)));
    assert_eq!(Value::from_str("\u{3000}無\u{a0}"), Ok(Value::Boolean(false)));
    assert_eq!(Value::from_str(" 1時2分 "), Ok(Value::TimeInMinutes(62)));
    assert_eq!(Value::from_str("  Aモード  "), Ok(Value::Mode("A".to_string())));
    assert_eq!(Value::from_str("12 [W]"), Err(ParseError::ParseIntError));
    assert_eq!(Value::from_str("\u{200b}有"), Err(ParseError::UnknownDataType));
}

#[test]
fn mode_keeps_its_label_as_it_is() {
    assert_eq!(Value::from_str("モード"), Ok(Value::Mode(String::new())));
    assert_eq!(Value::from_str("12[W]モード"), Ok(Value::Mode("12[W]".to_string())));
    assert_eq!(Value::from_str("a bモード"), Ok(Value::Mode("a b".to_string())));
    assert_eq!(Value::from_str("有モード"), Ok(Value::Mode("有".to_string())));
}

#[test]
fn flags_are_the_two_tokens_only() {
    assert_eq!(Value::from_str("有"), Ok(Value::Boolean(true)));
    assert_eq!(Value::from_str("無"), Ok(Value::Boolean(false)));
    assert_eq!(Value::from_str("有有"), Err(ParseError::UnknownDataType));
    assert_eq!(Value::from_str("有無"), Err(ParseError::UnknownDataType));
    assert_eq!(Value::from_str("true"), Err(ParseError::UnknownDataType));
}

#[test]
fn duration_errors() {
    assert_eq!(Value::from_str("12分"), Err(ParseError::InvalidTimeFormat));
    assert_eq!(Value::from_str("分"), Err(ParseError::InvalidTimeFormat));
    assert_eq!(Value::from_str("x分"), Err(ParseError::InvalidTimeFormat));
    assert_eq!(Value::from_str("時5分"), Err(ParseError::ParseIntError));
    assert_eq!(Value::from_str("x時5分"), Err(ParseError::ParseIntError));
    assert_eq!(Value::from_str("1時分"), Err(ParseError::ParseIntError));
    assert_eq!(Value::from_str("1時x分"), Err(ParseError::ParseIntError));
    assert_eq!(Value::from_str("-1時5分"), Err(ParseError::ParseIntError));
    assert_eq!(Value::from_str("1時-5分"), Err(ParseError::ParseIntError));
    assert_eq!(Value::from_str("1 時5分"), Err(ParseError::ParseIntError));
    assert_eq!(Value::from_str("4294967296時0分"), Err(ParseError::ParseIntError));
}

#[test]
fn duration_with_more_hour_markers() {
    assert_eq!(Value::from_str("1時2時3分"), Err(ParseError::InvalidTimeFormat));
    assert_eq!(Value::from_str("x時2時3分"), Err(ParseError::ParseIntError));
    assert_eq!(Value::from_str("1時2分時5分"), Ok(Value::TimeInMinutes(62)));
    assert_eq!(Value::from_str("1時時5分"), Err(ParseError::InvalidTimeFormat));
}

#[test]
fn duration_is_not_range_checked() {
    assert_eq!(Value::from_str("24時60分"), Ok(Value::TimeInMinutes(1500)));
    assert_eq!(Value::from_str("+1時+1分"), Ok(Value::TimeInMinutes(61)));
    assert_eq!(Value::from_str("71582788時15分"), Ok(Value::TimeInMinutes(u32::MAX)));
}

#[test]
fn duration_that_does_not_fit() {
    assert_eq!(Value::from_str("71582788時16分"), Err(ParseError::ParseIntError));
    assert_eq!(Value::from_str("71582789時0分"), Err(ParseError::ParseIntError));
    assert_eq!(Value::from_str("4294967295時4294967295分"), Err(ParseError::ParseIntError));
}

#[test]
fn unknown_shapes() {
    assert_eq!(Value::from_str(""), Err(ParseError::UnknownDataType));
    assert_eq!(Value::from_str("   "), Err(ParseError::UnknownDataType));
    assert_eq!(Value::from_str("12"), Err(ParseError::UnknownDataType));
    assert_eq!(Value::from_str("12[w]"), Err(ParseError::UnknownDataType));
    assert_eq!(Value::from_str("12[W"), Err(ParseError::UnknownDataType));
    assert_eq!(Value::from_str("12[W]x"), Err(ParseError::UnknownDataType));
    assert_eq!(Value::from_str("モードx"), Err(ParseError::UnknownDataType));
    assert_eq!(Value::from_str("1時2"), Err(ParseError::UnknownDataType));
}

#[test]
fn first_shape_that_fits_decides() {
    assert_eq!(Value::from_str("1時2分[W]"), Err(ParseError::ParseIntError));
    assert_eq!(Value::from_str("分モード"), Ok(Value::Mode("分".to_string())));
    assert_eq!(Value::from_str("モード分"), Err(ParseError::InvalidTimeFormat));
}

#[test]
fn values_as_they_are_shown() {
    assert_eq!(Value::Wattage(0).render(), "0[W]");
    assert_eq!(Value::Wattage(3323).render(), "3323[W]");
    assert_eq!(Value::Wattage(-1221).render(), "-1221[W]");
    assert_eq!(Value::Wattage(i32::MIN).render(), "-2147483648[W]");
    assert_eq!(Value::Wattage(i32::MAX).render(), "2147483647[W]");
    assert_eq!(Value::TimeInMinutes(0).render(), "00:00");
    assert_eq!(Value::TimeInMinutes(21 * 60 + 5).render(), "21:05");
    assert_eq!(Value::TimeInMinutes(8 * 60 + 55).render(), "08:55");
    assert_eq!(Value::TimeInMinutes(1439).render(), "23:59");
    assert_eq!(Value::TimeInMinutes(6000).render(), "100:00");
    assert_eq!(Value::TimeInMinutes(u32::MAX).render(), "71582788:15");
    assert_eq!(Value::Mode("ピークシフト".to_string()).render(), "ピークシフト[モード]");
    assert_eq!(Value::Mode(String::new()).render(), "[モード]");
    assert_eq!(Value::Boolean(true).render(), "true");
    assert_eq!(Value::Boolean(false).render(), "false");
}

#[test]
fn shown_wattage_is_read_back() {
    for n in [0, 1, -1, 9, 10, -10, 99, 100, 3323, -1221, i32::MAX, i32::MIN] {
        assert_eq!(Value::from_str(&Value::Wattage(n).render()), Ok(Value::Wattage(n)));
    }
}

#[test]
fn shown_values_are_not_read_back_in_general() {
    assert_eq!(
        Value::from_str(&Value::TimeInMinutes(610).render()),
        Err(ParseError::UnknownDataType)
    );
    assert_eq!(
        Value::from_str(&Value::Mode("x".to_string()).render()),
        Err(ParseError::UnknownDataType)
    );
    assert_eq!(
        Value::from_str(&Value::Boolean(true).render()),
        Err(ParseError::UnknownDataType)
    );
}

#[test]
fn value_is_cloned_as_it_is() {
    for v in [
        Value::Wattage(-3),
        Value::TimeInMinutes(7),
        Value::Mode("m".to_string()),
        Value::Boolean(true),
    ] {
        assert_eq!(v.clone(), v);
    }
}
