use nf_energy_monitor_parser::battery_status::ParseError;
use nf_energy_monitor_parser::{Battery, State};

#[test]
fn test_battery() {
    let html = r#"<img src="pts_battery_empty.png" alt="pts_battery_empty" class="battery_bak">
                  <img src="pts_battery_g_010.png" alt="pts_battery_g_010" class="battery_p">
                  <p class="battery_p_str2"><font size="30">10</font>%</p>"#;

    assert_eq!(Battery::from_partial_html(html), Ok(Battery { state: State::Normal, remaining: 10 }));

    let html = r#"<img src="pts_battery_discharge.png" alt="pts_battery_discharge" class="battery_bak">
                  <img src="pts_battery_g_060.png" alt="pts_battery_g_060" class="battery_p">
                  <p class="battery_p_str2"><font size="30">56</font>%</p>"#;

    assert_eq!(Battery::from_partial_html(html), Ok(Battery { state: State::Discharge, remaining: 56 }));

    let html = r#"<img src="pts_battery_empty.png" alt="pts_battery_empty" class="battery_bak">
                  <img src="pts_battery_g_100.png" alt="pts_battery_g_100" class="battery_p">
                  <p class="battery_p_str3"><font size="30">100</font>%</p>"#;

    assert_eq!(Battery::from_partial_html(html), Ok(Battery { state: State::Normal, remaining: 100 }));
}

#[test]
fn battery_charging() {
    let html = r#"<img alt="pts_battery_charge" class="battery_bak"><font>7</font>"#;
    assert_eq!(Battery::from_partial_html(html), Ok(Battery { state: State::Charge, remaining: 7 }));
}

#[test]
fn battery_with_unknown_icon() {
    let html = r#"<img alt="pts_battery_broken" class="battery_bak"><font>10</font>"#;
    assert_eq!(Battery::from_partial_html(html), Err(ParseError::State));
}

#[test]
fn battery_without_icon() {
    let html = r#"<img alt="pts_battery_empty" class="battery_p"><font>10</font>"#;
    assert_eq!(Battery::from_partial_html(html), Err(ParseError::State));
    let html = r#"<img class="battery_bak"><font>10</font>"#;
    assert_eq!(Battery::from_partial_html(html), Err(ParseError::State));
}

#[test]
fn battery_without_charge_display() {
    let html = r#"<img alt="pts_battery_empty" class="battery_bak"><p>10%</p>"#;
    assert_eq!(Battery::from_partial_html(html), Err(ParseError::Remaining));
}

#[test]
fn battery_with_malformed_charge() {
    let html = r#"<img alt="pts_battery_empty" class="battery_bak"><font>ten</font>"#;
    assert_eq!(Battery::from_partial_html(html), Err(ParseError::Remaining));
    let html = r#"<img alt="pts_battery_empty" class="battery_bak"><font> 10</font>"#;
    assert_eq!(Battery::from_partial_html(html), Err(ParseError::Remaining));
    let html = r#"<img alt="pts_battery_empty" class="battery_bak"><font><b>10</b></font>"#;
    assert_eq!(Battery::from_partial_html(html), Err(ParseError::Remaining));
}

#[test]
fn battery_charge_is_read_before_state() {
    assert_eq!(Battery::from_partial_html(""), Err(ParseError::Remaining));
    assert_eq!(Battery::from_parts(None, None), Err(ParseError::Remaining));
    assert_eq!(
        Battery::from_parts(Some("x".to_string()), Some("pts_battery_empty".to_string())),
        Err(ParseError::Remaining)
    );
}

#[test]
fn battery_from_parts() {
    assert_eq!(
        Battery::from_parts(Some("10".to_string()), Some("pts_battery_empty".to_string())),
        Ok(Battery { state: State::Normal, remaining: 10 })
    );
    assert_eq!(
        Battery::from_parts(Some("+10".to_string()), Some("pts_battery_charge".to_string())),
        Ok(Battery { state: State::Charge, remaining: 10 })
    );
    assert_eq!(
        Battery::from_parts(Some("4294967295".to_string()), Some("pts_battery_discharge".to_string())),
        Ok(Battery { state: State::Discharge, remaining: u32::MAX })
    );
    assert_eq!(
        Battery::from_parts(Some("4294967296".to_string()), Some("pts_battery_discharge".to_string())),
        Err(ParseError::Remaining)
    );
    assert_eq!(Battery::from_parts(Some("10".to_string()), None), Err(ParseError::State));
    assert_eq!(
        Battery::from_parts(Some("10".to_string()), Some("pts_battery_g_010".to_string())),
        Err(ParseError::State)
    );
}

#[test]
fn state_from_description() {
    assert_eq!(State::try_from_alt("pts_battery_empty"), Some(State::Normal));
    assert_eq!(State::try_from_alt("pts_battery_discharge"), Some(State::Discharge));
    assert_eq!(State::try_from_alt("pts_battery_charge"), Some(State::Charge));
    assert_eq!(State::try_from_alt("pts_battery_"), None);
    assert_eq!(State::try_from_alt(""), None);
}
