use influxdb2::models::WriteDataPoint;
use nf_energy_monitor_parser::battery_status::ParseError;
use nf_energy_monitor_parser::tick::{next_step, Failure, Step};
use nf_energy_monitor_parser::{Battery, State, Value};

const BATTERY: &str =
    r#"<img alt="pts_battery_charge" class="battery_bak"><p><font size="30">80</font>%</p>"#;
const VALUES: &str = "太陽光発電電力:3323[W]<br>逆潮流電力:-1221[W]<br>壊れた値:???<br>";

fn some(text: &str) -> Option<String> {
    Some(text.to_string())
}

#[test]
fn tick_without_a_fragment_is_given_up() {
    for store in [false, true] {
        assert!(matches!(
            next_step("h".to_string(), 1, None, some(VALUES), store),
            Step::Abort(Failure::Transport)
        ));
        assert!(matches!(
            next_step("h".to_string(), 1, some(BATTERY), None, store),
            Step::Abort(Failure::Transport)
        ));
        assert!(matches!(
            next_step("h".to_string(), 1, None, None, store),
            Step::Abort(Failure::Transport)
        ));
    }
}

#[test]
fn tick_without_a_battery_is_given_up() {
    for store in [false, true] {
        assert!(matches!(
            next_step("h".to_string(), 1, some("<p>80%</p>"), some(VALUES), store),
            Step::Abort(Failure::Battery(ParseError::Remaining))
        ));
        assert!(matches!(
            next_step("h".to_string(), 1, some("<font>80</font>"), some(VALUES), store),
            Step::Abort(Failure::Battery(ParseError::State))
        ));
    }
}

#[test]
fn dry_tick_reports_only() {
    match next_step("nf".to_string(), 42, some(BATTERY), some(VALUES), false) {
        Step::Report(snapshot) => {
            assert_eq!(snapshot.host, "nf");
            assert_eq!(snapshot.timestamp, 42);
            assert_eq!(snapshot.battery, Battery { state: State::Charge, remaining: 80 });
            assert_eq!(snapshot.values.len(), 3);
            assert_eq!(snapshot.values.get("逆潮流電力"), Some(&Ok(Value::Wattage(-1221))));
        }
        other => panic!("{other:?}"),
    }
}

#[test]
fn tick_with_a_store_gives_the_record_at_the_one_timestamp() {
    match next_step("nf".to_string(), 42, some(BATTERY), some(VALUES), true) {
        Step::Store(snapshot, point) => {
            assert_eq!(snapshot.timestamp, 42);
            assert_eq!(snapshot.values.len(), 3);
            let mut line = Vec::new();
            point.write_data_point_to(&mut line).unwrap();
            assert_eq!(
                String::from_utf8(line).unwrap(),
                "battery,host=nf remaining=80i,太陽光発電電力=3323i,逆潮流電力=-1221i 42\n"
            );
        }
        other => panic!("{other:?}"),
    }
}
