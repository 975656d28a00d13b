use influxdb2::models::WriteDataPoint;
use nf_energy_monitor_parser::battery_status::ParseError;
use nf_energy_monitor_parser::{Battery, FieldValue, Snapshot, State, Value, ValueMap};

const BATTERY: &str = r#"<img src="pts_battery_discharge.png" alt="pts_battery_discharge" class="battery_bak">
    <p class="battery_p_str2"><font size="30">56</font>%</p>"#;

fn line_protocol(snapshot: &Snapshot) -> String {
    let mut out = Vec::new();
    snapshot.data_point().write_data_point_to(&mut out).unwrap();
    String::from_utf8(out).unwrap()
}

#[test]
fn snapshot_from_fragments() {
    let snapshot =
        Snapshot::from_partial_html("nf.local".to_string(), 1_700_000_000_000_000_000, BATTERY, "a:1[W]<br>b:x[W]<br>")
            .unwrap();
    assert_eq!(snapshot.host, "nf.local");
    assert_eq!(snapshot.timestamp, 1_700_000_000_000_000_000);
    assert_eq!(snapshot.battery, Battery { state: State::Discharge, remaining: 56 });
    assert_eq!(snapshot.values.len(), 2);
    assert_eq!(snapshot.values.get("a"), Some(&Ok(Value::Wattage(1))));
    assert_eq!(
        snapshot.values.get("b"),
        Some(&Err(nf_energy_monitor_parser::ParseError::ParseIntError))
    );
}

#[test]
fn snapshot_needs_the_battery() {
    let r = Snapshot::from_partial_html("h".to_string(), 0, "<p>no battery here</p>", "a:1[W]");
    assert_eq!(r.err(), Some(ParseError::Remaining));
    let r = Snapshot::from_partial_html("h".to_string(), 0, "<font>5</font>", "a:1[W]");
    assert_eq!(r.err(), Some(ParseError::State));
}

#[test]
fn record_holds_each_value_that_was_read() {
    let snapshot = Snapshot::from_partial_html(
        "nf.local".to_string(),
        1234,
        BATTERY,
        "watt:-12[W]<br>time:21時5分<br>mode:XYモード<br>flag:無<br>bad:12<br>worse:x[W]<br>",
    )
    .unwrap();
    assert_eq!(
        line_protocol(&snapshot),
        "battery,host=nf.local flag=f,mode=\"XY\",remaining=56i,time=1265i,watt=-12i 1234\n"
    );
}

#[test]
fn record_without_values_holds_the_charge() {
    let snapshot = Snapshot::from_partial_html("h".to_string(), -5, BATTERY, "").unwrap();
    assert_eq!(line_protocol(&snapshot), "battery,host=h remaining=56i -5\n");
}

#[test]
fn value_named_like_the_charge_takes_its_place() {
    let snapshot =
        Snapshot::from_partial_html("h".to_string(), 1, BATTERY, "remaining:有<br>").unwrap();
    assert_eq!(line_protocol(&snapshot), "battery,host=h remaining=t 1\n");
    let snapshot =
        Snapshot::from_partial_html("h".to_string(), 1, BATTERY, "remaining:?<br>").unwrap();
    assert_eq!(line_protocol(&snapshot), "battery,host=h remaining=56i 1\n");
}

#[test]
fn field_of_each_kind_of_value() {
    assert_eq!(FieldValue::from_value(&Value::Wattage(-7)), FieldValue::I64(-7));
    assert_eq!(FieldValue::from_value(&Value::TimeInMinutes(1439)), FieldValue::I64(1439));
    assert_eq!(
        FieldValue::from_value(&Value::TimeInMinutes(u32::MAX)),
        FieldValue::I64(4_294_967_295)
    );
    assert_eq!(
        FieldValue::from_value(&Value::Mode("m".to_string())),
        FieldValue::String("m".to_string())
    );
    assert_eq!(FieldValue::from_value(&Value::Boolean(true)), FieldValue::Bool(true));
}

#[test]
fn snapshot_built_by_hand() {
    let mut values = ValueMap::new();
    values.insert("x".to_string(), Ok(Value::Boolean(true)));
    values.insert("y".to_string(), Err(nf_energy_monitor_parser::ParseError::UnknownDataType));
    let snapshot = Snapshot {
        host: "a b".to_string(),
        timestamp: 9,
        battery: Battery { state: State::Normal, remaining: 100 },
        values,
    };
    assert_eq!(line_protocol(&snapshot), "battery,host=a\\ b remaining=100i,x=t 9\n");
}
