use nf_energy_monitor_parser::{ParseError, Value, ValueMap};
use std::collections::HashMap;

fn as_hash_map(map: &ValueMap) -> HashMap<String, Result<Value, ParseError>> {
    let mut out = HashMap::new();
    for (label, outcome) in map.entries() {
        assert!(out.insert(label.clone(), outcome.clone()).is_none());
    }
    out
}

#[test]
fn test_value_map() {
    assert_eq!(
        as_hash_map(&ValueMap::from_partial_html(
            r#"運転モード:ピークシフトモード<br>
            PV余剰電力充電:有<br>
            太陽光発電電力:3323[W]<br>
            パワコン発電電力:0[W]<br>
            逆潮流電力:-1221[W]<br>
            家庭内使用電力:2102[W]<br>
            充電開始時刻:21時5分<br>
            充電終了時刻:8時55分<br>
            メイン放電開始時刻:15時0分<br>
            メイン放電終了時刻:21時0分<br>"#,
        )),
        HashMap::from([
            (
                "運転モード".to_string(),
                Ok(Value::Mode("ピークシフト".to_string()))
            ),
            ("PV余剰電力充電".to_string(), Ok(Value::Boolean(true))),
            ("太陽光発電電力".to_string(), Ok(Value::Wattage(3323))),
            ("パワコン発電電力".to_string(), Ok(Value::Wattage(0))),
            ("逆潮流電力".to_string(), Ok(Value::Wattage(-1221))),
            ("家庭内使用電力".to_string(), Ok(Value::Wattage(2102))),
            (
                "充電開始時刻".to_string(),
                Ok(Value::TimeInMinutes(21 * 60 + 5))
            ),
            (
                "充電終了時刻".to_string(),
                Ok(Value::TimeInMinutes(8 * 60 + 55))
            ),
            (
                "メイン放電開始時刻".to_string(),
                Ok(Value::TimeInMinutes(15 * 60 + 0))
            ),
            (
                "メイン放電終了時刻".to_string(),
                Ok(Value::TimeInMinutes(21 * 60 + 0))
            ),
        ])
    );
}

#[test]
fn lines_without_exactly_one_separator_are_dropped() {
    let map = ValueMap::from_partial_html("a:1[W]<br>no separator<br>b:2[W]<br>x:y:z<br><br>:<br>");
    assert_eq!(map.len(), 3);
    assert_eq!(map.get("a"), Some(&Ok(Value::Wattage(1))));
    assert_eq!(map.get("b"), Some(&Ok(Value::Wattage(2))));
    assert_eq!(map.get(""), Some(&Err(ParseError::UnknownDataType)));
    assert_eq!(map.get("x"), None);
    assert_eq!(map.get("no separator"), None);
}

#[test]
fn values_that_cannot_be_read_are_kept_with_the_reason() {
    let map = ValueMap::from_partial_html("a:x[W]<br>b:5分<br>c:?<br>d:有");
    assert_eq!(map.len(), 4);
    assert_eq!(map.get("a"), Some(&Err(ParseError::ParseIntError)));
    assert_eq!(map.get("b"), Some(&Err(ParseError::InvalidTimeFormat)));
    assert_eq!(map.get("c"), Some(&Err(ParseError::UnknownDataType)));
    assert_eq!(map.get("d"), Some(&Ok(Value::Boolean(true))));
}

#[test]
fn later_line_wins_over_an_earlier_one_with_the_same_label() {
    let map = ValueMap::from_partial_html("a:1[W]<br>b:2[W]<br> a :x<br>");
    assert_eq!(map.len(), 2);
    assert_eq!(map.get("a"), Some(&Err(ParseError::UnknownDataType)));
    assert_eq!(map.get("b"), Some(&Ok(Value::Wattage(2))));
}

#[test]
fn labels_are_trimmed() {
    let map = ValueMap::from_partial_html("\n   label one \t:  7[W]  <br>");
    assert_eq!(map.len(), 1);
    assert_eq!(map.get("label one"), Some(&Ok(Value::Wattage(7))));
    assert_eq!(map.get(" label one"), None);
}

#[test]
fn line_break_marker_is_matched_as_it_is_written() {
    let map = ValueMap::from_partial_html("a:1[W]<BR>b:2[W]<br/>c:3[W]");
    assert_eq!(map.len(), 0);
    let map = ValueMap::from_partial_html("a:有<br<br>b:無");
    assert_eq!(map.len(), 2);
    assert_eq!(map.get("a"), Some(&Err(ParseError::UnknownDataType)));
    assert_eq!(map.get("b"), Some(&Ok(Value::Boolean(false))));
}

#[test]
fn empty_fragment_gives_an_empty_map() {
    assert_eq!(ValueMap::from_partial_html("").len(), 0);
    assert_eq!(ValueMap::new().len(), 0);
    assert_eq!(ValueMap::new().get("a"), None);
}

#[test]
fn insert_sets_and_replaces() {
    let mut map = ValueMap::new();
    map.insert("a".to_string(), Ok(Value::Wattage(1)));
    map.insert("b".to_string(), Err(ParseError::UnknownDataType));
    map.insert("a".to_string(), Ok(Value::Wattage(2)));
    assert_eq!(map.len(), 2);
    assert_eq!(map.get("a"), Some(&Ok(Value::Wattage(2))));
    assert_eq!(map.get("b"), Some(&Err(ParseError::UnknownDataType)));
    let copy = map.clone();
    assert_eq!(as_hash_map(&copy), as_hash_map(&map));
}

#[test]
fn fields_come_sorted_by_label() {
    let map = ValueMap::from_partial_html("b:1[W]<br>a:有<br>bad:?<br>ab:2時0分<br>B:Xモード<br>あ:無<br>");
    let fields: Vec<(String, Value)> =
        map.sorted_fields().into_iter().map(|(label, value)| (label.clone(), value.clone())).collect();
    assert_eq!(
        fields,
        vec![
            ("B".to_string(), Value::Mode("X".to_string())),
            ("a".to_string(), Value::Boolean(true)),
            ("ab".to_string(), Value::TimeInMinutes(120)),
            ("b".to_string(), Value::Wattage(1)),
            ("あ".to_string(), Value::Boolean(false)),
        ]
    );
    assert!(ValueMap::new().sorted_fields().is_empty());
}
