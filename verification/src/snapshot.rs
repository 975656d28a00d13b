//! One reading of the appliance, and the record that is stored for it.
use crate::battery_status::{
    battery_of, first_attr, first_inner_html, remaining_selector, state_attribute,
    state_selector, Battery, ParseError,
};
use crate::text::same_text;
use crate::value::{outcome_view, Outcome, Value, ValueView};
use crate::value_map::{
    distinct_labels, entries_map, fragment_map, label_at, lemma_entries_map_dom, was_read, Entry,
    ValueMap,
};
use influxdb2::models::data_point::{DataPointBuilder, DataPointError};
use influxdb2::models::DataPoint;
use vstd::prelude::*;
use vstd::std_specs::cmp::PartialEqSpecImpl;
use vstd::string::*;

verus! {

/// The builder of a record of the metrics store. Its content is known by
/// the four names below only.
#[verifier::external_type_specification]
#[verifier::external_body]
pub struct ExDataPointBuilder(influxdb2::models::data_point::DataPointBuilder);

/// A record of the metrics store. Its content is known by the four names
/// below only.
#[verifier::external_type_specification]
#[verifier::external_body]
pub struct ExDataPoint(influxdb2::models::DataPoint);

/// Why a builder gave no record.
#[verifier::external_type_specification]
#[verifier::external_body]
pub struct ExDataPointError(influxdb2::models::data_point::DataPointError);

/// What a field of a record holds. The records of this library hold
/// integers, text and booleans, and no other kind of field.
#[derive(Debug, Eq)]
pub enum FieldValue {
    I64(i64),
    String(String),
    Bool(bool),
}

impl PartialEq for FieldValue {
    fn eq(&self, other: &FieldValue) -> (r: bool) {
        match (self, other) {
            (FieldValue::I64(a), FieldValue::I64(b)) => *a == *b,
            (FieldValue::String(a), FieldValue::String(b)) => same_text(a.as_str(), b.as_str()),
            (FieldValue::Bool(a), FieldValue::Bool(b)) => *a == *b,
            _ => false,
        }
    }
}

impl PartialEqSpecImpl for FieldValue {
    open spec fn obeys_eq_spec() -> bool {
        true
    }

    open spec fn eq_spec(&self, other: &FieldValue) -> bool {
        self@ == other@
    }
}

/// The mathematical content of a `FieldValue`.
pub ghost enum FieldView {
    I64(i64),
    Text(Seq<char>),
    Bool(bool),
}

impl View for FieldValue {
    type V = FieldView;

    open spec fn view(&self) -> FieldView {
        match self {
            FieldValue::I64(n) => FieldView::I64(*n),
            FieldValue::String(s) => FieldView::Text(s@),
            FieldValue::Bool(b) => FieldView::Bool(*b),
        }
    }
}

/// The measurement that `builder` was made for.
pub uninterp spec fn builder_measurement(builder: DataPointBuilder) -> Seq<char>;

/// The tags that `builder` holds, by name.
pub uninterp spec fn builder_tags(builder: DataPointBuilder) -> Map<Seq<char>, Seq<char>>;

/// The fields that `builder` holds, by name.
pub uninterp spec fn builder_fields(builder: DataPointBuilder) -> Map<Seq<char>, FieldView>;

/// The timestamp that `builder` holds, if one was set.
pub uninterp spec fn builder_timestamp(builder: DataPointBuilder) -> Option<i64>;

/// The measurement of `point`.
pub uninterp spec fn point_measurement(point: DataPoint) -> Seq<char>;

/// The tags of `point`, by name.
pub uninterp spec fn point_tags(point: DataPoint) -> Map<Seq<char>, Seq<char>>;

/// The fields of `point`, by name.
pub uninterp spec fn point_fields(point: DataPoint) -> Map<Seq<char>, FieldView>;

/// The timestamp of `point`, if it has one.
pub uninterp spec fn point_timestamp(point: DataPoint) -> Option<i64>;

/// No tag at all.
pub open spec fn no_tags() -> Map<Seq<char>, Seq<char>> {
    Map::empty()
}

/// No field at all.
pub open spec fn no_fields() -> Map<Seq<char>, FieldView> {
    Map::empty()
}

/// Calls `influxdb2::models::DataPoint::builder`, which makes a builder for
/// the measurement, with no tag, no field and no timestamp.
#[verifier::external_body]
fn start_point(measurement: &str) -> (r: DataPointBuilder)
    ensures
        builder_measurement(r) == measurement@,
        builder_tags(r) == no_tags(),
        builder_fields(r) == no_fields(),
        builder_timestamp(r) is None,
{
    DataPoint::builder(measurement)
}

/// Calls `influxdb2::models::data_point::DataPointBuilder::tag`, which sets
/// the tag `name`, in place of one of that name, and leaves the rest.
#[verifier::external_body]
fn with_tag(builder: DataPointBuilder, name: &str, value: &str) -> (r: DataPointBuilder)
    ensures
        builder_measurement(r) == builder_measurement(builder),
        builder_tags(r) == builder_tags(builder).insert(name@, value@),
        builder_fields(r) == builder_fields(builder),
        builder_timestamp(r) == builder_timestamp(builder),
{
    builder.tag(name, value)
}

/// Calls `influxdb2::models::data_point::DataPointBuilder::timestamp`, which
/// sets the timestamp, in place of an earlier one, and leaves the rest.
#[verifier::external_body]
fn with_timestamp(builder: DataPointBuilder, timestamp: i64) -> (r: DataPointBuilder)
    ensures
        builder_measurement(r) == builder_measurement(builder),
        builder_tags(r) == builder_tags(builder),
        builder_fields(r) == builder_fields(builder),
        builder_timestamp(r) == Some(timestamp),
{
    builder.timestamp(timestamp)
}

/// Calls `influxdb2::models::data_point::DataPointBuilder::field`, which sets
/// the field `name`, in place of one of that name, and leaves the rest.
#[verifier::external_body]
fn with_field(builder: DataPointBuilder, name: String, value: FieldValue) -> (r: DataPointBuilder)
    ensures
        builder_measurement(r) == builder_measurement(builder),
        builder_tags(r) == builder_tags(builder),
        builder_fields(r) == builder_fields(builder).insert(name@, value@),
        builder_timestamp(r) == builder_timestamp(builder),
{
    builder.field(
        name,
        match value {
            FieldValue::I64(n) => influxdb2::models::FieldValue::I64(n),
            FieldValue::String(s) => influxdb2::models::FieldValue::String(s),
            FieldValue::Bool(b) => influxdb2::models::FieldValue::Bool(b),
        },
    )
}

/// Calls `influxdb2::models::data_point::DataPointBuilder::build`, which
/// gives the record that holds what the builder held, and fails exactly where
/// the builder holds no field.
#[verifier::external_body]
fn finish_point(builder: DataPointBuilder) -> (r: Result<DataPoint, DataPointError>)
    ensures
        r is Ok <==> exists|name: Seq<char>| builder_fields(builder).contains_key(name),
        r is Ok ==> point_measurement(r->Ok_0) == builder_measurement(builder),
        r is Ok ==> point_tags(r->Ok_0) == builder_tags(builder),
        r is Ok ==> point_fields(r->Ok_0) == builder_fields(builder),
        r is Ok ==> point_timestamp(r->Ok_0) == builder_timestamp(builder),
{
    builder.build()
}

/// The measurement under which the records are stored.
pub open spec fn measurement_name() -> Seq<char> {
    "battery"@
}

/// The name of the tag that holds the appliance's host.
pub open spec fn host_tag() -> Seq<char> {
    "host"@
}

/// The name of the field that holds the remaining charge.
pub open spec fn remaining_field() -> Seq<char> {
    "remaining"@
}

/// The field that a value is stored as: a wattage and a time of day as an
/// integer, a mode as text, a flag as a boolean.
pub open spec fn field_of(v: ValueView) -> FieldView {
    match v {
        ValueView::Wattage(n) => FieldView::I64(n as i64),
        ValueView::TimeInMinutes(n) => FieldView::I64(n as i64),
        ValueView::Mode(label) => FieldView::Text(label),
        ValueView::Boolean(b) => FieldView::Bool(b),
    }
}

/// The fields of the record for a reading: each value that was read, under
/// its label, and the remaining charge under its own name, unless a value
/// was read under that name.
pub open spec fn record_fields(remaining: u32, values: Map<Seq<char>, Outcome>) -> Map<
    Seq<char>,
    FieldView,
> {
    Map::new(
        |name: Seq<char>| name == remaining_field() || was_read(values, name),
        |name: Seq<char>|
            if was_read(values, name) {
                field_of(values[name]->Ok_0)
            } else {
                FieldView::I64(remaining as i64)
            },
    )
}

/// The fields after the remaining charge and then `entries`, from the left,
/// have been set.
pub open spec fn fields_after(remaining: u32, entries: Seq<Entry>) -> Map<Seq<char>, FieldView>
    decreases entries.len(),
{
    if entries.len() == 0 {
        no_fields().insert(remaining_field(), FieldView::I64(remaining as i64))
    } else {
        let before = fields_after(remaining, entries.drop_last());
        match outcome_view(entries.last().1) {
            Ok(v) => before.insert(entries.last().0@, field_of(v)),
            Err(_) => before,
        }
    }
}

/// Setting the fields entry by entry gives the fields of the record.
proof fn lemma_fields_after(remaining: u32, entries: Seq<Entry>)
    requires
        distinct_labels(entries),
    ensures
        fields_after(remaining, entries) == record_fields(remaining, entries_map(entries)),
    decreases entries.len(),
{
    let left = fields_after(remaining, entries);
    let right = record_fields(remaining, entries_map(entries));
    if entries.len() == 0 {
        assert(left =~= right);
    } else {
        let before = entries.drop_last();
        let last = entries.len() - 1;
        assert forall|i: int, j: int| 0 <= i < j < before.len() implies label_at(before, i)
            != label_at(before, j) by {
            assert(label_at(entries, i) != label_at(entries, j));
        }
        lemma_fields_after(remaining, before);
        lemma_entries_map_dom(before);
        assert(!entries_map(before).contains_key(entries.last().0@)) by {
            if entries_map(before).contains_key(entries.last().0@) {
                let i = choose|i: int|
                    0 <= i < before.len() && label_at(before, i) == entries.last().0@;
                assert(label_at(entries, i) != label_at(entries, last));
            }
        }
        assert(left =~= right);
    }
}

/// Whether `snapshot` is what the two fragments hold, for `host` at
/// `timestamp`, given the battery that the first fragment shows.
pub open spec fn is_snapshot_of(
    snapshot: Snapshot,
    host: String,
    timestamp: i64,
    battery: Battery,
    values_html: Seq<char>,
) -> bool {
    &&& snapshot.host == host
    &&& snapshot.timestamp == timestamp
    &&& snapshot.battery == battery
    &&& snapshot.values@ == fragment_map(values_html)
}

/// Whether `point` is the record that is stored for `snapshot`: tagged with
/// the host, at the snapshot's timestamp, with the remaining charge and every
/// value that was read.
pub open spec fn is_record_of(point: DataPoint, snapshot: Snapshot) -> bool {
    &&& point_measurement(point) == measurement_name()
    &&& point_tags(point) == no_tags().insert(host_tag(), snapshot.host@)
    &&& point_timestamp(point) == Some(snapshot.timestamp)
    &&& point_fields(point) == record_fields(snapshot.battery.remaining, snapshot.values@)
}

/// The battery that a fragment shows.
pub open spec fn fragment_battery(battery_html: Seq<char>) -> Result<Battery, ParseError> {
    battery_of(
        first_inner_html(battery_html, remaining_selector()),
        first_attr(battery_html, state_selector(), state_attribute()),
    )
}

impl FieldValue {
    /// The field that `value` is stored as.
    pub fn from_value(value: &Value) -> (r: FieldValue)
        ensures
            r@ == field_of(value@),
    {
        match value {
            Value::Wattage(n) => FieldValue::I64(*n as i64),
            Value::TimeInMinutes(n) => FieldValue::I64(*n as i64),
            Value::Mode(label) => FieldValue::String(label.clone()),
            Value::Boolean(b) => FieldValue::Bool(*b),
        }
    }
}

/// What was read from the appliance at one moment.
#[derive(Debug)]
pub struct Snapshot {
    /// The appliance's host.
    pub host: String,
    /// The moment of the reading, in nanoseconds since the Unix epoch. It is
    /// the one timestamp of everything in the snapshot.
    pub timestamp: i64,
    pub battery: Battery,
    pub values: ValueMap,
}

impl Snapshot {
    /// Reads a snapshot from the two fragments of the appliance. Without a
    /// battery there is no snapshot; a value that cannot be read is kept in
    /// `values` with the reason.
    pub fn from_partial_html(
        host: String,
        timestamp: i64,
        battery_html: &str,
        values_html: &str,
    ) -> (r: Result<Snapshot, ParseError>)
        ensures
            match fragment_battery(battery_html@) {
                Ok(battery) => r is Ok && is_snapshot_of(
                    r->Ok_0,
                    host,
                    timestamp,
                    battery,
                    values_html@,
                ),
                Err(e) => r == Err::<Snapshot, ParseError>(e),
            },
    {
        match Battery::from_partial_html(battery_html) {
            Ok(battery) => {
                let values = ValueMap::from_partial_html(values_html);
                Ok(Snapshot { host, timestamp, battery, values })
            },
            Err(e) => Err(e),
        }
    }

    /// The record that is stored for the snapshot: tagged with the host, at
    /// the snapshot's timestamp, with the remaining charge and every value
    /// that was read. A value that could not be read has no field.
    pub fn data_point(&self) -> (point: DataPoint)
        ensures
            is_record_of(point, *self),
    {
        let remaining: u32 = self.battery.remaining;
        let mut builder = start_point("battery");
        builder = with_tag(builder, "host", self.host.as_str());
        builder = with_timestamp(builder, self.timestamp);
        builder = with_field(builder, "remaining".to_owned(), FieldValue::I64(remaining as i64));
        let entries = self.values.entries();
        let mut i: usize = 0;
        while i < entries.len()
            invariant
                i <= entries.len(),
                builder_measurement(builder) == measurement_name(),
                builder_tags(builder) == no_tags().insert(host_tag(), self.host@),
                builder_timestamp(builder) == Some(self.timestamp),
                builder_fields(builder) == fields_after(remaining, entries@.take(i as int)),
            decreases entries.len() - i,
        {
            assert(entries@.take(i + 1).drop_last() =~= entries@.take(i as int));
            match &entries[i].1 {
                Ok(value) => {
                    builder =
                    with_field(builder, entries[i].0.clone(), FieldValue::from_value(value));
                },
                Err(_) => {},
            }
            i += 1;
        }
        proof {
            assert(entries@.take(i as int) =~= entries@);
            lemma_fields_after(remaining, entries@);
            assert(builder_fields(builder).contains_key(remaining_field()));
        }
        match finish_point(builder) {
            Ok(point) => point,
            Err(_) => vstd::pervasive::unreached(),
        }
    }
}

} // verus!
