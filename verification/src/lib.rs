//! Telemetry extraction for a home energy-management appliance.
//!
//! The appliance serves two HTML fragments: one shows the battery, the other
//! a list of labelled readings. `battery_status` reads the first, `value_map`
//! the second, with `value` as the grammar of a single reading. `snapshot`
//! puts the two together under one timestamp and builds the record that is
//! stored for it; `tick` decides what one round of polling does with what it
//! fetched. `text` and `decimal` hold the text primitives underneath.
pub mod battery_status;
pub mod decimal;
pub mod snapshot;
pub mod text;
pub mod tick;
pub mod value;
pub mod value_map;

pub use battery_status::{Battery, State};
pub use snapshot::{FieldValue, Snapshot};
pub use value::{ParseError, Value};
pub use value_map::ValueMap;
