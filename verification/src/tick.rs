//! One round of polling: what is to be done once the two fetches of a tick
//! have ended. Fetching, logging and storing are the caller's.
use crate::battery_status::ParseError;
use crate::snapshot::{fragment_battery, is_record_of, is_snapshot_of, Snapshot};
use influxdb2::models::DataPoint;
use vstd::prelude::*;
use vstd::string::*;

verus! {

/// Why a tick ends without a snapshot.
#[derive(Debug, PartialEq, Eq, Structural, Clone, Copy)]
pub enum Failure {
    /// One of the two fragments could not be fetched.
    Transport,
    /// The battery could not be read from its fragment.
    Battery(ParseError),
}

/// What a tick does next.
#[derive(Debug)]
pub enum Step {
    /// Nothing is reported and nothing is stored.
    Abort(Failure),
    /// The snapshot is reported; nothing is stored.
    Report(Snapshot),
    /// The snapshot is reported and the record is stored.
    Store(Snapshot, DataPoint),
}

/// Decides what a tick does with what it fetched. `timestamp` is the one
/// moment that stands for the whole tick. A fragment that could not be
/// fetched is `None`. `store` says whether a metrics store is configured.
///
/// Without both fragments, and without a battery in the first, the tick is
/// given up. Else the snapshot is reported, and stored where `store` is set.
pub fn next_step(
    host: String,
    timestamp: i64,
    battery_html: Option<String>,
    values_html: Option<String>,
    store: bool,
) -> (r: Step)
    ensures
        battery_html is None || values_html is None ==> r == Step::Abort(Failure::Transport),
        battery_html is Some && values_html is Some ==> match fragment_battery(
            battery_html->Some_0@,
        ) {
            Err(e) => r == Step::Abort(Failure::Battery(e)),
            Ok(battery) => if store {
                r is Store && is_snapshot_of(
                    r->Store_0,
                    host,
                    timestamp,
                    battery,
                    values_html->Some_0@,
                ) && is_record_of(r->Store_1, r->Store_0)
            } else {
                r is Report && is_snapshot_of(
                    r->Report_0,
                    host,
                    timestamp,
                    battery,
                    values_html->Some_0@,
                )
            },
        },
{
    let battery_html: String = match battery_html {
        Some(html) => html,
        None => {
            return Step::Abort(Failure::Transport);
        },
    };
    let values_html: String = match values_html {
        Some(html) => html,
        None => {
            return Step::Abort(Failure::Transport);
        },
    };
    match Snapshot::from_partial_html(host, timestamp, battery_html.as_str(), values_html.as_str()) {
        Err(e) => Step::Abort(Failure::Battery(e)),
        Ok(snapshot) => if store {
            let point = snapshot.data_point();
            Step::Store(snapshot, point)
        } else {
            Step::Report(snapshot)
        },
    }
}

} // verus!
