//! Where an error passed on its way up.

use vstd::prelude::*;

verus! {

/// One station of an error: the file and the function it passed through.
#[derive(Debug, Clone)]
pub struct Trace {
    pub file_path: &'static str,
    pub function_name: &'static str,
}

/// Records `trace` as the newest station of an error's way. The first
/// station opens the record; the oldest station stays first.
pub fn add_trace(record: &mut Option<Vec<Trace>>, trace: Trace)
    ensures
        *final(record) matches Some(stations) && match *old(record) {
            Some(before) => stations@ == before@.push(trace),
            None => stations@ == seq![trace],
        },
{
    match record.take() {
        Some(mut stations) => {
            stations.push(trace);
            *record = Some(stations);
        },
        None => {
            let mut stations: Vec<Trace> = Vec::new();
            stations.push(trace);
            *record = Some(stations);
        },
    }
}

} // verus!
