//! The landing data the dashboard front end populates itself from.

use vstd::prelude::*;

verus! {

use crate::model::Snapshot;

/// Known benchmark names, known metric names, and the date of the most
/// recent commit.
pub struct InfoResponse {
    pub crates: Vec<String>,
    pub stats: Vec<String>,
    pub as_of: u64,
}

fn clone_strings(v: &Vec<String>) -> (r: Vec<String>)
    ensures
        r@.len() == v@.len(),
        forall|i: int| 0 <= i < v@.len() ==> (#[trigger] r@[i])@ == v@[i]@,
{
    let mut r: Vec<String> = Vec::new();
    let mut i: usize = 0;
    while i < v.len()
        invariant
            0 <= i <= v@.len(),
            r@.len() == i,
            forall|j: int| 0 <= j < i ==> (#[trigger] r@[j])@ == v@[j]@,
        decreases v@.len() - i,
    {
        r.push(v[i].clone());
        i = i + 1;
    }
    r
}

/// The known benchmark and metric names and the newest commit's date.
pub fn handle_info(data: &Snapshot) -> (r: InfoResponse)
    ensures
        r.crates@.len() == data.crate_list@.len(),
        forall|i: int|
            0 <= i < data.crate_list@.len() ==> (#[trigger] r.crates@[i])@ == data.crate_list@[i]@,
        r.stats@.len() == data.stats_list@.len(),
        forall|i: int|
            0 <= i < data.stats_list@.len() ==> (#[trigger] r.stats@[i])@ == data.stats_list@[i]@,
        r.as_of == data.last_date,
{
    InfoResponse {
        crates: clone_strings(&data.crate_list),
        stats: clone_strings(&data.stats_list),
        as_of: data.last_date,
    }
}

} // verus!
