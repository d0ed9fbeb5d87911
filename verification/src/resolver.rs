//! The record resolver: from an identifier back to the record that bears
//! it.

use vstd::prelude::*;
use crate::record::CityRecord;

verus! {

/// What can go wrong in a search.
#[derive(Clone, Copy, Debug, PartialEq, Eq, Structural)]
pub enum SearchError {
    /// The records could not be read.
    DataUnavailable,
    /// No record bears the identifier.
    NotFound,
    /// The query holds nothing to search for.
    MalformedQuery,
}

/// The record at `at` is the first that bears `id`.
pub open spec fn is_first_with(records: Seq<CityRecord>, id: i64, at: int) -> bool {
    &&& 0 <= at < records.len()
    &&& records[at].id == id
    &&& forall|k: int| 0 <= k < at ==> (#[trigger] records[k]).id != id
}

/// The record that `id` resolves to: the first that bears it, if any does.
pub open spec fn resolved(records: Seq<CityRecord>, id: i64) -> Option<CityRecord> {
    if exists|at: int| is_first_with(records, id, at) {
        Some(records[choose|at: int| is_first_with(records, id, at)])
    } else {
        None
    }
}

/// No record bears `id`.
pub open spec fn absent(records: Seq<CityRecord>, id: i64) -> bool {
    forall|k: int| 0 <= k < records.len() ==> (#[trigger] records[k]).id != id
}

/// The first record that bears an identifier is the one it resolves to, and
/// an identifier that no record bears resolves to none.
pub proof fn lemma_resolved(records: Seq<CityRecord>, id: i64)
    ensures
        forall|at: int| is_first_with(records, id, at) ==> resolved(records, id) == Some(records[at]),
        absent(records, id) <==> resolved(records, id) is None,
{
    assert forall|at: int| is_first_with(records, id, at) implies resolved(records, id) == Some(
        records[at],
    ) by {
        let first = choose|at: int| is_first_with(records, id, at);
        if first < at {
            assert(records[first].id != id);
        }
        if at < first {
            assert(records[at].id != id);
        }
    }
    if !absent(records, id) {
        lemma_some_first(records, id, records.len() as int);
    }
    if resolved(records, id) is Some {
        let first = choose|at: int| is_first_with(records, id, at);
        assert(records[first].id == id);
    }
}

/// Where a record below `upto` bears `id`, one is the first to do so.
proof fn lemma_some_first(records: Seq<CityRecord>, id: i64, upto: int)
    requires
        0 <= upto <= records.len(),
        exists|k: int| 0 <= k < upto && (#[trigger] records[k]).id == id,
    ensures
        exists|at: int| is_first_with(records, id, at),
    decreases upto,
{
    let k = choose|k: int| 0 <= k < upto && (#[trigger] records[k]).id == id;
    if exists|j: int| 0 <= j < k && (#[trigger] records[j]).id == id {
        lemma_some_first(records, id, k);
    } else {
        assert(is_first_with(records, id, k));
    }
}

/// The record that `id` resolves to among `records`.
pub fn resolve(records: &Vec<CityRecord>, id: i64) -> (found: Result<&CityRecord, SearchError>)
    ensures
        match found {
            Ok(record) => resolved(records@, id) == Some(*record),
            Err(error) => error == SearchError::NotFound && resolved(records@, id) is None,
        },
        found is Err <==> absent(records@, id),
{
    proof {
        lemma_resolved(records@, id);
    }
    let mut i: usize = 0;
    while i < records.len()
        invariant
            i <= records.len(),
            forall|k: int| 0 <= k < i ==> (#[trigger] records[k]).id != id,
        decreases records.len() - i,
    {
        if records[i].id == id {
            assert(is_first_with(records@, id, i as int));
            return Ok(&records[i]);
        }
        i = i + 1;
    }
    Err(SearchError::NotFound)
}

} // verus!
