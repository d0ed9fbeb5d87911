//! The result assembler: from a ranked sequence to the records that are
//! handed out.
//!
//! The ranked sequence is walked in order. An entry whose identifier resolves
//! gives one output record. An entry whose identifier does not resolve is
//! passed over, and its identifier is reported. The walk ends when the
//! sequence ends or when as many records as the cap allows have been
//! gathered, whichever comes first.

use vstd::prelude::*;
use crate::ranker::Candidate;
use crate::ranker::CandidateView;
use crate::ranker::capped;
use crate::ranker::views;
use crate::record::CityRecord;
use crate::record::OutputRecord;
use crate::record::OutputView;
use crate::record::projection;
use crate::resolver::resolve;
use crate::resolver::resolved;

verus! {

/// What a walk of a ranked sequence gives.
#[derive(Clone, Debug, PartialEq, Eq)]
pub struct Assembly {
    /// The output records, in the order of the ranked sequence.
    pub records: Vec<OutputRecord>,
    /// The identifiers that were met on the walk and did not resolve, in the
    /// order of the ranked sequence.
    pub missing: Vec<i64>,
    /// The number of entries of the ranked sequence that the walk reached.
    pub walked: usize,
}

/// Output records by their contents.
pub open spec fn output_views(records: Seq<OutputRecord>) -> Seq<OutputView> {
    Seq::new(records.len(), |i: int| records[i]@)
}

/// The output record of a candidate, if its identifier resolves.
pub open spec fn output_of(records: Seq<CityRecord>) -> spec_fn(CandidateView) -> Option<
    OutputView,
> {
    |c: CandidateView|
        match resolved(records, c.id) {
            Some(record) => Some(projection(record)),
            None => None,
        }
}

/// The identifier of a candidate, if it does not resolve.
pub open spec fn miss_of(records: Seq<CityRecord>) -> spec_fn(CandidateView) -> Option<i64> {
    |c: CandidateView|
        match resolved(records, c.id) {
            Some(record) => None,
            None => Some(c.id),
        }
}

/// The output records of the entries of `ranked` that resolve, in order.
pub open spec fn outputs(ranked: Seq<CandidateView>, records: Seq<CityRecord>) -> Seq<OutputView> {
    ranked.filter_map(output_of(records))
}

/// The identifiers of the entries of `ranked` that do not resolve, in order.
pub open spec fn misses(ranked: Seq<CandidateView>, records: Seq<CityRecord>) -> Seq<i64> {
    ranked.filter_map(miss_of(records))
}

/// A walk of `ranked` under `cap` ends after `walked` entries: there the
/// sequence ends or the cap is reached, and the cap was not reached before.
pub open spec fn is_walk_end(
    ranked: Seq<CandidateView>,
    records: Seq<CityRecord>,
    cap: nat,
    walked: int,
) -> bool {
    &&& 0 <= walked <= ranked.len()
    &&& outputs(ranked.take(walked), records).len() <= cap
    &&& walked < ranked.len() ==> outputs(ranked.take(walked), records).len() == cap
    &&& walked > 0 ==> outputs(ranked.take(walked - 1), records).len() < cap
}

/// `out` is what the walk of `ranked` under `cap` gives.
pub open spec fn is_assembly(
    out: Assembly,
    ranked: Seq<CandidateView>,
    records: Seq<CityRecord>,
    cap: nat,
) -> bool {
    &&& is_walk_end(ranked, records, cap, out.walked as int)
    &&& output_views(out.records@) == outputs(ranked.take(out.walked as int), records)
    &&& out.missing@ == misses(ranked.take(out.walked as int), records)
    &&& output_views(out.records@) == capped(outputs(ranked, records), cap)
}

/// What a shorter start of a sequence gives under `filter_map` is a start of
/// what a longer one gives.
pub proof fn lemma_filter_map_start<A, B>(s: Seq<A>, f: spec_fn(A) -> Option<B>, i: int, j: int)
    requires
        0 <= i <= j <= s.len(),
    ensures
        s.take(i).filter_map(f).len() <= s.take(j).filter_map(f).len(),
        s.take(j).filter_map(f).take(s.take(i).filter_map(f).len() as int) == s.take(i).filter_map(
            f,
        ),
    decreases j - i,
{
    if i < j {
        lemma_filter_map_start(s, f, i, j - 1);
        s.lemma_filter_map_take_succ(f, j - 1);
        let short = s.take(i).filter_map(f);
        let long = s.take(j).filter_map(f);
        assert(long.take(short.len() as int) =~= short);
    } else {
        let short = s.take(i).filter_map(f);
        assert(short.take(short.len() as int) =~= short);
    }
}

/// The records gathered up to the end of a walk are the first of all the
/// output records of the ranked sequence, as many as the cap allows.
pub proof fn lemma_walk_gathers(
    ranked: Seq<CandidateView>,
    records: Seq<CityRecord>,
    cap: nat,
    walked: int,
)
    requires
        is_walk_end(ranked, records, cap, walked),
    ensures
        outputs(ranked.take(walked), records) == capped(outputs(ranked, records), cap),
{
    assert(ranked.take(ranked.len() as int) =~= ranked);
    lemma_filter_map_start(ranked, output_of(records), walked, ranked.len() as int);
}

/// The output records and the unresolved identifiers of a walk of `ranked`
/// that gathers at most `cap` records.
pub fn assemble(ranked: &Vec<Candidate>, records: &Vec<CityRecord>, cap: usize) -> (out: Assembly)
    ensures
        is_assembly(out, views(ranked@), records@, cap as nat),
        out.records.len() <= cap,
{
    let mut found: Vec<OutputRecord> = Vec::new();
    let mut missing: Vec<i64> = Vec::new();
    let mut i: usize = 0;
    let ghost entries = views(ranked@);
    assert(output_views(found@) =~= outputs(entries.take(0), records@));
    assert(missing@ =~= misses(entries.take(0), records@));
    while i < ranked.len() && found.len() < cap
        invariant
            i <= ranked.len(),
            found.len() <= cap,
            entries == views(ranked@),
            output_views(found@) == outputs(entries.take(i as int), records@),
            missing@ == misses(entries.take(i as int), records@),
            i > 0 ==> outputs(entries.take(i - 1), records@).len() < cap,
        decreases ranked.len() - i,
    {
        proof {
            entries.lemma_filter_map_take_succ(output_of(records@), i as int);
            entries.lemma_filter_map_take_succ(miss_of(records@), i as int);
        }
        let ghost before = output_views(found@);
        match resolve(records, ranked[i].id) {
            Ok(record) => {
                let out = record.project();
                found.push(out);
                assert(output_views(found@) =~= before.push(out@));
            },
            Err(_) => {
                missing.push(ranked[i].id);
            },
        }
        i = i + 1;
    }
    proof {
        lemma_walk_gathers(entries, records@, cap as nat, i as int);
    }
    Assembly { records: found, missing, walked: i }
}

/// What `filter_map` gives comes from places of the sequence that rise
/// strictly: it keeps the order of the sequence.
pub proof fn lemma_filter_map_order<A, B>(s: Seq<A>, f: spec_fn(A) -> Option<B>) -> (places: Seq<
    int,
>)
    ensures
        places.len() == s.filter_map(f).len(),
        forall|a: int|
            0 <= a < places.len() ==> 0 <= #[trigger] places[a] < s.len() && f(s[places[a]])
                == Some(s.filter_map(f)[a]),
        forall|a: int, b: int| 0 <= a < b < places.len() ==> places[a] < places[b],
    decreases s.len(),
{
    if s.len() == 0 {
        Seq::empty()
    } else {
        let front = lemma_filter_map_order(s.drop_last(), f);
        match f(s.last()) {
            Some(_) => front.push(s.len() - 1),
            None => front,
        }
    }
}

/// The output records stand in the order of the ranked sequence: each comes
/// from an entry of the sequence, and a later record from a later entry.
pub proof fn lemma_assembly_keeps_order(
    ranked: Seq<CandidateView>,
    records: Seq<CityRecord>,
    cap: nat,
) -> (places: Seq<int>)
    ensures
        places.len() == capped(outputs(ranked, records), cap).len(),
        forall|a: int|
            0 <= a < places.len() ==> 0 <= #[trigger] places[a] < ranked.len() && output_of(
                records,
            )(ranked[places[a]]) == Some(capped(outputs(ranked, records), cap)[a]),
        forall|a: int, b: int| 0 <= a < b < places.len() ==> places[a] < places[b],
{
    let all = lemma_filter_map_order(ranked, output_of(records));
    if all.len() <= cap {
        all
    } else {
        all.take(cap as int)
    }
}

/// No walk gathers more records than the cap allows.
pub proof fn lemma_assembly_within_cap(
    out: Assembly,
    ranked: Seq<CandidateView>,
    records: Seq<CityRecord>,
    cap: nat,
)
    requires
        is_assembly(out, ranked, records, cap),
    ensures
        out.records.len() <= cap,
{
    assert(output_views(out.records@).len() == out.records.len());
}

/// Where the first entry of the ranked sequence resolves and the cap is not
/// zero, its record is the first that is handed out.
pub proof fn lemma_first_resolves_first(
    ranked: Seq<CandidateView>,
    records: Seq<CityRecord>,
    cap: nat,
)
    requires
        ranked.len() > 0,
        cap > 0,
        resolved(records, ranked[0].id) is Some,
    ensures
        capped(outputs(ranked, records), cap).len() > 0,
        capped(outputs(ranked, records), cap)[0] == projection(
            resolved(records, ranked[0].id)->0,
        ),
{
    let f = output_of(records);
    ranked.lemma_filter_map_take_succ(f, 0);
    assert(ranked.take(0).filter_map(f) =~= Seq::<OutputView>::empty());
    lemma_filter_map_start(ranked, f, 1, ranked.len() as int);
    assert(ranked.take(ranked.len() as int) =~= ranked);
    let one = ranked.take(1).filter_map(f);
    assert(one.len() == 1);
    assert(outputs(ranked, records).take(1)[0] == one[0]);
}

} // verus!
