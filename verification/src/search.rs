//! The whole search: from a snapshot of records and a query to the records
//! that are handed out.

use vstd::prelude::*;
use crate::assembler::Assembly;
use crate::assembler::assemble;
use crate::assembler::is_assembly;
use crate::ranker::capped;
use crate::assembler::outputs;
use crate::assembler::lemma_first_resolves_first;
use crate::index::NameIndex;
use crate::index::index_of;
use crate::ranker::CandidateView;
use crate::ranker::rank;
use crate::ranker::ranking_of;
use crate::ranker::is_ranking;
use crate::ranker::lemma_exact_match_first;
use crate::record::CityRecord;
use crate::record::projection;
use crate::resolver::SearchError;
use crate::resolver::resolved;
use crate::similarity::Strategy;
use crate::text::normalize_query;
use crate::text::normalized;

verus! {

/// The largest number of records that a search hands out.
pub const MAX_RESULTS: usize = 20;

/// The ranking that a search of `records` for `query` walks.
pub open spec fn search_ranking(records: Seq<CityRecord>, query: Seq<char>, strategy: Strategy)
    -> Seq<CandidateView> {
    ranking_of(strategy, normalized(query), index_of(records))
}

/// Searches `records` for `query` and hands out at most `cap` records.
///
/// The names of the records are indexed, the index is ranked for the query,
/// and the ranking is walked against the same records.
pub fn search_with_cap(records: &Vec<CityRecord>, query: &str, strategy: Strategy, cap: usize)
    -> (out: Assembly)
    ensures
        is_ranking(
            search_ranking(records@, query@, strategy),
            strategy,
            normalized(query@),
            index_of(records@),
        ),
        is_assembly(out, search_ranking(records@, query@, strategy), records@, cap as nat),
        out.records.len() <= cap,
{
    let index = NameIndex::build(records);
    let ranked = rank(query, &index, strategy);
    assemble(&ranked, records, cap)
}

/// Searches `records` for `query` and hands out at most `MAX_RESULTS`
/// records.
pub fn search(records: &Vec<CityRecord>, query: &str, strategy: Strategy) -> (out: Assembly)
    ensures
        is_ranking(
            search_ranking(records@, query@, strategy),
            strategy,
            normalized(query@),
            index_of(records@),
        ),
        is_assembly(out, search_ranking(records@, query@, strategy), records@, MAX_RESULTS as nat),
        out.records.len() <= MAX_RESULTS,
{
    search_with_cap(records, query, strategy, MAX_RESULTS)
}

/// Answers a query from what the reading of the records gave: a search of
/// the snapshot where there is one, `DataUnavailable` where there is none.
pub fn search_snapshot(snapshot: Option<&Vec<CityRecord>>, query: &str, strategy: Strategy) -> (out:
    Result<Assembly, SearchError>)
    ensures
        match snapshot {
            Some(records) => {
                &&& out is Ok
                &&& is_ranking(
                    search_ranking(records@, query@, strategy),
                    strategy,
                    normalized(query@),
                    index_of(records@),
                )
                &&& is_assembly(
                    out->Ok_0,
                    search_ranking(records@, query@, strategy),
                    records@,
                    MAX_RESULTS as nat,
                )
                &&& out->Ok_0.records.len() <= MAX_RESULTS
            },
            None => out == Err::<Assembly, SearchError>(SearchError::DataUnavailable),
        },
{
    match snapshot {
        Some(records) => Ok(search(records, query, strategy)),
        None => Err(SearchError::DataUnavailable),
    }
}

/// The normalized form of `query` for a caller that refuses to search for
/// nothing: `MalformedQuery` where the normalized query is empty.
pub fn checked_query(query: &str) -> (out: Result<String, SearchError>)
    ensures
        match out {
            Ok(q) => q@ == normalized(query@) && q@.len() > 0,
            Err(error) => error == SearchError::MalformedQuery && normalized(query@).len() == 0,
        },
{
    let q = normalize_query(query);
    if q.as_str().is_empty() {
        Err(SearchError::MalformedQuery)
    } else {
        Ok(q)
    }
}

/// Under the heuristic percentage, where the normalized query is itself a
/// name of the index and its identifier resolves, the record of that name is
/// the first that is handed out.
pub proof fn lemma_exact_match_wins(
    ranked: Seq<CandidateView>,
    query: Seq<char>,
    index: Map<Seq<char>, i64>,
    records: Seq<CityRecord>,
    cap: nat,
)
    requires
        query.len() <= u64::MAX,
        is_ranking(ranked, Strategy::HeuristicPercentage, query, index),
        index.contains_key(query),
        resolved(records, index[query]) is Some,
        cap > 0,
    ensures
        capped(outputs(ranked, records), cap).len() > 0,
        capped(outputs(ranked, records), cap)[0] == projection(resolved(records, index[query])->0),
{
    lemma_exact_match_first(ranked, query, index);
    lemma_first_resolves_first(ranked, records, cap);
}

} // verus!
