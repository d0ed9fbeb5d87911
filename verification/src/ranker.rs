//! The ranker: which names of the index are close enough to a query, and in
//! which order.
//!
//! The closer score comes first. Of two candidates with scores of the same
//! value, the one whose name is first in the lexicographic order of its
//! characters comes first. Names are unique in an index, so a ranking is
//! fully determined by the query, the index and the strategy.

use vstd::prelude::*;
use crate::index::IndexEntry;
use crate::index::NameIndex;
use crate::index::mapping;
use crate::index::lemma_mapping_step;
use crate::score::Score;
use crate::score::lemma_score_order;
use crate::similarity::Strategy;
use crate::similarity::admits;
use crate::similarity::closer;
use crate::similarity::score_of;
use crate::similarity::score;
use crate::similarity::is_admitted;
use crate::similarity::is_closer;
use crate::similarity::lemma_exact_match_scores_hundred;
use crate::similarity::lemma_heuristic_below_hundred;
use crate::text::chars_of;
use crate::text::comes_before;
use crate::text::normalize_query;
use crate::text::normalized;
use crate::text::precedes;
use crate::text::lemma_precedes_total;
use crate::text::lemma_precedes_transitive;

verus! {

/// A name of the index with its identifier and its score for a query.
#[derive(Clone, Debug, PartialEq, Eq)]
pub struct Candidate {
    pub name: String,
    pub id: i64,
    pub score: Score,
}

/// A candidate by its contents.
pub struct CandidateView {
    pub name: Seq<char>,
    pub id: i64,
    pub score: Score,
}

impl View for Candidate {
    type V = CandidateView;

    open spec fn view(&self) -> CandidateView {
        CandidateView { name: self.name@, id: self.id, score: self.score }
    }
}

/// The candidates of a sequence by their contents.
pub open spec fn views(candidates: Seq<Candidate>) -> Seq<CandidateView> {
    Seq::new(candidates.len(), |i: int| candidates[i]@)
}

/// The first `cap` items of `items`, or all of them where there are fewer.
pub open spec fn capped<T>(items: Seq<T>, cap: nat) -> Seq<T> {
    if items.len() <= cap {
        items
    } else {
        items.take(cap as int)
    }
}

/// The candidate that the key `name` with the identifier `id` makes for
/// `query`.
pub open spec fn candidate_of(strategy: Strategy, query: Seq<char>, name: Seq<char>, id: i64)
    -> CandidateView {
    CandidateView { name, id, score: score_of(strategy, query, name) }
}

/// `a` comes before `b` in a ranking: its score is closer, or the scores
/// have the same value and its name comes first.
pub open spec fn ranks_before(strategy: Strategy, a: CandidateView, b: CandidateView) -> bool {
    closer(strategy, a.score, b.score) || (a.score.same(b.score) && precedes(a.name, b.name))
}

/// `ranked` is the ranking of `index` for `query`: it holds the admitted
/// names of the index, each once with its identifier and score, in ranking
/// order.
pub open spec fn is_ranking(
    ranked: Seq<CandidateView>,
    strategy: Strategy,
    query: Seq<char>,
    index: Map<Seq<char>, i64>,
) -> bool {
    &&& forall|i: int|
        0 <= i < ranked.len() ==> {
            &&& index.contains_key((#[trigger] ranked[i]).name)
            &&& ranked[i] == candidate_of(strategy, query, ranked[i].name, index[ranked[i].name])
            &&& admits(strategy, ranked[i].score)
            &&& ranked[i].score.wf()
        }
    &&& forall|key: Seq<char>|
        #![trigger index.contains_key(key)]
        index.contains_key(key) && admits(strategy, score_of(strategy, query, key)) ==> exists|
            i: int,
        |
            0 <= i < ranked.len() && (#[trigger] ranked[i]).name == key
    &&& forall|i: int, j: int|
        0 <= i < j < ranked.len() ==> ranks_before(strategy, #[trigger] ranked[i], #[trigger] ranked[j])
}

/// Of two candidates at most one comes before the other.
pub proof fn lemma_ranks_asymmetric(strategy: Strategy, a: CandidateView, b: CandidateView)
    ensures
        !(ranks_before(strategy, a, b) && ranks_before(strategy, b, a)),
{
    lemma_precedes_total(a.name, b.name, 0);
}

/// Of two candidates with different names one comes before the other.
pub proof fn lemma_ranks_total(strategy: Strategy, a: CandidateView, b: CandidateView)
    requires
        a.name != b.name,
    ensures
        ranks_before(strategy, a, b) || ranks_before(strategy, b, a),
{
    lemma_precedes_total(a.name, b.name, 0);
}

/// The ranking order is transitive.
pub proof fn lemma_ranks_transitive(
    strategy: Strategy,
    a: CandidateView,
    b: CandidateView,
    c: CandidateView,
)
    requires
        a.score.wf(),
        b.score.wf(),
        c.score.wf(),
        ranks_before(strategy, a, b),
        ranks_before(strategy, b, c),
    ensures
        ranks_before(strategy, a, c),
{
    lemma_score_order(a.score, b.score, c.score);
    lemma_score_order(c.score, b.score, a.score);
    if precedes(a.name, b.name) && precedes(b.name, c.name) {
        lemma_precedes_transitive(a.name, b.name, c.name, 0);
    }
}

/// Whether `a` comes before `b` in a ranking.
pub fn outranks(strategy: Strategy, a: &Candidate, b: &Candidate) -> (r: bool)
    requires
        a.score.wf(),
        b.score.wf(),
    ensures
        r == ranks_before(strategy, a@, b@),
{
    if is_closer(strategy, &a.score, &b.score) {
        true
    } else if a.score.same_as(&b.score) {
        let x = chars_of(a.name.as_str());
        let y = chars_of(b.name.as_str());
        comes_before(&x, &y)
    } else {
        false
    }
}

/// The place at which `candidate` enters `ranked`: behind every candidate
/// that comes before it.
fn place_for(strategy: Strategy, ranked: &Vec<Candidate>, candidate: &Candidate) -> (p: usize)
    requires
        candidate.score.wf(),
        forall|i: int| 0 <= i < ranked.len() ==> (#[trigger] ranked[i]).score.wf(),
    ensures
        p <= ranked.len(),
        forall|i: int| 0 <= i < p ==> ranks_before(strategy, (#[trigger] ranked[i])@, candidate@),
        p < ranked.len() ==> !ranks_before(strategy, ranked[p as int]@, candidate@),
{
    let mut p: usize = 0;
    while p < ranked.len()
        invariant
            p <= ranked.len(),
            candidate.score.wf(),
            forall|i: int| 0 <= i < ranked.len() ==> (#[trigger] ranked[i]).score.wf(),
            forall|i: int| 0 <= i < p ==> ranks_before(strategy, (#[trigger] ranked[i])@, candidate@),
        decreases ranked.len() - p,
    {
        if !outranks(strategy, &ranked[p], candidate) {
            return p;
        }
        p = p + 1;
    }
    p
}

/// A ranking stays the ranking when the index gains a key that is not
/// admitted.
pub proof fn lemma_ranking_skips(
    ranked: Seq<CandidateView>,
    strategy: Strategy,
    query: Seq<char>,
    index: Map<Seq<char>, i64>,
    name: Seq<char>,
    id: i64,
)
    requires
        is_ranking(ranked, strategy, query, index),
        !index.contains_key(name),
        !admits(strategy, score_of(strategy, query, name)),
    ensures
        is_ranking(ranked, strategy, query, index.insert(name, id)),
{
    let grown = index.insert(name, id);
    assert forall|key: Seq<char>|
        #![trigger grown.contains_key(key)]
        grown.contains_key(key) && admits(strategy, score_of(strategy, query, key)) implies exists|
        i: int,
    |
        0 <= i < ranked.len() && (#[trigger] ranked[i]).name == key by {
        assert(index.contains_key(key));
    }
}

/// When the index gains an admitted key, its candidate enters the ranking
/// behind those that come before it and ahead of the rest.
pub proof fn lemma_ranking_gains(
    ranked: Seq<CandidateView>,
    strategy: Strategy,
    query: Seq<char>,
    index: Map<Seq<char>, i64>,
    name: Seq<char>,
    id: i64,
    p: int,
)
    requires
        is_ranking(ranked, strategy, query, index),
        !index.contains_key(name),
        admits(strategy, score_of(strategy, query, name)),
        score_of(strategy, query, name).wf(),
        0 <= p <= ranked.len(),
        forall|i: int|
            0 <= i < p ==> ranks_before(
                strategy,
                #[trigger] ranked[i],
                candidate_of(strategy, query, name, id),
            ),
        p < ranked.len() ==> !ranks_before(
            strategy,
            ranked[p],
            candidate_of(strategy, query, name, id),
        ),
    ensures
        is_ranking(
            ranked.insert(p, candidate_of(strategy, query, name, id)),
            strategy,
            query,
            index.insert(name, id),
        ),
{
    let c = candidate_of(strategy, query, name, id);
    let grown = index.insert(name, id);
    let after = ranked.insert(p, c);
    assert(after.len() == ranked.len() + 1);
    assert forall|i: int| 0 <= i < after.len() implies #[trigger] after[i] == (if i < p {
        ranked[i]
    } else if i == p {
        c
    } else {
        ranked[i - 1]
    }) by {}
    assert forall|i: int| p <= i < ranked.len() implies ranks_before(
        strategy,
        c,
        #[trigger] ranked[i],
    ) by {
        assert(index.contains_key(ranked[p].name));
        lemma_ranks_total(strategy, c, ranked[p]);
        if i > p {
            lemma_ranks_transitive(strategy, c, ranked[p], ranked[i]);
        }
    }
    assert forall|i: int| 0 <= i < after.len() implies {
        &&& grown.contains_key((#[trigger] after[i]).name)
        &&& after[i] == candidate_of(strategy, query, after[i].name, grown[after[i].name])
        &&& admits(strategy, after[i].score)
        &&& after[i].score.wf()
    } by {
        if i < p {
            assert(index.contains_key(ranked[i].name));
        } else if i > p {
            assert(index.contains_key(ranked[i - 1].name));
        }
    }
    assert forall|key: Seq<char>|
        #![trigger grown.contains_key(key)]
        grown.contains_key(key) && admits(strategy, score_of(strategy, query, key)) implies exists|
        i: int,
    |
        0 <= i < after.len() && (#[trigger] after[i]).name == key by {
        if key == name {
            assert(after[p].name == key);
        } else {
            assert(index.contains_key(key));
            let j = choose|j: int| 0 <= j < ranked.len() && (#[trigger] ranked[j]).name == key;
            if j < p {
                assert(after[j].name == key);
            } else {
                assert(after[j + 1].name == key);
            }
        }
    }
    assert forall|i: int, j: int| 0 <= i < j < after.len() implies ranks_before(
        strategy,
        #[trigger] after[i],
        #[trigger] after[j],
    ) by {
        if j < p {
            assert(ranks_before(strategy, ranked[i], ranked[j]));
        } else if j == p {
            assert(ranks_before(strategy, ranked[i], c));
        } else if i < p {
            assert(ranks_before(strategy, ranked[i], ranked[j - 1]));
        } else if i == p {
            assert(ranks_before(strategy, c, ranked[j - 1]));
        } else {
            assert(ranks_before(strategy, ranked[i - 1], ranked[j - 1]));
        }
    }
}

/// Two sequences in ranking order that hold the same candidates are equal.
pub proof fn lemma_same_order(a: Seq<CandidateView>, b: Seq<CandidateView>, strategy: Strategy)
    requires
        forall|i: int, j: int|
            0 <= i < j < a.len() ==> ranks_before(strategy, #[trigger] a[i], #[trigger] a[j]),
        forall|i: int, j: int|
            0 <= i < j < b.len() ==> ranks_before(strategy, #[trigger] b[i], #[trigger] b[j]),
        forall|x: CandidateView| a.contains(x) <==> b.contains(x),
    ensures
        a == b,
    decreases a.len(),
{
    if a.len() == 0 {
        if b.len() > 0 {
            assert(b.contains(b[0]));
            assert(a.contains(b[0]));
        }
        assert(a =~= b);
    } else {
        assert(a.contains(a[0]));
        assert(b.contains(a[0]));
        let j = choose|j: int| 0 <= j < b.len() && b[j] == a[0];
        assert(b.contains(b[0]));
        assert(a.contains(b[0]));
        let i = choose|i: int| 0 <= i < a.len() && a[i] == b[0];
        lemma_ranks_asymmetric(strategy, a[0], b[0]);
        lemma_ranks_asymmetric(strategy, a[0], a[0]);
        if i > 0 {
            assert(ranks_before(strategy, a[0], a[i]));
            if j > 0 {
                assert(ranks_before(strategy, b[0], b[j]));
            }
        }
        assert(a[0] == b[0]);
        let rest_a = a.drop_first();
        let rest_b = b.drop_first();
        assert forall|x: CandidateView| rest_a.contains(x) <==> rest_b.contains(x) by {
            lemma_ranks_asymmetric(strategy, x, x);
            if rest_a.contains(x) {
                let k = choose|k: int| 0 <= k < rest_a.len() && rest_a[k] == x;
                assert(a[k + 1] == x);
                assert(ranks_before(strategy, a[0], a[k + 1]));
                assert(a.contains(x));
                let m = choose|m: int| 0 <= m < b.len() && b[m] == x;
                assert(rest_b[m - 1] == x);
            }
            if rest_b.contains(x) {
                let k = choose|k: int| 0 <= k < rest_b.len() && rest_b[k] == x;
                assert(b[k + 1] == x);
                assert(ranks_before(strategy, b[0], b[k + 1]));
                assert(b.contains(x));
                let m = choose|m: int| 0 <= m < a.len() && a[m] == x;
                assert(rest_a[m - 1] == x);
            }
        }
        assert forall|x: int, y: int| 0 <= x < y < rest_a.len() implies ranks_before(
            strategy,
            #[trigger] rest_a[x],
            #[trigger] rest_a[y],
        ) by {
            assert(ranks_before(strategy, a[x + 1], a[y + 1]));
        }
        assert forall|x: int, y: int| 0 <= x < y < rest_b.len() implies ranks_before(
            strategy,
            #[trigger] rest_b[x],
            #[trigger] rest_b[y],
        ) by {
            assert(ranks_before(strategy, b[x + 1], b[y + 1]));
        }
        lemma_same_order(rest_a, rest_b, strategy);
        assert(a =~= seq![a[0]] + rest_a);
        assert(b =~= seq![b[0]] + rest_b);
    }
}

/// A query, an index and a strategy have one ranking: two calls that rank
/// the same query against the same index under the same strategy give the
/// same candidates with the same scores in the same order.
pub proof fn lemma_ranking_unique(
    a: Seq<CandidateView>,
    b: Seq<CandidateView>,
    strategy: Strategy,
    query: Seq<char>,
    index: Map<Seq<char>, i64>,
)
    requires
        is_ranking(a, strategy, query, index),
        is_ranking(b, strategy, query, index),
    ensures
        a == b,
{
    assert forall|x: CandidateView| a.contains(x) <==> b.contains(x) by {
        if a.contains(x) {
            let i = choose|i: int| 0 <= i < a.len() && a[i] == x;
            assert(index.contains_key(a[i].name));
            let j = choose|j: int| 0 <= j < b.len() && (#[trigger] b[j]).name == x.name;
            assert(b[j] == x);
        }
        if b.contains(x) {
            let i = choose|i: int| 0 <= i < b.len() && b[i] == x;
            assert(index.contains_key(b[i].name));
            let j = choose|j: int| 0 <= j < a.len() && (#[trigger] a[j]).name == x.name;
            assert(a[j] == x);
        }
    }
    lemma_same_order(a, b, strategy);
}

/// The ranking of `index` for `query` under `strategy`.
pub open spec fn ranking_of(strategy: Strategy, query: Seq<char>, index: Map<Seq<char>, i64>)
    -> Seq<CandidateView> {
    choose|ranked: Seq<CandidateView>| is_ranking(ranked, strategy, query, index)
}

/// The ranking of `index` for a query that is already in its normalized
/// form.
pub fn rank_normalized(query: &str, index: &NameIndex, strategy: Strategy) -> (ranked: Vec<
    Candidate,
>)
    requires
        index.wf(),
    ensures
        is_ranking(views(ranked@), strategy, query@, index@),
        views(ranked@) == ranking_of(strategy, query@, index@),
{
    let mut ranked: Vec<Candidate> = Vec::new();
    let mut i: usize = 0;
    assert(mapping(index.entries@.take(0)) =~= Map::<Seq<char>, i64>::empty());
    while i < index.entries.len()
        invariant
            i <= index.entries.len(),
            index.wf(),
            is_ranking(views(ranked@), strategy, query@, mapping(index.entries@.take(i as int))),
        decreases index.entries.len() - i,
    {
        let entry = &index.entries[i];
        let s = score(strategy, query, entry.key.as_str());
        let ghost before = views(ranked@);
        let ghost part = mapping(index.entries@.take(i as int));
        proof {
            lemma_mapping_step(index.entries@, i as int);
        }
        if is_admitted(strategy, &s) {
            let candidate = Candidate { name: entry.key.clone(), id: entry.id, score: s };
            assert(candidate@ == candidate_of(strategy, query@, entry.key@, entry.id));
            assert forall|k: int| 0 <= k < ranked.len() implies (#[trigger] ranked[k]).score.wf() by {
                assert(before[k].score.wf());
            }
            let p = place_for(strategy, &ranked, &candidate);
            proof {
                assert forall|k: int| 0 <= k < p implies ranks_before(
                    strategy,
                    #[trigger] before[k],
                    candidate@,
                ) by {
                    assert(ranks_before(strategy, ranked[k]@, candidate@));
                }
                lemma_ranking_gains(before, strategy, query@, part, entry.key@, entry.id, p as int);
            }
            ranked.insert(p, candidate);
            assert(views(ranked@) =~= before.insert(p as int, candidate@));
        } else {
            proof {
                lemma_ranking_skips(before, strategy, query@, part, entry.key@, entry.id);
            }
        }
        i = i + 1;
    }
    assert(index.entries@.take(i as int) =~= index.entries@);
    proof {
        lemma_ranking_unique(
            views(ranked@),
            ranking_of(strategy, query@, index@),
            strategy,
            query@,
            index@,
        );
    }
    ranked
}

/// The ranking of `index` for `query`. The query is trimmed and lowercased
/// before it is compared with the keys.
pub fn rank(query: &str, index: &NameIndex, strategy: Strategy) -> (ranked: Vec<Candidate>)
    requires
        index.wf(),
    ensures
        is_ranking(views(ranked@), strategy, normalized(query@), index@),
        views(ranked@) == ranking_of(strategy, normalized(query@), index@),
{
    let q = normalize_query(query);
    rank_normalized(q.as_str(), index, strategy)
}

/// A name of the index stands in the ranking exactly where its score is
/// admitted: no candidate beyond the threshold is kept, and none within it is
/// left out.
pub proof fn lemma_ranking_threshold(
    ranked: Seq<CandidateView>,
    strategy: Strategy,
    query: Seq<char>,
    index: Map<Seq<char>, i64>,
    name: Seq<char>,
)
    requires
        is_ranking(ranked, strategy, query, index),
        index.contains_key(name),
    ensures
        admits(strategy, score_of(strategy, query, name)) <==> exists|i: int|
            0 <= i < ranked.len() && (#[trigger] ranked[i]).name == name,
{
    if exists|i: int| 0 <= i < ranked.len() && (#[trigger] ranked[i]).name == name {
        let i = choose|i: int| 0 <= i < ranked.len() && (#[trigger] ranked[i]).name == name;
        assert(admits(strategy, ranked[i].score));
    }
}

/// Under the heuristic percentage, a query that is itself a name of the
/// index is ranked first, with a score of exactly 100.
pub proof fn lemma_exact_match_first(
    ranked: Seq<CandidateView>,
    query: Seq<char>,
    index: Map<Seq<char>, i64>,
)
    requires
        query.len() <= u64::MAX,
        is_ranking(ranked, Strategy::HeuristicPercentage, query, index),
        index.contains_key(query),
    ensures
        ranked.len() > 0,
        ranked[0].name == query,
        ranked[0].id == index[query],
        ranked[0].score == Score::of_whole(100),
{
    let strategy = Strategy::HeuristicPercentage;
    lemma_exact_match_scores_hundred(query);
    let i = choose|i: int| 0 <= i < ranked.len() && (#[trigger] ranked[i]).name == query;
    assert(index.contains_key(ranked[i].name));
    if i > 0 {
        assert(ranks_before(strategy, ranked[0], ranked[i]));
        assert(index.contains_key(ranked[0].name));
        lemma_ranks_asymmetric(strategy, ranked[i], ranked[i]);
        lemma_heuristic_below_hundred(query, ranked[0].name);
        lemma_score_order(ranked[0].score, ranked[i].score, ranked[i].score);
    }
}

/// The first `cap` candidates of the ranking of `index` for `query`, or all
/// of them where there are fewer.
pub fn rank_top(query: &str, index: &NameIndex, strategy: Strategy, cap: usize) -> (ranked: Vec<
    Candidate,
>)
    requires
        index.wf(),
    ensures
        views(ranked@) == capped(ranking_of(strategy, normalized(query@), index@), cap as nat),
        ranked.len() <= cap,
{
    let mut ranked = rank(query, index, strategy);
    let ghost all = views(ranked@);
    ranked.truncate(cap);
    assert(views(ranked@) =~= capped(all, cap as nat));
    ranked
}

} // verus!
