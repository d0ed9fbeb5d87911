//! How close a candidate name is to a query.
//!
//! Two strategies are offered. The edit distance counts the single-character
//! changes between the two strings; smaller is closer. The heuristic
//! percentage rewards a candidate that contains the query and otherwise
//! counts the positions at which the two agree; larger is closer. It is a
//! cheap heuristic and no metric: it is not symmetric.
//!
//! For the empty query the heuristic percentage is degenerate: the empty
//! string stands at the start of every candidate, so the empty candidate
//! scores 100 and every other candidate scores 99.99.

use vstd::prelude::*;
use crate::score::Score;
use crate::score::lemma_ratio_numer;
use crate::text::occurs_at;
use crate::text::occurs_in;
use crate::text::begins;
use crate::text::ends;
use crate::text::chars_of;
use crate::text::normalize_query;
use crate::text::normalized;
use crate::text::run_at;
use crate::text::run_within;

verus! {

/// The way in which closeness is measured.
#[derive(Clone, Copy, Debug, PartialEq, Eq, Structural)]
pub enum Strategy {
    /// The least number of single-character changes; smaller is closer.
    EditDistance,
    /// The heuristic percentage; larger is closer.
    HeuristicPercentage,
}

/// The smallest of three numbers.
pub open spec fn least(x: nat, y: nat, z: nat) -> nat {
    if x <= y && x <= z {
        x
    } else if y <= z {
        y
    } else {
        z
    }
}

/// The least number of insertions, deletions and substitutions of a single
/// character that turn `a` into `b`.
pub open spec fn edit_distance(a: Seq<char>, b: Seq<char>) -> nat
    decreases a.len() + b.len(),
{
    if a.len() == 0 {
        b.len()
    } else if b.len() == 0 {
        a.len()
    } else {
        least(
            edit_distance(a.drop_last(), b) + 1,
            edit_distance(a, b.drop_last()) + 1,
            edit_distance(a.drop_last(), b.drop_last()) + if a.last() == b.last() {
                0nat
            } else {
                1nat
            },
        )
    }
}

/// The number of positions below `upto` at which `query` and `candidate`
/// hold the same character. A position that `candidate` lacks never agrees.
pub open spec fn agreeing(query: Seq<char>, candidate: Seq<char>, upto: int) -> nat
    decreases upto,
{
    if upto <= 0 {
        0
    } else {
        agreeing(query, candidate, upto - 1) + if upto <= query.len() && upto <= candidate.len()
            && query[upto - 1] == candidate[upto - 1] {
            1nat
        } else {
            0nat
        }
    }
}

/// The heuristic percentage of `candidate` for `query`.
///
/// A candidate that contains the query scores 100 where it equals the query,
/// 99.99 where it begins with it, 95 where it ends with it, and 90 otherwise.
/// For any other candidate, let `m` be the number of positions at which it
/// agrees with the query and `len` the query's length. Its base score is
/// `100 * m / len`. Where the base exceeds 60 and the first `m` characters of
/// the query stand somewhere in the candidate, the score is the base plus
/// `20 * (len - m) / len`, or 92 where `m == len`. Otherwise it is the base.
pub open spec fn heuristic(query: Seq<char>, candidate: Seq<char>) -> Score {
    if occurs_in(query, candidate) {
        if candidate == query {
            Score::of_whole(100)
        } else if begins(query, candidate) {
            Score::of_ratio(9999, 100)
        } else if ends(query, candidate) {
            Score::of_whole(95)
        } else {
            Score::of_whole(90)
        }
    } else {
        let len = query.len();
        let m = agreeing(query, candidate, len as int);
        if 100 * m > 60 * len && occurs_in(query.take(m as int), candidate) {
            if len - m == 0 {
                Score::of_whole(92)
            } else {
                Score::of_ratio((100 * m + 20 * (len - m)) as nat, len)
            }
        } else {
            Score::of_ratio(100 * m, len)
        }
    }
}

/// The score of `candidate` for `query` under `strategy`.
pub open spec fn score_of(strategy: Strategy, query: Seq<char>, candidate: Seq<char>) -> Score {
    match strategy {
        Strategy::EditDistance => Score::of_whole(edit_distance(query, candidate) as u64),
        Strategy::HeuristicPercentage => heuristic(query, candidate),
    }
}

/// Whether a candidate with this score is kept: an edit distance below 3, a
/// heuristic percentage above 70.
pub open spec fn admits(strategy: Strategy, score: Score) -> bool {
    match strategy {
        Strategy::EditDistance => score.lt(Score::of_whole(3)),
        Strategy::HeuristicPercentage => Score::of_whole(70).lt(score),
    }
}

/// Whether `a` is a closer score than `b`: the smaller edit distance, the
/// larger heuristic percentage.
pub open spec fn closer(strategy: Strategy, a: Score, b: Score) -> bool {
    match strategy {
        Strategy::EditDistance => a.lt(b),
        Strategy::HeuristicPercentage => b.lt(a),
    }
}

/// Calls `levenshtein::levenshtein`. Trusted: the crate computes the
/// Levenshtein distance of its two arguments over their characters, which is
/// the least number of single-character insertions, deletions and
/// substitutions that turn the first into the second.
#[verifier::external_body]
fn levenshtein_distance(a: &str, b: &str) -> (d: usize)
    ensures
        d == edit_distance(a@, b@),
{
    levenshtein::levenshtein(a, b)
}

/// The edit distance between `query` and `candidate`, as a score.
pub fn edit_distance_score(query: &str, candidate: &str) -> (s: Score)
    ensures
        s == score_of(Strategy::EditDistance, query@, candidate@),
        s.wf(),
{
    let d = levenshtein_distance(query, candidate);
    Score::whole(d as u64)
}

/// The number of positions at which `query` and `candidate` hold the same
/// character.
pub fn count_agreeing(query: &Vec<char>, candidate: &Vec<char>) -> (m: usize)
    ensures
        m == agreeing(query@, candidate@, query.len() as int),
        m <= query.len(),
{
    let mut m: usize = 0;
    let mut i: usize = 0;
    while i < query.len()
        invariant
            i <= query.len(),
            m <= i,
            m == agreeing(query@, candidate@, i as int),
        decreases query.len() - i,
    {
        if i < candidate.len() && query[i] == candidate[i] {
            m = m + 1;
        }
        i = i + 1;
    }
    m
}

/// The heuristic percentage of `candidate` for `query`, both given by their
/// characters.
pub fn heuristic_of_chars(query: &Vec<char>, candidate: &Vec<char>) -> (s: Score)
    ensures
        s == heuristic(query@, candidate@),
        s.wf(),
{
    let len = query.len();
    assert(query@.take(len as int) =~= query@);
    if run_within(query, len, candidate) {
        if len == candidate.len() {
            proof {
                assert(candidate@.subrange(0, len as int) =~= candidate@);
            }
            Score::whole(100)
        } else if run_at(query, len, candidate, 0) {
            proof {
                lemma_ratio_numer(9999, 100);
            }
            Score::ratio(9999, 100)
        } else if run_at(query, len, candidate, candidate.len() - len) {
            Score::whole(95)
        } else {
            Score::whole(90)
        }
    } else {
        assert(len > 0) by {
            if len == 0 {
                assert(candidate@.subrange(0, 0) =~= query@);
                assert(occurs_at(query@, candidate@, 0));
            }
        }
        let m = count_agreeing(query, candidate);
        let base: u128 = 100 * (m as u128);
        if base > 60 * (len as u128) && run_within(query, m, candidate) {
            if len - m == 0 {
                Score::whole(92)
            } else {
                let n: u128 = base + 20 * ((len - m) as u128);
                proof {
                    lemma_percentage_bound(n as nat, len as nat);
                    lemma_ratio_numer(n as nat, len as nat);
                }
                Score::ratio(n, len as u64)
            }
        } else {
            proof {
                lemma_percentage_bound(base as nat, len as nat);
                lemma_ratio_numer(base as nat, len as nat);
            }
            Score::ratio(base, len as u64)
        }
    }
}

/// The heuristic percentage of `candidate` for `query`.
pub fn heuristic_score(query: &str, candidate: &str) -> (s: Score)
    ensures
        s == score_of(Strategy::HeuristicPercentage, query@, candidate@),
        s.wf(),
{
    let q = chars_of(query);
    let c = chars_of(candidate);
    heuristic_of_chars(&q, &c)
}

/// The score of `candidate` for `query` under `strategy`.
pub fn score(strategy: Strategy, query: &str, candidate: &str) -> (s: Score)
    ensures
        s == score_of(strategy, query@, candidate@),
        s.wf(),
{
    match strategy {
        Strategy::EditDistance => edit_distance_score(query, candidate),
        Strategy::HeuristicPercentage => heuristic_score(query, candidate),
    }
}

/// The score of `candidate` for `query` under `strategy`, the query trimmed
/// and lowercased first.
pub fn score_for_query(strategy: Strategy, query: &str, candidate: &str) -> (s: Score)
    ensures
        s == score_of(strategy, normalized(query@), candidate@),
        s.wf(),
{
    let q = normalize_query(query);
    score(strategy, q.as_str(), candidate)
}

/// Whether a candidate with this score is kept under `strategy`.
pub fn is_admitted(strategy: Strategy, score: &Score) -> (b: bool)
    requires
        score.wf(),
    ensures
        b == admits(strategy, *score),
{
    match strategy {
        Strategy::EditDistance => score.less_than(&Score::whole(3)),
        Strategy::HeuristicPercentage => Score::whole(70).less_than(score),
    }
}

/// Whether `a` is a closer score than `b` under `strategy`.
pub fn is_closer(strategy: Strategy, a: &Score, b: &Score) -> (r: bool)
    requires
        a.wf(),
        b.wf(),
    ensures
        r == closer(strategy, *a, *b),
{
    match strategy {
        Strategy::EditDistance => a.less_than(b),
        Strategy::HeuristicPercentage => b.less_than(a),
    }
}

/// A numerator of at most a hundred times the denominator gives at most a
/// hundred units.
pub proof fn lemma_percentage_bound(n: nat, d: nat)
    requires
        d > 0,
        n <= 100 * d,
    ensures
        n / d <= 100,
{
    vstd::arithmetic::div_mod::lemma_div_is_ordered(n as int, 100 * (d as int), d as int);
    vstd::arithmetic::div_mod::lemma_div_multiples_vanish(100, d as int);
}

/// No more positions agree than are looked at, and where all of them agree
/// the candidate holds the query's character at each.
pub proof fn lemma_agreeing_bound(query: Seq<char>, candidate: Seq<char>, upto: int)
    requires
        0 <= upto <= query.len(),
    ensures
        agreeing(query, candidate, upto) <= upto,
        agreeing(query, candidate, upto) == upto ==> upto <= candidate.len() && forall|k: int|
            0 <= k < upto ==> query[k] == candidate[k],
    decreases upto,
{
    if upto > 0 {
        lemma_agreeing_bound(query, candidate, upto - 1);
    }
}

/// A candidate that does not contain the query agrees with it at fewer
/// positions than the query has.
pub proof fn lemma_agreeing_short(query: Seq<char>, candidate: Seq<char>)
    requires
        !occurs_in(query, candidate),
    ensures
        query.len() > 0,
        agreeing(query, candidate, query.len() as int) < query.len(),
{
    let len = query.len() as int;
    lemma_agreeing_bound(query, candidate, len);
    if agreeing(query, candidate, len) == len {
        assert(candidate.subrange(0, len) =~= query);
        assert(occurs_at(query, candidate, 0));
    }
}

/// A name scores exactly 100 for itself.
pub proof fn lemma_exact_match_scores_hundred(name: Seq<char>)
    ensures
        heuristic(name, name) == Score::of_whole(100),
        admits(Strategy::HeuristicPercentage, heuristic(name, name)),
{
    assert(name.subrange(0, name.len() as int) =~= name);
    assert(occurs_at(name, name, 0));
}

/// Every candidate but the query itself scores below 100.
pub proof fn lemma_heuristic_below_hundred(query: Seq<char>, candidate: Seq<char>)
    requires
        query.len() <= u64::MAX,
        candidate != query,
    ensures
        heuristic(query, candidate).wf(),
        heuristic(query, candidate).lt(Score::of_whole(100)),
{
    lemma_ratio_numer(9999, 100);
    if !occurs_in(query, candidate) {
        lemma_agreeing_short(query, candidate);
        let len = query.len();
        let m = agreeing(query, candidate, len as int);
        let refined = (100 * m + 20 * (len - m)) as nat;
        lemma_percentage_bound(refined, len);
        lemma_ratio_numer(refined, len);
        lemma_percentage_bound(100 * m, len);
        lemma_ratio_numer(100 * m, len);
    }
}

/// The edit distance is at most the two lengths taken together.
pub proof fn lemma_edit_distance_bound(a: Seq<char>, b: Seq<char>)
    ensures
        edit_distance(a, b) <= a.len() + b.len(),
    decreases a.len() + b.len(),
{
    if a.len() > 0 && b.len() > 0 {
        lemma_edit_distance_bound(a.drop_last(), b);
    }
}

/// A string is at distance 0 from itself.
pub proof fn lemma_edit_distance_self(a: Seq<char>)
    ensures
        edit_distance(a, a) == 0,
    decreases a.len(),
{
    if a.len() > 0 {
        lemma_edit_distance_self(a.drop_last());
    }
}

/// Under the edit distance a candidate is kept exactly where its distance
/// from the query is below 3; under the heuristic percentage, exactly where
/// its score is above 70.
pub proof fn lemma_admission(query: Seq<char>, candidate: Seq<char>)
    requires
        query.len() + candidate.len() <= u64::MAX,
    ensures
        admits(Strategy::EditDistance, score_of(Strategy::EditDistance, query, candidate))
            <==> edit_distance(query, candidate) < 3,
        admits(
            Strategy::HeuristicPercentage,
            score_of(Strategy::HeuristicPercentage, query, candidate),
        ) <==> heuristic(query, candidate).numer() > 70 * heuristic(query, candidate).denominator,
{
    lemma_edit_distance_bound(query, candidate);
}

} // verus!
