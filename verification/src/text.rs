//! Strings as sequences of characters: where one occurs in another, how two
//! are ordered, and how a name or a query is brought to its folded form.

use vstd::prelude::*;

verus! {

/// `needle` stands in `hay` at position `at`.
pub open spec fn occurs_at(needle: Seq<char>, hay: Seq<char>, at: int) -> bool {
    &&& 0 <= at
    &&& at + needle.len() <= hay.len()
    &&& hay.subrange(at, at + needle.len()) == needle
}

/// `needle` stands somewhere in `hay` as a contiguous run.
pub open spec fn occurs_in(needle: Seq<char>, hay: Seq<char>) -> bool {
    exists|at: int| occurs_at(needle, hay, at)
}

/// `needle` is what `hay` begins with.
pub open spec fn begins(needle: Seq<char>, hay: Seq<char>) -> bool {
    occurs_at(needle, hay, 0)
}

/// `needle` is what `hay` ends with.
pub open spec fn ends(needle: Seq<char>, hay: Seq<char>) -> bool {
    occurs_at(needle, hay, hay.len() - needle.len())
}

/// `a` comes before `b` in the lexicographic order of their characters, read
/// from position `from` on.
pub open spec fn precedes_from(a: Seq<char>, b: Seq<char>, from: int) -> bool
    decreases a.len() - from,
{
    if from < 0 || from >= b.len() {
        false
    } else if from >= a.len() {
        true
    } else if a[from] != b[from] {
        (a[from] as int) < (b[from] as int)
    } else {
        precedes_from(a, b, from + 1)
    }
}

/// `a` comes before `b` in the lexicographic order of their characters.
pub open spec fn precedes(a: Seq<char>, b: Seq<char>) -> bool {
    precedes_from(a, b, 0)
}

/// The string that `str::to_lowercase` gives for `s`: its lowercase form
/// under the Unicode rules of the standard library.
pub uninterp spec fn lowercase_of(s: Seq<char>) -> Seq<char>;

/// The string that `str::trim` gives for `s`: `s` without the whitespace at
/// its two ends.
pub uninterp spec fn trimmed_of(s: Seq<char>) -> Seq<char>;

/// The form in which a query is compared with the folded names: trimmed
/// first, lowercased second.
pub open spec fn normalized(query: Seq<char>) -> Seq<char> {
    lowercase_of(trimmed_of(query))
}

/// Calls `str::to_lowercase`. Trusted: the result is named, nothing more is
/// claimed of it than that it depends on the characters of `s` alone.
#[verifier::external_body]
fn to_lowercase(s: &str) -> (r: String)
    ensures
        r@ == lowercase_of(s@),
{
    s.to_lowercase()
}

/// Calls `str::trim`. Trusted: the result is named, nothing more is claimed
/// of it than that it depends on the characters of `s` alone.
#[verifier::external_body]
fn trim(s: &str) -> (r: &str)
    ensures
        r@ == trimmed_of(s@),
{
    s.trim()
}

/// The key under which a name is indexed: its lowercase form.
pub fn fold_name(name: &str) -> (key: String)
    ensures
        key@ == lowercase_of(name@),
{
    to_lowercase(name)
}

/// The form in which a query is compared with the folded names.
pub fn normalize_query(query: &str) -> (q: String)
    ensures
        q@ == normalized(query@),
{
    to_lowercase(trim(query))
}

/// The characters of `s`.
pub fn chars_of(s: &str) -> (v: Vec<char>)
    ensures
        v@ == s@,
{
    let mut v: Vec<char> = Vec::new();
    for c in it: s.chars()
        invariant
            it.seq() == s@,
            v@ == s@.take(it.index() as int),
    {
        v.push(c);
    }
    v
}

/// Whether the first `n` characters of `needle` stand in `hay` at `at`.
pub fn run_at(needle: &Vec<char>, n: usize, hay: &Vec<char>, at: usize) -> (b: bool)
    requires
        n <= needle.len(),
        at + n <= hay.len(),
    ensures
        b == occurs_at(needle@.take(n as int), hay@, at as int),
{
    let mut j: usize = 0;
    while j < n
        invariant
            j <= n <= needle.len(),
            at + n <= hay.len(),
            forall|k: int| 0 <= k < j ==> hay[at + k] == needle[k],
        decreases n - j,
    {
        if hay[at + j] != needle[j] {
            proof {
                let part = hay@.subrange(at as int, at + n);
                assert(part[j as int] == hay[at + j]);
                assert(needle@.take(n as int)[j as int] == needle[j as int]);
            }
            return false;
        }
        j = j + 1;
    }
    assert(hay@.subrange(at as int, at + n) =~= needle@.take(n as int));
    true
}

/// Whether the first `n` characters of `needle` stand somewhere in `hay`.
pub fn run_within(needle: &Vec<char>, n: usize, hay: &Vec<char>) -> (b: bool)
    requires
        n <= needle.len(),
    ensures
        b == occurs_in(needle@.take(n as int), hay@),
{
    if n > hay.len() {
        return false;
    }
    let last: usize = hay.len() - n;
    let mut at: usize = 0;
    while at < last
        invariant
            n <= needle.len(),
            last == hay.len() - n,
            at <= last,
            forall|k: int| 0 <= k < at ==> !occurs_at(needle@.take(n as int), hay@, k),
        decreases last - at,
    {
        if run_at(needle, n, hay, at) {
            return true;
        }
        at = at + 1;
    }
    run_at(needle, n, hay, last)
}

/// Whether `a` comes before `b` in the lexicographic order of their
/// characters.
pub fn comes_before(a: &Vec<char>, b: &Vec<char>) -> (r: bool)
    ensures
        r == precedes(a@, b@),
{
    let mut i: usize = 0;
    while i < a.len() && i < b.len()
        invariant
            i <= a.len(),
            i <= b.len(),
            precedes(a@, b@) == precedes_from(a@, b@, i as int),
        decreases a.len() - i,
    {
        if a[i] != b[i] {
            return a[i] < b[i];
        }
        i = i + 1;
    }
    i < b.len()
}

/// Of two sequences that agree before `from`, at most one comes before the
/// other, and exactly one does unless they are equal.
pub proof fn lemma_precedes_total(a: Seq<char>, b: Seq<char>, from: int)
    requires
        0 <= from,
        from <= a.len(),
        from <= b.len(),
        forall|k: int| 0 <= k < from ==> a[k] == b[k],
    ensures
        !(precedes_from(a, b, from) && precedes_from(b, a, from)),
        a != b ==> precedes_from(a, b, from) || precedes_from(b, a, from),
    decreases a.len() - from,
{
    if from < a.len() && from < b.len() {
        if a[from] == b[from] {
            lemma_precedes_total(a, b, from + 1);
        }
    } else if from == a.len() && from == b.len() {
        assert(a =~= b);
    }
}

/// The lexicographic order is transitive.
pub proof fn lemma_precedes_transitive(a: Seq<char>, b: Seq<char>, c: Seq<char>, from: int)
    requires
        0 <= from,
        precedes_from(a, b, from),
        precedes_from(b, c, from),
    ensures
        precedes_from(a, c, from),
    decreases a.len() - from,
{
    if from < a.len() {
        if a[from] == b[from] && b[from] == c[from] {
            lemma_precedes_transitive(a, b, c, from + 1);
        }
    }
}

} // verus!
