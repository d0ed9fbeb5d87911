//! The name index: from the folded name of a city to its identifier.
//!
//! The index holds each key once. Where two records fold to the same key,
//! the later one takes the key and the earlier one can no longer be found
//! by name.

use vstd::prelude::*;
use vstd::string::StringExecFns;
use crate::record::CityRecord;
use crate::text::lowercase_of;
use crate::text::fold_name;

verus! {

/// One key of the index with the identifier that it leads to.
#[derive(Clone, Debug, PartialEq, Eq)]
pub struct IndexEntry {
    pub key: String,
    pub id: i64,
}

/// The mapping from folded name to identifier.
#[derive(Clone, Debug, PartialEq, Eq)]
pub struct NameIndex {
    pub entries: Vec<IndexEntry>,
}

/// Some entry holds `key`.
pub open spec fn has_key(entries: Seq<IndexEntry>, key: Seq<char>) -> bool {
    exists|i: int| 0 <= i < entries.len() && (#[trigger] entries[i]).key@ == key
}

/// The place of an entry that holds `key`.
pub open spec fn place_of(entries: Seq<IndexEntry>, key: Seq<char>) -> int {
    choose|i: int| 0 <= i < entries.len() && (#[trigger] entries[i]).key@ == key
}

/// No key is held twice.
pub open spec fn distinct_keys(entries: Seq<IndexEntry>) -> bool {
    forall|i: int, j: int|
        0 <= i < j < entries.len() ==> (#[trigger] entries[i]).key@ != (#[trigger] entries[j]).key@
}

/// The mapping that the entries stand for.
pub open spec fn mapping(entries: Seq<IndexEntry>) -> Map<Seq<char>, i64> {
    Map::new(|key: Seq<char>| has_key(entries, key), |key: Seq<char>| entries[place_of(entries, key)].id)
}

/// The index of a sequence of records: each record in turn puts its
/// identifier under its folded name, so that a later record replaces an
/// earlier one of the same key.
pub open spec fn index_of(records: Seq<CityRecord>) -> Map<Seq<char>, i64>
    decreases records.len(),
{
    if records.len() == 0 {
        Map::empty()
    } else {
        index_of(records.drop_last()).insert(
            lowercase_of(records.last().name@),
            records.last().id,
        )
    }
}

impl View for NameIndex {
    type V = Map<Seq<char>, i64>;

    open spec fn view(&self) -> Map<Seq<char>, i64> {
        mapping(self.entries@)
    }
}

impl NameIndex {
    /// No key is held twice.
    pub open spec fn wf(&self) -> bool {
        distinct_keys(self.entries@)
    }

    /// The empty index.
    pub fn new() -> (index: NameIndex)
        ensures
            index.wf(),
            index@ == Map::<Seq<char>, i64>::empty(),
    {
        let index = NameIndex { entries: Vec::new() };
        assert(index@ =~= Map::<Seq<char>, i64>::empty());
        index
    }

    /// The number of keys.
    pub fn len(&self) -> (n: usize)
        requires
            self.wf(),
        ensures
            n == self@.dom().len(),
            self@.dom().finite(),
    {
        proof {
            lemma_mapping_len(self.entries@);
        }
        self.entries.len()
    }

    /// The place of the entry that holds `key`, if there is one.
    pub fn position(&self, key: &String) -> (place: Option<usize>)
        ensures
            match place {
                Some(i) => i < self.entries.len() && self.entries[i as int].key@ == key@,
                None => !has_key(self.entries@, key@),
            },
    {
        let mut i: usize = 0;
        while i < self.entries.len()
            invariant
                i <= self.entries.len(),
                forall|k: int| 0 <= k < i ==> (#[trigger] self.entries[k]).key@ != key@,
            decreases self.entries.len() - i,
        {
            if self.entries[i].key == *key {
                return Some(i);
            }
            i = i + 1;
        }
        None
    }

    /// The identifier under `key`, if the index holds the key.
    pub fn lookup(&self, key: &str) -> (found: Option<i64>)
        requires
            self.wf(),
        ensures
            found == if self@.contains_key(key@) {
                Some(self@[key@])
            } else {
                None
            },
    {
        let owned = String::from_str(key);
        match self.position(&owned) {
            Some(i) => {
                proof {
                    lemma_mapping_at(self.entries@, i as int);
                }
                Some(self.entries[i].id)
            },
            None => None,
        }
    }

    /// Puts `id` under `key`, in place of what the key led to before.
    pub fn put(&mut self, key: String, id: i64)
        requires
            old(self).wf(),
        ensures
            final(self).wf(),
            final(self)@ == old(self)@.insert(key@, id),
    {
        let ghost before = self.entries@;
        let ghost k = key@;
        match self.position(&key) {
            Some(i) => {
                self.entries.set(i, IndexEntry { key, id });
                proof {
                    let after = self.entries@;
                    assert forall|a: int, b: int| 0 <= a < b < after.len() implies (
                    #[trigger] after[a]).key@ != (#[trigger] after[b]).key@ by {
                        assert(before[a].key@ != before[b].key@);
                    }
                    assert forall|key2: Seq<char>| has_key(after, key2) <==> has_key(before, key2)
                        || key2 == k by {
                        if has_key(after, key2) {
                            let j = place_of(after, key2);
                            assert(before[j].key@ == key2);
                        }
                        if has_key(before, key2) {
                            let j = place_of(before, key2);
                            assert(after[j].key@ == key2);
                        }
                        if key2 == k {
                            assert(after[i as int].key@ == key2);
                        }
                    }
                    assert forall|key2: Seq<char>| has_key(after, key2) implies mapping(after)[key2]
                        == mapping(before).insert(k, id)[key2] by {
                        let j = place_of(after, key2);
                        lemma_mapping_at(after, j);
                        if key2 != k {
                            assert(before[j].key@ == key2);
                            lemma_mapping_at(before, j);
                        } else {
                            assert(after[i as int].key@ == key2);
                        }
                    }
                    assert(mapping(after) =~= mapping(before).insert(k, id));
                }
            },
            None => {
                let entry = IndexEntry { key, id };
                proof {
                    lemma_mapping_push(before, entry);
                }
                self.entries.push(entry);
            },
        }
    }

    /// The index of `records`.
    pub fn build(records: &Vec<CityRecord>) -> (index: NameIndex)
        ensures
            index.wf(),
            index@ == index_of(records@),
    {
        let mut index = NameIndex::new();
        let mut i: usize = 0;
        while i < records.len()
            invariant
                i <= records.len(),
                index.wf(),
                index@ == index_of(records@.take(i as int)),
            decreases records.len() - i,
        {
            let key = fold_name(records[i].name.as_str());
            index.put(key, records[i].id);
            proof {
                assert(records@.take(i + 1).drop_last() =~= records@.take(i as int));
            }
            i = i + 1;
        }
        assert(records@.take(i as int) =~= records@);
        index
    }
}

/// In an index without a repeated key, each entry is found under its own
/// key.
pub proof fn lemma_mapping_at(entries: Seq<IndexEntry>, i: int)
    requires
        distinct_keys(entries),
        0 <= i < entries.len(),
    ensures
        mapping(entries).contains_key(entries[i].key@),
        mapping(entries)[entries[i].key@] == entries[i].id,
        place_of(entries, entries[i].key@) == i,
{
    let key = entries[i].key@;
    let j = place_of(entries, key);
    assert(entries[i].key@ == key);
    if j < i {
        assert(entries[j].key@ != entries[i].key@);
    }
    if i < j {
        assert(entries[i].key@ != entries[j].key@);
    }
}

/// An entry with a new key, put at the end, adds its key to the mapping and
/// changes nothing else.
pub proof fn lemma_mapping_push(before: Seq<IndexEntry>, entry: IndexEntry)
    requires
        distinct_keys(before),
        !has_key(before, entry.key@),
    ensures
        distinct_keys(before.push(entry)),
        mapping(before.push(entry)) == mapping(before).insert(entry.key@, entry.id),
{
    let after = before.push(entry);
    let n = before.len() as int;
    let k = entry.key@;
    assert forall|a: int, b: int| 0 <= a < b < after.len() implies (#[trigger] after[a]).key@ != (
    #[trigger] after[b]).key@ by {
        if b < n {
            assert(before[a].key@ != before[b].key@);
        } else {
            assert(before[a].key@ != k);
        }
    }
    assert forall|key2: Seq<char>| has_key(after, key2) <==> has_key(before, key2) || key2
        == k by {
        if has_key(after, key2) {
            let j = place_of(after, key2);
            if j < n {
                assert(before[j].key@ == key2);
            }
        }
        if has_key(before, key2) {
            let j = place_of(before, key2);
            assert(after[j].key@ == key2);
        }
        if key2 == k {
            assert(after[n].key@ == key2);
        }
    }
    assert forall|key2: Seq<char>| has_key(after, key2) implies mapping(after)[key2] == mapping(
        before,
    ).insert(k, entry.id)[key2] by {
        let j = place_of(after, key2);
        lemma_mapping_at(after, j);
        if key2 != k {
            assert(before[j].key@ == key2);
            lemma_mapping_at(before, j);
        } else {
            assert(after[n].key@ == key2);
        }
    }
    assert(mapping(after) =~= mapping(before).insert(k, entry.id));
}

/// The first `i + 1` entries of an index stand for the mapping of the first
/// `i` with the entry at `i` added under a new key.
pub proof fn lemma_mapping_step(entries: Seq<IndexEntry>, i: int)
    requires
        distinct_keys(entries),
        0 <= i < entries.len(),
    ensures
        distinct_keys(entries.take(i)),
        distinct_keys(entries.take(i + 1)),
        !mapping(entries.take(i)).contains_key(entries[i].key@),
        mapping(entries.take(i + 1)) == mapping(entries.take(i)).insert(
            entries[i].key@,
            entries[i].id,
        ),
{
    let front = entries.take(i);
    assert forall|a: int, b: int| 0 <= a < b < front.len() implies (#[trigger] front[a]).key@ != (
    #[trigger] front[b]).key@ by {
        assert(entries[a].key@ != entries[b].key@);
    }
    if has_key(front, entries[i].key@) {
        let j = place_of(front, entries[i].key@);
        assert(entries[j].key@ != entries[i].key@);
    }
    assert(entries.take(i + 1) =~= front.push(entries[i]));
    lemma_mapping_push(front, entries[i]);
}

/// An index without a repeated key stands for as many keys as it has
/// entries.
pub proof fn lemma_mapping_len(entries: Seq<IndexEntry>)
    requires
        distinct_keys(entries),
    ensures
        mapping(entries).dom().finite(),
        mapping(entries).dom().len() == entries.len(),
    decreases entries.len(),
{
    if entries.len() == 0 {
        assert(mapping(entries).dom() =~= Set::<Seq<char>>::empty());
    } else {
        let front = entries.drop_last();
        let key = entries.last().key@;
        assert forall|a: int, b: int| 0 <= a < b < front.len() implies (#[trigger] front[a]).key@
            != (#[trigger] front[b]).key@ by {
            assert(entries[a].key@ != entries[b].key@);
        }
        lemma_mapping_len(front);
        assert forall|key2: Seq<char>| has_key(entries, key2) <==> has_key(front, key2) || key2
            == key by {
            if has_key(entries, key2) {
                let j = place_of(entries, key2);
                if j < front.len() {
                    assert(front[j].key@ == key2);
                }
            }
            if has_key(front, key2) {
                let j = place_of(front, key2);
                assert(entries[j].key@ == key2);
            }
            if key2 == key {
                assert(entries[entries.len() - 1].key@ == key2);
            }
        }
        assert(!has_key(front, key)) by {
            if has_key(front, key) {
                let j = place_of(front, key);
                assert(entries[j].key@ != entries[entries.len() - 1].key@);
            }
        }
        assert(mapping(entries).dom() =~= mapping(front).dom().insert(key));
    }
}

/// The keys of the index of `records` are the folded names of the records.
pub proof fn lemma_index_keys(records: Seq<CityRecord>, key: Seq<char>)
    ensures
        index_of(records).contains_key(key) <==> exists|i: int|
            0 <= i < records.len() && lowercase_of((#[trigger] records[i]).name@) == key,
    decreases records.len(),
{
    if records.len() > 0 {
        let front = records.drop_last();
        lemma_index_keys(front, key);
        if index_of(records).contains_key(key) {
            if lowercase_of(records.last().name@) == key {
                assert(lowercase_of(records[records.len() - 1].name@) == key);
            } else {
                let i = choose|i: int|
                    0 <= i < front.len() && lowercase_of((#[trigger] front[i]).name@) == key;
                assert(lowercase_of(records[i].name@) == key);
            }
        }
        if exists|i: int|
            0 <= i < records.len() && lowercase_of((#[trigger] records[i]).name@) == key {
            let i = choose|i: int|
                0 <= i < records.len() && lowercase_of((#[trigger] records[i]).name@) == key;
            if i < front.len() {
                assert(lowercase_of(front[i].name@) == key);
            }
        }
    }
}

/// A key leads to the identifier of the last record that folds to it.
pub proof fn lemma_index_last_wins(records: Seq<CityRecord>, i: int)
    requires
        0 <= i < records.len(),
        forall|j: int|
            i < j < records.len() ==> lowercase_of((#[trigger] records[j]).name@) != lowercase_of(
                records[i].name@,
            ),
    ensures
        index_of(records).contains_key(lowercase_of(records[i].name@)),
        index_of(records)[lowercase_of(records[i].name@)] == records[i].id,
    decreases records.len(),
{
    if i < records.len() - 1 {
        let front = records.drop_last();
        assert(lowercase_of(records[records.len() - 1].name@) != lowercase_of(records[i].name@));
        assert forall|j: int| i < j < front.len() implies lowercase_of(
            (#[trigger] front[j]).name@,
        ) != lowercase_of(front[i].name@) by {
            assert(lowercase_of(records[j].name@) != lowercase_of(records[i].name@));
        }
        lemma_index_last_wins(front, i);
    }
}

} // verus!
