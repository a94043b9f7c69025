//! Tallies: counts by name, where a later count for a name replaces the
//! earlier one.

use vstd::prelude::*;

verus! {

/// One name and its count.
#[derive(Clone, Debug, PartialEq, Eq)]
pub struct TallyEntry {
    pub key: String,
    pub count: i32,
}

impl View for TallyEntry {
    type V = (Seq<char>, i32);

    open spec fn view(&self) -> (Seq<char>, i32) {
        (self.key@, self.count)
    }
}

impl DeepView for TallyEntry {
    type V = (Seq<char>, i32);

    open spec fn deep_view(&self) -> (Seq<char>, i32) {
        self.view()
    }
}

/// The mapping that results from writing the pairs one after the other into
/// an empty mapping: of two pairs with the same key the later one stays.
pub open spec fn fold_counts<K>(pairs: Seq<(K, i32)>) -> Map<K, i32>
    decreases pairs.len(),
{
    if pairs.len() == 0 {
        Map::empty()
    } else {
        fold_counts(pairs.drop_last()).insert(pairs.last().0, pairs.last().1)
    }
}

/// Whether no key stands twice in `pairs`.
pub open spec fn distinct_keys<K>(pairs: Seq<(K, i32)>) -> bool {
    forall|i: int, j: int|
        0 <= i < pairs.len() && 0 <= j < pairs.len() && i != j ==> (#[trigger] pairs[i]).0 != (
        #[trigger] pairs[j]).0
}

/// The keys of the mapping are the keys of the pairs, and it is finite.
pub proof fn lemma_fold_keys<K>(pairs: Seq<(K, i32)>)
    ensures
        fold_counts(pairs).dom().finite(),
        forall|k: K|
            fold_counts(pairs).contains_key(k) <==> exists|i: int|
                0 <= i < pairs.len() && (#[trigger] pairs[i]).0 == k,
    decreases pairs.len(),
{
    if pairs.len() > 0 {
        let front = pairs.drop_last();
        lemma_fold_keys(front);
        assert forall|k: K|
            fold_counts(pairs).contains_key(k) <==> exists|i: int|
                0 <= i < pairs.len() && (#[trigger] pairs[i]).0 == k by {
            if fold_counts(pairs).contains_key(k) {
                if k == pairs.last().0 {
                    assert(pairs[pairs.len() - 1].0 == k);
                } else {
                    let i = choose|i: int| 0 <= i < front.len() && (#[trigger] front[i]).0 == k;
                    assert(pairs[i].0 == k);
                }
            }
            if exists|i: int| 0 <= i < pairs.len() && (#[trigger] pairs[i]).0 == k {
                let i = choose|i: int| 0 <= i < pairs.len() && (#[trigger] pairs[i]).0 == k;
                if i < front.len() {
                    assert(front[i].0 == k);
                }
            }
        }
    }
}

/// Where no key stands twice, every pair is found in the mapping as it
/// stands, and the mapping has as many keys as there are pairs.
pub proof fn lemma_fold_distinct<K>(pairs: Seq<(K, i32)>)
    requires
        distinct_keys(pairs),
    ensures
        fold_counts(pairs).len() == pairs.len(),
        forall|i: int|
            0 <= i < pairs.len() ==> fold_counts(pairs).contains_key((#[trigger] pairs[i]).0)
                && fold_counts(pairs)[pairs[i].0] == pairs[i].1,
    decreases pairs.len(),
{
    if pairs.len() > 0 {
        let front = pairs.drop_last();
        let last = pairs.last();
        assert(distinct_keys(front)) by {
            assert forall|i: int, j: int|
                0 <= i < front.len() && 0 <= j < front.len() && i != j implies (
            #[trigger] front[i]).0 != (#[trigger] front[j]).0 by {
                assert(pairs[i].0 != pairs[j].0);
            }
        }
        lemma_fold_distinct(front);
        lemma_fold_keys(front);
        assert(!fold_counts(front).contains_key(last.0)) by {
            if fold_counts(front).contains_key(last.0) {
                let i = choose|i: int| 0 <= i < front.len() && (#[trigger] front[i]).0 == last.0;
                assert(pairs[i].0 != pairs[pairs.len() - 1].0);
            }
        }
        assert forall|i: int| 0 <= i < pairs.len() implies fold_counts(pairs).contains_key(
            (#[trigger] pairs[i]).0,
        ) && fold_counts(pairs)[pairs[i].0] == pairs[i].1 by {
            if i < front.len() {
                assert(front[i] == pairs[i]);
                assert(pairs[i].0 != pairs[pairs.len() - 1].0);
            }
        }
    } else {
        assert(fold_counts(pairs).dom() =~= Set::<K>::empty());
    }
}

/// Replacing the count of a pair in place is writing the new count for its
/// key, where no key stands twice.
pub proof fn lemma_fold_update<K>(pairs: Seq<(K, i32)>, at: int, count: i32)
    requires
        distinct_keys(pairs),
        0 <= at < pairs.len(),
    ensures
        fold_counts(pairs.update(at, (pairs[at].0, count))) == fold_counts(pairs).insert(
            pairs[at].0,
            count,
        ),
        distinct_keys(pairs.update(at, (pairs[at].0, count))),
    decreases pairs.len(),
{
    let key = pairs[at].0;
    let changed = pairs.update(at, (key, count));
    let front = pairs.drop_last();
    assert(distinct_keys(changed)) by {
        assert forall|i: int, j: int|
            0 <= i < changed.len() && 0 <= j < changed.len() && i != j implies (
        #[trigger] changed[i]).0 != (#[trigger] changed[j]).0 by {
            assert(pairs[i].0 != pairs[j].0);
        }
    }
    if at == pairs.len() - 1 {
        assert(changed.drop_last() =~= front);
        assert(fold_counts(changed) =~= fold_counts(pairs).insert(key, count));
    } else {
        assert(distinct_keys(front)) by {
            assert forall|i: int, j: int|
                0 <= i < front.len() && 0 <= j < front.len() && i != j implies (
            #[trigger] front[i]).0 != (#[trigger] front[j]).0 by {
                assert(pairs[i].0 != pairs[j].0);
            }
        }
        lemma_fold_update(front, at, count);
        assert(changed.drop_last() =~= front.update(at, (key, count)));
        assert(changed.last() == pairs.last());
        assert(pairs[at].0 != pairs[pairs.len() - 1].0);
        assert(fold_counts(changed) =~= fold_counts(pairs).insert(key, count));
    }
}

/// The later of two counts written for one key is the one that stays, and
/// the key stands once in the mapping: the result is that of writing the
/// later count alone.
pub proof fn lemma_last_write_wins<K>(pairs: Seq<(K, i32)>, key: K, earlier: i32, later: i32)
    ensures
        fold_counts(pairs.push((key, earlier)).push((key, later)))[key] == later,
        fold_counts(pairs.push((key, earlier)).push((key, later))) == fold_counts(
            pairs.push((key, later)),
        ),
{
    let once = pairs.push((key, earlier));
    let twice = once.push((key, later));
    let direct = pairs.push((key, later));
    assert(twice.drop_last() =~= once);
    assert(once.drop_last() =~= pairs);
    assert(direct.drop_last() =~= pairs);
    assert(fold_counts(once) == fold_counts(pairs).insert(key, earlier));
    assert(fold_counts(twice) == fold_counts(once).insert(key, later));
    assert(fold_counts(direct) == fold_counts(pairs).insert(key, later));
    assert(fold_counts(twice) =~= fold_counts(direct));
}

/// Counts by name. Every name stands once; writing a count for a name that
/// is there replaces its count.
pub struct Tally {
    entries: Vec<TallyEntry>,
}

impl View for Tally {
    type V = Map<Seq<char>, i32>;

    closed spec fn view(&self) -> Map<Seq<char>, i32> {
        fold_counts(self.entries.deep_view())
    }
}

impl Tally {
    /// Whether every name stands once. Every tally that this module hands
    /// out is well formed.
    pub closed spec fn wf(&self) -> bool {
        distinct_keys(self.entries.deep_view())
    }

    /// Whether `entries` lists the mapping `m`: every entry is a key of `m`
    /// with its count, no key stands twice, and there are as many entries
    /// as keys.
    pub open spec fn lists(entries: Seq<(Seq<char>, i32)>, m: Map<Seq<char>, i32>) -> bool {
        &&& distinct_keys(entries)
        &&& m.dom().finite()
        &&& entries.len() == m.len()
        &&& forall|i: int|
            0 <= i < entries.len() ==> m.contains_key((#[trigger] entries[i]).0) && m[entries[i].0]
                == entries[i].1
    }

    /// The empty tally.
    pub fn new() -> (t: Tally)
        ensures
            t.wf(),
            t@ == Map::<Seq<char>, i32>::empty(),
    {
        let entries: Vec<TallyEntry> = Vec::new();
        proof {
            assert(entries.deep_view() =~= Seq::<(Seq<char>, i32)>::empty());
        }
        Tally { entries }
    }

    /// Writes `count` for `key`, in place of the count that `key` had.
    pub fn insert(&mut self, key: String, count: i32)
        requires
            old(self).wf(),
        ensures
            final(self).wf(),
            final(self)@ == old(self)@.insert(key@, count),
    {
        let ghost before = self.entries.deep_view();
        let n: usize = self.entries.len();
        let mut i: usize = 0;
        while i < n
            invariant
                i <= n,
                n == self.entries.len(),
                self.entries.deep_view() == before,
                before == old(self).entries.deep_view(),
                distinct_keys(before),
                forall|j: int| 0 <= j < i ==> (#[trigger] before[j]).0 != key@,
            decreases n - i,
        {
            if self.entries[i].key == key {
                proof {
                    assert(before[i as int].0 == key@);
                    lemma_fold_update(before, i as int, count);
                }
                self.entries.set(i, TallyEntry { key, count });
                proof {
                    assert(self.entries.deep_view() =~= before.update(i as int, (key@, count)));
                }
                return ;
            }
            i = i + 1;
        }
        self.entries.push(TallyEntry { key, count });
        proof {
            let after = self.entries.deep_view();
            assert(after =~= before.push((key@, count)));
            assert(after.drop_last() =~= before);
            assert(distinct_keys(after)) by {
                assert forall|a: int, b: int|
                    0 <= a < after.len() && 0 <= b < after.len() && a != b implies (
                #[trigger] after[a]).0 != (#[trigger] after[b]).0 by {
                    if a < before.len() && b < before.len() {
                        assert(before[a].0 != before[b].0);
                    } else if a < before.len() {
                        assert(before[a].0 != key@);
                    } else {
                        assert(before[b].0 != key@);
                    }
                }
            }
        }
    }

    /// The count of `key`, if it has one.
    pub fn get(&self, key: &String) -> (r: Option<i32>)
        requires
            self.wf(),
        ensures
            r == (if self@.contains_key(key@) {
                Some(self@[key@])
            } else {
                None
            }),
    {
        let ghost pairs = self.entries.deep_view();
        let n: usize = self.entries.len();
        let mut i: usize = 0;
        while i < n
            invariant
                i <= n,
                n == self.entries.len(),
                self.entries.deep_view() == pairs,
                distinct_keys(pairs),
                forall|j: int| 0 <= j < i ==> (#[trigger] pairs[j]).0 != key@,
            decreases n - i,
        {
            if self.entries[i].key == *key {
                proof {
                    assert(pairs[i as int].0 == key@);
                    lemma_fold_distinct(pairs);
                }
                return Some(self.entries[i].count);
            }
            i = i + 1;
        }
        proof {
            lemma_fold_keys(pairs);
        }
        None
    }

    /// The number of names.
    pub fn len(&self) -> (n: usize)
        requires
            self.wf(),
        ensures
            n == self@.len(),
            self@.dom().finite(),
    {
        proof {
            lemma_fold_keys(self.entries.deep_view());
            lemma_fold_distinct(self.entries.deep_view());
        }
        self.entries.len()
    }

    /// The names with their counts, each name once.
    pub fn entries(&self) -> (list: &Vec<TallyEntry>)
        requires
            self.wf(),
        ensures
            Self::lists(list.deep_view(), self@),
    {
        proof {
            lemma_fold_keys(self.entries.deep_view());
            lemma_fold_distinct(self.entries.deep_view());
        }
        &self.entries
    }
}

} // verus!
