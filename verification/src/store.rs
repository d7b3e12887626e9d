//! An auxiliary key-value store held in memory, to stand in for a database.

use vstd::prelude::*;
use vstd::slice::slice_to_vec;

verus! {

/// Whether some pair of `pairs` has the key `key`.
pub open spec fn has_key(pairs: Seq<(Vec<u8>, Vec<u8>)>, key: Seq<u8>) -> bool {
    exists|i: int| 0 <= i < pairs.len() && (#[trigger] pairs[i]).0@ == key
}

/// The index of a pair of `pairs` with the key `key`, where there is one.
pub open spec fn index_of(pairs: Seq<(Vec<u8>, Vec<u8>)>, key: Seq<u8>) -> int {
    choose|i: int| 0 <= i < pairs.len() && (#[trigger] pairs[i]).0@ == key
}

/// No two pairs of `pairs` have the same key.
pub open spec fn distinct_keys(pairs: Seq<(Vec<u8>, Vec<u8>)>) -> bool {
    forall|i: int, j: int|
        0 <= i < pairs.len() && 0 <= j < pairs.len() && (#[trigger] pairs[i]).0@ == (
        #[trigger] pairs[j]).0@ ==> i == j
}

/// The map that pairs with distinct keys stand for.
pub open spec fn as_map(pairs: Seq<(Vec<u8>, Vec<u8>)>) -> Map<Seq<u8>, Seq<u8>> {
    Map::new(|key: Seq<u8>| has_key(pairs, key), |key: Seq<u8>| pairs[index_of(pairs, key)].1@)
}

/// The map after the insertions, made in order: a later one replaces an
/// earlier one of the same key.
pub open spec fn after_insertions(
    map: Map<Seq<u8>, Seq<u8>>,
    insertions: Seq<(&[u8], &[u8])>,
) -> Map<Seq<u8>, Seq<u8>>
    decreases insertions.len(),
{
    if insertions.len() == 0 {
        map
    } else {
        after_insertions(map, insertions.drop_last()).insert(
            insertions.last().0@,
            insertions.last().1@,
        )
    }
}

/// The map after the deletions.
pub open spec fn after_deletions(map: Map<Seq<u8>, Seq<u8>>, deletions: Seq<&[u8]>) -> Map<
    Seq<u8>,
    Seq<u8>,
>
    decreases deletions.len(),
{
    if deletions.len() == 0 {
        map
    } else {
        after_deletions(map, deletions.drop_last()).remove(deletions.last()@)
    }
}

/// In pairs with distinct keys, a key is found where it stands.
proof fn lemma_index_of(pairs: Seq<(Vec<u8>, Vec<u8>)>, i: int)
    requires
        distinct_keys(pairs),
        0 <= i < pairs.len(),
    ensures
        has_key(pairs, pairs[i].0@),
        index_of(pairs, pairs[i].0@) == i,
        as_map(pairs).contains_key(pairs[i].0@),
        as_map(pairs)[pairs[i].0@] == pairs[i].1@,
{
}

/// Whether two byte strings are equal.
fn same_bytes(a: &[u8], b: &[u8]) -> (r: bool)
    ensures
        r == (a@ == b@),
{
    if a.len() != b.len() {
        return false;
    }
    let mut i: usize = 0;
    while i < a.len()
        invariant
            a@.len() == b@.len(),
            0 <= i <= a@.len(),
            forall|j: int| 0 <= j < i ==> a@[j] == b@[j],
        decreases a.len() - i,
    {
        if a[i] != b[i] {
            return false;
        }
        i = i + 1;
    }
    assert(a@ =~= b@);
    true
}

/// A store for tests: auxiliary data by key, held in memory.
pub struct TestStore {
    inner: Vec<(Vec<u8>, Vec<u8>)>,
}

impl View for TestStore {
    type V = Map<Seq<u8>, Seq<u8>>;

    closed spec fn view(&self) -> Map<Seq<u8>, Seq<u8>> {
        as_map(self.inner@)
    }
}

impl Default for TestStore {
    fn default() -> (r: Self)
        ensures
            r.wf(),
            r@ == Map::<Seq<u8>, Seq<u8>>::empty(),
    {
        let r = TestStore { inner: Vec::new() };
        assert(r@ =~= Map::<Seq<u8>, Seq<u8>>::empty());
        r
    }
}

impl TestStore {
    /// The invariant of the store: every key is held once.
    pub closed spec fn wf(&self) -> bool {
        distinct_keys(self.inner@)
    }

    /// The index of the pair with the key, if the store has it.
    fn find(&self, key: &[u8]) -> (r: Option<usize>)
        ensures
            match r {
                Some(i) => i < self.inner@.len() && self.inner@[i as int].0@ == key@,
                None => !has_key(self.inner@, key@),
            },
    {
        let mut i: usize = 0;
        while i < self.inner.len()
            invariant
                0 <= i <= self.inner@.len(),
                forall|j: int| 0 <= j < i ==> (#[trigger] self.inner@[j]).0@ != key@,
            decreases self.inner.len() - i,
        {
            if same_bytes(self.inner[i].0.as_slice(), key) {
                return Some(i);
            }
            i = i + 1;
        }
        None
    }

    /// Stores `value` under `key`, in place of what was there.
    fn put(&mut self, key: &[u8], value: &[u8])
        requires
            old(self).wf(),
        ensures
            final(self).wf(),
            final(self)@ == old(self)@.insert(key@, value@),
    {
        let ghost before = self.inner@;
        let found = self.find(key);
        let pair = (slice_to_vec(key), slice_to_vec(value));
        match found {
            Some(i) => {
                self.inner.set(i, pair);
                proof {
                    let after = self.inner@;
                    assert forall|j: int| 0 <= j < after.len() implies (#[trigger] after[j]).0@
                        == before[j].0@ by {}
                    assert forall|q: Seq<u8>| has_key(after, q) == has_key(before, q) by {
                        if has_key(after, q) {
                            let j = index_of(after, q);
                            assert(before[j].0@ == q);
                        }
                        if has_key(before, q) {
                            let j = index_of(before, q);
                            assert(after[j].0@ == q);
                        }
                    }
                    assert forall|q: Seq<u8>| has_key(after, q) implies #[trigger] as_map(after)[q]
                        == as_map(before).insert(key@, value@)[q] by {
                        let j = index_of(after, q);
                        lemma_index_of(before, j);
                        lemma_index_of(after, j);
                    }
                    assert(as_map(after) =~= as_map(before).insert(key@, value@));
                }
            },
            None => {
                self.inner.push(pair);
                proof {
                    let after = self.inner@;
                    let last = after.len() - 1;
                    assert forall|j: int| 0 <= j < before.len() implies (#[trigger] after[j])
                        == before[j] by {}
                    assert(after[last].0@ == key@);
                    assert forall|q: Seq<u8>| has_key(after, q) == (q == key@ || has_key(
                        before,
                        q,
                    )) by {
                        if has_key(after, q) {
                            let j = index_of(after, q);
                            if j < last {
                                assert(before[j].0@ == q);
                            }
                        }
                        if has_key(before, q) {
                            let j = index_of(before, q);
                            assert(after[j].0@ == q);
                        }
                    }
                    assert forall|q: Seq<u8>| has_key(after, q) implies #[trigger] as_map(after)[q]
                        == as_map(before).insert(key@, value@)[q] by {
                        let j = index_of(after, q);
                        lemma_index_of(after, j);
                        if j < last {
                            lemma_index_of(before, j);
                        }
                    }
                    assert(as_map(after) =~= as_map(before).insert(key@, value@));
                }
            },
        }
    }

    /// Removes what is stored under `key`, if anything.
    fn delete(&mut self, key: &[u8])
        requires
            old(self).wf(),
        ensures
            final(self).wf(),
            final(self)@ == old(self)@.remove(key@),
    {
        let ghost before = self.inner@;
        match self.find(key) {
            Some(i) => {
                self.inner.remove(i);
                proof {
                    let after = self.inner@;
                    let back = |j: int| if j < i { j } else { j + 1 };
                    assert forall|j: int| 0 <= j < after.len() implies (#[trigger] after[j])
                        == before[back(j)] by {}
                    assert forall|q: Seq<u8>| has_key(after, q) == (q != key@ && has_key(
                        before,
                        q,
                    )) by {
                        if has_key(after, q) {
                            let j = index_of(after, q);
                            assert(before[back(j)].0@ == q);
                        }
                        if q != key@ && has_key(before, q) {
                            let j = index_of(before, q);
                            let to = if j < i { j } else { j - 1 };
                            assert(after[to].0@ == q);
                        }
                    }
                    assert forall|q: Seq<u8>| has_key(after, q) implies #[trigger] as_map(after)[q]
                        == as_map(before).remove(key@)[q] by {
                        let j = index_of(after, q);
                        lemma_index_of(after, j);
                        lemma_index_of(before, back(j));
                    }
                    assert(as_map(after) =~= as_map(before).remove(key@));
                }
            },
            None => {
                assert(as_map(before) =~= as_map(before).remove(key@));
            },
        }
    }

    /// Makes the insertions, then the deletions: a key that is both inserted
    /// and deleted is gone afterwards.
    pub fn insert_aux(&mut self, insertions: &[(&[u8], &[u8])], deletions: &[&[u8]])
        requires
            old(self).wf(),
        ensures
            final(self).wf(),
            final(self)@ == after_deletions(
                after_insertions(old(self)@, insertions@),
                deletions@,
            ),
    {
        let mut i: usize = 0;
        while i < insertions.len()
            invariant
                self.wf(),
                0 <= i <= insertions@.len(),
                self@ == after_insertions(old(self)@, insertions@.take(i as int)),
            decreases insertions.len() - i,
        {
            let (key, value) = insertions[i];
            self.put(key, value);
            proof {
                assert(insertions@.take(i as int + 1).drop_last() =~= insertions@.take(i as int));
            }
            i = i + 1;
        }
        assert(insertions@.take(i as int) =~= insertions@);
        let ghost inserted = self@;
        let mut k: usize = 0;
        while k < deletions.len()
            invariant
                self.wf(),
                0 <= k <= deletions@.len(),
                self@ == after_deletions(inserted, deletions@.take(k as int)),
            decreases deletions.len() - k,
        {
            self.delete(deletions[k]);
            proof {
                assert(deletions@.take(k as int + 1).drop_last() =~= deletions@.take(k as int));
            }
            k = k + 1;
        }
        assert(deletions@.take(k as int) =~= deletions@);
    }

    /// What is stored under `key`, if anything.
    pub fn get_aux(&self, key: &[u8]) -> (r: Option<Vec<u8>>)
        requires
            self.wf(),
        ensures
            match r {
                Some(value) => self@.contains_key(key@) && value@ == self@[key@],
                None => !self@.contains_key(key@),
            },
    {
        match self.find(key) {
            Some(i) => {
                proof {
                    lemma_index_of(self.inner@, i as int);
                }
                Some(slice_to_vec(self.inner[i].1.as_slice()))
            },
            None => None,
        }
    }
}

} // verus!
