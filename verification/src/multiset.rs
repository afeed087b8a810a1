//! A counting multiset over a hash map, used to count position repetitions.

use vstd::prelude::*;
use std::collections::HashMap;
use std::hash::Hash;

verus! {

broadcast use vstd::std_specs::hash::group_hash_axioms;

#[derive(Debug, Clone, Copy, PartialEq, Eq, Structural)]
pub enum MultiSetErr {
    KeyDoesNotExist,
}

/// How many times `key` occurs in a count map.
pub open spec fn count_in<K>(m: Map<K, u64>, key: K) -> u64 {
    if m.contains_key(key) {
        m[key]
    } else {
        0
    }
}

/// The count map after one more `key`.
pub open spec fn added<K>(m: Map<K, u64>, key: K) -> Map<K, u64> {
    m.insert(key, (count_in(m, key) + 1) as u64)
}

/// The count map after one `key` fewer; a key whose count reaches zero is dropped.
pub open spec fn removed<K>(m: Map<K, u64>, key: K) -> Map<K, u64> {
    if count_in(m, key) <= 1 {
        m.remove(key)
    } else {
        m.insert(key, (m[key] - 1) as u64)
    }
}

/// Every stored count is positive.
pub open spec fn counts_positive<K>(m: Map<K, u64>) -> bool {
    forall|k: K| #[trigger] m.contains_key(k) ==> m[k] > 0
}

/// Removing a key just added gives back the multiset it was added to.
pub proof fn lemma_remove_undoes_add<K>(m: Map<K, u64>, key: K)
    requires
        counts_positive(m),
        count_in(m, key) < u64::MAX,
    ensures
        removed(added(m, key), key) == m,
        counts_positive(added(m, key)),
{
    let a = added(m, key);
    if m.contains_key(key) {
        assert(removed(a, key) =~= m);
    } else {
        assert(removed(a, key) =~= m);
    }
}

/// The count map after a history of operations from `m`, in order: `(true,
/// k)` adds `k`; `(false, k)` removes `k` when it is there (a remove of an
/// absent key fails and changes nothing).
pub open spec fn replay<K>(m: Map<K, u64>, ops: Seq<(bool, K)>) -> Map<K, u64>
    decreases ops.len(),
{
    if ops.len() == 0 {
        m
    } else {
        let before = replay(m, ops.drop_last());
        let (is_add, k) = ops.last();
        if is_add {
            added(before, k)
        } else if count_in(before, k) > 0 {
            removed(before, k)
        } else {
            before
        }
    }
}

/// The adds of `key` in a history less the removes of it that succeeded.
pub open spec fn net_count<K>(ops: Seq<(bool, K)>, key: K) -> nat
    decreases ops.len(),
{
    if ops.len() == 0 {
        0
    } else {
        let n = net_count(ops.drop_last(), key);
        let (is_add, k) = ops.last();
        if k != key {
            n
        } else if is_add {
            n + 1
        } else if n > 0 {
            (n - 1) as nat
        } else {
            0
        }
    }
}

/// Starting empty, a key's count after any history of adds and removes is
/// the number of its adds less the number of its removes that succeeded.
pub proof fn lemma_count_after_history<K>(ops: Seq<(bool, K)>, key: K)
    requires
        ops.len() < u64::MAX,
    ensures
        count_in(replay(Map::<K, u64>::empty(), ops), key) == net_count(ops, key),
        net_count(ops, key) <= ops.len(),
        counts_positive(replay(Map::<K, u64>::empty(), ops)),
    decreases ops.len(),
{
    if ops.len() > 0 {
        let prefix = ops.drop_last();
        lemma_count_after_history(prefix, key);
        let (is_add, k) = ops.last();
        lemma_count_after_history(prefix, k);
        let before = replay(Map::<K, u64>::empty(), prefix);
        if is_add {
            assert(count_in(before, k) < u64::MAX);
        }
    }
}

#[derive(Debug, Clone)]
pub struct MultiSet<K: Eq + Hash> {
    counts: HashMap<K, u64>,
}

impl<K: Eq + Hash> MultiSet<K> {
    pub closed spec fn view(&self) -> Map<K, u64> {
        self.counts@
    }

    pub closed spec fn wf(&self) -> bool {
        &&& vstd::std_specs::hash::obeys_key_model::<K>()
        &&& counts_positive(self.counts@)
    }

    /// A well-formed multiset stores only positive counts.
    pub proof fn lemma_counts_positive(&self)
        requires
            self.wf(),
        ensures
            counts_positive(self.view()),
    {
    }

    pub fn new() -> (r: Self)
        requires
            vstd::std_specs::hash::obeys_key_model::<K>(),
        ensures
            r.wf(),
            r.view() == Map::<K, u64>::empty(),
    {
        Self { counts: HashMap::new() }
    }

    pub fn add(&mut self, key: K)
        requires
            old(self).wf(),
            count_in(old(self).view(), key) < u64::MAX,
        ensures
            final(self).wf(),
            final(self).view() == added(old(self).view(), key),
    {
        let c = match self.counts.get(&key) {
            Some(v) => *v,
            None => 0,
        };
        self.counts.insert(key, c + 1);
    }

    pub fn count(&self, key: K) -> (r: u64)
        requires
            self.wf(),
        ensures
            r == count_in(self.view(), key),
    {
        match self.counts.get(&key) {
            Some(v) => *v,
            None => 0,
        }
    }

    pub fn remove(&mut self, key: K) -> (r: Result<(), MultiSetErr>)
        requires
            old(self).wf(),
        ensures
            final(self).wf(),
            count_in(old(self).view(), key) == 0 ==> r == Err::<(), MultiSetErr>(
                MultiSetErr::KeyDoesNotExist,
            ) && final(self).view() == old(self).view(),
            count_in(old(self).view(), key) > 0 ==> r is Ok && final(self).view() == removed(
                old(self).view(),
                key,
            ),
    {
        let c = match self.counts.get(&key) {
            Some(v) => *v,
            None => 0,
        };
        if c == 0 {
            return Err(MultiSetErr::KeyDoesNotExist);
        }
        if c == 1 {
            self.counts.remove(&key);
        } else {
            self.counts.insert(key, c - 1);
        }
        Ok(())
    }
}

} // verus!
