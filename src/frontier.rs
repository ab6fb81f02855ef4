//! The open set of a best-first search: keys with integer priorities, where
//! the same key may stand several times.
use vstd::prelude::*;

verus! {

/// A min-priority queue of `(priority, key)` entries. Of entries of equal
/// priority, the one that stands first leaves first.
pub struct Frontier<K> {
    entries: Vec<(u64, K)>,
}

impl<K: Copy> Frontier<K> {
    /// The entries, in the order in which they stand.
    pub closed spec fn items(&self) -> Seq<(u64, K)> {
        self.entries@
    }

    /// An empty frontier.
    pub fn new() -> (r: Self)
        ensures
            r.items() == Seq::<(u64, K)>::empty(),
    {
        Frontier { entries: Vec::new() }
    }

    /// Adds `key` with `priority`, beside any entries it already has.
    pub fn insert(&mut self, key: K, priority: u64)
        ensures
            final(self).items() == old(self).items().push((priority, key)),
    {
        self.entries.push((priority, key));
    }

    /// Whether no entry is left.
    pub fn is_empty(&self) -> (r: bool)
        ensures
            r == (self.items().len() == 0),
    {
        self.entries.len() == 0
    }

    /// The number of entries.
    pub fn len(&self) -> (r: usize)
        ensures
            r == self.items().len(),
    {
        self.entries.len()
    }

    /// Removes and returns the first entry of the smallest priority; `None`
    /// when the frontier is empty. The last entry takes the removed one's place.
    pub fn pop(&mut self) -> (r: Option<(K, u64)>)
        ensures
            old(self).items().len() == 0 ==> r is None && final(self).items() == old(self).items(),
            old(self).items().len() > 0 ==> exists|i: int|
                0 <= i < old(self).items().len() && is_first_min(old(self).items(), i)
                && r == Some((old(self).items()[i].1, old(self).items()[i].0))
                && final(self).items() == old(self).items().update(i, old(self).items().last()).drop_last(),
    {
        let n = self.entries.len();
        if n == 0 {
            return None;
        }
        let mut best: usize = 0;
        let mut i: usize = 1;
        while i < n
            invariant
                n == self.entries@.len(),
                1 <= i <= n,
                best < i,
                forall|j: int| 0 <= j < i ==> self.entries@[j].0 >= self.entries@[best as int].0,
                forall|j: int| 0 <= j < best ==> self.entries@[j].0 > self.entries@[best as int].0,
            decreases n - i,
        {
            if self.entries[i].0 < self.entries[best].0 {
                best = i;
            }
            i = i + 1;
        }
        let (p, k) = self.entries.swap_remove(best);
        assert(is_first_min(old(self).items(), best as int));
        Some((k, p))
    }
}

/// Entry `i` of `s` has the smallest priority of `s`, and no entry before it has
/// that priority.
pub open spec fn is_first_min<K>(s: Seq<(u64, K)>, i: int) -> bool {
    &&& forall|j: int| 0 <= j < s.len() ==> s[i].0 <= #[trigger] s[j].0
    &&& forall|j: int| 0 <= j < i ==> s[i].0 < #[trigger] s[j].0
}

} // verus!
