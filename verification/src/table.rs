//! A table from numbers to values, in the order of the numbers.
use vstd::prelude::*;

verus! {

/// Values by their numbers.
pub struct IdTable<V> {
    entries: Vec<(u32, V)>,
}

/// The numbers of entries, which are in ascending order and thus different.
spec fn ascending<V>(entries: Seq<(u32, V)>) -> bool {
    forall|i: int, j: int| 0 <= i < j < entries.len() ==> #[trigger] entries[i].0 < #[trigger] entries[j].0
}

/// What entries say, from the last to the first.
spec fn as_map<V>(entries: Seq<(u32, V)>) -> Map<u32, V>
    decreases entries.len(),
{
    if entries.len() == 0 {
        Map::empty()
    } else {
        as_map(entries.drop_last()).insert(entries.last().0, entries.last().1)
    }
}

proof fn lemma_as_map<V>(entries: Seq<(u32, V)>)
    requires
        ascending(entries),
    ensures
        as_map(entries).dom().finite(),
        as_map(entries).len() == entries.len(),
        forall|i: int|
            0 <= i < entries.len() ==> as_map(entries).contains_key((#[trigger] entries[i]).0) && as_map(
                entries,
            )[entries[i].0] == entries[i].1,
        forall|k: u32| #[trigger]
            as_map(entries).contains_key(k) ==> exists|i: int| 0 <= i < entries.len() && (#[trigger] entries[i]).0 == k,
    decreases entries.len(),
{
    if entries.len() > 0 {
        let front = entries.drop_last();
        let last = entries.last();
        assert(ascending(front)) by {
            assert forall|i: int, j: int| 0 <= i < j < front.len() implies #[trigger] front[i].0 < #[trigger] front[j].0 by {
                assert(entries[i].0 < entries[j].0);
            }
        }
        lemma_as_map(front);
        assert(!as_map(front).contains_key(last.0)) by {
            if as_map(front).contains_key(last.0) {
                let i = choose|i: int| 0 <= i < front.len() && (#[trigger] front[i]).0 == last.0;
                assert(entries[i].0 < entries[entries.len() - 1].0);
            }
        }
        assert forall|i: int| 0 <= i < entries.len() implies as_map(entries).contains_key((#[trigger] entries[i]).0)
            && as_map(entries)[entries[i].0] == entries[i].1 by {
            if i < entries.len() - 1 {
                assert(front[i] == entries[i]);
                assert(entries[i].0 < entries[entries.len() - 1].0);
            }
        }
        assert forall|k: u32| #[trigger] as_map(entries).contains_key(k) implies exists|i: int|
            0 <= i < entries.len() && (#[trigger] entries[i]).0 == k by {
            if k == last.0 {
                assert(entries[entries.len() - 1].0 == k);
            } else {
                let i = choose|i: int| 0 <= i < front.len() && (#[trigger] front[i]).0 == k;
                assert(entries[i].0 == k);
            }
        }
    }
}

/// Entries whose map is known by its keys and values are that map.
proof fn lemma_map_is<V>(entries: Seq<(u32, V)>, m: Map<u32, V>)
    requires
        ascending(entries),
        forall|i: int| 0 <= i < entries.len() ==> m.contains_key((#[trigger] entries[i]).0) && m[entries[i].0] == entries[i].1,
        forall|k: u32| #[trigger] m.contains_key(k) ==> exists|i: int| 0 <= i < entries.len() && (#[trigger] entries[i]).0 == k,
    ensures
        as_map(entries) == m,
{
    lemma_as_map(entries);
    assert forall|k: u32| as_map(entries).contains_key(k) <==> m.contains_key(k) by {
        if as_map(entries).contains_key(k) {
            let i = choose|i: int| 0 <= i < entries.len() && (#[trigger] entries[i]).0 == k;
            assert(m.contains_key(entries[i].0));
        }
        if m.contains_key(k) {
            let i = choose|i: int| 0 <= i < entries.len() && (#[trigger] entries[i]).0 == k;
            assert(as_map(entries).contains_key(entries[i].0));
        }
    }
    assert forall|k: u32| as_map(entries).contains_key(k) implies as_map(entries)[k] == m[k] by {
        let i = choose|i: int| 0 <= i < entries.len() && (#[trigger] entries[i]).0 == k;
        assert(as_map(entries)[entries[i].0] == entries[i].1);
    }
    assert(as_map(entries) =~= m);
}

/// Whether `ids` are the keys of a map, in ascending order.
pub open spec fn are_keys<V>(ids: Seq<u32>, m: Map<u32, V>) -> bool {
    &&& forall|i: int, j: int| 0 <= i < j < ids.len() ==> #[trigger] ids[i] < #[trigger] ids[j]
    &&& forall|i: int| 0 <= i < ids.len() ==> m.contains_key(#[trigger] ids[i])
    &&& forall|k: u32| #[trigger] m.contains_key(k) ==> ids.contains(k)
}

/// The keys of a map that are smaller than `n`, in ascending order.
pub open spec fn keys_below<V>(m: Map<u32, V>, n: int) -> Seq<u32>
    decreases n,
{
    if n <= 0 {
        seq![]
    } else if m.contains_key((n - 1) as u32) {
        keys_below(m, n - 1).push((n - 1) as u32)
    } else {
        keys_below(m, n - 1)
    }
}

/// The keys of a map in ascending order.
pub open spec fn keys_of<V>(m: Map<u32, V>) -> Seq<u32> {
    keys_below(m, 0x1_0000_0000)
}

/// The keys of a map in ascending order are all of them.
pub proof fn keys_of_lists_the_keys<V>(m: Map<u32, V>)
    ensures
        are_keys(keys_of(m), m),
{
    lemma_keys_below(m, 0x1_0000_0000);
}

proof fn lemma_keys_below<V>(m: Map<u32, V>, n: int)
    requires
        0 <= n <= 0x1_0000_0000,
    ensures
        forall|i: int, j: int|
            0 <= i < j < keys_below(m, n).len() ==> #[trigger] keys_below(m, n)[i] < #[trigger] keys_below(m, n)[j],
        forall|i: int|
            0 <= i < keys_below(m, n).len() ==> m.contains_key(#[trigger] keys_below(m, n)[i]) && keys_below(m, n)[i]
                < n,
        forall|k: u32| #[trigger] m.contains_key(k) && k < n ==> keys_below(m, n).contains(k),
    decreases n,
{
    if n > 0 {
        lemma_keys_below(m, n - 1);
        let fewer = keys_below(m, n - 1);
        let all = keys_below(m, n);
        assert forall|k: u32| #[trigger] m.contains_key(k) && k < n implies all.contains(k) by {
            if k < n - 1 {
                let i = choose|i: int| 0 <= i < fewer.len() && fewer[i] == k;
                assert(all[i] == k);
            } else {
                assert(all[all.len() - 1] == k);
            }
        }
    }
}

impl<V> IdTable<V> {
    pub closed spec fn view(&self) -> Map<u32, V> {
        as_map(self.entries@)
    }

    /// The entries are in ascending order.
    pub closed spec fn wf(&self) -> bool {
        ascending(self.entries@)
    }

    /// No value.
    pub fn new() -> (r: Self)
        ensures
            r.wf(),
            r@ == Map::<u32, V>::empty(),
    {
        IdTable { entries: Vec::new() }
    }

    /// The number of values.
    pub fn len(&self) -> (r: usize)
        requires
            self.wf(),
        ensures
            self@.dom().finite(),
            r == self@.len(),
    {
        proof {
            lemma_as_map(self.entries@);
        }
        self.entries.len()
    }

    /// How many numbers are smaller than `id`.
    fn rank(&self, id: u32) -> (r: usize)
        requires
            self.wf(),
        ensures
            r <= self.entries@.len(),
            forall|i: int| 0 <= i < r ==> (#[trigger] self.entries@[i]).0 < id,
            forall|i: int| r <= i < self.entries@.len() ==> (#[trigger] self.entries@[i]).0 >= id,
    {
        let mut i: usize = 0;
        while i < self.entries.len() && self.entries[i].0 < id
            invariant
                i <= self.entries@.len(),
                forall|k: int| 0 <= k < i ==> (#[trigger] self.entries@[k]).0 < id,
            ensures
                i < self.entries@.len() ==> self.entries@[i as int].0 >= id,
            decreases self.entries@.len() - i,
        {
            i += 1;
        }
        assert forall|k: int| i <= k < self.entries@.len() implies (#[trigger] self.entries@[k]).0 >= id by {
            if k > i {
                assert(self.entries@[i as int].0 < self.entries@[k].0);
            }
        }
        i
    }

    /// The value of a number.
    pub fn get(&self, id: u32) -> (r: Option<&V>)
        requires
            self.wf(),
        ensures
            match r {
                Some(v) => self@.contains_key(id) && self@[id] == *v,
                None => !self@.contains_key(id),
            },
    {
        proof {
            lemma_as_map(self.entries@);
        }
        let at: usize = self.rank(id);
        if at < self.entries.len() && self.entries[at].0 == id {
            Some(&self.entries[at].1)
        } else {
            proof {
                if self@.contains_key(id) {
                    let i = choose|i: int| 0 <= i < self.entries@.len() && (#[trigger] self.entries@[i]).0 == id;
                    assert(i >= at);
                    if i > at {
                        assert(self.entries@[at as int].0 < self.entries@[i].0);
                    }
                }
            }
            None
        }
    }

    /// Gives a number a value.
    pub fn insert(&mut self, id: u32, value: V)
        requires
            old(self).wf(),
        ensures
            final(self).wf(),
            final(self)@ == old(self)@.insert(id, value),
    {
        let ghost before = self.entries@;
        let ghost meant = self@.insert(id, value);
        proof {
            lemma_as_map(before);
        }
        let at: usize = self.rank(id);
        if at < self.entries.len() && self.entries[at].0 == id {
            self.entries.set(at, (id, value));
            let ghost after = self.entries@;
            proof {
                assert(ascending(after)) by {
                    assert forall|i: int, j: int| 0 <= i < j < after.len() implies #[trigger] after[i].0 < #[trigger] after[j].0 by {
                        assert(before[i].0 < before[j].0);
                    }
                }
                assert forall|i: int| 0 <= i < after.len() implies meant.contains_key((#[trigger] after[i]).0)
                    && meant[after[i].0] == after[i].1 by {
                    if i != at {
                        assert(before[i] == after[i]);
                        if i < at {
                            assert(before[i].0 < before[at as int].0);
                        } else {
                            assert(before[at as int].0 < before[i].0);
                        }
                    }
                }
                assert forall|k: u32| #[trigger] meant.contains_key(k) implies exists|i: int|
                    0 <= i < after.len() && (#[trigger] after[i]).0 == k by {
                    if k == id {
                        assert(after[at as int].0 == k);
                    } else {
                        let i = choose|i: int| 0 <= i < before.len() && (#[trigger] before[i]).0 == k;
                        assert(after[i].0 == k);
                    }
                }
                lemma_map_is(after, meant);
            }
        } else {
            self.entries.insert(at, (id, value));
            let ghost after = self.entries@;
            proof {
                assert(after == before.insert(at as int, (id, value)));
                assert forall|i: int| at <= i < before.len() implies (#[trigger] before[i]).0 > id by {
                    if i > at {
                        assert(before[at as int].0 < before[i].0);
                    }
                }
                assert(ascending(after)) by {
                    assert forall|i: int, j: int| 0 <= i < j < after.len() implies #[trigger] after[i].0 < #[trigger] after[j].0 by {
                        if i < at && j < at {
                            assert(before[i].0 < before[j].0);
                        } else if i < at && j > at {
                            assert(before[i].0 < before[j - 1].0);
                        } else if i > at {
                            assert(before[i - 1].0 < before[j - 1].0);
                        } else if i == at {
                            assert(before[j - 1].0 > id);
                        } else {
                            assert(before[i].0 < id);
                        }
                    }
                }
                assert forall|i: int| 0 <= i < after.len() implies meant.contains_key((#[trigger] after[i]).0)
                    && meant[after[i].0] == after[i].1 by {
                    if i < at {
                        assert(before[i] == after[i]);
                    } else if i > at {
                        assert(before[i - 1] == after[i]);
                    }
                }
                assert forall|k: u32| #[trigger] meant.contains_key(k) implies exists|i: int|
                    0 <= i < after.len() && (#[trigger] after[i]).0 == k by {
                    if k == id {
                        assert(after[at as int].0 == k);
                    } else {
                        let i = choose|i: int| 0 <= i < before.len() && (#[trigger] before[i]).0 == k;
                        if i < at {
                            assert(after[i].0 == k);
                        } else {
                            assert(after[i + 1].0 == k);
                        }
                    }
                }
                lemma_map_is(after, meant);
            }
        }
    }

    /// Takes the value of a number out.
    pub fn remove(&mut self, id: u32) -> (r: Option<V>)
        requires
            old(self).wf(),
        ensures
            final(self).wf(),
            final(self)@ == old(self)@.remove(id),
            match r {
                Some(v) => old(self)@.contains_key(id) && old(self)@[id] == v,
                None => !old(self)@.contains_key(id),
            },
    {
        let ghost before = self.entries@;
        let ghost meant = self@.remove(id);
        proof {
            lemma_as_map(before);
        }
        let at: usize = self.rank(id);
        if at < self.entries.len() && self.entries[at].0 == id {
            let taken = self.entries.remove(at);
            let ghost after = self.entries@;
            proof {
                assert(before[at as int].0 == id);
                assert(ascending(after)) by {
                    assert forall|i: int, j: int| 0 <= i < j < after.len() implies #[trigger] after[i].0 < #[trigger] after[j].0 by {
                        let a = if i < at { i } else { i + 1 };
                        let b = if j < at { j } else { j + 1 };
                        assert(before[a].0 < before[b].0);
                    }
                }
                assert forall|i: int| 0 <= i < after.len() implies meant.contains_key((#[trigger] after[i]).0)
                    && meant[after[i].0] == after[i].1 by {
                    let a = if i < at { i } else { i + 1 };
                    assert(before[a] == after[i]);
                    if a < at {
                        assert(before[a].0 < before[at as int].0);
                    } else {
                        assert(before[at as int].0 < before[a].0);
                    }
                }
                assert forall|k: u32| #[trigger] meant.contains_key(k) implies exists|i: int|
                    0 <= i < after.len() && (#[trigger] after[i]).0 == k by {
                    let i = choose|i: int| 0 <= i < before.len() && (#[trigger] before[i]).0 == k;
                    if i < at {
                        assert(after[i].0 == k);
                    } else {
                        assert(after[i - 1].0 == k);
                    }
                }
                lemma_map_is(after, meant);
            }
            Some(taken.1)
        } else {
            proof {
                if self@.contains_key(id) {
                    let i = choose|i: int| 0 <= i < before.len() && (#[trigger] before[i]).0 == id;
                    if i > at {
                        assert(before[at as int].0 < before[i].0);
                    }
                }
                assert(meant =~= self@);
            }
            None
        }
    }

    /// The numbers that have a value, in ascending order.
    pub fn ids(&self) -> (r: Vec<u32>)
        requires
            self.wf(),
        ensures
            are_keys(r@, self@),
    {
        let mut ids: Vec<u32> = Vec::new();
        let mut i: usize = 0;
        while i < self.entries.len()
            invariant
                i <= self.entries@.len(),
                ids@.len() == i,
                forall|k: int| 0 <= k < i ==> #[trigger] ids@[k] == self.entries@[k].0,
            decreases self.entries@.len() - i,
        {
            ids.push(self.entries[i].0);
            i += 1;
        }
        proof {
            lemma_as_map(self.entries@);
            assert forall|a: int, b: int| 0 <= a < b < ids@.len() implies #[trigger] ids@[a] < #[trigger] ids@[b] by {
                assert(self.entries@[a].0 < self.entries@[b].0);
            }
            assert forall|k: int| 0 <= k < ids@.len() implies self@.contains_key(#[trigger] ids@[k]) by {
                assert(self@.contains_key(self.entries@[k].0));
            }
            assert forall|id: u32| #[trigger] self@.contains_key(id) implies ids@.contains(id) by {
                let k = choose|k: int| 0 <= k < self.entries@.len() && (#[trigger] self.entries@[k]).0 == id;
                assert(ids@[k] == id);
            }
        }
        ids
    }
}

/// There is only one way to list the keys of a map in ascending order.
pub proof fn keys_are_unique<V>(a: Seq<u32>, b: Seq<u32>, m: Map<u32, V>)
    requires
        are_keys(a, m),
        are_keys(b, m),
    ensures
        a == b,
    decreases a.len(),
{
    if a.len() == 0 {
        if b.len() > 0 {
            assert(m.contains_key(b[0]));
            assert(a.contains(b[0]));
        }
        assert(a =~= b);
    } else {
        assert(m.contains_key(a[a.len() - 1]));
        assert(b.contains(a[a.len() - 1]));
        let last_a = a.last();
        let last_b = b.last();
        assert(m.contains_key(b[b.len() - 1]));
        assert(a.contains(last_b));
        let i = choose|i: int| 0 <= i < a.len() && a[i] == last_b;
        let j = choose|j: int| 0 <= j < b.len() && b[j] == last_a;
        assert(last_b <= last_a) by {
            if i < a.len() - 1 {
                assert(a[i] < a[a.len() - 1]);
            }
        }
        assert(last_a <= last_b) by {
            if j < b.len() - 1 {
                assert(b[j] < b[b.len() - 1]);
            }
        }
        let fewer = m.remove(last_a);
        lemma_fewer_keys(a, m);
        lemma_fewer_keys(b, m);
        keys_are_unique(a.drop_last(), b.drop_last(), fewer);
        assert(a =~= a.drop_last().push(last_a));
        assert(b =~= b.drop_last().push(last_b));
    }
}

proof fn lemma_fewer_keys<V>(ids: Seq<u32>, m: Map<u32, V>)
    requires
        ids.len() > 0,
        are_keys(ids, m),
    ensures
        are_keys(ids.drop_last(), m.remove(ids.last())),
{
    let front = ids.drop_last();
    let fewer = m.remove(ids.last());
    assert forall|i: int, j: int| 0 <= i < j < front.len() implies #[trigger] front[i] < #[trigger] front[j] by {
        assert(ids[i] < ids[j]);
    }
    assert forall|i: int| 0 <= i < front.len() implies fewer.contains_key(#[trigger] front[i]) by {
        assert(m.contains_key(ids[i]));
        assert(ids[i] < ids[ids.len() - 1]);
    }
    assert forall|k: u32| #[trigger] fewer.contains_key(k) implies front.contains(k) by {
        assert(ids.contains(k));
        let i = choose|i: int| 0 <= i < ids.len() && ids[i] == k;
        assert(front[i] == k);
    }
}

} // verus!
