//! A small table keyed by 32-byte topics, kept as a list of entries with
//! distinct keys.
use vstd::prelude::*;
use crate::handoff::topics_equal;

verus! {

/// Entries `(topic, value)` with distinct topics.
pub struct TopicTable<V> {
    pub entries: Vec<([u8; 32], V)>,
}

impl<V> TopicTable<V> {
    /// No topic has two entries.
    pub open spec fn wf(self) -> bool {
        forall|i: int, j: int|
            0 <= i < j < self.entries@.len() ==> #[trigger] self.entries@[i].0@ != #[trigger] self.entries@[j].0@
    }

    /// Some entry has topic `k`.
    pub open spec fn has(self, k: Seq<u8>) -> bool {
        exists|i: int| 0 <= i < self.entries@.len() && #[trigger] self.entries@[i].0@ == k
    }

    /// The position of the entry with topic `k`.
    pub open spec fn index_of(self, k: Seq<u8>) -> int {
        choose|i: int| 0 <= i < self.entries@.len() && #[trigger] self.entries@[i].0@ == k
    }

    /// The value stored for topic `k`.
    pub open spec fn at(self, k: Seq<u8>) -> V {
        self.entries@[self.index_of(k)].1
    }

    /// The table as a map from topics to values.
    pub open spec fn map(self) -> Map<Seq<u8>, V> {
        Map::new(|k: Seq<u8>| self.has(k), |k: Seq<u8>| self.at(k))
    }

    /// The value at an entry is the value stored for its topic.
    pub proof fn lemma_at(self, i: int)
        requires
            self.wf(),
            0 <= i < self.entries@.len(),
        ensures
            self.has(self.entries@[i].0@),
            self.index_of(self.entries@[i].0@) == i,
            self.at(self.entries@[i].0@) == self.entries@[i].1,
            self.map()[self.entries@[i].0@] == self.entries@[i].1,
    {
        let k = self.entries@[i].0@;
        assert(self.has(k));
        let j = self.index_of(k);
        if j != i {
            if j < i {
                assert(self.entries@[j].0@ != self.entries@[i].0@);
            } else {
                assert(self.entries@[i].0@ != self.entries@[j].0@);
            }
        }
    }

    /// An empty table.
    pub fn new() -> (t: Self)
        ensures
            t.wf(),
            t.map() == Map::<Seq<u8>, V>::empty(),
    {
        let t = TopicTable { entries: Vec::new() };
        assert(t.map() =~= Map::<Seq<u8>, V>::empty());
        t
    }

    /// The position of the entry with topic `k`, if there is one.
    pub fn find(&self, k: &[u8; 32]) -> (r: Option<usize>)
        requires
            self.wf(),
        ensures
            match r {
                Some(i) => i < self.entries@.len() && self.entries@[i as int].0@ == k@ && self.has(k@)
                    && self.map()[k@] == self.entries@[i as int].1,
                None => !self.has(k@),
            },
    {
        let mut i: usize = 0;
        while i < self.entries.len()
            invariant
                self.wf(),
                i <= self.entries@.len(),
                forall|j: int| 0 <= j < i ==> self.entries@[j].0@ != k@,
            decreases self.entries@.len() - i,
        {
            if topics_equal(&self.entries[i].0, k) {
                proof {
                    self.lemma_at(i as int);
                }
                return Some(i);
            }
            i = i + 1;
        }
        None
    }

    /// Replaces the value of the entry at `i`.
    pub fn set_value(&mut self, i: usize, v: V)
        requires
            old(self).wf(),
            i < old(self).entries@.len(),
        ensures
            final(self).wf(),
            final(self).entries@.len() == old(self).entries@.len(),
            final(self).map() == old(self).map().insert(old(self).entries@[i as int].0@, v),
    {
        let k = self.entries[i].0;
        self.entries.set(i, (k, v));
        proof {
            let ghost o = *old(self);
            let ghost n = *self;
            assert forall|key: Seq<u8>| n.has(key) <==> o.has(key) by {
                if n.has(key) {
                    let j = n.index_of(key);
                    assert(o.entries@[j].0@ == key);
                }
                if o.has(key) {
                    let j = o.index_of(key);
                    assert(n.entries@[j].0@ == key);
                }
            }
            assert forall|key: Seq<u8>| n.has(key) implies n.at(key) == (if key == k@ { v } else { o.at(key) }) by {
                let j = n.index_of(key);
                n.lemma_at(j);
                o.lemma_at(j);
            }
            assert(n.map() =~= o.map().insert(k@, v));
        }
    }

    /// Adds an entry for a topic that has none.
    pub fn push_new(&mut self, k: [u8; 32], v: V)
        requires
            old(self).wf(),
            !old(self).has(k@),
        ensures
            final(self).wf(),
            final(self).map() == old(self).map().insert(k@, v),
    {
        self.entries.push((k, v));
        proof {
            let ghost o = *old(self);
            let ghost n = *self;
            let last = o.entries@.len() as int;
            assert forall|i: int, j: int| 0 <= i < j < n.entries@.len() implies #[trigger] n.entries@[i].0@
                != #[trigger] n.entries@[j].0@ by {
                if j == last {
                    assert(o.entries@[i].0@ == n.entries@[i].0@);
                } else {
                    assert(o.entries@[i].0@ != o.entries@[j].0@);
                }
            }
            assert forall|key: Seq<u8>| n.has(key) <==> (o.has(key) || key == k@) by {
                if n.has(key) {
                    let j = n.index_of(key);
                    if j < last {
                        assert(o.entries@[j].0@ == key);
                    }
                }
                if o.has(key) {
                    let j = o.index_of(key);
                    assert(n.entries@[j].0@ == key);
                }
                if key == k@ {
                    assert(n.entries@[last].0@ == key);
                }
            }
            assert forall|key: Seq<u8>| n.has(key) implies n.at(key) == (if key == k@ { v } else { o.at(key) }) by {
                let j = n.index_of(key);
                n.lemma_at(j);
                if j < last {
                    o.lemma_at(j);
                }
            }
            assert(n.map() =~= o.map().insert(k@, v));
        }
    }
}

} // verus!
