use vstd::prelude::*;

use crate::value::Value;
use crate::value::ValueModel;
use crate::value::value_model;

verus! {

/// The key-to-value table shared by every connection. It is kept as an
/// association list with pairwise-distinct keys, and contracts see it as a
/// `Map` from key bytes to value models.
pub struct Store {
    entries: Vec<(Vec<u8>, Value)>,
}

/// The map an association list stands for; a later entry would win.
pub open spec fn entries_map(s: Seq<(Vec<u8>, Value)>) -> Map<Seq<u8>, ValueModel>
    decreases s.len(),
{
    if s.len() == 0 {
        Map::empty()
    } else {
        entries_map(s.drop_last()).insert(s.last().0@, value_model(s.last().1))
    }
}

pub open spec fn keys_distinct(s: Seq<(Vec<u8>, Value)>) -> bool {
    forall|i: int, j: int| 0 <= i < j < s.len()
        ==> (#[trigger] s[i]).0@ != (#[trigger] s[j]).0@
}

/// A key is in the map exactly when some entry carries it.
proof fn lemma_entries_map_contains(s: Seq<(Vec<u8>, Value)>, k: Seq<u8>)
    ensures
        entries_map(s).dom().contains(k) <==> exists|i: int|
            0 <= i < s.len() && (#[trigger] s[i]).0@ == k,
    decreases s.len(),
{
    if s.len() > 0 {
        lemma_entries_map_contains(s.drop_last(), k);
        if s.last().0@ == k {
            assert(s[s.len() - 1].0@ == k);
        } else if entries_map(s).dom().contains(k) {
            let i = choose|i: int| 0 <= i < s.drop_last().len()
                && (#[trigger] s.drop_last()[i]).0@ == k;
            assert(s[i].0@ == k);
        } else {
            if exists|i: int| 0 <= i < s.len() && (#[trigger] s[i]).0@ == k {
                let i = choose|i: int| 0 <= i < s.len() && (#[trigger] s[i]).0@ == k;
                assert(s.drop_last()[i].0@ == k);
                assert(false);
            }
        }
    }
}

/// With distinct keys, the entry holding a key gives its mapped value.
proof fn lemma_entries_map_at(s: Seq<(Vec<u8>, Value)>, i: int)
    requires
        keys_distinct(s),
        0 <= i < s.len(),
    ensures
        entries_map(s).dom().contains(s[i].0@),
        entries_map(s)[s[i].0@] == value_model(s[i].1),
    decreases s.len(),
{
    if i == s.len() - 1 {
    } else {
        assert(keys_distinct(s.drop_last()));
        assert(s.drop_last()[i] == s[i]);
        lemma_entries_map_at(s.drop_last(), i);
        assert(s[i].0@ != s.last().0@);
    }
}

/// Appending an entry inserts its pair into the map.
proof fn lemma_entries_map_push(s: Seq<(Vec<u8>, Value)>, e: (Vec<u8>, Value))
    ensures
        entries_map(s.push(e)) == entries_map(s).insert(e.0@, value_model(e.1)),
{
    assert(s.push(e).drop_last() =~= s);
    assert(s.push(e).last() == e);
}

/// Dropping the entry that holds a key removes that key from the map.
proof fn lemma_entries_map_remove(s: Seq<(Vec<u8>, Value)>, i: int)
    requires
        keys_distinct(s),
        0 <= i < s.len(),
    ensures
        entries_map(s.remove(i)) == entries_map(s).remove(s[i].0@),
    decreases s.len(),
{
    let k = s[i].0@;
    if i == s.len() - 1 {
        assert(s.remove(i) =~= s.drop_last());
        assert(keys_distinct(s.drop_last()));
        lemma_entries_map_contains(s.drop_last(), k);
        if entries_map(s.drop_last()).dom().contains(k) {
            let j = choose|j: int| 0 <= j < s.drop_last().len()
                && (#[trigger] s.drop_last()[j]).0@ == k;
            assert(s[j].0@ == s[i].0@);
            assert(false);
        }
        assert(entries_map(s.drop_last()).insert(k, value_model(s.last().1)).remove(k)
            =~= entries_map(s.drop_last()));
    } else {
        assert(s.remove(i).drop_last() =~= s.drop_last().remove(i));
        assert(s.remove(i).last() == s.last());
        assert(keys_distinct(s.drop_last()));
        assert(s.drop_last()[i] == s[i]);
        lemma_entries_map_remove(s.drop_last(), i);
        assert(k != s.last().0@);
        assert(entries_map(s.drop_last()).remove(k).insert(s.last().0@,
            value_model(s.last().1)) =~= entries_map(s.drop_last()).insert(s.last().0@,
            value_model(s.last().1)).remove(k));
    }
}

impl View for Store {
    type V = Map<Seq<u8>, ValueModel>;

    closed spec fn view(&self) -> Map<Seq<u8>, ValueModel> {
        entries_map(self.entries@)
    }
}

impl Store {
    /// Every key appears in at most one entry. Constructors establish
    /// this and every method preserves it.
    pub closed spec fn wf(self) -> bool {
        keys_distinct(self.entries@)
    }

    /// An empty table.
    pub fn new() -> (s: Store)
        ensures
            s@ == Map::<Seq<u8>, ValueModel>::empty(),
            s.wf(),
    {
        Store { entries: Vec::new() }
    }

    /// The index of the entry holding `key`, if one does.
    fn find(&self, key: &[u8]) -> (r: Option<usize>)
        ensures
            match r {
                Some(i) => i < self.entries@.len() && self.entries@[i as int].0@ == key@,
                None => forall|j: int| 0 <= j < self.entries@.len()
                    ==> (#[trigger] self.entries@[j]).0@ != key@,
            },
    {
        let mut i: usize = 0;
        let n = self.entries.len();
        while i < n
            invariant
                i <= n,
                n == self.entries@.len(),
                forall|j: int| 0 <= j < i ==> (#[trigger] self.entries@[j]).0@ != key@,
            decreases n - i,
        {
            if crate::value::bytes_eq(self.entries[i].0.as_slice(), key) {
                return Some(i);
            }
            i = i + 1;
        }
        None
    }

    /// The value stored under `key`, if any, as a fresh copy.
    pub fn get(&self, key: &[u8]) -> (r: Option<Value>)
        requires
            self.wf(),
        ensures
            match r {
                Some(v) => self@.dom().contains(key@) && value_model(v) == self@[key@],
                None => !self@.dom().contains(key@),
            },
    {
        match self.find(key) {
            Some(i) => {
                proof {
                    lemma_entries_map_at(self.entries@, i as int);
                }
                Some(self.entries[i].1.duplicate())
            },
            None => {
                proof {
                    lemma_entries_map_contains(self.entries@, key@);
                }
                None
            },
        }
    }

    /// Stores `val` under `key`, replacing any earlier value.
    pub fn set(&mut self, key: Vec<u8>, val: Value)
        requires
            old(self).wf(),
        ensures
            final(self)@ == old(self)@.insert(key@, value_model(val)),
            final(self).wf(),
    {
        let ghost m0 = self@;
        match self.find(key.as_slice()) {
            Some(i) => {
                proof {
                    lemma_entries_map_remove(self.entries@, i as int);
                    let t = self.entries@.remove(i as int);
                    assert forall|a: int, b: int| 0 <= a < b < t.len() implies (
                        #[trigger] t[a]).0@ != (#[trigger] t[b]).0@ by {
                        if b < i {
                        } else if a < i <= b {
                            assert(t[b] == self.entries@[b + 1]);
                        } else {
                            assert(t[a] == self.entries@[a + 1]);
                            assert(t[b] == self.entries@[b + 1]);
                        }
                    }
                    assert forall|j: int| 0 <= j < t.len() implies (#[trigger] t[j]).0@
                        != key@ by {
                        if j < i {
                        } else {
                            assert(t[j] == self.entries@[j + 1]);
                        }
                    }
                }
                self.entries.remove(i);
                proof {
                    lemma_entries_map_contains(self.entries@, key@);
                    lemma_entries_map_push(self.entries@, (key, val));
                }
                self.entries.push((key, val));
                proof {
                    assert(m0.remove(key@).insert(key@, value_model(val))
                        =~= m0.insert(key@, value_model(val)));
                }
            },
            None => {
                proof {
                    lemma_entries_map_push(self.entries@, (key, val));
                }
                self.entries.push((key, val));
            },
        }
    }

    /// Removes `key`; reports whether it was present.
    pub fn remove(&mut self, key: &[u8]) -> (r: bool)
        requires
            old(self).wf(),
        ensures
            r == old(self)@.dom().contains(key@),
            final(self)@ == old(self)@.remove(key@),
            final(self).wf(),
    {
        proof {
            lemma_entries_map_contains(self.entries@, key@);
        }
        match self.find(key) {
            Some(i) => {
                proof {
                    lemma_entries_map_remove(self.entries@, i as int);
                    let t = self.entries@.remove(i as int);
                    assert forall|a: int, b: int| 0 <= a < b < t.len() implies (
                        #[trigger] t[a]).0@ != (#[trigger] t[b]).0@ by {
                        if b < i {
                        } else if a < i <= b {
                            assert(t[b] == self.entries@[b + 1]);
                        } else {
                            assert(t[a] == self.entries@[a + 1]);
                            assert(t[b] == self.entries@[b + 1]);
                        }
                    }
                }
                self.entries.remove(i);
                true
            },
            None => {
                proof {
                    assert(self@.remove(key@) =~= self@);
                }
                false
            },
        }
    }
}

} // verus!
