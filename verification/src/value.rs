use vstd::prelude::*;

use crate::number::Float;

verus! {

/// A generic value tree for the configuration format: every shape a parsed
/// document can take. The floating shape carries the scanner's exact
/// digit-level parts rather than a machine double.
#[derive(Debug, PartialEq, Eq)]
pub enum Value {
    Null,
    Bool(bool),
    I64(i64),
    U64(u64),
    F64(Float),
    Str(String),
    Array(Vec<Value>),
    Object(ValueMap),
}

/// Whether some entry of `pairs` holds the key `k`.
pub open spec fn has_key_in(pairs: Seq<(String, Value)>, k: Seq<char>) -> bool {
    exists|i: int| 0 <= i < pairs.len() && #[trigger] pairs[i].0@ == k
}

/// The index of the entry holding `k`; meaningful when the keys are unique
/// and `k` is present.
pub open spec fn key_at(pairs: Seq<(String, Value)>, k: Seq<char>) -> int {
    choose|i: int| 0 <= i < pairs.len() && #[trigger] pairs[i].0@ == k
}

/// The entries after inserting `v` under `k`: an existing entry keeps its
/// place and its key and only its value changes; a new key goes to the
/// back.
pub open spec fn inserted(pairs: Seq<(String, Value)>, k: String, v: Value) -> Seq<
    (String, Value),
> {
    if has_key_in(pairs, k@) {
        let i = key_at(pairs, k@);
        pairs.update(i, (pairs[i].0, v))
    } else {
        pairs.push((k, v))
    }
}

/// A map from string keys to values that keeps insertion order and holds
/// each key at most once — the shape a parsed object takes.
#[derive(Debug, PartialEq, Eq)]
pub struct ValueMap {
    entries: Vec<(String, Value)>,
}

impl ValueMap {
    /// The entries in insertion order.
    pub closed spec fn pairs(self) -> Seq<(String, Value)> {
        self.entries@
    }

    /// Whether some entry holds the key `k`.
    pub open spec fn has_key(self, k: Seq<char>) -> bool {
        has_key_in(self.pairs(), k)
    }

    /// Each key occurs at most once.
    pub open spec fn wf(self) -> bool {
        forall|i: int, j: int|
            #![trigger self.pairs()[i], self.pairs()[j]]
            0 <= i < j < self.pairs().len() ==> self.pairs()[i].0@ != self.pairs()[j].0@
    }

    /// An empty map.
    pub fn new() -> (r: ValueMap)
        ensures
            r.wf(),
            r.pairs() == Seq::<(String, Value)>::empty(),
    {
        ValueMap { entries: Vec::new() }
    }

    /// How many entries the map holds.
    pub fn len(&self) -> (r: usize)
        ensures
            r == self.pairs().len(),
    {
        self.entries.len()
    }

    /// Insert `v` under `k`: an entry already holding `k` keeps its place
    /// and its key and gives back its old value; otherwise the new entry
    /// goes to the back.
    pub fn insert(&mut self, k: String, v: Value) -> (r: Option<Value>)
        requires
            old(self).wf(),
        ensures
            final(self).wf(),
            final(self).pairs() == inserted(old(self).pairs(), k, v),
            old(self).has_key(k@) ==> r == Some(
                old(self).pairs()[key_at(old(self).pairs(), k@)].1,
            ),
            !old(self).has_key(k@) ==> r is None,
    {
        let ghost pairs0 = self.entries@;
        proof {
            assert forall|a: int, b: int|
                #![trigger pairs0[a], pairs0[b]]
                0 <= a < b < pairs0.len() implies pairs0[a].0@ != pairs0[b].0@ by {
                assert(pairs0[a] == old(self).pairs()[a]);
                assert(pairs0[b] == old(self).pairs()[b]);
            }
        }
        let mut i: usize = 0;
        while i < self.entries.len()
            invariant
                self.entries@ == pairs0,
                old(self).pairs() == pairs0,
                i <= pairs0.len(),
                forall|j: int| 0 <= j < i ==> #[trigger] pairs0[j].0@ != k@,
                forall|a: int, b: int|
                    #![trigger pairs0[a], pairs0[b]]
                    0 <= a < b < pairs0.len() ==> pairs0[a].0@ != pairs0[b].0@,
            decreases pairs0.len() - i,
        {
            if self.entries[i].0 == k {
                proof {
                    assert(pairs0[i as int].0@ == k@);
                    assert(has_key_in(pairs0, k@));
                    let ci = key_at(pairs0, k@);
                    assert(pairs0[ci].0@ == k@);
                    if ci < i {
                        assert(pairs0[ci].0@ != pairs0[i as int].0@);
                    } else if ci > i {
                        assert(pairs0[i as int].0@ != pairs0[ci].0@);
                    }
                    assert(ci == i);
                }
                let (key, prev) = self.entries.remove(i);
                self.entries.insert(i, (key, v));
                proof {
                    let np = self.entries@;
                    assert(np =~= pairs0.update(i as int, (pairs0[i as int].0, v)));
                    assert forall|a: int, b: int|
                        #![trigger np[a], np[b]]
                        0 <= a < b < np.len() implies np[a].0@ != np[b].0@ by {
                        assert(np[a].0 == pairs0[a].0);
                        assert(np[b].0 == pairs0[b].0);
                        assert(pairs0[a].0@ != pairs0[b].0@);
                    }
                }
                return Some(prev);
            }
            i = i + 1;
        }
        self.entries.push((k, v));
        proof {
            let np = self.entries@;
            assert(np == pairs0.push((k, v)));
            assert(!has_key_in(pairs0, k@));
            assert forall|a: int, b: int|
                #![trigger np[a], np[b]]
                0 <= a < b < np.len() implies np[a].0@ != np[b].0@ by {
                if b == pairs0.len() {
                    assert(np[b] == (k, v));
                    assert(np[a] == pairs0[a]);
                    assert(pairs0[a].0@ != k@);
                } else {
                    assert(np[a] == pairs0[a]);
                    assert(np[b] == pairs0[b]);
                }
            }
        }
        return None;
    }

    /// The value stored under `k`, if any.
    pub fn get(&self, k: &String) -> (r: Option<&Value>)
        requires
            self.wf(),
        ensures
            self.has_key(k@) ==> r == Some(&self.pairs()[key_at(self.pairs(), k@)].1),
            !self.has_key(k@) ==> r is None,
    {
        let mut i: usize = 0;
        while i < self.entries.len()
            invariant
                self.wf(),
                i <= self.pairs().len(),
                forall|j: int| 0 <= j < i ==> #[trigger] self.pairs()[j].0@ != k@,
            decreases self.pairs().len() - i,
        {
            if self.entries[i].0 == *k {
                proof {
                    assert(self.pairs()[i as int].0@ == k@);
                    assert(has_key_in(self.pairs(), k@));
                    let ci = key_at(self.pairs(), k@);
                    assert(self.pairs()[ci].0@ == k@);
                    if ci < i {
                        assert(self.pairs()[ci].0@ != self.pairs()[i as int].0@);
                    } else if ci > i {
                        assert(self.pairs()[i as int].0@ != self.pairs()[ci].0@);
                    }
                    assert(ci == i);
                }
                return Some(&self.entries[i].1);
            }
            i = i + 1;
        }
        return None;
    }
}

} // verus!
