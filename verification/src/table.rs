//! A finite map keyed by text, held as a list in which no key occurs twice.
use vstd::prelude::*;

verus! {

/// One entry of a table.
pub struct Slot<V> {
    pub key: String,
    pub value: V,
}

/// A map from text keys to values. Entries keep the order in which their keys
/// first arrived.
pub struct Table<V> {
    slots: Vec<Slot<V>>,
}

/// The position of `key` among `slots`, where it occurs.
pub open spec fn position<V>(slots: Seq<Slot<V>>, key: Seq<char>) -> int {
    choose|i: int| 0 <= i < slots.len() && slots[i].key@ == key
}

/// Whether `key` occurs among `slots`.
pub open spec fn holds<V>(slots: Seq<Slot<V>>, key: Seq<char>) -> bool {
    exists|i: int| 0 <= i < slots.len() && #[trigger] slots[i].key@ == key
}

/// No key occurs twice.
pub open spec fn distinct_keys<V>(slots: Seq<Slot<V>>) -> bool {
    forall|i: int, j: int|
        0 <= i < j < slots.len() ==> #[trigger] slots[i].key@ != #[trigger] slots[j].key@
}

impl<V> Table<V> {
    #[verifier::type_invariant]
    spec fn wf(self) -> bool {
        distinct_keys(self.slots@)
    }

    /// The entries, in the order in which their keys first arrived.
    pub closed spec fn slots(&self) -> Seq<Slot<V>> {
        self.slots@
    }

    /// The map that the table stands for.
    pub open spec fn view(&self) -> Map<Seq<char>, V> {
        Map::new(
            |key: Seq<char>| holds(self.slots(), key),
            |key: Seq<char>| self.slots()[position(self.slots(), key)].value,
        )
    }

    /// An empty table.
    pub fn new() -> (t: Self)
        ensures
            t@ == Map::<Seq<char>, V>::empty(),
            t.slots().len() == 0,
    {
        let t = Table { slots: Vec::new() };
        assert(t@ =~= Map::<Seq<char>, V>::empty());
        t
    }

    /// The number of entries.
    pub fn len(&self) -> (n: usize)
        ensures
            n == self.slots().len(),
    {
        self.slots.len()
    }

    /// The entry at a position; `None` from `len` on.
    pub fn slot(&self, i: usize) -> (r: Option<&Slot<V>>)
        ensures
            match r {
                Some(s) => {
                    &&& i < self.slots().len()
                    &&& *s == self.slots()[i as int]
                    &&& self@.contains_key(s.key@)
                    &&& self@[s.key@] == s.value
                },
                None => i >= self.slots().len(),
            },
    {
        if i >= self.slots.len() {
            return None;
        }
        proof {
            use_type_invariant(self);
            assert(holds(self.slots(), self.slots()[i as int].key@));
        }
        Some(&self.slots[i])
    }

    fn find(&self, key: &str) -> (r: Option<usize>)
        ensures
            match r {
                Some(i) => i < self.slots().len() && self.slots()[i as int].key@ == key@,
                None => !holds(self.slots(), key@),
            },
    {
        let mut i: usize = 0;
        while i < self.slots.len()
            invariant
                i <= self.slots.len(),
                forall|j: int| 0 <= j < i ==> (#[trigger] self.slots@[j]).key@ != key@,
            decreases self.slots.len() - i,
        {
            if crate::text::same_text(self.slots[i].key.as_str(), key) {
                return Some(i);
            }
            i = i + 1;
        }
        None
    }

    /// The value held for a key.
    pub fn get(&self, key: &str) -> (r: Option<&V>)
        ensures
            match r {
                Some(v) => self@.contains_key(key@) && *v == self@[key@],
                None => !self@.contains_key(key@),
            },
    {
        proof {
            use_type_invariant(self);
        }
        match self.find(key) {
            Some(i) => {
                assert(holds(self.slots(), key@));
                Some(&self.slots[i].value)
            },
            None => None,
        }
    }

    /// Sets the value held for a key, replacing what was held for it.
    pub fn insert(&mut self, key: String, value: V)
        ensures
            final(self)@ == old(self)@.insert(key@, value),
    {
        proof {
            use_type_invariant(&*self);
        }
        let ghost before = self.slots@;
        let ghost k = key@;
        let found = self.find(key.as_str());
        let mut slots: Vec<Slot<V>> = Vec::new();
        core::mem::swap(&mut self.slots, &mut slots);
        match found {
            Some(i) => {
                slots.set(i, Slot { key, value });
                core::mem::swap(&mut self.slots, &mut slots);
                proof {
                    let after = self.slots@;
                    assert forall|key2: Seq<char>| holds(after, key2) <==> holds(
                        before,
                        key2,
                    ) by {
                        if holds(after, key2) {
                            let j = choose|j: int| 0 <= j < after.len() && after[j].key@ == key2;
                            assert(before[j].key@ == key2);
                        }
                        if holds(before, key2) {
                            let j = choose|j: int| 0 <= j < before.len() && before[j].key@ == key2;
                            assert(after[j].key@ == key2);
                        }
                    }
                    assert(holds(before, k)) by {
                        assert(before[i as int].key@ == k);
                    }
                    assert forall|key2: Seq<char>| holds(after, key2) implies after[position(
                        after,
                        key2,
                    )].value == (if key2 == k {
                        value
                    } else {
                        before[position(before, key2)].value
                    }) by {
                        let p = position(after, key2);
                        let q = position(before, key2);
                        assert(after[q].key@ == key2);
                        assert(p == q);
                    }
                    assert(self@ =~= old(self)@.insert(k, value));
                }
            },
            None => {
                slots.push(Slot { key, value });
                core::mem::swap(&mut self.slots, &mut slots);
                proof {
                    let after = self.slots@;
                    let n = before.len() as int;
                    assert forall|key2: Seq<char>| holds(after, key2) <==> (key2 == k || holds(
                        before,
                        key2,
                    )) by {
                        if holds(after, key2) {
                            let j = choose|j: int| 0 <= j < after.len() && after[j].key@ == key2;
                            if j < n {
                                assert(before[j].key@ == key2);
                            }
                        }
                        if holds(before, key2) {
                            let j = choose|j: int| 0 <= j < before.len() && before[j].key@ == key2;
                            assert(after[j].key@ == key2);
                        }
                        if key2 == k {
                            assert(after[n].key@ == key2);
                        }
                    }
                    assert forall|key2: Seq<char>| holds(after, key2) implies after[position(
                        after,
                        key2,
                    )].value == (if key2 == k {
                        value
                    } else {
                        before[position(before, key2)].value
                    }) by {
                        let p = position(after, key2);
                        if key2 == k {
                            if p < n {
                                assert(before[p].key@ == k);
                            }
                        } else {
                            assert(before[p].key@ == key2);
                            let q = position(before, key2);
                            assert(after[q].key@ == key2);
                            assert(p == q);
                        }
                    }
                    assert(self@ =~= old(self)@.insert(k, value));
                }
            },
        }
    }
}

} // verus!
