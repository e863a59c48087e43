//! A map from names to values.

use vstd::prelude::*;

use crate::text;

verus! {

/// Values found by name. No name occurs twice, and a later value replaces an earlier one.
pub struct NameMap<V> {
    names: Vec<String>,
    values: Vec<V>,
}

/// The files of an image, by path.
pub type Files = NameMap<Vec<u8>>;

impl<V: View> View for NameMap<V> {
    type V = Map<Seq<char>, V::V>;

    closed spec fn view(&self) -> Map<Seq<char>, V::V> {
        Map::new(
            |name: Seq<char>| exists|i: int| self.at(i, name),
            |name: Seq<char>| self.values@[choose|i: int| self.at(i, name)]@,
        )
    }
}

impl<V: View> NameMap<V> {
    spec fn at(self, i: int, name: Seq<char>) -> bool {
        0 <= i < self.names@.len() && self.names@[i]@ == name
    }

    /// Every name has one value, and no name occurs twice.
    pub closed spec fn wf(self) -> bool {
        &&& self.names@.len() == self.values@.len()
        &&& forall|i: int, j: int|
            0 <= i < j < self.names@.len() ==> self.names@[i]@ != self.names@[j]@
    }

    proof fn lemma_at(self, i: int, name: Seq<char>)
        requires
            self.wf(),
            self.at(i, name),
        ensures
            self@.contains_key(name),
            self@[name] == self.values@[i]@,
    {
        let k = choose|k: int| self.at(k, name);
        assert(self.at(k, name));
        assert(k == i) by {
            if k < i {
                assert(self.names@[k]@ != self.names@[i]@);
            } else if i < k {
                assert(self.names@[i]@ != self.names@[k]@);
            }
        }
    }

    /// A map without names.
    pub fn new() -> (r: Self)
        ensures
            r.wf(),
            r@ == Map::<Seq<char>, V::V>::empty(),
    {
        let r = NameMap { names: Vec::new(), values: Vec::new() };
        assert(r@ =~= Map::<Seq<char>, V::V>::empty());
        r
    }

    /// The place of a name, if it has one.
    fn position(&self, name: &str) -> (r: Option<usize>)
        requires
            self.wf(),
        ensures
            match r {
                Some(i) => self.at(i as int, name@),
                None => !self@.contains_key(name@),
            },
    {
        let mut i: usize = 0;
        while i < self.names.len()
            invariant
                i <= self.names.len(),
                forall|j: int| 0 <= j < i ==> self.names@[j]@ != name@,
            decreases self.names.len() - i,
        {
            if text::same_text(self.names[i].as_str(), name) {
                return Some(i);
            }
            i += 1;
        }
        None
    }

    /// The value under `name`.
    pub fn get(&self, name: &str) -> (r: Option<&V>)
        requires
            self.wf(),
        ensures
            match r {
                Some(v) => self@.contains_key(name@) && v@ == self@[name@],
                None => !self@.contains_key(name@),
            },
    {
        match self.position(name) {
            Some(i) => {
                proof {
                    self.lemma_at(i as int, name@);
                }
                Some(&self.values[i])
            },
            None => None,
        }
    }

    /// Sets the value under `name`.
    pub fn insert(&mut self, name: String, value: V)
        requires
            old(self).wf(),
        ensures
            final(self).wf(),
            final(self)@ == old(self)@.insert(name@, value@),
    {
        let ghost before = *self;
        let ghost key = name@;
        let ghost val = value@;
        match self.position(name.as_str()) {
            Some(i) => {
                self.values[i] = value;
                let ghost after = *self;
                proof {
                    assert(after.wf());
                    after.lemma_at(i as int, key);
                    assert forall|n: Seq<char>| #[trigger]
                        before@.contains_key(n) implies after@.contains_key(n) && (n != key
                        ==> after@[n] == before@[n]) by {
                        let k = choose|k: int| before.at(k, n);
                        before.lemma_at(k, n);
                        assert(after.at(k, n));
                        after.lemma_at(k, n);
                    }
                    assert forall|n: Seq<char>| #[trigger]
                        after@.contains_key(n) implies before@.contains_key(n) by {
                        let k = choose|k: int| after.at(k, n);
                        assert(before.at(k, n));
                    }
                    before.lemma_at(i as int, key);
                    assert(after@ =~= before@.insert(key, val));
                }
            },
            None => {
                self.names.push(name);
                self.values.push(value);
                let ghost after = *self;
                proof {
                    let last = before.names@.len() as int;
                    assert forall|i: int, j: int|
                        0 <= i < j < after.names@.len() implies after.names@[i]@
                        != after.names@[j]@ by {
                        if j == last {
                            assert(before.names@[i] == after.names@[i]);
                            if before.names@[i]@ == key {
                                assert(before.at(i, key));
                            }
                        } else {
                            assert(before.names@[i] == after.names@[i]);
                            assert(before.names@[j] == after.names@[j]);
                        }
                    }
                    assert(after.wf());
                    assert(after.at(last, key));
                    after.lemma_at(last, key);
                    assert forall|n: Seq<char>| #[trigger]
                        before@.contains_key(n) implies after@.contains_key(n) && (n != key
                        ==> after@[n] == before@[n]) by {
                        let k = choose|k: int| before.at(k, n);
                        before.lemma_at(k, n);
                        assert(after.names@[k] == before.names@[k]);
                        assert(after.at(k, n));
                        after.lemma_at(k, n);
                    }
                    assert forall|n: Seq<char>| #[trigger]
                        after@.contains_key(n) implies before@.contains_key(n) || n == key by {
                        let k = choose|k: int| after.at(k, n);
                        if k != last {
                            assert(after.names@[k] == before.names@[k]);
                            assert(before.at(k, n));
                        }
                    }
                    assert(after@ =~= before@.insert(key, val));
                }
            },
        }
    }

    /// Whether the map has no name.
    pub fn is_empty(&self) -> (r: bool)
        requires
            self.wf(),
        ensures
            r == (self@ == Map::<Seq<char>, V::V>::empty()),
    {
        let r = self.names.len() == 0;
        proof {
            if r {
                assert(self@ =~= Map::<Seq<char>, V::V>::empty());
            } else {
                assert(self.at(0, self.names@[0]@));
                self.lemma_at(0, self.names@[0]@);
            }
        }
        r
    }
}

} // verus!
