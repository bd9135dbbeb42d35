use crate::error::RrError;
use crate::types::bytes_eq;
use vstd::prelude::*;

verus! {

/// What a key-value store holds: for each key that it has, the value.
pub type Store = Map<Seq<u8>, Seq<u8>>;

/// A key-value store, or a transaction on one, as the commands see it.
/// The commands are written against this trait, so that they run the same
/// on whatever keeps the records.
pub trait WrapDb {
    /// What the store holds.
    spec fn view(&self) -> Store;

    /// What the store needs of itself to work.
    spec fn wf(&self) -> bool;

    /// Whether no call on this store ever fails.
    spec fn reliable(&self) -> bool;

    /// The value under `key`, if the store has the key.
    fn get(&self, key: &[u8]) -> (r: Result<Option<Vec<u8>>, RrError>)
        requires
            self.wf(),
        ensures
            match r {
                Ok(Some(v)) => self@.contains_key(key@) && self@[key@] == v@,
                Ok(None) => !self@.contains_key(key@),
                Err(e) => !self.reliable() && e is Other,
            },
    ;

    /// Puts `value` under `key`, in place of what was there.
    fn put(&mut self, key: &[u8], value: &[u8]) -> (r: Result<(), RrError>)
        requires
            old(self).wf(),
        ensures
            final(self).wf(),
            final(self).reliable() == old(self).reliable(),
            match r {
                Ok(_) => final(self)@ == old(self)@.insert(key@, value@),
                Err(e) => !old(self).reliable() && e is Other,
            },
    ;

    /// Takes `key` and its value out of the store.
    fn delete(&mut self, key: &[u8]) -> (r: Result<(), RrError>)
        requires
            old(self).wf(),
        ensures
            final(self).wf(),
            final(self).reliable() == old(self).reliable(),
            match r {
                Ok(_) => final(self)@ == old(self)@.remove(key@),
                Err(e) => !old(self).reliable() && e is Other,
            },
    ;

    /// Whether the store has `key`.
    fn exist(&self, key: &[u8]) -> (r: Result<bool, RrError>)
        requires
            self.wf(),
        ensures
            match r {
                Ok(b) => b == self@.contains_key(key@),
                Err(e) => !self.reliable() && e is Other,
            },
    ;
}

/// A store in memory: the keys, each once, and beside each its value.
pub struct MemDb {
    keys: Vec<Vec<u8>>,
    values: Vec<Vec<u8>>,
}

impl MemDb {
    /// Each key stands once and has its value beside it.
    pub closed spec fn spec_wf(&self) -> bool {
        &&& self.keys@.len() == self.values@.len()
        &&& forall|i: int, j: int|
            0 <= i < j < self.keys@.len() ==> (#[trigger] self.keys@[i])@ != (
            #[trigger] self.keys@[j])@
    }

    /// Whether the store has `k`.
    pub closed spec fn has(&self, k: Seq<u8>) -> bool {
        exists|i: int| 0 <= i < self.keys@.len() && (#[trigger] self.keys@[i])@ == k
    }

    /// What the store holds.
    pub closed spec fn spec_map(&self) -> Store {
        Map::new(
            |k: Seq<u8>| self.has(k),
            |k: Seq<u8>|
                self.values@[choose|i: int|
                    0 <= i < self.keys@.len() && (#[trigger] self.keys@[i])@ == k]@,
        )
    }

    /// The store holds key `i` with the value beside it.
    proof fn lemma_at(&self, i: int)
        requires
            self.spec_wf(),
            0 <= i < self.keys@.len(),
        ensures
            self.has(self.keys@[i]@),
            self.spec_map().contains_key(self.keys@[i]@),
            self.spec_map()[self.keys@[i]@] == self.values@[i]@,
    {
        let k = self.keys@[i]@;
        let c = choose|j: int| 0 <= j < self.keys@.len() && (#[trigger] self.keys@[j])@ == k;
        if c < i {
            assert(self.keys@[c]@ != self.keys@[i]@);
        } else if c > i {
            assert(self.keys@[i]@ != self.keys@[c]@);
        }
    }

    /// The empty store.
    pub fn new() -> (r: Self)
        ensures
            r.wf(),
            r@ == Map::<Seq<u8>, Seq<u8>>::empty(),
    {
        let r = MemDb { keys: Vec::new(), values: Vec::new() };
        assert(r.spec_map() =~= Map::<Seq<u8>, Seq<u8>>::empty());
        r
    }

    /// Where `key` stands among the keys, if the store has it.
    fn find(&self, key: &[u8]) -> (r: Option<usize>)
        requires
            self.spec_wf(),
        ensures
            match r {
                Some(i) => i < self.keys@.len() && self.keys@[i as int]@ == key@,
                None => !self.has(key@),
            },
    {
        let mut i: usize = 0;
        while i < self.keys.len()
            invariant
                i <= self.keys@.len(),
                forall|j: int| 0 <= j < i ==> (#[trigger] self.keys@[j])@ != key@,
            decreases self.keys@.len() - i,
        {
            if bytes_eq(self.keys[i].as_slice(), key) {
                return Some(i);
            }
            i += 1;
        }
        None
    }
}

impl WrapDb for MemDb {
    closed spec fn view(&self) -> Store {
        self.spec_map()
    }

    closed spec fn wf(&self) -> bool {
        self.spec_wf()
    }

    /// A store in memory never fails.
    open spec fn reliable(&self) -> bool {
        true
    }

    fn get(&self, key: &[u8]) -> (r: Result<Option<Vec<u8>>, RrError>) {
        match self.find(key) {
            Some(i) => {
                proof {
                    self.lemma_at(i as int);
                }
                Ok(Some(vstd::slice::slice_to_vec(self.values[i].as_slice())))
            },
            None => Ok(None),
        }
    }

    fn put(&mut self, key: &[u8], value: &[u8]) -> (r: Result<(), RrError>) {
        let v: Vec<u8> = vstd::slice::slice_to_vec(value);
        match self.find(key) {
            Some(i) => {
                self.values.set(i, v);
                proof {
                    assert forall|k: Seq<u8>| self.has(k) == old(self).has(k) by {
                        if self.has(k) {
                            let j = choose|j: int|
                                0 <= j < self.keys@.len() && (#[trigger] self.keys@[j])@ == k;
                            assert(old(self).keys@[j]@ == k);
                        }
                        if old(self).has(k) {
                            let j = choose|j: int|
                                0 <= j < old(self).keys@.len() && (#[trigger] old(self).keys@[j])@
                                    == k;
                            assert(self.keys@[j]@ == k);
                        }
                    }
                    old(self).lemma_at(i as int);
                    assert forall|k: Seq<u8>| self.has(k) implies #[trigger] self.spec_map()[k]
                        == old(self).spec_map().insert(key@, value@)[k] by {
                        let j = choose|j: int|
                            0 <= j < self.keys@.len() && (#[trigger] self.keys@[j])@ == k;
                        self.lemma_at(j);
                        old(self).lemma_at(j);
                    }
                    assert(self.spec_map() =~= old(self).spec_map().insert(key@, value@));
                }
            },
            None => {
                self.keys.push(vstd::slice::slice_to_vec(key));
                self.values.push(v);
                proof {
                    let n = old(self).keys@.len() as int;
                    assert forall|i: int, j: int| 0 <= i < j < self.keys@.len() implies (
                    #[trigger] self.keys@[i])@ != (#[trigger] self.keys@[j])@ by {
                        if j == n {
                            assert(old(self).keys@[i]@ == self.keys@[i]@);
                            assert(!old(self).has(key@));
                        } else {
                            assert(old(self).keys@[i]@ == self.keys@[i]@);
                            assert(old(self).keys@[j]@ == self.keys@[j]@);
                        }
                    }
                    assert forall|k: Seq<u8>| self.has(k) == (old(self).has(k) || k == key@) by {
                        if self.has(k) {
                            let j = choose|j: int|
                                0 <= j < self.keys@.len() && (#[trigger] self.keys@[j])@ == k;
                            if j < n {
                                assert(old(self).keys@[j]@ == k);
                            }
                        }
                        if old(self).has(k) {
                            let j = choose|j: int|
                                0 <= j < old(self).keys@.len() && (#[trigger] old(self).keys@[j])@
                                    == k;
                            assert(self.keys@[j]@ == k);
                        }
                        if k == key@ {
                            assert(self.keys@[n]@ == k);
                        }
                    }
                    assert forall|k: Seq<u8>| self.has(k) implies #[trigger] self.spec_map()[k]
                        == old(self).spec_map().insert(key@, value@)[k] by {
                        let j = choose|j: int|
                            0 <= j < self.keys@.len() && (#[trigger] self.keys@[j])@ == k;
                        self.lemma_at(j);
                        if j < n {
                            assert(old(self).keys@[j]@ == k);
                            old(self).lemma_at(j);
                        }
                    }
                    assert(self.spec_map() =~= old(self).spec_map().insert(key@, value@));
                }
            },
        }
        Ok(())
    }

    fn delete(&mut self, key: &[u8]) -> (r: Result<(), RrError>) {
        match self.find(key) {
            Some(i) => {
                self.keys.remove(i);
                self.values.remove(i);
                proof {
                    let n = old(self).keys@.len() as int;
                    let ii = i as int;
                    assert forall|a: int| 0 <= a < self.keys@.len() implies (
                    #[trigger] self.keys@[a]) == old(self).keys@[if a < ii {
                        a
                    } else {
                        a + 1
                    }] by {}
                    assert forall|a: int, b: int| 0 <= a < b < self.keys@.len() implies (
                    #[trigger] self.keys@[a])@ != (#[trigger] self.keys@[b])@ by {
                        let a2 = if a < ii { a } else { a + 1 };
                        let b2 = if b < ii { b } else { b + 1 };
                        assert(old(self).keys@[a2]@ != old(self).keys@[b2]@);
                    }
                    assert forall|k: Seq<u8>| self.has(k) == (old(self).has(k) && k != key@) by {
                        if self.has(k) {
                            let j = choose|j: int|
                                0 <= j < self.keys@.len() && (#[trigger] self.keys@[j])@ == k;
                            let j2 = if j < ii { j } else { j + 1 };
                            assert(old(self).keys@[j2]@ == k);
                            if j2 < ii {
                                assert(old(self).keys@[j2]@ != old(self).keys@[ii]@);
                            } else {
                                assert(old(self).keys@[ii]@ != old(self).keys@[j2]@);
                            }
                        }
                        if old(self).has(k) && k != key@ {
                            let j = choose|j: int|
                                0 <= j < old(self).keys@.len() && (#[trigger] old(self).keys@[j])@
                                    == k;
                            let j2 = if j < ii { j } else { j - 1 };
                            assert(self.keys@[j2]@ == k);
                        }
                    }
                    assert forall|k: Seq<u8>| self.has(k) implies #[trigger] self.spec_map()[k]
                        == old(self).spec_map().remove(key@)[k] by {
                        let j = choose|j: int|
                            0 <= j < self.keys@.len() && (#[trigger] self.keys@[j])@ == k;
                        let j2 = if j < ii { j } else { j + 1 };
                        self.lemma_at(j);
                        old(self).lemma_at(j2);
                    }
                    assert(self.spec_map() =~= old(self).spec_map().remove(key@));
                }
            },
            None => {
                assert(self.spec_map() =~= old(self).spec_map().remove(key@));
            },
        }
        Ok(())
    }

    fn exist(&self, key: &[u8]) -> (r: Result<bool, RrError>) {
        match self.find(key) {
            Some(i) => {
                proof {
                    self.lemma_at(i as int);
                }
                Ok(true)
            },
            None => Ok(false),
        }
    }
}

} // verus!
