use crate::chain::{
    Chain, chain_ok, fresh_head, head_at, lemma_list_is, lemma_list_start, lemma_pop_values,
    lemma_push_values, link_ok, list_chain_or_empty, list_head, list_ok, node_index, values_before,
};
use crate::frame::{
    keys_gone, lemma_cleared_gone, lemma_cleared_outside, lemma_same_outside_more,
    lemma_same_outside_self, list_keys, same_outside,
};
use crate::removal::lemma_rem_parts;
use crate::error::RrError;
use crate::list::RedisList;
use crate::quick_list::QuickList;
use crate::redis_rocksdb::RedisRocksdb;
use crate::types::LenType;
use crate::wrap_db::{Store, WrapDb};
use vstd::prelude::*;

verus! {

/// What a command has left as it was outside the keys of the list, before
/// or after, it has left as it was outside the keys of the list before and
/// after.
proof fn lemma_frame(m: Store, m2: Store, list_key: Seq<u8>, before: bool)
    requires
        same_outside(
            m,
            m2,
            if before {
                list_keys(m, list_key)
            } else {
                list_keys(m2, list_key)
            },
        ),
    ensures
        same_outside(m, m2, list_keys(m, list_key).union(list_keys(m2, list_key))),
{
    lemma_same_outside_more(
        m,
        m2,
        if before {
            list_keys(m, list_key)
        } else {
            list_keys(m2, list_key)
        },
        list_keys(m, list_key).union(list_keys(m2, list_key)),
    );
}

impl<T: WrapDb> RedisRocksdb<T> {
    /// Reads the head record of the list under `key`, or makes the one
    /// that the list starts from where the store has none and `start`
    /// says so.
    fn head(&self, key: &[u8], start: bool) -> (r: Result<Option<QuickList>, RrError>)
        requires
            self.db.wf(),
        ensures
            r is Err && !(r->Err_0 is Message) ==> !self.db.reliable(),
            r matches Ok(None) ==> !self.db@.contains_key(key@) && !start,
            r is Err && r->Err_0 is Message ==> head_at(self.db@, key@) is None,
            r matches Ok(Some(q)) ==> if self.db@.contains_key(key@) {
                head_at(self.db@, key@) == Some(q@)
            } else {
                start && q@ == fresh_head(key@)
            },
            self.db@.contains_key(key@) && self.db@[key@].len() != 40 ==> r is Err,
            list_ok(self.db@, key@) ==> match r {
                Ok(Some(q)) => {
                    &&& q@ == list_head(self.db@, key@)
                    &&& chain_ok(self.db@, key@, q@, list_chain_or_empty(self.db@, key@))
                    &&& self.db@.contains_key(key@) || start
                    &&& self.db@.contains_key(key@) ==> head_at(self.db@, key@) == Some(q@)
                },
                Ok(None) => true,
                Err(e) => !(e is Message),
            },
    {
        proof {
            if list_ok(self.db@, key@) {
                lemma_list_start(self.db@, key@);
            }
        }
        match QuickList::get(&self.db, key) {
            Err(e) => Err(e),
            Ok(Some(q)) => {
                proof {
                    q.lemma_len();
                }
                Ok(Some(q))
            },
            Ok(None) => {
                if start {
                    let mut q = QuickList::new();
                    q.init_meta_key(key);
                    Ok(Some(q))
                } else {
                    Ok(None)
                }
            },
        }
    }
}

impl<T: WrapDb> RedisList for RedisRocksdb<T> {
    open spec fn store(&self) -> Store {
        self.db@
    }

    open spec fn wf(&self) -> bool {
        self.db.wf()
    }

    open spec fn reliable(&self) -> bool {
        self.db.reliable()
    }

    fn lindex(&self, key: &[u8], index: i32) -> (r: Result<Vec<u8>, RrError>) {
        let ghost c = list_chain_or_empty(self.db@, key@);
        match self.head(key, false) {
            Err(e) => Err(e),
            Ok(None) => Err(RrError::not_find("key of list")),
            Ok(Some(t)) => t.index(&self.db, index, Ghost(key@), Ghost(c)),
        }
    }

    fn linsert_before(&mut self, key: &[u8], pivot: &[u8], value: &[u8]) -> (r: Result<
        i32,
        RrError,
    >) {
        let ghost c = list_chain_or_empty(self.db@, key@);
        match self.head(key, false) {
            Err(e) => Err(e),
            Ok(None) => {
                proof {
                    lemma_same_outside_self(self.db@, list_keys(self.db@, key@));
                    lemma_frame(self.db@, self.db@, key@, true);
                }
                Ok(0)
            },
            Ok(Some(q)) => {
                let ghost m = self.db@;
                let mut quick = q;
                let r = quick.list_insert(&mut self.db, key, pivot, value, true, Ghost(c));
                proof {
                    if list_ok(m, key@) && !(r is Err && !(r->Err_0 is Message)) {
                        if self.db@ == m {
                            lemma_same_outside_self(m, list_keys(m, key@));
                        }
                        lemma_frame(m, self.db@, key@, true);
                    }
                }
                r
            },
        }
    }

    fn linsert_after(&mut self, key: &[u8], pivot: &[u8], value: &[u8]) -> (r: Result<
        i32,
        RrError,
    >) {
        let ghost c = list_chain_or_empty(self.db@, key@);
        match self.head(key, false) {
            Err(e) => Err(e),
            Ok(None) => {
                proof {
                    lemma_same_outside_self(self.db@, list_keys(self.db@, key@));
                    lemma_frame(self.db@, self.db@, key@, true);
                }
                Ok(0)
            },
            Ok(Some(q)) => {
                let ghost m = self.db@;
                let mut quick = q;
                let r = quick.list_insert(&mut self.db, key, pivot, value, false, Ghost(c));
                proof {
                    if list_ok(m, key@) && !(r is Err && !(r->Err_0 is Message)) {
                        if self.db@ == m {
                            lemma_same_outside_self(m, list_keys(m, key@));
                        }
                        lemma_frame(m, self.db@, key@, true);
                    }
                }
                r
            },
        }
    }

    fn llen(&self, key: &[u8]) -> (r: Result<i32, RrError>) {
        match self.head(key, false) {
            Err(e) => Err(e),
            Ok(None) => Ok(-1),
            Ok(Some(quick)) => {
                let len: LenType = quick.len_list();
                if len > 0x7fff_ffff {
                    Err(RrError::data_error("the list counts more values than it can hold"))
                } else {
                    Ok(len as i32)
                }
            },
        }
    }

    fn lpop(&mut self, key: &[u8]) -> (r: Result<Option<Vec<u8>>, RrError>) {
        let ghost m = self.db@;
        let ghost c = list_chain_or_empty(m, key@);
        match self.head(key, false) {
            Err(e) => Err(e),
            Ok(None) => {
                proof {
                    lemma_same_outside_self(m, list_keys(m, key@));
                    lemma_frame(m, m, key@, true);
                }
                Ok(None)
            },
            Ok(Some(q)) => {
                let mut quick = q;
                proof {
                    if list_ok(m, key@) && c.parts.len() > 0 {
                        assert forall|i: int| 0 <= i < c.parts.len() implies (
                        #[trigger] c.parts[i]).len() > 0 by {
                            assert(link_ok(m, c, i));
                        }
                        lemma_pop_values(c.parts, true);
                    }
                }
                let r = quick.pop(&mut self.db, key, true, Ghost(c));
                proof {
                    reveal(keys_gone);
                    if list_ok(m, key@) && !(r is Err && !(r->Err_0 is Message)) {
                        if self.db@ == m {
                            lemma_same_outside_self(m, list_keys(m, key@));
                        }
                        lemma_frame(m, self.db@, key@, true);
                    }
                }
                r
            },
        }
    }

    fn lpush(&mut self, key: &[u8], value: &[u8]) -> (r: Result<i32, RrError>) {
        let ghost m = self.db@;
        let ghost c = list_chain_or_empty(m, key@);
        match self.head(key, true) {
            Err(e) => Err(e),
            Ok(None) => Err(RrError::none_error("key of list")),
            Ok(Some(q)) => {
                let mut quick = q;
                proof {
                    lemma_push_values(c.parts, value@, true);
                }
                let r = quick.lpush(&mut self.db, key, value, Ghost(c));
                proof {
                    if list_ok(m, key@) && !(r is Err && !(r->Err_0 is Message)) {
                        if r is Err {
                            lemma_same_outside_self(m, list_keys(m, key@));
                            lemma_frame(m, self.db@, key@, true);
                        } else {
                            lemma_frame(m, self.db@, key@, false);
                        }
                    }
                }
                r
            },
        }
    }

    fn lpush_exists(&mut self, key: &[u8], value: &[u8]) -> (r: Result<i32, RrError>) {
        let ghost m = self.db@;
        let ghost c = list_chain_or_empty(m, key@);
        match self.head(key, false) {
            Err(e) => Err(e),
            Ok(None) => {
                proof {
                    lemma_same_outside_self(m, list_keys(m, key@));
                    lemma_frame(m, m, key@, true);
                }
                Ok(0)
            },
            Ok(Some(q)) => {
                let mut quick = q;
                proof {
                    lemma_push_values(c.parts, value@, true);
                }
                let r = quick.lpush(&mut self.db, key, value, Ghost(c));
                proof {
                    if list_ok(m, key@) && !(r is Err && !(r->Err_0 is Message)) {
                        if r is Err {
                            lemma_same_outside_self(m, list_keys(m, key@));
                            lemma_frame(m, self.db@, key@, true);
                        } else {
                            lemma_frame(m, self.db@, key@, false);
                        }
                    }
                }
                r
            },
        }
    }

    fn lrange(&self, key: &[u8], start: i32, stop: i32) -> (r: Result<Vec<Vec<u8>>, RrError>) {
        let ghost c = list_chain_or_empty(self.db@, key@);
        match self.head(key, false) {
            Err(e) => Err(e),
            Ok(None) => {
                let result: Vec<Vec<u8>> = Vec::new();
                assert(crate::zip_list::views(result@) =~= Seq::<Seq<u8>>::empty());
                Ok(result)
            },
            Ok(Some(quick)) => quick.range(&self.db, start, stop, Ghost(key@), Ghost(c)),
        }
    }

    fn lrem(&mut self, key: &[u8], count: i32, value: &[u8]) -> (r: Result<LenType, RrError>) {
        let ghost m = self.db@;
        let ghost c = list_chain_or_empty(m, key@);
        proof {
            lemma_rem_parts(c.parts, value@, count as int);
        }
        match self.head(key, false) {
            Err(e) => Err(e),
            Ok(None) => {
                proof {
                    lemma_same_outside_self(m, list_keys(m, key@));
                    lemma_frame(m, m, key@, true);
                }
                Ok(0)
            },
            Ok(Some(q)) => {
                let mut quick = q;
                let r = quick.rem(&mut self.db, key, count, value, Ghost(c));
                proof {
                    reveal(keys_gone);
                    if list_ok(m, key@) && r is Ok {
                        lemma_frame(m, self.db@, key@, true);
                    }
                }
                r
            },
        }
    }

    fn lset(&mut self, key: &[u8], index: i32, value: &[u8]) -> (r: Result<Vec<u8>, RrError>) {
        let ghost m = self.db@;
        let ghost c = list_chain_or_empty(m, key@);
        match self.head(key, false) {
            Err(e) => Err(e),
            Ok(None) => {
                proof {
                    lemma_same_outside_self(m, list_keys(m, key@));
                    lemma_frame(m, m, key@, true);
                }
                Err(RrError::not_find("key of list"))
            },
            Ok(Some(t)) => {
                let r = t.set(&mut self.db, index, value, Ghost(key@), Ghost(c));
                proof {
                    if list_ok(m, key@) && r is Ok {
                        let j = node_index(c.parts, index as int);
                        let local = index - values_before(c.parts, j);
                        lemma_list_is(
                            self.db@,
                            key@,
                            Chain { parts: c.parts.update(j, c.parts[j].update(local, value@)), ..c },
                        );
                    }
                    if list_ok(m, key@) && !(r is Err && !(r->Err_0 is Message)) {
                        if r is Err {
                            lemma_same_outside_self(m, list_keys(m, key@));
                        }
                        lemma_frame(m, self.db@, key@, true);
                    }
                }
                r
            },
        }
    }

    fn rpop(&mut self, key: &[u8]) -> (r: Result<Option<Vec<u8>>, RrError>) {
        let ghost m = self.db@;
        let ghost c = list_chain_or_empty(m, key@);
        match self.head(key, false) {
            Err(e) => Err(e),
            Ok(None) => {
                proof {
                    lemma_same_outside_self(m, list_keys(m, key@));
                    lemma_frame(m, m, key@, true);
                }
                Ok(None)
            },
            Ok(Some(q)) => {
                let mut quick = q;
                proof {
                    if list_ok(m, key@) && c.parts.len() > 0 {
                        assert forall|i: int| 0 <= i < c.parts.len() implies (
                        #[trigger] c.parts[i]).len() > 0 by {
                            assert(link_ok(m, c, i));
                        }
                        lemma_pop_values(c.parts, false);
                    }
                }
                let r = quick.pop(&mut self.db, key, false, Ghost(c));
                proof {
                    reveal(keys_gone);
                    if list_ok(m, key@) && !(r is Err && !(r->Err_0 is Message)) {
                        if self.db@ == m {
                            lemma_same_outside_self(m, list_keys(m, key@));
                        }
                        lemma_frame(m, self.db@, key@, true);
                    }
                }
                r
            },
        }
    }

    fn rpush(&mut self, key: &[u8], value: &[u8]) -> (r: Result<i32, RrError>) {
        let ghost m = self.db@;
        let ghost c = list_chain_or_empty(m, key@);
        match self.head(key, true) {
            Err(e) => Err(e),
            Ok(None) => Err(RrError::none_error("key of list")),
            Ok(Some(q)) => {
                let mut quick = q;
                proof {
                    lemma_push_values(c.parts, value@, false);
                }
                let r = quick.rpush(&mut self.db, key, value, Ghost(c));
                proof {
                    if list_ok(m, key@) && !(r is Err && !(r->Err_0 is Message)) {
                        if r is Err {
                            lemma_same_outside_self(m, list_keys(m, key@));
                            lemma_frame(m, self.db@, key@, true);
                        } else {
                            lemma_frame(m, self.db@, key@, false);
                        }
                    }
                }
                r
            },
        }
    }

    fn rpush_exists(&mut self, key: &[u8], value: &[u8]) -> (r: Result<i32, RrError>) {
        let ghost m = self.db@;
        let ghost c = list_chain_or_empty(m, key@);
        match self.head(key, false) {
            Err(e) => Err(e),
            Ok(None) => {
                proof {
                    lemma_same_outside_self(m, list_keys(m, key@));
                    lemma_frame(m, m, key@, true);
                }
                Ok(0)
            },
            Ok(Some(q)) => {
                let mut quick = q;
                proof {
                    lemma_push_values(c.parts, value@, false);
                }
                let r = quick.rpush(&mut self.db, key, value, Ghost(c));
                proof {
                    if list_ok(m, key@) && !(r is Err && !(r->Err_0 is Message)) {
                        if r is Err {
                            lemma_same_outside_self(m, list_keys(m, key@));
                            lemma_frame(m, self.db@, key@, true);
                        } else {
                            lemma_frame(m, self.db@, key@, false);
                        }
                    }
                }
                r
            },
        }
    }

    fn clear(&mut self, key: &[u8]) -> (r: Result<i32, RrError>) {
        let ghost m = self.db@;
        let ghost c = list_chain_or_empty(m, key@);
        match self.head(key, false) {
            Err(e) => Err(e),
            Ok(None) => {
                proof {
                    lemma_same_outside_self(m, list_keys(m, key@));
                    lemma_frame(m, m, key@, true);
                }
                Ok(0)
            },
            Ok(Some(q)) => {
                let mut quick = q;
                let r = quick.clear(&mut self.db, key, Ghost(c));
                proof {
                    if list_ok(m, key@) && r is Ok {
                        lemma_cleared_gone(m, key@, c);
                        lemma_cleared_outside(m, key@, c);
                        lemma_frame(m, self.db@, key@, true);
                    }
                }
                r
            },
        }
    }
}

} // verus!
