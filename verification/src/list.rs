use crate::chain::{
    end_node_at, end_sound, first_index, has_value, head_at, later_counter, list_chain,
    list_chain_or_empty, list_head, list_ok, list_parts, list_range, list_values, list_wf,
    node_index, place_at, pop_parts, push_chain, push_head, push_parts, push_refused,
    record_has_room, values_before, values_sound,
};
use crate::frame::{list_keys, same_outside, store_cleared};
use crate::removal::rem_parts;
use crate::error::RrError;
use crate::types::LenType;
use crate::wrap_db::Store;
use crate::zip_list::{list_bytes, place_of, rem_values, views};
use vstd::prelude::*;

verus! {

/// The list commands. Each works on the list under one key.
///
/// What a command promises of its answer and of the list, it promises of
/// a store that holds no list under the key or a well-formed one
/// (`list_ok`); the list is then well formed afterwards too. Where the
/// store never fails, the command then answers with an error in the cases
/// that its contract names and in no other.
///
/// A command leaves what the store holds under keys that are not the
/// list's own, before or after the command, as it is, and no command but
/// `clear` takes the counter from which the list mints its keys back. A
/// node that loses its last value leaves the list, and its record and
/// its packed list leave the store.
///
/// Of any store, well formed or not, a command promises an error
/// where the value under the key has not the size of a head record, and
/// where the records that it has to read first are not what their place
/// in the list requires: the node at the end where the command starts,
/// named by the head and found in the store, and that node's packed list,
/// named by the node, well formed, and with the counts that the node's
/// record has. `lindex` and `lset` promise it of every record on their
/// way to the place (`place_at`). A command that finds another record
/// that is not what its place in the list requires answers with an error
/// as well.
pub trait RedisList {
    /// What the store holds.
    spec fn store(&self) -> Store;

    /// What the store needs of itself to work.
    spec fn wf(&self) -> bool;

    /// Whether no call on the store ever fails.
    spec fn reliable(&self) -> bool;

    /// The value at the place that `index` stands for: a negative index
    /// counts from the end, and an index beyond either end stands for the
    /// nearest place. An error where the store has no list under `key`,
    /// or an empty one.
    fn lindex(&self, key: &[u8], index: i32) -> (r: Result<Vec<u8>, RrError>)
        requires
            self.wf(),
        ensures
            r is Err && !(r->Err_0 is Message) ==> !self.reliable(),
            self.store().contains_key(key@) && self.store()[key@].len() != 40 ==> r
                is Err,
            list_ok(self.store(), key@) ==> match r {
                Ok(v) => {
                    let values = list_values(self.store(), key@);
                    values.len() > 0 && v@ == values[place_of(values.len() as int, index as int)]
                },
                Err(e) => e is Message ==> list_values(self.store(), key@).len() == 0,
            },
            self.reliable() && list_ok(self.store(), key@) && list_values(
                self.store(),
                key@,
            ).len() > 0 ==> r is Ok,
            r matches Ok(v) ==> head_at(self.store(), key@) is Some && ({
                let h = head_at(self.store(), key@).unwrap();
                &&& 1 <= h.len_list <= i32::MAX
                &&& place_at(self.store(), h, place_of(h.len_list as int, index as int)) == Some(v@)
            }),
            r is Err && r->Err_0 is Message ==> head_at(self.store(), key@) is None || ({
                let h = head_at(self.store(), key@).unwrap();
                ||| h.len_list == 0
                ||| h.len_list > i32::MAX
                ||| place_at(self.store(), h, place_of(h.len_list as int, index as int)) is None
            }),
    ;

    /// Puts `value` before the first value that is `pivot`. Returns the
    /// new count of values; -1, with nothing done, where no value is
    /// `pivot`, whatever the value; 0 where the store has no list under
    /// `key`.
    fn linsert_before(&mut self, key: &[u8], pivot: &[u8], value: &[u8]) -> (r: Result<
        i32,
        RrError,
    >)
        requires
            old(self).wf(),
        ensures
            final(self).wf(),
            final(self).reliable() == old(self).reliable(),
            r is Err && !(r->Err_0 is Message) ==> !old(self).reliable(),
            old(self).store().contains_key(key@) && old(self).store()[key@].len() != 40
                ==> r is Err,
            list_ok(old(self).store(), key@) && !(r is Err && !(r->Err_0 is Message))
                ==> same_outside(
                old(self).store(),
                final(self).store(),
                list_keys(old(self).store(), key@).union(list_keys(final(self).store(), key@)),
            ),
            list_ok(old(self).store(), key@) && r is Ok ==> later_counter(
                list_head(old(self).store(), key@).meta_key,
                list_head(final(self).store(), key@).meta_key,
            ),
            r is Err && r->Err_0 is Message ==> final(self).store() == old(self).store(),
            list_ok(old(self).store(), key@) ==> ({
                let m = old(self).store();
                let parts = list_parts(m, key@);
                let values = list_values(m, key@);
                let i = first_index(values, pivot@);
                let j = node_index(parts, i);
                let part = parts[j].insert(i - values_before(parts, j), value@);
                match r {
                    Ok(n) => if !m.contains_key(key@) {
                        n == 0 && final(self).store() == m
                    } else if !has_value(values, pivot@) {
                        n == -1 && final(self).store() == m
                    } else {
                        &&& n == values.len() + 1
                        &&& list_wf(final(self).store(), key@)
                        &&& list_parts(final(self).store(), key@) == parts.update(j, part)
                        &&& list_values(final(self).store(), key@) == values.insert(i, value@)
                    },
                    Err(e) => e is Message ==> has_value(values, pivot@) && {
                        ||| value@.len() > 0xFFFF
                        ||| values.len() >= i32::MAX
                        ||| list_bytes(part).len() > u32::MAX
                    },
                }
            }),
            old(self).reliable() && list_ok(old(self).store(), key@) && ({
                let parts = list_parts(old(self).store(), key@);
                let values = list_values(old(self).store(), key@);
                let i = first_index(values, pivot@);
                let j = node_index(parts, i);
                has_value(values, pivot@) ==> {
                    &&& value@.len() <= 0xFFFF
                    &&& values.len() < i32::MAX
                    &&& list_bytes(parts[j].insert(i - values_before(parts, j), value@)).len() <= u32::MAX
                }
            }) ==> r is Ok,
            r is Ok && head_at(old(self).store(), key@) is Some && head_at(
                old(self).store(),
                key@,
            ).unwrap().len_node != 0 ==> end_sound(
                old(self).store(),
                head_at(old(self).store(), key@).unwrap(),
                true,
            ),
    ;

    /// Puts `value` behind the first value that is `pivot`. Returns the
    /// new count of values; -1, with nothing done, where no value is
    /// `pivot`, whatever the value; 0 where the store has no list under
    /// `key`.
    fn linsert_after(&mut self, key: &[u8], pivot: &[u8], value: &[u8]) -> (r: Result<
        i32,
        RrError,
    >)
        requires
            old(self).wf(),
        ensures
            final(self).wf(),
            final(self).reliable() == old(self).reliable(),
            r is Err && !(r->Err_0 is Message) ==> !old(self).reliable(),
            old(self).store().contains_key(key@) && old(self).store()[key@].len() != 40
                ==> r is Err,
            list_ok(old(self).store(), key@) && !(r is Err && !(r->Err_0 is Message))
                ==> same_outside(
                old(self).store(),
                final(self).store(),
                list_keys(old(self).store(), key@).union(list_keys(final(self).store(), key@)),
            ),
            list_ok(old(self).store(), key@) && r is Ok ==> later_counter(
                list_head(old(self).store(), key@).meta_key,
                list_head(final(self).store(), key@).meta_key,
            ),
            r is Err && r->Err_0 is Message ==> final(self).store() == old(self).store(),
            list_ok(old(self).store(), key@) ==> ({
                let m = old(self).store();
                let parts = list_parts(m, key@);
                let values = list_values(m, key@);
                let i = first_index(values, pivot@);
                let j = node_index(parts, i);
                let part = parts[j].insert(i + 1 - values_before(parts, j), value@);
                match r {
                    Ok(n) => if !m.contains_key(key@) {
                        n == 0 && final(self).store() == m
                    } else if !has_value(values, pivot@) {
                        n == -1 && final(self).store() == m
                    } else {
                        &&& n == values.len() + 1
                        &&& list_wf(final(self).store(), key@)
                        &&& list_parts(final(self).store(), key@) == parts.update(j, part)
                        &&& list_values(final(self).store(), key@) == values.insert(i + 1, value@)
                    },
                    Err(e) => e is Message ==> has_value(values, pivot@) && {
                        ||| value@.len() > 0xFFFF
                        ||| values.len() >= i32::MAX
                        ||| list_bytes(part).len() > u32::MAX
                    },
                }
            }),
            old(self).reliable() && list_ok(old(self).store(), key@) && ({
                let parts = list_parts(old(self).store(), key@);
                let values = list_values(old(self).store(), key@);
                let i = first_index(values, pivot@);
                let j = node_index(parts, i);
                has_value(values, pivot@) ==> {
                    &&& value@.len() <= 0xFFFF
                    &&& values.len() < i32::MAX
                    &&& list_bytes(parts[j].insert(i + 1 - values_before(parts, j), value@)).len() <= u32::MAX
                }
            }) ==> r is Ok,
            r is Ok && head_at(old(self).store(), key@) is Some && head_at(
                old(self).store(),
                key@,
            ).unwrap().len_node != 0 ==> end_sound(
                old(self).store(),
                head_at(old(self).store(), key@).unwrap(),
                true,
            ),
    ;

    /// How many values the list under `key` has; -1 where the store has
    /// no list under `key`.
    fn llen(&self, key: &[u8]) -> (r: Result<i32, RrError>)
        requires
            self.wf(),
        ensures
            r is Err && !(r->Err_0 is Message) ==> !self.reliable(),
            self.store().contains_key(key@) && self.store()[key@].len() != 40 ==> r
                is Err,
            list_ok(self.store(), key@) ==> match r {
                Ok(n) => if self.store().contains_key(key@) {
                    n == list_values(self.store(), key@).len()
                } else {
                    n == -1
                },
                Err(e) => !(e is Message),
            },
            self.reliable() && list_ok(self.store(), key@) ==> r is Ok,
            r matches Ok(n) ==> if self.store().contains_key(key@) {
                head_at(self.store(), key@) is Some && n == head_at(
                    self.store(),
                    key@,
                ).unwrap().len_list
            } else {
                n == -1
            },
            head_at(self.store(), key@) is Some && head_at(self.store(), key@).unwrap().len_list
                > i32::MAX ==> r is Err,
    ;

    /// Takes the first value off the list and returns it; `None` where
    /// the store has no list under `key`, or an empty one.
    fn lpop(&mut self, key: &[u8]) -> (r: Result<Option<Vec<u8>>, RrError>)
        requires
            old(self).wf(),
        ensures
            final(self).wf(),
            final(self).reliable() == old(self).reliable(),
            r is Err && !(r->Err_0 is Message) ==> !old(self).reliable(),
            old(self).store().contains_key(key@) && old(self).store()[key@].len() != 40
                ==> r is Err,
            list_ok(old(self).store(), key@) && !(r is Err && !(r->Err_0 is Message))
                ==> same_outside(
                old(self).store(),
                final(self).store(),
                list_keys(old(self).store(), key@).union(list_keys(final(self).store(), key@)),
            ),
            list_ok(old(self).store(), key@) && r is Ok ==> later_counter(
                list_head(old(self).store(), key@).meta_key,
                list_head(final(self).store(), key@).meta_key,
            ),
            r is Err && r->Err_0 is Message ==> final(self).store() == old(self).store(),
            list_ok(old(self).store(), key@) ==> ({
                let m = old(self).store();
                let values = list_values(m, key@);
                match r {
                    Ok(Some(v)) => {
                        &&& values.len() > 0
                        &&& v@ == values[0]
                        &&& list_wf(final(self).store(), key@)
                        &&& list_parts(final(self).store(), key@) == pop_parts(
                            list_parts(m, key@),
                            true,
                        )
                        &&& list_values(final(self).store(), key@) == values.drop_first()
                    },
                    Ok(None) => values.len() == 0 && final(self).store() == m,
                    Err(e) => !(e is Message),
                }
            }),
            old(self).reliable() && list_ok(old(self).store(), key@) ==> r is Ok,
            list_ok(old(self).store(), key@) && r is Ok ==> forall|k: Seq<u8>|
                #![trigger final(self).store().contains_key(k)]
                list_keys(old(self).store(), key@).contains(k) && !list_keys(
                    final(self).store(),
                    key@,
                ).contains(k) ==> !final(self).store().contains_key(k),
            r matches Ok(None) && old(self).store().contains_key(key@) ==> head_at(
                old(self).store(),
                key@,
            ).unwrap().len_list == 0,
            r matches Ok(Some(_)) ==> head_at(old(self).store(), key@) is Some && ({
                let h = head_at(old(self).store(), key@).unwrap();
                h.len_list >= 1 && end_sound(old(self).store(), h, true)
            }),
    ;

    /// Puts `value` before all values of the list under `key`, which it
    /// starts where the store has none. Returns the new count of values.
    fn lpush(&mut self, key: &[u8], value: &[u8]) -> (r: Result<i32, RrError>)
        requires
            old(self).wf(),
        ensures
            final(self).wf(),
            final(self).reliable() == old(self).reliable(),
            r is Err && !(r->Err_0 is Message) ==> !old(self).reliable(),
            old(self).store().contains_key(key@) && old(self).store()[key@].len() != 40
                ==> r is Err,
            list_ok(old(self).store(), key@) && !(r is Err && !(r->Err_0 is Message))
                ==> same_outside(
                old(self).store(),
                final(self).store(),
                list_keys(old(self).store(), key@).union(list_keys(final(self).store(), key@)),
            ),
            list_ok(old(self).store(), key@) && r is Ok ==> later_counter(
                list_head(old(self).store(), key@).meta_key,
                list_head(final(self).store(), key@).meta_key,
            ),
            r is Err && r->Err_0 is Message ==> final(self).store() == old(self).store(),
            list_ok(old(self).store(), key@) ==> ({
                let m = old(self).store();
                let refused = push_refused(
                    list_head(m, key@),
                    list_parts(m, key@),
                    key@,
                    value@,
                    true,
                );
                match r {
                    Ok(n) => {
                        &&& !refused
                        &&& list_wf(final(self).store(), key@)
                        &&& list_parts(final(self).store(), key@) == push_parts(
                            list_parts(m, key@),
                            value@,
                            true,
                        )
                        &&& list_values(final(self).store(), key@) == seq![value@] + list_values(
                            m,
                            key@,
                        )
                        &&& n == list_values(m, key@).len() + 1
                        &&& head_at(final(self).store(), key@) == Some(
                            push_head(
                                list_head(m, key@),
                                list_chain_or_empty(m, key@),
                                value@,
                                true,
                            ),
                        )
                        &&& list_chain(final(self).store(), key@) == push_chain(
                            list_chain_or_empty(m, key@),
                            list_head(m, key@).meta_key,
                            value@,
                            true,
                        )
                    },
                    Err(e) => e is Message ==> refused,
                }
            }),
            old(self).reliable() && list_ok(old(self).store(), key@) && !push_refused(
                list_head(old(self).store(), key@),
                list_parts(old(self).store(), key@),
                key@,
                value@,
                true,
            ) ==> r is Ok,
            value@.len() > 0xFFFF ==> r is Err,
            r is Ok && head_at(old(self).store(), key@) is Some ==> ({
                let m = old(self).store();
                let h = head_at(m, key@).unwrap();
                &&& h.len_list < i32::MAX
                &&& h.len_node != 0 ==> end_node_at(m, h, true) is Some && (record_has_room(
                    end_node_at(m, h, true).unwrap(),
                    value@,
                ) ==> values_sound(m, end_node_at(m, h, true).unwrap()))
            }),
    ;

    /// Puts `value` before all values of the list under `key`. Returns
    /// the new count of values, or 0, with nothing done, where the store
    /// has no list under `key`.
    fn lpush_exists(&mut self, key: &[u8], value: &[u8]) -> (r: Result<i32, RrError>)
        requires
            old(self).wf(),
        ensures
            final(self).wf(),
            final(self).reliable() == old(self).reliable(),
            r is Err && !(r->Err_0 is Message) ==> !old(self).reliable(),
            old(self).store().contains_key(key@) && old(self).store()[key@].len() != 40
                ==> r is Err,
            list_ok(old(self).store(), key@) && !(r is Err && !(r->Err_0 is Message))
                ==> same_outside(
                old(self).store(),
                final(self).store(),
                list_keys(old(self).store(), key@).union(list_keys(final(self).store(), key@)),
            ),
            list_ok(old(self).store(), key@) && r is Ok ==> later_counter(
                list_head(old(self).store(), key@).meta_key,
                list_head(final(self).store(), key@).meta_key,
            ),
            r is Err && r->Err_0 is Message ==> final(self).store() == old(self).store(),
            list_ok(old(self).store(), key@) ==> ({
                let m = old(self).store();
                let refused = push_refused(
                    list_head(m, key@),
                    list_parts(m, key@),
                    key@,
                    value@,
                    true,
                );
                match r {
                    Ok(n) => if !m.contains_key(key@) {
                        n == 0 && final(self).store() == m
                    } else {
                        &&& !refused
                        &&& list_wf(final(self).store(), key@)
                        &&& list_parts(final(self).store(), key@) == push_parts(
                            list_parts(m, key@),
                            value@,
                            true,
                        )
                        &&& list_values(final(self).store(), key@) == seq![value@] + list_values(
                            m,
                            key@,
                        )
                        &&& n == list_values(m, key@).len() + 1
                        &&& head_at(final(self).store(), key@) == Some(
                            push_head(
                                list_head(m, key@),
                                list_chain_or_empty(m, key@),
                                value@,
                                true,
                            ),
                        )
                        &&& list_chain(final(self).store(), key@) == push_chain(
                            list_chain_or_empty(m, key@),
                            list_head(m, key@).meta_key,
                            value@,
                            true,
                        )
                    },
                    Err(e) => e is Message ==> m.contains_key(key@) && refused,
                }
            }),
            old(self).reliable() && list_ok(old(self).store(), key@) && !push_refused(
                list_head(old(self).store(), key@),
                list_parts(old(self).store(), key@),
                key@,
                value@,
                true,
            ) ==> r is Ok,
            old(self).store().contains_key(key@) && value@.len() > 0xFFFF ==> r is Err,
            r is Ok && head_at(old(self).store(), key@) is Some ==> ({
                let m = old(self).store();
                let h = head_at(m, key@).unwrap();
                &&& h.len_list < i32::MAX
                &&& h.len_node != 0 ==> end_node_at(m, h, true) is Some && (record_has_room(
                    end_node_at(m, h, true).unwrap(),
                    value@,
                ) ==> values_sound(m, end_node_at(m, h, true).unwrap()))
            }),
    ;

    /// The values between the places that `start` and `stop` stand for,
    /// both included; none where the store has no list under `key`.
    fn lrange(&self, key: &[u8], start: i32, stop: i32) -> (r: Result<Vec<Vec<u8>>, RrError>)
        requires
            self.wf(),
        ensures
            r is Err && !(r->Err_0 is Message) ==> !self.reliable(),
            self.store().contains_key(key@) && self.store()[key@].len() != 40 ==> r
                is Err,
            list_ok(self.store(), key@) ==> match r {
                Ok(v) => views(v@) == list_range(
                    list_values(self.store(), key@),
                    start as int,
                    stop as int,
                ),
                Err(e) => !(e is Message),
            },
            self.reliable() && list_ok(self.store(), key@) ==> r is Ok,
            head_at(self.store(), key@) is Some && head_at(self.store(), key@).unwrap().len_list
                > i32::MAX ==> r is Err,
            r is Ok && head_at(self.store(), key@) is Some ==> ({
                let m = self.store();
                let h = head_at(m, key@).unwrap();
                let first = place_of(h.len_list as int, start as int);
                1 <= h.len_list && first <= place_of(h.len_list as int, stop as int)
                    ==> end_node_at(m, h, true) is Some && (first < end_node_at(
                    m,
                    h,
                    true,
                ).unwrap().len_list ==> values_sound(m, end_node_at(m, h, true).unwrap()))
            }),
    ;

    /// Removes values that are `value`: for a positive `count` the first
    /// `count` of them, for a negative one the last `-count`, for 0 all.
    /// Returns how many it removed; 0 where the store has no list under
    /// `key`.
    fn lrem(&mut self, key: &[u8], count: i32, value: &[u8]) -> (r: Result<LenType, RrError>)
        requires
            old(self).wf(),
        ensures
            final(self).wf(),
            final(self).reliable() == old(self).reliable(),
            r is Err && !(r->Err_0 is Message) ==> !old(self).reliable(),
            old(self).store().contains_key(key@) && old(self).store()[key@].len() != 40
                ==> r is Err,
            list_ok(old(self).store(), key@) && !(r is Err && !(r->Err_0 is Message))
                ==> same_outside(
                old(self).store(),
                final(self).store(),
                list_keys(old(self).store(), key@).union(list_keys(final(self).store(), key@)),
            ),
            list_ok(old(self).store(), key@) && r is Ok ==> later_counter(
                list_head(old(self).store(), key@).meta_key,
                list_head(final(self).store(), key@).meta_key,
            ),
            list_ok(old(self).store(), key@) ==> ({
                let m = old(self).store();
                let values = list_values(m, key@);
                let left = rem_values(values, value@, count as int);
                match r {
                    Ok(removed) => {
                        &&& removed == values.len() - left.len()
                        &&& list_ok(final(self).store(), key@)
                        &&& list_values(final(self).store(), key@) == left
                        &&& list_parts(final(self).store(), key@) == rem_parts(
                            list_parts(m, key@),
                            value@,
                            count as int,
                        )
                        &&& removed == 0 ==> final(self).store() == m
                        &&& final(self).store().contains_key(key@) == m.contains_key(key@)
                    },
                    Err(e) => !(e is Message),
                }
            }),
            old(self).reliable() && list_ok(old(self).store(), key@) ==> r is Ok,
            list_ok(old(self).store(), key@) && r is Ok ==> forall|k: Seq<u8>|
                #![trigger final(self).store().contains_key(k)]
                list_keys(old(self).store(), key@).contains(k) && !list_keys(
                    final(self).store(),
                    key@,
                ).contains(k) ==> !final(self).store().contains_key(k),
            r is Ok && head_at(old(self).store(), key@) is Some && head_at(
                old(self).store(),
                key@,
            ).unwrap().len_node != 0 ==> end_sound(
                old(self).store(),
                head_at(old(self).store(), key@).unwrap(),
                count >= 0,
            ),
    ;

    /// Puts `value` in the place `index` and returns the value that was
    /// there. An error where the store has no list under `key` or the
    /// list has no place `index`.
    fn lset(&mut self, key: &[u8], index: i32, value: &[u8]) -> (r: Result<Vec<u8>, RrError>)
        requires
            old(self).wf(),
        ensures
            final(self).wf(),
            final(self).reliable() == old(self).reliable(),
            r is Err && !(r->Err_0 is Message) ==> !old(self).reliable(),
            old(self).store().contains_key(key@) && old(self).store()[key@].len() != 40
                ==> r is Err,
            list_ok(old(self).store(), key@) && !(r is Err && !(r->Err_0 is Message))
                ==> same_outside(
                old(self).store(),
                final(self).store(),
                list_keys(old(self).store(), key@).union(list_keys(final(self).store(), key@)),
            ),
            list_ok(old(self).store(), key@) && r is Ok ==> later_counter(
                list_head(old(self).store(), key@).meta_key,
                list_head(final(self).store(), key@).meta_key,
            ),
            r is Err && r->Err_0 is Message ==> final(self).store() == old(self).store(),
            list_ok(old(self).store(), key@) ==> ({
                let m = old(self).store();
                let parts = list_parts(m, key@);
                let values = list_values(m, key@);
                let j = node_index(parts, index as int);
                let part = parts[j].update(index - values_before(parts, j), value@);
                match r {
                    Ok(v) => {
                        &&& 0 <= index < values.len()
                        &&& v@ == values[index as int]
                        &&& list_wf(final(self).store(), key@)
                        &&& list_parts(final(self).store(), key@) == parts.update(j, part)
                        &&& list_values(final(self).store(), key@) == values.update(
                            index as int,
                            value@,
                        )
                    },
                    Err(e) => e is Message ==> {
                        ||| !(0 <= index < values.len())
                        ||| value@.len() > 0xFFFF
                        ||| list_bytes(part).len() > u32::MAX
                    },
                }
            }),
            old(self).reliable() && list_ok(old(self).store(), key@) && ({
                let parts = list_parts(old(self).store(), key@);
                let j = node_index(parts, index as int);
                &&& 0 <= index < list_values(old(self).store(), key@).len()
                &&& value@.len() <= 0xFFFF
                &&& list_bytes(parts[j].update(index - values_before(parts, j), value@)).len()
                    <= u32::MAX
            }) ==> r is Ok,
            r matches Ok(v) ==> head_at(old(self).store(), key@) is Some && ({
                let h = head_at(old(self).store(), key@).unwrap();
                &&& 0 <= index < h.len_list
                &&& value@.len() <= 0xFFFF
                &&& place_at(old(self).store(), h, index as int) == Some(v@)
            }),
    ;

    /// Takes the last value off the list and returns it; `None` where
    /// the store has no list under `key`, or an empty one.
    fn rpop(&mut self, key: &[u8]) -> (r: Result<Option<Vec<u8>>, RrError>)
        requires
            old(self).wf(),
        ensures
            final(self).wf(),
            final(self).reliable() == old(self).reliable(),
            r is Err && !(r->Err_0 is Message) ==> !old(self).reliable(),
            old(self).store().contains_key(key@) && old(self).store()[key@].len() != 40
                ==> r is Err,
            list_ok(old(self).store(), key@) && !(r is Err && !(r->Err_0 is Message))
                ==> same_outside(
                old(self).store(),
                final(self).store(),
                list_keys(old(self).store(), key@).union(list_keys(final(self).store(), key@)),
            ),
            list_ok(old(self).store(), key@) && r is Ok ==> later_counter(
                list_head(old(self).store(), key@).meta_key,
                list_head(final(self).store(), key@).meta_key,
            ),
            r is Err && r->Err_0 is Message ==> final(self).store() == old(self).store(),
            list_ok(old(self).store(), key@) ==> ({
                let m = old(self).store();
                let values = list_values(m, key@);
                match r {
                    Ok(Some(v)) => {
                        &&& values.len() > 0
                        &&& v@ == values.last()
                        &&& list_wf(final(self).store(), key@)
                        &&& list_parts(final(self).store(), key@) == pop_parts(
                            list_parts(m, key@),
                            false,
                        )
                        &&& list_values(final(self).store(), key@) == values.drop_last()
                    },
                    Ok(None) => values.len() == 0 && final(self).store() == m,
                    Err(e) => !(e is Message),
                }
            }),
            old(self).reliable() && list_ok(old(self).store(), key@) ==> r is Ok,
            list_ok(old(self).store(), key@) && r is Ok ==> forall|k: Seq<u8>|
                #![trigger final(self).store().contains_key(k)]
                list_keys(old(self).store(), key@).contains(k) && !list_keys(
                    final(self).store(),
                    key@,
                ).contains(k) ==> !final(self).store().contains_key(k),
            r matches Ok(None) && old(self).store().contains_key(key@) ==> head_at(
                old(self).store(),
                key@,
            ).unwrap().len_list == 0,
            r matches Ok(Some(_)) ==> head_at(old(self).store(), key@) is Some && ({
                let h = head_at(old(self).store(), key@).unwrap();
                h.len_list >= 1 && end_sound(old(self).store(), h, false)
            }),
    ;

    /// Puts `value` behind all values of the list under `key`, which it
    /// starts where the store has none. Returns the new count of values.
    fn rpush(&mut self, key: &[u8], value: &[u8]) -> (r: Result<i32, RrError>)
        requires
            old(self).wf(),
        ensures
            final(self).wf(),
            final(self).reliable() == old(self).reliable(),
            r is Err && !(r->Err_0 is Message) ==> !old(self).reliable(),
            old(self).store().contains_key(key@) && old(self).store()[key@].len() != 40
                ==> r is Err,
            list_ok(old(self).store(), key@) && !(r is Err && !(r->Err_0 is Message))
                ==> same_outside(
                old(self).store(),
                final(self).store(),
                list_keys(old(self).store(), key@).union(list_keys(final(self).store(), key@)),
            ),
            list_ok(old(self).store(), key@) && r is Ok ==> later_counter(
                list_head(old(self).store(), key@).meta_key,
                list_head(final(self).store(), key@).meta_key,
            ),
            r is Err && r->Err_0 is Message ==> final(self).store() == old(self).store(),
            list_ok(old(self).store(), key@) ==> ({
                let m = old(self).store();
                let refused = push_refused(
                    list_head(m, key@),
                    list_parts(m, key@),
                    key@,
                    value@,
                    false,
                );
                match r {
                    Ok(n) => {
                        &&& !refused
                        &&& list_wf(final(self).store(), key@)
                        &&& list_parts(final(self).store(), key@) == push_parts(
                            list_parts(m, key@),
                            value@,
                            false,
                        )
                        &&& list_values(final(self).store(), key@) == list_values(m, key@).push(
                            value@,
                        )
                        &&& n == list_values(m, key@).len() + 1
                        &&& head_at(final(self).store(), key@) == Some(
                            push_head(
                                list_head(m, key@),
                                list_chain_or_empty(m, key@),
                                value@,
                                false,
                            ),
                        )
                        &&& list_chain(final(self).store(), key@) == push_chain(
                            list_chain_or_empty(m, key@),
                            list_head(m, key@).meta_key,
                            value@,
                            false,
                        )
                    },
                    Err(e) => e is Message ==> refused,
                }
            }),
            old(self).reliable() && list_ok(old(self).store(), key@) && !push_refused(
                list_head(old(self).store(), key@),
                list_parts(old(self).store(), key@),
                key@,
                value@,
                false,
            ) ==> r is Ok,
            value@.len() > 0xFFFF ==> r is Err,
            r is Ok && head_at(old(self).store(), key@) is Some ==> ({
                let m = old(self).store();
                let h = head_at(m, key@).unwrap();
                &&& h.len_list < i32::MAX
                &&& h.len_node != 0 ==> end_node_at(m, h, false) is Some && (record_has_room(
                    end_node_at(m, h, false).unwrap(),
                    value@,
                ) ==> values_sound(m, end_node_at(m, h, false).unwrap()))
            }),
    ;

    /// Puts `value` behind all values of the list under `key`. Returns
    /// the new count of values, or 0, with nothing done, where the store
    /// has no list under `key`.
    fn rpush_exists(&mut self, key: &[u8], value: &[u8]) -> (r: Result<i32, RrError>)
        requires
            old(self).wf(),
        ensures
            final(self).wf(),
            final(self).reliable() == old(self).reliable(),
            r is Err && !(r->Err_0 is Message) ==> !old(self).reliable(),
            old(self).store().contains_key(key@) && old(self).store()[key@].len() != 40
                ==> r is Err,
            list_ok(old(self).store(), key@) && !(r is Err && !(r->Err_0 is Message))
                ==> same_outside(
                old(self).store(),
                final(self).store(),
                list_keys(old(self).store(), key@).union(list_keys(final(self).store(), key@)),
            ),
            list_ok(old(self).store(), key@) && r is Ok ==> later_counter(
                list_head(old(self).store(), key@).meta_key,
                list_head(final(self).store(), key@).meta_key,
            ),
            r is Err && r->Err_0 is Message ==> final(self).store() == old(self).store(),
            list_ok(old(self).store(), key@) ==> ({
                let m = old(self).store();
                let refused = push_refused(
                    list_head(m, key@),
                    list_parts(m, key@),
                    key@,
                    value@,
                    false,
                );
                match r {
                    Ok(n) => if !m.contains_key(key@) {
                        n == 0 && final(self).store() == m
                    } else {
                        &&& !refused
                        &&& list_wf(final(self).store(), key@)
                        &&& list_parts(final(self).store(), key@) == push_parts(
                            list_parts(m, key@),
                            value@,
                            false,
                        )
                        &&& list_values(final(self).store(), key@) == list_values(m, key@).push(
                            value@,
                        )
                        &&& n == list_values(m, key@).len() + 1
                        &&& head_at(final(self).store(), key@) == Some(
                            push_head(
                                list_head(m, key@),
                                list_chain_or_empty(m, key@),
                                value@,
                                false,
                            ),
                        )
                        &&& list_chain(final(self).store(), key@) == push_chain(
                            list_chain_or_empty(m, key@),
                            list_head(m, key@).meta_key,
                            value@,
                            false,
                        )
                    },
                    Err(e) => e is Message ==> m.contains_key(key@) && refused,
                }
            }),
            old(self).reliable() && list_ok(old(self).store(), key@) && !push_refused(
                list_head(old(self).store(), key@),
                list_parts(old(self).store(), key@),
                key@,
                value@,
                false,
            ) ==> r is Ok,
            old(self).store().contains_key(key@) && value@.len() > 0xFFFF ==> r is Err,
            r is Ok && head_at(old(self).store(), key@) is Some ==> ({
                let m = old(self).store();
                let h = head_at(m, key@).unwrap();
                &&& h.len_list < i32::MAX
                &&& h.len_node != 0 ==> end_node_at(m, h, false) is Some && (record_has_room(
                    end_node_at(m, h, false).unwrap(),
                    value@,
                ) ==> values_sound(m, end_node_at(m, h, false).unwrap()))
            }),
    ;

    /// Deletes the list under `key` with all its records. Returns how
    /// many nodes it had; 0 where the store has no list under `key`.
    fn clear(&mut self, key: &[u8]) -> (r: Result<i32, RrError>)
        requires
            old(self).wf(),
        ensures
            final(self).wf(),
            final(self).reliable() == old(self).reliable(),
            r is Err && !(r->Err_0 is Message) ==> !old(self).reliable(),
            old(self).store().contains_key(key@) && old(self).store()[key@].len() != 40
                ==> r is Err,
            list_ok(old(self).store(), key@) && !(r is Err && !(r->Err_0 is Message))
                ==> same_outside(
                old(self).store(),
                final(self).store(),
                list_keys(old(self).store(), key@).union(list_keys(final(self).store(), key@)),
            ),
            list_ok(old(self).store(), key@) ==> ({
                let m = old(self).store();
                match r {
                    Ok(n) => if !m.contains_key(key@) {
                        n == 0 && final(self).store() == m
                    } else {
                        &&& n == list_parts(m, key@).len()
                        &&& final(self).store() == store_cleared(m, key@, list_chain(m, key@))
                        &&& !final(self).store().contains_key(key@)
                    },
                    Err(e) => !(e is Message),
                }
            }),
            old(self).reliable() && list_ok(old(self).store(), key@) ==> r is Ok,
            list_ok(old(self).store(), key@) && r is Ok ==> forall|k: Seq<u8>|
                #![trigger final(self).store().contains_key(k)]
                list_keys(old(self).store(), key@).contains(k) && !list_keys(
                    final(self).store(),
                    key@,
                ).contains(k) ==> !final(self).store().contains_key(k),
            r is Ok && head_at(old(self).store(), key@) is Some && head_at(
                old(self).store(),
                key@,
            ).unwrap().len_node != 0 ==> end_node_at(
                old(self).store(),
                head_at(old(self).store(), key@).unwrap(),
                false,
            ) is Some,
    ;
}

} // verus!
